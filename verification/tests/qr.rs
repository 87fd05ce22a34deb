use qrport::qr::{qr_text, render, share_url};
use qrport::server::bind_address;
use qrport::text::{chars_of, decimal_string, find_in, matches_at, split_in};

const DARK: &str = "\u{2588}\u{2588}";
const LIGHT: &str = "  ";

#[test]
fn a_matrix_is_drawn_row_by_row() {
    let matrix = vec![vec![true, false, true], vec![false, false, true]];
    let expected = format!("{DARK}{LIGHT}{DARK}\n{LIGHT}{LIGHT}{DARK}\n");
    assert_eq!(render(&matrix), expected);
}

#[test]
fn an_empty_matrix_is_drawn_as_nothing() {
    assert_eq!(render(&Vec::new()), "");
    assert_eq!(render(&vec![Vec::new(), Vec::new()]), "\n\n");
    assert_eq!(render(&vec![vec![false]]), "  \n");
    assert_eq!(render(&vec![vec![true]]), format!("{DARK}\n"));
}

#[test]
fn rows_may_differ_in_length() {
    let matrix = vec![vec![true], vec![], vec![false, true]];
    assert_eq!(render(&matrix), format!("{DARK}\n\n{LIGHT}{DARK}\n"));
}

#[test]
fn a_short_message_gives_the_smallest_code() {
    let text = match qr_text("http://10.0.0.2:8008/a") {
        Ok(text) => text,
        Err(_) => panic!("expected a code"),
    };
    let lines: Vec<&str> = text.lines().collect();
    assert_eq!(lines.len(), 25);
    assert!(text.ends_with('\n'));
    for line in &lines {
        assert_eq!(line.chars().count(), 50);
    }
    let finder_top = format!("{}{}", DARK.repeat(7), LIGHT);
    assert!(lines[0].starts_with(&finder_top));
    let finder_second = format!("{DARK}{}{DARK}{LIGHT}", LIGHT.repeat(5));
    assert!(lines[1].starts_with(&finder_second));
}

#[test]
fn the_code_is_the_encoders_matrix_drawn() {
    let message = "HELLO WORLD";
    let matrix = qrcode_generator::to_matrix(message, qrcode_generator::QrCodeEcc::Low).unwrap();
    assert_eq!(matrix.len(), 21);
    let text = match qr_text(message) {
        Ok(text) => text,
        Err(_) => panic!("expected a code"),
    };
    assert_eq!(text, render(&matrix));
    let other = match qr_text("HELLO WORLDS") {
        Ok(text) => text,
        Err(_) => panic!("expected a code"),
    };
    assert_ne!(text, other);
}

#[test]
fn a_message_too_long_for_any_code_is_refused() {
    let message = "x".repeat(3000);
    match qr_text(&message) {
        Ok(_) => panic!("expected a refusal"),
        Err(e) => assert!(matches!(e.cause, qrcode_generator::QRCodeError::DataTooLong)),
    }
}

#[test]
fn numbers_are_written_in_decimal() {
    assert_eq!(decimal_string(0), "0");
    assert_eq!(decimal_string(7), "7");
    assert_eq!(decimal_string(10), "10");
    assert_eq!(decimal_string(8008), "8008");
    assert_eq!(decimal_string(12345), "12345");
    assert_eq!(decimal_string(65535), "65535");
    for n in [0u16, 9, 99, 100, 101, 999, 1000, 4096, 60000] {
        assert_eq!(decimal_string(n), n.to_string());
    }
}

#[test]
fn the_server_listens_on_every_interface() {
    assert_eq!(bind_address(8008), "0.0.0.0:8008");
    assert_eq!(bind_address(0), "0.0.0.0:0");
    assert_eq!(bind_address(80), "0.0.0.0:80");
    assert_eq!(bind_address(65535), "0.0.0.0:65535");
}

#[test]
fn the_shared_address_names_host_port_and_file() {
    assert_eq!(share_url("192.168.1.5", 8008, "file.txt"), "http://192.168.1.5:8008/file.txt");
    assert_eq!(share_url("::1", 1, ""), "http://::1:1/");
    assert_eq!(share_url("", 65535, "a b"), "http://:65535/a b");
}

#[test]
fn characters_are_taken_one_by_one() {
    assert_eq!(chars_of(""), Vec::<char>::new());
    assert_eq!(chars_of("a\u{e9}\u{1f600}\r\n"), vec!['a', '\u{e9}', '\u{1f600}', '\r', '\n']);
}

#[test]
fn a_pattern_is_found_at_its_leftmost_place() {
    let text = chars_of("abcabcab");
    let bc = chars_of("bc");
    assert_eq!(find_in(&text, 0, 8, &bc), Some(1));
    assert_eq!(find_in(&text, 2, 8, &bc), Some(4));
    assert_eq!(find_in(&text, 5, 8, &bc), None);
    assert_eq!(find_in(&text, 1, 2, &bc), None);
    assert_eq!(find_in(&text, 1, 3, &bc), Some(1));
    assert_eq!(find_in(&text, 3, 3, &Vec::new()), Some(3));
    assert_eq!(find_in(&text, 0, 8, &chars_of("abcabcabc")), None);
    assert!(matches_at(&text, 6, &chars_of("ab")));
    assert!(!matches_at(&text, 5, &chars_of("ab")));
    let aaa = chars_of("aaaa");
    assert_eq!(find_in(&aaa, 0, 4, &chars_of("aa")), Some(0));
}

#[test]
fn a_text_is_split_at_each_separator() {
    let text = chars_of("a\r\nbb\r\n\r\nc");
    let brk = chars_of("\r\n");
    assert_eq!(split_in(&text, 0, text.len(), &brk), vec![(0, 1), (3, 5), (7, 7), (9, 10)]);
    assert_eq!(split_in(&text, 0, 0, &brk), vec![(0, 0)]);
    assert_eq!(split_in(&text, 0, 1, &brk), vec![(0, 1)]);
    assert_eq!(split_in(&text, 1, 3, &brk), vec![(1, 1), (3, 3)]);
    assert_eq!(split_in(&text, 0, text.len(), &Vec::new()), vec![(0, text.len())]);
    let aaa = chars_of("aaa");
    assert_eq!(split_in(&aaa, 0, 3, &chars_of("aa")), vec![(0, 0), (2, 3)]);
}
