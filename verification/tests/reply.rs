use qrport::error::HttpError;
use qrport::parser::parse;
use qrport::reply::Reply;
use qrport::request::{resolve_path, Request, NOT_FOUND_HEAD, OK_HEAD};
use std::io::{Error, ErrorKind};

fn request() -> Request {
    match parse(b"GET /x HTTP/1.1\r\n\r\n") {
        Ok(request) => request,
        Err(e) => panic!("expected a request, got {:?}", e),
    }
}

/// Writes a reply out in full, as a connection that takes every chunk whole.
fn wire(mut reply: Reply) -> Vec<u8> {
    let mut out: Vec<u8> = Vec::new();
    loop {
        let taken = match reply.next_chunk() {
            Some(chunk) => {
                out.extend_from_slice(chunk);
                chunk.len()
            }
            None => return out,
        };
        assert!(reply.written(Ok(taken)).is_ok());
    }
}

#[test]
fn the_heads_are_the_literal_bytes() {
    assert_eq!(
        OK_HEAD.as_bytes(),
        b"HTTP/1.1 200 OK\r\nContent-Type: application/octet-stream\r\n\r\n"
    );
    assert_eq!(NOT_FOUND_HEAD.as_bytes(), b"HTTP/1.1 404 Not Found\r\n\r");
}

#[test]
fn send_bytes_writes_the_head_and_then_the_payload() {
    let payload = vec![0u8, 1, 2, 255, b'\r', b'\n', 0];
    let out = wire(request().send_bytes(&payload));
    let mut expected =
        b"HTTP/1.1 200 OK\r\nContent-Type: application/octet-stream\r\n\r\n".to_vec();
    expected.extend_from_slice(&payload);
    assert_eq!(out, expected);
}

#[test]
fn send_bytes_with_nothing_to_send_writes_the_head_alone() {
    let out = wire(request().send_bytes(&Vec::new()));
    assert_eq!(out, b"HTTP/1.1 200 OK\r\nContent-Type: application/octet-stream\r\n\r\n".to_vec());
}

#[test]
fn send_bytes_takes_two_writes() {
    let payload = b"HELLO".to_vec();
    let mut reply = request().send_bytes(&payload);
    assert!(!reply.is_done());
    let first = reply.next_chunk().cloned();
    assert_eq!(first, Some(OK_HEAD.as_bytes().to_vec()));
    assert!(reply.written(Ok(OK_HEAD.len())).is_ok());
    assert!(!reply.is_done());
    assert_eq!(reply.next_chunk().cloned(), Some(payload.clone()));
    assert!(reply.written(Ok(payload.len())).is_ok());
    assert!(reply.is_done());
    assert_eq!(reply.next_chunk(), None);
}

#[test]
fn not_found_runs_the_message_on_from_the_status_line() {
    let out = wire(request().not_found("no such file"));
    assert_eq!(out, b"HTTP/1.1 404 Not Found\r\n\rno such file".to_vec());
    let out = wire(request().not_found(""));
    assert_eq!(out, b"HTTP/1.1 404 Not Found\r\n\r".to_vec());
    let out = wire(request().not_found("\u{e9}"));
    assert_eq!(out, b"HTTP/1.1 404 Not Found\r\n\r\xc3\xa9".to_vec());
}

#[test]
fn a_short_write_is_an_io_error_and_is_not_tried_again() {
    let payload = b"HELLO".to_vec();
    let mut reply = request().send_bytes(&payload);
    match reply.written(Ok(OK_HEAD.len() - 1)) {
        Err(HttpError::IOError(e)) => assert_eq!(e.kind(), ErrorKind::WriteZero),
        other => panic!("expected an I/O error, got {:?}", other),
    }
    assert!(!reply.is_done());
    assert_eq!(reply.next_chunk().cloned(), Some(OK_HEAD.as_bytes().to_vec()));
    assert!(reply.written(Ok(OK_HEAD.len())).is_ok());
    match reply.written(Ok(0)) {
        Err(HttpError::IOError(e)) => assert_eq!(e.kind(), ErrorKind::WriteZero),
        other => panic!("expected an I/O error, got {:?}", other),
    }
    match reply.written(Ok(payload.len() + 1)) {
        Err(HttpError::IOError(e)) => assert_eq!(e.kind(), ErrorKind::WriteZero),
        other => panic!("expected an I/O error, got {:?}", other),
    }
    assert_eq!(reply.next_chunk().cloned(), Some(payload));
}

#[test]
fn a_failed_write_gives_its_error() {
    let mut reply = request().send_bytes(&b"HELLO".to_vec());
    match reply.written(Err(Error::from(ErrorKind::BrokenPipe))) {
        Err(HttpError::IOError(e)) => assert_eq!(e.kind(), ErrorKind::BrokenPipe),
        other => panic!("expected an I/O error, got {:?}", other),
    }
    assert!(!reply.is_done());
    assert_eq!(reply.next_chunk().cloned(), Some(OK_HEAD.as_bytes().to_vec()));
}

#[test]
fn a_finished_reply_stays_finished() {
    let mut reply = request().not_found("gone");
    assert!(reply.written(Ok(NOT_FOUND_HEAD.len())).is_ok());
    assert!(reply.written(Ok(4)).is_ok());
    assert!(reply.is_done());
    assert!(reply.written(Ok(0)).is_ok());
    assert!(reply.is_done());
    assert!(matches!(reply.written(Ok(1)), Err(HttpError::IOError(_))));
    match reply.written(Err(Error::from(ErrorKind::TimedOut))) {
        Err(HttpError::IOError(e)) => assert_eq!(e.kind(), ErrorKind::TimedOut),
        other => panic!("expected an I/O error, got {:?}", other),
    }
    assert!(reply.is_done());
}

#[test]
fn send_file_answers_as_send_bytes_does() {
    let contents = b"file contents\n".to_vec();
    let from_file = match request().send_file(Ok(contents.clone())) {
        Ok(reply) => wire(reply),
        Err(e) => panic!("expected a reply, got {:?}", e),
    };
    let from_bytes = wire(request().send_bytes(&contents));
    assert_eq!(from_file, from_bytes);
    assert_eq!(
        from_file,
        b"HTTP/1.1 200 OK\r\nContent-Type: application/octet-stream\r\n\r\nfile contents\n".to_vec()
    );
}

#[test]
fn send_file_reports_a_failed_read() {
    match request().send_file(Err(Error::from(ErrorKind::NotFound))) {
        Err(HttpError::IOError(e)) => assert_eq!(e.kind(), ErrorKind::NotFound),
        Err(other) => panic!("expected an I/O error, got {:?}", other),
        Ok(_) => panic!("expected an I/O error, got a reply"),
    }
}

#[test]
fn addr_passes_the_address_on() {
    let peer = ([127u8, 0, 0, 1], 4000u16);
    match request().addr(Ok(peer)) {
        Ok(a) => assert_eq!(a, peer),
        Err(e) => panic!("expected an address, got {:?}", e),
    }
    match request().addr::<([u8; 4], u16)>(Err(Error::from(ErrorKind::NotConnected))) {
        Err(HttpError::IOError(e)) => assert_eq!(e.kind(), ErrorKind::NotConnected),
        other => panic!("expected an I/O error, got {:?}", other),
    }
}

#[test]
fn a_leading_tilde_is_the_home_directory() {
    assert_eq!(resolve_path("~/notes.txt", Some("/home/ann")), Some("/home/ann/notes.txt".to_string()));
    assert_eq!(resolve_path("~", Some("/home/ann")), Some("/home/ann".to_string()));
    assert_eq!(resolve_path("~bob/x", Some("/home/ann")), Some("/home/annbob/x".to_string()));
    assert_eq!(resolve_path("~/\u{e9}", Some("/h\u{f6}me")), Some("/h\u{f6}me/\u{e9}".to_string()));
    assert_eq!(resolve_path("~/x", Some("")), Some("/x".to_string()));
}

#[test]
fn a_path_without_a_leading_tilde_is_itself() {
    assert_eq!(resolve_path("/etc/hosts", Some("/home/ann")), Some("/etc/hosts".to_string()));
    assert_eq!(resolve_path("a/~/b", Some("/home/ann")), Some("a/~/b".to_string()));
    assert_eq!(resolve_path("", Some("/home/ann")), Some("".to_string()));
    assert_eq!(resolve_path("notes.txt", None), Some("notes.txt".to_string()));
}

#[test]
fn a_tilde_without_a_home_directory_is_nothing() {
    assert_eq!(resolve_path("~/notes.txt", None), None);
    assert_eq!(resolve_path("~", None), None);
}
