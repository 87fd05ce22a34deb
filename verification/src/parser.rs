//! The wire parser: from the bytes of one read to a request.
//!
//! `parse_spec` says what a text means as a request. `parse_text` computes it,
//! and `parse` does the same for raw bytes after decoding them leniently.

use crate::error::HttpError;
use crate::request::{headers_view, Request, RequestView};
use crate::text::{
    chars_of, find, find_in, lemma_split_step, slices, split, split_in, split_once, within,
};
use vstd::hash_map::StringHashMap;
use vstd::prelude::*;
use vstd::string::*;
use vstd::utf8::{decode_utf8, valid_utf8};

verus! {

/// The largest number of bytes that one read from a connection should take.
pub const READ_LIMIT: usize = 4096;

/// The blank line that ends the header block: CR LF CR LF.
pub open spec fn blank_line() -> Seq<char> {
    seq!['\r', '\n', '\r', '\n']
}

/// The end of a line: CR LF.
pub open spec fn line_break() -> Seq<char> {
    seq!['\r', '\n']
}

/// The separator of the tokens of the request line: one space.
pub open spec fn space() -> Seq<char> {
    seq![' ']
}

/// The separator of a header's name and value: one colon.
pub open spec fn colon() -> Seq<char> {
    seq![':']
}

/// Method and path of a request line: the first two of its tokens, where
/// tokens are separated by single spaces and there are at least three. The
/// third token, the protocol version, and any further ones are not examined.
pub open spec fn request_line(line: Seq<char>) -> Option<(Seq<char>, Seq<char>)> {
    let tokens = split(line, space());
    if tokens.len() >= 3 {
        Some((tokens[0], tokens[1]))
    } else {
        None
    }
}

/// The header table that a sequence of header lines builds up, or `None` if
/// one of them has no colon. Each line is cut at its first colon into name
/// and value, neither of them trimmed; a later line replaces the value that
/// an earlier line gave to the same name.
pub open spec fn header_fields(lines: Seq<Seq<char>>) -> Option<Map<Seq<char>, Seq<char>>>
    decreases lines.len(),
{
    if lines.len() == 0 {
        Some(Map::empty())
    } else {
        match (header_fields(lines.drop_last()), split_once(lines.last(), colon())) {
            (Some(fields), Some((name, value))) => Some(fields.insert(name, value)),
            _ => None,
        }
    }
}

/// What a text means as a request.
///
/// The text is cut at the first blank line into head and body. The head is
/// cut into lines; the first is the request line and the others are header
/// lines. The failures are tested in this order: no blank line, an empty
/// request line, a request line of fewer than three tokens, a header line
/// without a colon.
pub open spec fn parse_spec(text: Seq<char>) -> Result<RequestView, HttpError> {
    match split_once(text, blank_line()) {
        None => Err(HttpError::NoBody),
        Some((head, body)) => {
            let lines = split(head, line_break());
            if lines[0].len() == 0 {
                Err(HttpError::NoProtocol)
            } else {
                match request_line(lines[0]) {
                    None => Err(HttpError::InvalidProtocol),
                    Some((method, path)) => match header_fields(lines.drop_first()) {
                        None => Err(HttpError::InvalidHeader),
                        Some(headers) => Ok(RequestView { method, path, headers, body }),
                    },
                }
            }
        },
    }
}

/// What a parser's result says, with the request replaced by its view.
pub open spec fn outcome(parsed: Result<Request, HttpError>) -> Result<RequestView, HttpError> {
    match parsed {
        Ok(request) => Ok(request@),
        Err(e) => Err(e),
    }
}

/// Once a line without a colon has been met, the lines after it cannot mend
/// the table.
pub proof fn lemma_header_fields_prefix(lines: Seq<Seq<char>>, k: int)
    requires
        0 <= k <= lines.len(),
        header_fields(lines.take(k)) is None,
    ensures
        header_fields(lines) is None,
    decreases lines.len(),
{
    if k == lines.len() {
        assert(lines.take(k) =~= lines);
    } else {
        assert(lines.drop_last().take(k) =~= lines.take(k));
        lemma_header_fields_prefix(lines.drop_last(), k);
    }
}

/// A header table cannot be built exactly when some line has no colon.
pub proof fn lemma_header_fields_fail(lines: Seq<Seq<char>>)
    ensures
        header_fields(lines) is None <==> exists|k: int|
            0 <= k < lines.len() && find(#[trigger] lines[k], colon()) is None,
    decreases lines.len(),
{
    if lines.len() > 0 {
        let init = lines.drop_last();
        lemma_header_fields_fail(init);
        if header_fields(lines) is None {
            if header_fields(init) is None {
                let k = choose|k: int|
                    0 <= k < init.len() && find(#[trigger] init[k], colon()) is None;
                assert(lines[k] == init[k]);
            } else {
                assert(find(lines[lines.len() - 1], colon()) is None);
            }
        } else {
            assert forall|k: int| 0 <= k < lines.len() implies find(
                #[trigger] lines[k],
                colon(),
            ) is Some by {
                if k < init.len() {
                    assert(init[k] == lines[k]);
                }
            }
        }
    }
}

/// The lines before the first blank line of a text that has one.
pub open spec fn head_lines(text: Seq<char>) -> Seq<Seq<char>> {
    match split_once(text, blank_line()) {
        Some((head, _)) => split(head, line_break()),
        None => Seq::empty(),
    }
}

/// Each parse failure names its defect: a text without a blank line fails as
/// `NoBody`; one whose request line is empty, as `NoProtocol`; one whose
/// request line has fewer than three tokens, as `InvalidProtocol`; one with a
/// header line without a colon, as `InvalidHeader`. Where several defects
/// are present the earliest in this list is reported, a text with none of
/// them parses, and no text fails with an I/O error.
pub proof fn failures_name_the_defect(text: Seq<char>)
    ensures
        (parse_spec(text) matches Err(HttpError::NoBody)) <==> find(text, blank_line()) is None,
        (parse_spec(text) matches Err(HttpError::NoProtocol)) <==> {
            &&& find(text, blank_line()) is Some
            &&& head_lines(text)[0].len() == 0
        },
        (parse_spec(text) matches Err(HttpError::InvalidProtocol)) <==> {
            &&& find(text, blank_line()) is Some
            &&& head_lines(text)[0].len() > 0
            &&& split(head_lines(text)[0], space()).len() < 3
        },
        (parse_spec(text) matches Err(HttpError::InvalidHeader)) <==> {
            &&& find(text, blank_line()) is Some
            &&& head_lines(text)[0].len() > 0
            &&& split(head_lines(text)[0], space()).len() >= 3
            &&& exists|k: int|
                1 <= k < head_lines(text).len() && find(
                    #[trigger] head_lines(text)[k],
                    colon(),
                ) is None
        },
        !(parse_spec(text) matches Err(HttpError::IOError(_))),
{
    if find(text, blank_line()) is Some {
        let lines = head_lines(text);
        let rest = lines.drop_first();
        lemma_split_step(split_once(text, blank_line())->Some_0.0, line_break());
        lemma_header_fields_fail(rest);
        if header_fields(rest) is None {
            let k = choose|k: int| 0 <= k < rest.len() && find(#[trigger] rest[k], colon()) is None;
            assert(lines[k + 1] == rest[k]);
        } else {
            assert forall|k: int| 1 <= k < lines.len() implies find(
                #[trigger] lines[k],
                colon(),
            ) is Some by {
                assert(rest[k - 1] == lines[k]);
            }
        }
    }
}

/// Inserting a header and then viewing the table is viewing it and then
/// inserting the header's characters.
pub proof fn lemma_headers_view_insert(
    headers: Map<Seq<char>, String>,
    name: Seq<char>,
    value: String,
)
    ensures
        headers_view(headers.insert(name, value)) == headers_view(headers).insert(name, value@),
{
    assert(headers_view(headers.insert(name, value)) =~= headers_view(headers).insert(
        name,
        value@,
    ));
}

/// The piece `from..to` of `text` as a string of its own.
fn piece(text: &str, from: usize, to: usize) -> (s: String)
    requires
        from <= to <= text@.len(),
    ensures
        s@ == text@.subrange(from as int, to as int),
{
    text.substring_char(from, to).to_owned()
}

/// The header table of the lines after the first.
fn read_headers(text: &str, chars: &Vec<char>, lines: &Vec<(usize, usize)>) -> (table: Option<
    StringHashMap<String>,
>)
    requires
        chars@ == text@,
        lines.len() >= 1,
        within(lines@, 0, chars.len() as int),
    ensures
        match table {
            Some(t) => header_fields(slices(chars@, lines@).drop_first()) == Some(
                headers_view(t@),
            ),
            None => header_fields(slices(chars@, lines@).drop_first()) is None,
        },
{
    let col: Vec<char> = vec![':'];
    let ghost header_lines = slices(chars@, lines@).drop_first();
    let mut headers: StringHashMap<String> = StringHashMap::new();
    proof {
        assert(col@ =~= colon());
        assert(header_lines.take(0) =~= Seq::<Seq<char>>::empty());
        assert(headers_view(headers@) =~= Map::<Seq<char>, Seq<char>>::empty());
    }
    let mut k: usize = 1;
    while k < lines.len()
        invariant
            1 <= k <= lines.len(),
            chars@ == text@,
            col@ == colon(),
            within(lines@, 0, chars.len() as int),
            header_lines == slices(chars@, lines@).drop_first(),
            header_fields(header_lines.take(k - 1)) == Some(headers_view(headers@)),
        decreases lines.len() - k,
    {
        let (from, to) = lines[k];
        let ghost line = chars@.subrange(from as int, to as int);
        proof {
            assert(header_lines[k - 1] == line);
            assert(header_lines.take(k as int).drop_last() =~= header_lines.take(k - 1));
            assert(header_lines.take(k as int).last() == line);
        }
        match find_in(chars, from, to, &col) {
            None => {
                proof {
                    lemma_header_fields_prefix(header_lines, k as int);
                }
                return None;
            },
            Some(c) => {
                let name = piece(text, from, c);
                let value = piece(text, c + 1, to);
                proof {
                    assert(line.subrange(0, c - from) =~= name@);
                    assert(line.subrange(c - from + 1, line.len() as int) =~= value@);
                    lemma_headers_view_insert(headers@, name@, value);
                }
                headers.insert(name, value);
            },
        }
        k += 1;
    }
    proof {
        assert(header_lines.take(k - 1) =~= header_lines);
    }
    Some(headers)
}

/// Parses the text of a request.
pub fn parse_text(text: &str) -> (parsed: Result<Request, HttpError>)
    ensures
        outcome(parsed) == parse_spec(text@),
{
    let chars = chars_of(text);
    let n = chars.len();
    let blank: Vec<char> = vec!['\r', '\n', '\r', '\n'];
    let brk: Vec<char> = vec!['\r', '\n'];
    let sp: Vec<char> = vec![' '];
    proof {
        assert(blank@ =~= blank_line());
        assert(brk@ =~= line_break());
        assert(sp@ =~= space());
        assert(chars@.subrange(0, n as int) =~= chars@);
    }
    let end = match find_in(&chars, 0, n, &blank) {
        None => {
            return Err(HttpError::NoBody);
        },
        Some(i) => i,
    };
    let ghost head = chars@.subrange(0, end as int);
    let lines = split_in(&chars, 0, end, &brk);
    proof {
        lemma_split_step(head, line_break());
        assert(slices(chars@, lines@).len() == lines@.len());
    }
    let (a, b) = lines[0];
    proof {
        assert(slices(chars@, lines@)[0] == chars@.subrange(a as int, b as int));
    }
    if a == b {
        return Err(HttpError::NoProtocol);
    }
    let tokens = split_in(&chars, a, b, &sp);
    proof {
        assert(slices(chars@, tokens@).len() == tokens@.len());
    }
    if tokens.len() < 3 {
        return Err(HttpError::InvalidProtocol);
    }
    let (method_from, method_to) = tokens[0];
    let (path_from, path_to) = tokens[1];
    proof {
        assert(slices(chars@, tokens@)[0] == chars@.subrange(method_from as int, method_to as int));
        assert(slices(chars@, tokens@)[1] == chars@.subrange(path_from as int, path_to as int));
    }
    let headers = match read_headers(text, &chars, &lines) {
        None => {
            return Err(HttpError::InvalidHeader);
        },
        Some(t) => t,
    };
    proof {
        assert(chars@.subrange(end + 4, n as int) =~= text@.subrange(
            end + blank_line().len(),
            text@.len() as int,
        ));
    }
    Ok(
        Request {
            method: piece(text, method_from, method_to),
            path: piece(text, path_from, path_to),
            headers,
            body: piece(text, end + 4, n),
        },
    )
}

/// The text that a lenient UTF-8 decoder makes of `bytes`: every well-formed
/// sequence gives its character, and every ill-formed stretch gives U+FFFD
/// replacement characters.
pub uninterp spec fn lossy_text(bytes: Seq<u8>) -> Seq<char>;

/// Decodes with `String::from_utf8_lossy`, which never fails. Its result is
/// taken on trust to depend on the bytes alone, and to be the plain decoding
/// where the bytes are well-formed UTF-8.
#[verifier::external_body]
fn decode_lossy(bytes: &[u8]) -> (text: String)
    ensures
        text@ == lossy_text(bytes@),
        valid_utf8(bytes@) ==> text@ == decode_utf8(bytes@),
{
    String::from_utf8_lossy(bytes).into_owned()
}

/// Parses the bytes of one read from a connection.
///
/// The bytes are decoded leniently, so no byte sequence is refused for its
/// encoding, and the text is parsed as `parse_text` does.
pub fn parse(bytes: &[u8]) -> (parsed: Result<Request, HttpError>)
    ensures
        outcome(parsed) == parse_spec(lossy_text(bytes@)),
        valid_utf8(bytes@) ==> outcome(parsed) == parse_spec(decode_utf8(bytes@)),
{
    let text = decode_lossy(bytes);
    parse_text(text.as_str())
}

/// Parses what one read from a connection returned: the bytes that were
/// read, or the read's error, which is passed on.
pub fn receive(read: Result<&[u8], std::io::Error>) -> (parsed: Result<Request, HttpError>)
    ensures
        match read {
            Ok(bytes) => outcome(parsed) == parse_spec(lossy_text(bytes@)) && (valid_utf8(bytes@)
                ==> outcome(parsed) == parse_spec(decode_utf8(bytes@))),
            Err(e) => outcome(parsed) == Err::<RequestView, HttpError>(HttpError::IOError(e)),
        },
{
    match read {
        Ok(bytes) => parse(bytes),
        Err(e) => Err(HttpError::IOError(e)),
    }
}

} // verus!
