//! A parsed request.

use crate::error::HttpError;
use crate::reply::{lemma_joined_two, Reply, ReplyView};
use vstd::hash_map::StringHashMap;
use vstd::prelude::*;
use vstd::slice::slice_to_vec;
use vstd::string::*;

verus! {

/// What a request says, as plain mathematical values.
pub struct RequestView {
    pub method: Seq<char>,
    pub path: Seq<char>,
    pub headers: Map<Seq<char>, Seq<char>>,
    pub body: Seq<char>,
}

/// A request as read from one connection.
///
/// `headers` maps each header name to the value of the last line that
/// carried the name. `body` is whatever followed the blank line in the bytes
/// that were read, whether or not the message was complete.
pub struct Request {
    pub method: String,
    pub path: String,
    pub headers: StringHashMap<String>,
    pub body: String,
}

/// A header table with each value replaced by its characters.
pub open spec fn headers_view(headers: Map<Seq<char>, String>) -> Map<Seq<char>, Seq<char>> {
    Map::new(|name: Seq<char>| headers.contains_key(name), |name: Seq<char>| headers[name]@)
}

impl View for Request {
    type V = RequestView;

    open spec fn view(&self) -> RequestView {
        RequestView {
            method: self.method@,
            path: self.path@,
            headers: headers_view(self.headers@),
            body: self.body@,
        }
    }
}

/// What opens a successful response: the status line, the content type and
/// the blank line.
pub const OK_HEAD: &'static str = "HTTP/1.1 200 OK\r\nContent-Type: application/octet-stream\r\n\r\n";

/// What opens a not-found response: the status line and a lone carriage
/// return. No blank line follows, so a client sees the message run on from
/// the status line. This framing is a known defect, kept byte for byte for
/// the peers that rely on it.
pub const NOT_FOUND_HEAD: &'static str = "HTTP/1.1 404 Not Found\r\n\r";

/// The reply that carries `payload` as a successful response.
pub open spec fn ok_reply(payload: Seq<u8>) -> ReplyView {
    ReplyView::fresh(seq![OK_HEAD.spec_bytes(), payload])
}

/// The reply that tells the client that nothing was found, with `message`
/// as the bytes of the explanation.
pub open spec fn not_found_reply(message: Seq<u8>) -> ReplyView {
    ReplyView::fresh(seq![NOT_FOUND_HEAD.spec_bytes(), message])
}

/// The characters of an optional text.
pub open spec fn text_of(text: Option<&str>) -> Option<Seq<char>> {
    match text {
        Some(t) => Some(t@),
        None => None,
    }
}

/// The path that `path` stands for. A path that begins with `~` stands for
/// the home directory followed by the rest of the path, and for nothing where
/// no home directory is known; any other path stands for itself.
pub open spec fn resolved(path: Seq<char>, home: Option<Seq<char>>) -> Option<Seq<char>> {
    if path.len() > 0 && path[0] == '~' {
        match home {
            Some(dir) => Some(dir + path.subrange(1, path.len() as int)),
            None => None,
        }
    } else {
        Some(path)
    }
}

/// Resolves a leading `~` in `path` to the home directory `home`.
pub fn resolve_path(path: &str, home: Option<&str>) -> (full: Option<String>)
    ensures
        match full {
            Some(p) => resolved(path@, text_of(home)) == Some(p@),
            None => resolved(path@, text_of(home)) is None,
        },
{
    let n = path.unicode_len();
    if n > 0 && path.get_char(0) == '~' {
        match home {
            Some(dir) => {
                let mut full = dir.to_owned();
                full.append(path.substring_char(1, n));
                Some(full)
            },
            None => None,
        }
    } else {
        Some(path.to_owned())
    }
}

impl Request {
    /// Answers with `bytes` as the payload of a successful response.
    pub fn send_bytes(&self, bytes: &Vec<u8>) -> (reply: Reply)
        ensures
            reply@ == ok_reply(bytes@),
            reply@.wire() == OK_HEAD.spec_bytes() + bytes@,
    {
        proof {
            lemma_joined_two(OK_HEAD.spec_bytes(), bytes@);
        }
        Reply::of_two(OK_HEAD.as_bytes_vec(), slice_to_vec(bytes.as_slice()))
    }

    /// Answers with the contents of a file, given what reading it returned:
    /// the reply of `send_bytes` for the contents, or the error of the read.
    pub fn send_file(&self, contents: Result<Vec<u8>, std::io::Error>) -> (result: Result<
        Reply,
        HttpError,
    >)
        ensures
            match contents {
                Ok(bytes) => result is Ok && result->Ok_0@ == ok_reply(bytes@),
                Err(e) => result is Err && result->Err_0 == HttpError::IOError(e),
            },
    {
        match contents {
            Ok(bytes) => Ok(self.send_bytes(&bytes)),
            Err(e) => Err(HttpError::IOError(e)),
        }
    }

    /// Answers that nothing was found, with `msg` as the explanation.
    pub fn not_found(&self, msg: &str) -> (reply: Reply)
        ensures
            reply@ == not_found_reply(msg.spec_bytes()),
            reply@.wire() == NOT_FOUND_HEAD.spec_bytes() + msg.spec_bytes(),
    {
        proof {
            lemma_joined_two(NOT_FOUND_HEAD.spec_bytes(), msg.spec_bytes());
        }
        Reply::of_two(NOT_FOUND_HEAD.as_bytes_vec(), msg.as_bytes_vec())
    }

    /// The peer's address, given what asking the connection for it returned.
    pub fn addr<A>(&self, peer: Result<A, std::io::Error>) -> (result: Result<A, HttpError>)
        ensures
            match peer {
                Ok(a) => result == Ok::<A, HttpError>(a),
                Err(e) => result == Err::<A, HttpError>(HttpError::IOError(e)),
            },
    {
        match peer {
            Ok(a) => Ok(a),
            Err(e) => Err(HttpError::IOError(e)),
        }
    }
}

} // verus!
