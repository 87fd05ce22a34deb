//! Well-formed messages, and the proof that the parser reads back from one
//! exactly the fields it was written from.

use crate::error::HttpError;
use crate::parser::{
    blank_line, colon, header_fields, line_break, parse_spec, request_line, space,
};
use crate::request::RequestView;
use crate::text::{
    find, is_first_occurrence, lemma_find_none, lemma_find_some, lemma_split_step, occurs_at,
    split, split_once,
};
use vstd::prelude::*;

verus! {

/// Whether `c` stands nowhere in `text`.
pub open spec fn free_of(text: Seq<char>, c: char) -> bool {
    forall|i: int| 0 <= i < text.len() ==> text[i] != c
}

/// Whether `text` holds neither a carriage return nor a line feed.
pub open spec fn unbroken(text: Seq<char>) -> bool {
    free_of(text, '\r') && free_of(text, '\n')
}

/// A header line: name, colon, value.
pub open spec fn header_line(field: (Seq<char>, Seq<char>)) -> Seq<char> {
    field.0 + colon() + field.1
}

/// The header lines of a sequence of fields, in order.
pub open spec fn header_lines(fields: Seq<(Seq<char>, Seq<char>)>) -> Seq<Seq<char>> {
    Seq::new(fields.len(), |k: int| header_line(fields[k]))
}

/// A request line: method, path and version, with one space between them.
pub open spec fn first_line(method: Seq<char>, path: Seq<char>, version: Seq<char>) -> Seq<char> {
    method + space() + path + space() + version
}

/// The lines of `lines` with a line break between each two of them.
pub open spec fn join_lines(lines: Seq<Seq<char>>) -> Seq<char>
    decreases lines.len(),
{
    if lines.len() == 0 {
        Seq::empty()
    } else if lines.len() == 1 {
        lines[0]
    } else {
        lines[0] + line_break() + join_lines(lines.drop_first())
    }
}

/// The text of a request: request line, header lines, a blank line, body.
pub open spec fn message(
    method: Seq<char>,
    path: Seq<char>,
    version: Seq<char>,
    fields: Seq<(Seq<char>, Seq<char>)>,
    body: Seq<char>,
) -> Seq<char> {
    join_lines(seq![first_line(method, path, version)] + header_lines(fields)) + blank_line()
        + body
}

/// The table that a sequence of fields builds up when each field in turn
/// replaces what was held under its name.
pub open spec fn table(fields: Seq<(Seq<char>, Seq<char>)>) -> Map<Seq<char>, Seq<char>>
    decreases fields.len(),
{
    if fields.len() == 0 {
        Map::empty()
    } else {
        table(fields.drop_last()).insert(fields.last().0, fields.last().1)
    }
}

/// Whether the fields of a request can be told apart again once written
/// out: method and path hold no space, a header's name holds no colon, and
/// nothing but the body holds a carriage return or a line feed.
pub open spec fn well_formed(
    method: Seq<char>,
    path: Seq<char>,
    version: Seq<char>,
    fields: Seq<(Seq<char>, Seq<char>)>,
) -> bool {
    &&& unbroken(method) && free_of(method, ' ')
    &&& unbroken(path) && free_of(path, ' ')
    &&& unbroken(version)
    &&& forall|k: int|
        0 <= k < fields.len() ==> unbroken(#[trigger] fields[k].0) && free_of(fields[k].0, ':')
            && unbroken(fields[k].1)
}

/// A pattern does not stand where its first character does not.
proof fn lemma_no_occurrence(text: Seq<char>, pat: Seq<char>, j: int)
    requires
        pat.len() > 0,
        0 <= j < text.len(),
        text[j] != pat[0],
    ensures
        !occurs_at(text, pat, j),
{
    if occurs_at(text, pat, j) {
        assert(text.subrange(j, j + pat.len())[0] == text[j]);
    }
}

/// A pattern that follows a text in which its first character does not
/// stand has its leftmost occurrence right after that text.
proof fn lemma_first_after(piece: Seq<char>, pat: Seq<char>, rest: Seq<char>)
    requires
        pat.len() > 0,
        free_of(piece, pat[0]),
    ensures
        is_first_occurrence(piece + pat + rest, pat, piece.len() as int),
{
    let text = piece + pat + rest;
    let at = piece.len() as int;
    assert(occurs_at(text, pat, at)) by {
        assert(text.subrange(at, at + pat.len()) =~= pat);
    }
    assert forall|j: int| 0 <= j < at implies !occurs_at(text, pat, j) by {
        assert(text[j] == piece[j]);
        lemma_no_occurrence(text, pat, j);
    }
}

/// A pattern that follows a text in which its first character does not
/// stand is found right after that text.
pub proof fn lemma_find_after(piece: Seq<char>, pat: Seq<char>, rest: Seq<char>)
    requires
        pat.len() > 0,
        free_of(piece, pat[0]),
    ensures
        find(piece + pat + rest, pat) == Some(piece.len() as int),
        split_once(piece + pat + rest, pat) == Some((piece, rest)),
{
    let text = piece + pat + rest;
    let at = piece.len() as int;
    lemma_first_after(piece, pat, rest);
    lemma_find_some(text, pat, at);
    assert(text.subrange(0, at) == piece) by {
        assert(text.subrange(0, at) =~= piece);
    }
    assert(text.subrange(at + pat.len(), text.len() as int) == rest) by {
        assert(text.subrange(at + pat.len(), text.len() as int) =~= rest);
    }
}

/// A pattern is not found in a text in which its first character does not
/// stand.
pub proof fn lemma_find_absent(text: Seq<char>, pat: Seq<char>)
    requires
        pat.len() > 0,
        free_of(text, pat[0]),
    ensures
        find(text, pat) is None,
{
    assert forall|j: int| 0 <= j <= text.len() - pat.len() implies !occurs_at(text, pat, j) by {
        lemma_no_occurrence(text, pat, j);
    }
    lemma_find_none(text, pat);
}

/// Lines that hold no carriage return are got back by splitting their
/// joined text at the line breaks.
pub proof fn lemma_split_joined(lines: Seq<Seq<char>>)
    requires
        lines.len() >= 1,
        forall|k: int| 0 <= k < lines.len() ==> free_of(#[trigger] lines[k], '\r'),
    ensures
        split(join_lines(lines), line_break()) == lines,
    decreases lines.len(),
{
    let brk = line_break();
    lemma_split_step(join_lines(lines), brk);
    if lines.len() == 1 {
        lemma_find_absent(lines[0], brk);
        assert(seq![lines[0]] =~= lines);
    } else {
        let rest = lines.drop_first();
        lemma_find_after(lines[0], brk, join_lines(rest));
        assert forall|k: int| 0 <= k < rest.len() implies free_of(#[trigger] rest[k], '\r') by {
            assert(rest[k] == lines[k + 1]);
        }
        lemma_split_joined(rest);
        assert(seq![lines[0]] + rest =~= lines);
    }
}

/// Whether every carriage return in `text` is followed by a line feed, and
/// every line feed by a character that is neither.
pub open spec fn well_broken(text: Seq<char>) -> bool {
    forall|j: int|
        0 <= j < text.len() ==> {
            &&& #[trigger] text[j] == '\r' ==> j + 1 < text.len() && text[j + 1] == '\n'
            &&& text[j] == '\n' ==> j + 1 < text.len() && text[j + 1] != '\r' && text[j + 1]
                != '\n'
        }
}

/// Joining lines that are not empty and hold no line break of their own
/// gives a text in which no two line breaks meet.
pub proof fn lemma_joined_well_broken(lines: Seq<Seq<char>>)
    requires
        lines.len() >= 1,
        forall|k: int|
            0 <= k < lines.len() ==> (#[trigger] lines[k]).len() > 0 && unbroken(lines[k]),
    ensures
        well_broken(join_lines(lines)),
        join_lines(lines).len() > 0,
        join_lines(lines)[0] == lines[0][0],
    decreases lines.len(),
{
    if lines.len() > 1 {
        let rest = lines.drop_first();
        assert forall|k: int| 0 <= k < rest.len() implies (#[trigger] rest[k]).len() > 0
            && unbroken(rest[k]) by {
            assert(rest[k] == lines[k + 1]);
        }
        lemma_joined_well_broken(rest);
        let first = lines[0];
        let tail = join_lines(rest);
        let text = join_lines(lines);
        assert(text == first + line_break() + tail);
        assert(rest[0] == lines[1]);
        assert forall|j: int| 0 <= j < text.len() implies {
            &&& #[trigger] text[j] == '\r' ==> j + 1 < text.len() && text[j + 1] == '\n'
            &&& text[j] == '\n' ==> j + 1 < text.len() && text[j + 1] != '\r' && text[j + 1]
                != '\n'
        } by {
            if j < first.len() {
                assert(text[j] == first[j]);
            } else if j == first.len() {
                assert(text[j] == '\r');
                assert(text[j + 1] == '\n');
            } else if j == first.len() + 1 {
                assert(text[j] == '\n');
                assert(text[j + 1] == tail[0]);
            } else {
                let i = j - first.len() - 2;
                assert(text[j] == tail[i]);
                if i + 1 < tail.len() {
                    assert(text[j + 1] == tail[i + 1]);
                }
            }
        }
    }
}

/// After a text in which no two line breaks meet, the first blank line is
/// the one that is put there.
pub proof fn lemma_blank_line_after(head: Seq<char>, body: Seq<char>)
    requires
        well_broken(head),
    ensures
        split_once(head + blank_line() + body, blank_line()) == Some((head, body)),
{
    let blank = blank_line();
    let text = head + blank + body;
    let at = head.len() as int;
    assert(text.subrange(at, at + blank.len()) =~= blank);
    assert forall|j: int| 0 <= j < at implies !occurs_at(text, blank, j) by {
        if occurs_at(text, blank, j) {
            let found = text.subrange(j, j + blank.len());
            assert(found[0] == '\r' && found[1] == '\n' && found[2] == '\r');
            assert(text[j] == head[j]);
            assert(head[j] == '\r');
            assert(text[j + 1] == head[j + 1]);
            assert(head[j + 1] == '\n');
            assert(text[j + 2] == head[j + 2]);
        }
    }
    lemma_find_some(text, blank, at);
    assert(text.subrange(0, at) =~= head);
    assert(text.subrange(at + blank.len(), text.len() as int) =~= body);
}

/// A request line whose method and path hold no space gives them back.
pub proof fn lemma_request_line(method: Seq<char>, path: Seq<char>, version: Seq<char>)
    requires
        free_of(method, ' '),
        free_of(path, ' '),
    ensures
        request_line(first_line(method, path, version)) == Some((method, path)),
{
    let sp = space();
    let line = first_line(method, path, version);
    let after = path + sp + version;
    assert(line =~= method + sp + after);
    lemma_find_after(method, sp, after);
    lemma_split_step(line, sp);
    lemma_find_after(path, sp, version);
    lemma_split_step(after, sp);
    lemma_split_step(version, sp);
}

/// Header lines whose names hold no colon build the table of their fields.
pub proof fn lemma_header_table(fields: Seq<(Seq<char>, Seq<char>)>)
    requires
        forall|k: int| 0 <= k < fields.len() ==> free_of(#[trigger] fields[k].0, ':'),
    ensures
        header_fields(header_lines(fields)) == Some(table(fields)),
    decreases fields.len(),
{
    if fields.len() > 0 {
        let init = fields.drop_last();
        let last = fields.last();
        assert(header_lines(fields).drop_last() =~= header_lines(init));
        assert(header_lines(fields).last() == header_line(last));
        assert forall|k: int| 0 <= k < init.len() implies free_of(#[trigger] init[k].0, ':') by {
            assert(init[k] == fields[k]);
        }
        lemma_header_table(init);
        assert(header_line(last) =~= last.0 + colon() + last.1);
        lemma_find_after(last.0, colon(), last.1);
    }
}

/// Parsing a well-formed message gives back the method, the path, the body
/// and, for each header name, the value of the last field that carries it.
pub proof fn well_formed_message_parses(
    method: Seq<char>,
    path: Seq<char>,
    version: Seq<char>,
    fields: Seq<(Seq<char>, Seq<char>)>,
    body: Seq<char>,
)
    requires
        well_formed(method, path, version, fields),
    ensures
        parse_spec(message(method, path, version, fields, body)) == Ok::<
            RequestView,
            HttpError,
        >(RequestView { method, path, headers: table(fields), body }),
{
    let line = first_line(method, path, version);
    let lines = seq![line] + header_lines(fields);
    let head = join_lines(lines);
    assert(line[method.len() as int] == ' ');
    assert forall|k: int| 0 <= k < lines.len() implies (#[trigger] lines[k]).len() > 0
        && unbroken(lines[k]) by {
        if k > 0 {
            let field = fields[k - 1];
            assert(lines[k] == field.0 + colon() + field.1);
            assert(lines[k][field.0.len() as int] == ':');
        }
    }
    lemma_joined_well_broken(lines);
    lemma_blank_line_after(head, body);
    lemma_split_joined(lines);
    lemma_request_line(method, path, version);
    assert(lines.drop_first() =~= header_lines(fields));
    lemma_header_table(fields);
}

/// The names in the table of a sequence of fields are the names of the
/// fields.
pub proof fn table_holds_the_names(fields: Seq<(Seq<char>, Seq<char>)>, name: Seq<char>)
    ensures
        table(fields).contains_key(name) <==> exists|i: int|
            0 <= i < fields.len() && (#[trigger] fields[i]).0 == name,
    decreases fields.len(),
{
    if fields.len() > 0 {
        let init = fields.drop_last();
        let last = fields.last();
        table_holds_the_names(init, name);
        if table(fields).contains_key(name) {
            if last.0 == name {
                assert(fields[fields.len() - 1].0 == name);
            } else {
                let i = choose|i: int| 0 <= i < init.len() && (#[trigger] init[i]).0 == name;
                assert(fields[i].0 == name);
            }
        } else {
            assert forall|i: int| 0 <= i < fields.len() implies (#[trigger] fields[i]).0
                != name by {
                if i < init.len() {
                    assert(init[i] == fields[i]);
                }
            }
        }
    }
}

/// In the table of a sequence of fields, a name stands for the value of the
/// last field that carries it.
pub proof fn last_field_wins(fields: Seq<(Seq<char>, Seq<char>)>, i: int)
    requires
        0 <= i < fields.len(),
        forall|j: int| i < j < fields.len() ==> (#[trigger] fields[j]).0 != fields[i].0,
    ensures
        table(fields).contains_key(fields[i].0),
        table(fields)[fields[i].0] == fields[i].1,
    decreases fields.len(),
{
    let init = fields.drop_last();
    if i < init.len() {
        assert(fields[fields.len() - 1].0 != fields[i].0);
        assert(init[i] == fields[i]);
        assert forall|j: int| i < j < init.len() implies (#[trigger] init[j]).0 != init[i].0 by {
            assert(init[j] == fields[j]);
        }
        last_field_wins(init, i);
    }
}

} // verus!
