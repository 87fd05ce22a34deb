//! Searching and splitting character sequences.
//!
//! The spec functions say what it means to find a pattern in a text
//! and to split a text at a separator; the executable functions compute the
//! same on a `Vec<char>`, within a window `lo..hi` of it, so that no piece of
//! the text is copied before it is needed.

use vstd::prelude::*;
use vstd::string::*;

verus! {

/// Whether `pat` stands in `text` at position `i`.
pub open spec fn occurs_at(text: Seq<char>, pat: Seq<char>, i: int) -> bool {
    &&& 0 <= i
    &&& i + pat.len() <= text.len()
    &&& text.subrange(i, i + pat.len()) == pat
}

/// Whether `i` is the leftmost position at which `pat` stands in `text`.
pub open spec fn is_first_occurrence(text: Seq<char>, pat: Seq<char>, i: int) -> bool {
    &&& occurs_at(text, pat, i)
    &&& forall|j: int| 0 <= j < i ==> !occurs_at(text, pat, j)
}

/// The leftmost position at which `pat` stands in `text`, if there is one.
pub open spec fn find(text: Seq<char>, pat: Seq<char>) -> Option<int> {
    if exists|i: int| is_first_occurrence(text, pat, i) {
        Some(choose|i: int| is_first_occurrence(text, pat, i))
    } else {
        None
    }
}

/// The parts of `text` before and after the leftmost occurrence of `pat`.
pub open spec fn split_once(text: Seq<char>, pat: Seq<char>) -> Option<(Seq<char>, Seq<char>)> {
    match find(text, pat) {
        Some(i) => Some((text.subrange(0, i), text.subrange(i + pat.len(), text.len() as int))),
        None => None,
    }
}

/// The pieces of `text` between successive occurrences of a non-empty `pat`,
/// taken left to right without overlap. There is always at least one piece.
pub open spec fn split(text: Seq<char>, pat: Seq<char>) -> Seq<Seq<char>>
    decreases text.len(),
{
    match find(text, pat) {
        Some(i) if pat.len() > 0 => seq![text.subrange(0, i)] + split(
            text.subrange(i + pat.len(), text.len() as int),
            pat,
        ),
        _ => seq![text],
    }
}

/// A text has at most one leftmost occurrence of a pattern.
pub proof fn lemma_first_occurrence_unique(text: Seq<char>, pat: Seq<char>, i: int, j: int)
    requires
        is_first_occurrence(text, pat, i),
        is_first_occurrence(text, pat, j),
    ensures
        i == j,
{
}

/// `find` returns the leftmost occurrence once one is known.
pub proof fn lemma_find_some(text: Seq<char>, pat: Seq<char>, i: int)
    requires
        is_first_occurrence(text, pat, i),
    ensures
        find(text, pat) == Some(i),
{
    let k = choose|k: int| is_first_occurrence(text, pat, k);
    lemma_first_occurrence_unique(text, pat, i, k);
}

/// `find` returns nothing exactly when the pattern stands nowhere.
pub proof fn lemma_find_none(text: Seq<char>, pat: Seq<char>)
    requires
        forall|j: int| 0 <= j <= text.len() - pat.len() ==> !occurs_at(text, pat, j),
    ensures
        find(text, pat) is None,
{
}

/// The characters of `text`, in order.
pub fn chars_of(text: &str) -> (chars: Vec<char>)
    ensures
        chars@ == text@,
{
    let mut chars: Vec<char> = Vec::new();
    for c in it: text.chars()
        invariant
            it.seq() == text@,
            chars@ == it.seq().take(it.index()),
    {
        chars.push(c);
    }
    chars
}

/// Whether `pat` stands in `text` at position `i`.
pub fn matches_at(text: &Vec<char>, i: usize, pat: &Vec<char>) -> (found: bool)
    requires
        i + pat.len() <= text.len(),
    ensures
        found == occurs_at(text@, pat@, i as int),
{
    let mut k: usize = 0;
    while k < pat.len()
        invariant
            k <= pat.len(),
            i + pat.len() <= text.len(),
            forall|m: int| 0 <= m < k ==> text@[i + m] == pat@[m],
        decreases pat.len() - k,
    {
        if text[i + k] != pat[k] {
            proof {
                assert(text@.subrange(i as int, i + pat.len())[k as int] == text@[i + k]);
            }
            return false;
        }
        k += 1;
    }
    proof {
        assert(text@.subrange(i as int, i + pat.len()) =~= pat@);
    }
    true
}

/// The leftmost position in `lo..hi` at which `pat` stands wholly within that
/// window of `text`.
pub fn find_in(text: &Vec<char>, lo: usize, hi: usize, pat: &Vec<char>) -> (found: Option<usize>)
    requires
        lo <= hi <= text.len(),
    ensures
        match found {
            Some(i) => lo <= i && i + pat.len() <= hi && find(
                text@.subrange(lo as int, hi as int),
                pat@,
            ) == Some(i - lo),
            None => find(text@.subrange(lo as int, hi as int), pat@) is None,
        },
{
    let ghost window = text@.subrange(lo as int, hi as int);
    if hi - lo < pat.len() {
        proof {
            lemma_find_none(window, pat@);
        }
        return None;
    }
    let last: usize = hi - pat.len();
    let mut i: usize = lo;
    loop
        invariant
            lo <= i <= last,
            last == hi - pat.len(),
            lo <= hi <= text.len(),
            window == text@.subrange(lo as int, hi as int),
            forall|j: int| 0 <= j < i - lo ==> !occurs_at(window, pat@, j),
        decreases last - i,
    {
        let here = matches_at(text, i, pat);
        proof {
            assert(window.subrange(i - lo, i - lo + pat.len()) =~= text@.subrange(
                i as int,
                i + pat.len(),
            ));
        }
        if here {
            proof {
                lemma_find_some(window, pat@, i - lo);
            }
            return Some(i);
        }
        if i == last {
            proof {
                lemma_find_none(window, pat@);
            }
            return None;
        }
        i += 1;
    }
}

/// The pieces of `text` that the bounds in `pieces` cut out, in order.
pub open spec fn slices(text: Seq<char>, pieces: Seq<(usize, usize)>) -> Seq<Seq<char>> {
    Seq::new(pieces.len(), |k: int| text.subrange(pieces[k].0 as int, pieces[k].1 as int))
}

/// Whether every pair in `pieces` bounds a piece of the window `lo..hi`.
pub open spec fn within(pieces: Seq<(usize, usize)>, lo: int, hi: int) -> bool {
    forall|k: int| 0 <= k < pieces.len() ==> lo <= (#[trigger] pieces[k]).0 <= pieces[k].1 <= hi
}

/// One step of `split`: the text up to the leftmost separator, then the
/// pieces of what follows it.
pub proof fn lemma_split_step(text: Seq<char>, pat: Seq<char>)
    ensures
        split(text, pat) == match find(text, pat) {
            Some(i) if pat.len() > 0 => seq![text.subrange(0, i)] + split(
                text.subrange(i + pat.len(), text.len() as int),
                pat,
            ),
            _ => seq![text],
        },
        split(text, pat).len() >= 1,
{
}

/// The bounds of the pieces of `text[lo..hi]` between successive occurrences
/// of `pat`.
pub fn split_in(text: &Vec<char>, lo: usize, hi: usize, pat: &Vec<char>) -> (pieces: Vec<
    (usize, usize),
>)
    requires
        lo <= hi <= text.len(),
    ensures
        within(pieces@, lo as int, hi as int),
        slices(text@, pieces@) == split(text@.subrange(lo as int, hi as int), pat@),
{
    let ghost window = text@.subrange(lo as int, hi as int);
    let mut pieces: Vec<(usize, usize)> = Vec::new();
    let mut pos: usize = lo;
    loop
        invariant
            lo <= pos <= hi <= text.len(),
            window == text@.subrange(lo as int, hi as int),
            within(pieces@, lo as int, hi as int),
            split(window, pat@) == slices(text@, pieces@) + split(
                text@.subrange(pos as int, hi as int),
                pat@,
            ),
        decreases hi - pos,
    {
        let ghost rest = text@.subrange(pos as int, hi as int);
        let ghost done = pieces@;
        proof {
            lemma_split_step(rest, pat@);
        }
        let next = if pat.len() > 0 {
            find_in(text, pos, hi, pat)
        } else {
            None
        };
        match next {
            Some(i) => {
                pieces.push((pos, i));
                proof {
                    let after = text@.subrange(i + pat.len(), hi as int);
                    assert(rest.subrange(0, i - pos) =~= text@.subrange(pos as int, i as int));
                    assert(rest.subrange(i - pos + pat.len(), rest.len() as int) =~= after);
                    assert(slices(text@, pieces@) =~= slices(text@, done) + seq![
                        text@.subrange(pos as int, i as int),
                    ]);
                    assert(slices(text@, done) + split(rest, pat@) =~= slices(text@, pieces@)
                        + split(after, pat@));
                }
                pos = i + pat.len();
            },
            None => {
                pieces.push((pos, hi));
                proof {
                    assert(slices(text@, pieces@) =~= slices(text@, done) + seq![rest]);
                }
                return pieces;
            },
        }
    }
}

/// The ten decimal digits, in order.
pub open spec fn digits() -> Seq<char> {
    seq!['0', '1', '2', '3', '4', '5', '6', '7', '8', '9']
}

/// The decimal numeral of `n`, without sign or leading zeros.
pub open spec fn decimal(n: nat) -> Seq<char>
    decreases n,
{
    if n < 10 {
        seq![digits()[n as int]]
    } else {
        decimal(n / 10).push(digits()[(n % 10) as int])
    }
}

/// The numeral of a single digit.
fn digit_text(d: u16) -> (text: &'static str)
    requires
        d < 10,
    ensures
        text@ == seq![digits()[d as int]],
{
    proof {
        reveal_strlit("0");
        reveal_strlit("1");
        reveal_strlit("2");
        reveal_strlit("3");
        reveal_strlit("4");
        reveal_strlit("5");
        reveal_strlit("6");
        reveal_strlit("7");
        reveal_strlit("8");
        reveal_strlit("9");
    }
    let text = match d {
        0 => "0",
        1 => "1",
        2 => "2",
        3 => "3",
        4 => "4",
        5 => "5",
        6 => "6",
        7 => "7",
        8 => "8",
        _ => "9",
    };
    proof {
        assert(text@ =~= seq![digits()[d as int]]);
    }
    text
}

/// The decimal numeral of `n`.
pub fn decimal_string(n: u16) -> (text: String)
    ensures
        text@ == decimal(n as nat),
    decreases n,
{
    if n < 10 {
        digit_text(n).to_owned()
    } else {
        let mut text = decimal_string(n / 10);
        text.append(digit_text(n % 10));
        proof {
            assert(text@ =~= decimal((n / 10) as nat).push(digits()[(n % 10) as int]));
        }
        text
    }
}

} // verus!
