//! A response on its way out.
//!
//! A `Reply` holds the chunks of a response in the order in which they are to
//! be written, and counts those that the connection has taken whole. The
//! caller writes the chunk that is due and reports what the write returned;
//! the reply decides whether to go on.

use crate::error::HttpError;
use vstd::prelude::*;

verus! {

/// The chunks of `chunks` laid end to end.
pub open spec fn joined(chunks: Seq<Seq<u8>>) -> Seq<u8>
    decreases chunks.len(),
{
    if chunks.len() == 0 {
        Seq::empty()
    } else {
        joined(chunks.drop_last()) + chunks.last()
    }
}

/// A reply as plain mathematical values: its chunks, and how many of them
/// have been handed to the connection.
pub struct ReplyView {
    pub chunks: Seq<Seq<u8>>,
    pub sent: nat,
}

impl ReplyView {
    /// A reply of which nothing has been sent yet.
    pub open spec fn fresh(chunks: Seq<Seq<u8>>) -> ReplyView {
        ReplyView { chunks, sent: 0 }
    }

    /// Every byte of the response, in order.
    pub open spec fn wire(self) -> Seq<u8> {
        joined(self.chunks)
    }

    /// The bytes that the connection has taken so far.
    pub open spec fn handed(self) -> Seq<u8> {
        joined(self.chunks.take(self.sent as int))
    }

    /// Whether nothing is left to write.
    pub open spec fn is_done(self) -> bool {
        self.sent >= self.chunks.len()
    }

    /// The chunk to write next; empty once the reply is done.
    pub open spec fn due(self) -> Seq<u8> {
        if self.sent < self.chunks.len() {
            self.chunks[self.sent as int]
        } else {
            Seq::empty()
        }
    }

    /// The reply after the chunk that was due has been taken whole.
    pub open spec fn advanced(self) -> ReplyView {
        if self.sent < self.chunks.len() {
            ReplyView { chunks: self.chunks, sent: self.sent + 1 }
        } else {
            self
        }
    }
}

/// A response on its way out.
pub struct Reply {
    chunks: Vec<Vec<u8>>,
    sent: usize,
}

impl View for Reply {
    type V = ReplyView;

    closed spec fn view(&self) -> ReplyView {
        ReplyView {
            chunks: Seq::new(self.chunks@.len(), |i: int| self.chunks@[i]@),
            sent: self.sent as nat,
        }
    }
}

/// The error that stands for a write that took fewer bytes than it was
/// given: `std::io::ErrorKind::WriteZero`, made into a `std::io::Error`.
#[verifier::external_body]
fn short_write() -> std::io::Error {
    std::io::Error::from(std::io::ErrorKind::WriteZero)
}

impl Reply {
    #[verifier::type_invariant]
    spec fn counted(self) -> bool {
        self.sent <= self.chunks@.len()
    }

    /// A reply made of `head` and `payload`, of which nothing has been sent.
    pub(crate) fn of_two(head: Vec<u8>, payload: Vec<u8>) -> (reply: Reply)
        ensures
            reply@ == ReplyView::fresh(seq![head@, payload@]),
    {
        let mut chunks: Vec<Vec<u8>> = Vec::new();
        chunks.push(head);
        chunks.push(payload);
        let reply = Reply { chunks, sent: 0 };
        proof {
            assert(reply@.chunks =~= seq![head@, payload@]);
        }
        reply
    }

    /// Whether nothing is left to write.
    pub fn is_done(&self) -> (done: bool)
        ensures
            done == self@.is_done(),
            self@.sent <= self@.chunks.len(),
    {
        proof {
            use_type_invariant(self);
        }
        self.sent == self.chunks.len()
    }

    /// The chunk to write next, or `None` once the reply is done.
    pub fn next_chunk(&self) -> (chunk: Option<&Vec<u8>>)
        ensures
            match chunk {
                Some(bytes) => !self@.is_done() && bytes@ == self@.due(),
                None => self@.is_done(),
            },
    {
        proof {
            use_type_invariant(self);
        }
        if self.sent < self.chunks.len() {
            Some(&self.chunks[self.sent])
        } else {
            None
        }
    }

    /// Takes note of what the write of the chunk that was due returned.
    ///
    /// A write that failed gives its error. A write that took the whole
    /// chunk moves the reply on to the next one. A write that took another
    /// number of bytes is not tried again: it gives an I/O error, and the
    /// reply stays where it was.
    pub fn written(&mut self, outcome: Result<usize, std::io::Error>) -> (result: Result<
        (),
        HttpError,
    >)
        ensures
            final(self)@.sent <= final(self)@.chunks.len(),
            match outcome {
                Err(e) => result == Err::<(), HttpError>(HttpError::IOError(e)) && final(self)@
                    == old(self)@,
                Ok(n) => if n == old(self)@.due().len() {
                    result is Ok && final(self)@ == old(self)@.advanced()
                } else {
                    result is Err && result->Err_0 is IOError && final(self)@ == old(self)@
                },
            },
    {
        proof {
            use_type_invariant(&*self);
        }
        match outcome {
            Err(e) => Err(HttpError::IOError(e)),
            Ok(n) => {
                if self.sent < self.chunks.len() {
                    if n == self.chunks[self.sent].len() {
                        self.sent = self.sent + 1;
                        proof {
                            assert(self@.chunks =~= old(self)@.chunks);
                        }
                        Ok(())
                    } else {
                        Err(HttpError::IOError(short_write()))
                    }
                } else if n == 0 {
                    Ok(())
                } else {
                    Err(HttpError::IOError(short_write()))
                }
            },
        }
    }
}

/// Laying chunks end to end, the last chunk comes last.
pub proof fn lemma_joined_push(chunks: Seq<Seq<u8>>, chunk: Seq<u8>)
    ensures
        joined(chunks.push(chunk)) == joined(chunks) + chunk,
{
    assert(chunks.push(chunk).drop_last() =~= chunks);
}

/// A reply of two chunks goes out as the first followed by the second.
pub proof fn lemma_joined_two(head: Seq<u8>, payload: Seq<u8>)
    ensures
        joined(seq![head, payload]) == head + payload,
{
    let none = Seq::<Seq<u8>>::empty();
    let one = seq![head];
    assert(one =~= none.push(head));
    lemma_joined_push(none, head);
    assert(joined(none) + head =~= head);
    assert(seq![head, payload] =~= one.push(payload));
    lemma_joined_push(one, payload);
}

/// Once a reply is done, the connection has taken every byte of the
/// response, in order.
pub proof fn done_means_all_handed(reply: ReplyView)
    requires
        reply.sent <= reply.chunks.len(),
        reply.is_done(),
    ensures
        reply.handed() == reply.wire(),
{
    assert(reply.chunks.take(reply.sent as int) =~= reply.chunks);
}

/// Each chunk that is taken whole extends what the connection has by
/// exactly that chunk, and leaves the response as it was.
pub proof fn advancing_hands_the_due_chunk(reply: ReplyView)
    requires
        reply.sent <= reply.chunks.len(),
    ensures
        reply.advanced().handed() == reply.handed() + reply.due(),
        reply.advanced().wire() == reply.wire(),
        reply.advanced().sent <= reply.advanced().chunks.len(),
{
    if reply.sent < reply.chunks.len() {
        let k = reply.sent as int;
        assert(reply.chunks.take(k + 1) =~= reply.chunks.take(k).push(reply.chunks[k]));
        lemma_joined_push(reply.chunks.take(k), reply.chunks[k]);
    } else {
        assert(reply.handed() + reply.due() =~= reply.handed());
    }
}

} // verus!
