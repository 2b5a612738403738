//! The queue: records in their encoded form, packed into one byte vector.

use vstd::prelude::*;
use crate::codec::{encode_at, DecodeError, EncodeError};
use crate::framing::{lemma_abandoned, lemma_empty_frames, lemma_opened, lemma_pushed,
    lemma_written};
use crate::layout::{bytes_of, Cursor, Fragment, Layout};

verus! {

/// A first-in, first-out queue of values that are kept in their encoded form,
/// one behind the other, in a single byte vector.
pub struct SerdeQueue {
    pub(crate) v: Vec<u8>,
    pub(crate) start: usize,
    pub(crate) end: usize,
    pub(crate) num_elements: usize,
}

impl View for SerdeQueue {
    type V = Layout;

    open(crate) spec fn view(&self) -> Layout {
        Layout {
            storage: self.v@,
            start: self.start as nat,
            end: self.end as nat,
            count: self.num_elements as nat,
        }
    }
}

impl SerdeQueue {
    /// What every queue satisfies between two calls.
    pub open spec fn inv(&self) -> bool {
        self@.inv()
    }

    /// The cursor of a writer that stands at position `p` of this queue.
    pub open spec fn cursor(&self, p: usize) -> Cursor {
        Cursor { layout: self@, at: p as nat }
    }

    /// An empty queue.
    pub fn new() -> (q: SerdeQueue)
        ensures
            q.inv(),
            q@ == Layout::empty(),
            q@.frames(Seq::empty()),
    {
        proof {
            lemma_empty_frames();
        }
        SerdeQueue { v: Vec::new(), start: 0, end: 0, num_elements: 0 }
    }

    /// The number of records that wait in the queue.
    pub fn len(&self) -> (n: usize)
        ensures
            n == self@.count,
    {
        self.num_elements
    }

    /// Encodes `value` behind the records that wait.
    ///
    /// The encoder writes the record in fragments, to a writer that begins on
    /// `opened()`. Where the last fragment ends becomes `end`, and the record
    /// counts. It lies in the storage in one piece, whatever moves its
    /// fragments made necessary.
    ///
    /// When the encoder fails, nothing is pushed: what it wrote until it failed
    /// stays in the storage, behind `end`, where no pop reads it.
    pub fn push<T: serde::Serialize>(&mut self, value: &T) -> (r: Result<(), EncodeError>)
        requires
            old(self).inv(),
            old(self)@.count < usize::MAX,
        ensures
            final(self).inv(),
            r is Ok ==> final(self)@.count == old(self)@.count + 1,
            r is Ok ==> exists|frags: Seq<Fragment>| #[trigger]
                final(self)@.pushed(old(self)@, frags) && final(self)@.appends(
                    old(self)@,
                    bytes_of(frags),
                ),
            r is Err ==> final(self)@.count == old(self)@.count,
            r is Err ==> final(self)@.keeps(old(self)@),
            r is Err ==> exists|frags: Seq<Fragment>| #[trigger]
                final(self)@.abandoned(old(self)@, frags),
    {
        proof {
            lemma_opened(old(self)@);
        }
        if self.end >= self.start {
            self.v.truncate(self.end);
        }
        let p: usize = self.end;
        let ghost begun: Cursor = self.cursor(p);
        assert(begun =~= old(self)@.opened());
        let encoded: Result<usize, postcard::Error> = encode_at(self, p, value);
        proof {
            match encoded {
                Ok(stop) => {
                    let last: Cursor = self.cursor(stop);
                    let frags: Seq<Fragment> = choose|frags: Seq<Fragment>|
                        begun.admits(frags) && last == #[trigger] begun.written(frags);
                    lemma_written(begun, frags);
                    assert(last.sealed().pushed(old(self)@, frags));
                    lemma_pushed(last.sealed(), old(self)@, frags);
                },
                Err(_) => {
                    let frags: Seq<Fragment> = choose|frags: Seq<Fragment>|
                        begun.admits(frags) && self@ == #[trigger] begun.written(frags).layout;
                    lemma_written(begun, frags);
                    assert(self@.abandoned(old(self)@, frags));
                    lemma_abandoned(self@, old(self)@, frags);
                },
            }
        }
        self.seal(encoded)
    }

    /// Ends a push, given what the encoder returned: the position where it
    /// stopped writing, or its error. In the first case the record that ends
    /// there becomes the last of the queue; in the second the queue is left
    /// as it is.
    fn seal(&mut self, encoded: Result<usize, postcard::Error>) -> (r: Result<(), EncodeError>)
        requires
            old(self)@.count < usize::MAX,
        ensures
            match encoded {
                Ok(stop) => r is Ok && final(self)@ == old(self).cursor(stop).sealed(),
                Err(e) => (r matches Err(x) && x.cause == e) && final(self)@ == old(self)@,
            },
    {
        match encoded {
            Ok(stop) => {
                self.end = stop;
                self.num_elements += 1;
                Ok(())
            },
            Err(e) => Err(EncodeError { cause: e }),
        }
    }

    /// Decodes the oldest record and takes it out of the queue; `None` when
    /// no record waits.
    ///
    /// The decoder is handed `head()`, and the record ends where it says.
    /// When it fails, the record has been counted as popped and `start` has
    /// not moved.
    pub fn pop<'a, T: serde::Deserialize<'a>>(&'a mut self) -> (r: Result<Option<T>, DecodeError>)
        requires
            old(self).inv(),
        ensures
            final(self).inv(),
            old(self)@.count == 0 ==> (r matches Ok(None)) && final(self)@ == old(self)@,
            old(self)@.count > 0 ==> final(self)@.count == old(self)@.count - 1,
            old(self)@.count > 0 ==> match r {
                Ok(Some(_)) => exists|used: nat|
                    used <= old(self)@.head().len() && final(self)@ == #[trigger] old(self)@.popped(used),
                Ok(None) => false,
                Err(_) => final(self)@ == old(self)@.popped(0),
            },
    {
        if self.num_elements == 0 {
            return Ok(None);
        }
        self.num_elements -= 1;
        if self.start == self.v.len() {
            if self.start == self.end {
                self.end = 0;
            }
            self.start = 0;
            self.v.truncate(self.end);
        }
        let end: usize = self.v.len();
        assert(self@ =~= old(self)@.popped(0));
        let decoded: Result<(T, &[u8]), postcard::Error> = postcard::take_from_bytes::<T>(
            &self.v[self.start..end],
        );
        let ghost used: nat = match decoded {
            Ok((_, rest)) => (end - self.start - rest@.len()) as nat,
            Err(_) => 0,
        };
        let r = settle(&mut self.start, end, decoded);
        assert(self@ =~= old(self)@.popped(used));
        r
    }
}

/// Ends a pop, given what the decoder returned for the bytes from `start` to
/// `end`: the value with the bytes that it did not use, or its error. In the
/// first case `start` moves to the first byte that was not used; in the
/// second it stays.
fn settle<T>(start: &mut usize, end: usize, decoded: Result<(T, &[u8]), postcard::Error>) -> (r:
    Result<Option<T>, DecodeError>)
    requires
        decoded matches Ok((_, rest)) ==> rest@.len() <= end,
    ensures
        match decoded {
            Ok((value, rest)) => r == Ok::<Option<T>, DecodeError>(Some(value)) && *final(start) == end
                - rest@.len(),
            Err(e) => (r matches Err(x) && x.cause == e) && *final(start) == *old(start),
        },
{
    match decoded {
        Ok((value, rest)) => {
            *start = end - rest.len();
            Ok(Some(value))
        },
        Err(e) => Err(DecodeError { cause: e }),
    }
}

} // verus!
