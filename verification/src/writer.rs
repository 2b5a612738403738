//! The write cursor: where the fragments of one record go.

use vstd::prelude::*;
use crate::bytes::{capacity_of, copy_bytes, overwrite};
use crate::framing::lemma_placed;
use crate::growth::next_capacity;
use crate::layout::{Cursor, Placement};
use crate::queue::SerdeQueue;

verus! {

/// Writes one record into a queue. It holds the queue for as long as the
/// record is being encoded, and the position at which the next fragment
/// goes.
pub(crate) struct Writer<'a> {
    pub(crate) q: &'a mut SerdeQueue,
    pub(crate) p: usize,
}

impl<'a> View for Writer<'a> {
    type V = Cursor;

    open(crate) spec fn view(&self) -> Cursor {
        Cursor { layout: self.q@, at: self.p as nat }
    }
}

impl<'a> Writer<'a> {
    /// Puts the fragment `buf` behind what has been written of the record,
    /// where the storage can take `cap` bytes without being moved.
    pub(crate) fn place(&mut self, buf: &[u8], cap: usize)
        requires
            old(self)@.inv(),
            cap >= old(self)@.layout.storage.len(),
        ensures
            final(self)@ == old(self)@.placed(buf@, cap as nat),
            final(self)@.inv(),
            final(self)@.layout.keeps(old(self)@.layout),
            final(self)@.pending() == old(self)@.pending() + buf@,
    {
        proof {
            lemma_placed(self@, buf@, cap as nat);
        }
        let n: usize = buf.len();
        if self.p < self.q.start {
            if n < self.q.start - self.p {
                overwrite(&mut self.q.v, self.p, buf);
                self.p = self.p + n;
                assert(self@ =~= old(self)@.put_in_place(buf@));
            } else {
                let len: usize = self.q.v.len();
                let kept: usize = len - self.q.start + self.p;
                let needed: usize = kept.saturating_add(n).saturating_add(1);
                let mut v: Vec<u8> = Vec::with_capacity(next_capacity(cap, needed));
                v.extend_from_slice(&self.q.v[self.q.start..len]);
                v.extend_from_slice(&self.q.v[0..self.p]);
                if self.q.end < self.q.start {
                    self.q.end = len - self.q.start + self.q.end;
                } else {
                    self.q.end = self.q.end - self.q.start;
                }
                self.q.v = v;
                self.q.start = 0;
                self.q.v.extend_from_slice(buf);
                self.p = self.q.v.len();
                assert(self@ =~= old(self)@.linearized(buf@));
            }
        } else if n <= cap - self.p {
            self.q.v.extend_from_slice(buf);
            self.p = self.q.v.len();
            assert(self@ =~= old(self)@.appended(buf@));
        } else {
            let written: usize = self.p - self.q.end;
            if n < self.q.start && written < self.q.start - n {
                let (committed, pending) = self.q.v.as_mut_slice().split_at_mut(self.q.end);
                let (dst, _) = committed.split_at_mut(written);
                copy_bytes(dst, pending);
                self.p = written + n;
                overwrite(&mut self.q.v, written, buf);
                self.q.v.truncate(self.q.end);
                assert(self@ =~= old(self)@.relocated(buf@));
            } else {
                self.q.v.extend_from_slice(buf);
                self.p = self.q.v.len();
                assert(self@ =~= old(self)@.appended(buf@));
            }
        }
    }
}

/// `std::io::Error`, which a writer's methods have in their signatures.
#[verifier::external_type_specification]
#[verifier::external_body]
pub struct ExIoError(std::io::Error);

impl<'a> std::io::Write for Writer<'a> {
    /// Takes the whole of `buf`, wherever it has to go, and never fails.
    fn write(&mut self, buf: &[u8]) -> (r: Result<usize, std::io::Error>)
        requires
            old(self)@.inv(),
        ensures
            r matches Ok(n) && n == buf@.len(),
            final(self)@.inv(),
            final(self)@.layout.keeps(old(self)@.layout),
            final(self)@.pending() == old(self)@.pending() + buf@,
            exists|cap: nat|
                cap >= old(self)@.layout.storage.len() && final(self)@ == #[trigger] old(self)@.placed(
                    buf@,
                    cap,
                ),
    {
        let cap: usize = capacity_of(&self.q.v);
        self.place(buf, cap);
        Ok(buf.len())
    }

    /// Nothing is held back, so there is nothing to do.
    fn flush(&mut self) -> (r: Result<(), std::io::Error>)
        ensures
            r is Ok,
            final(self)@ == old(self)@,
    {
        Ok(())
    }
}

} // verus!
