//! The buffer of a queue as a mathematical value, and every move of the
//! read and write paths as a function on such values.

use vstd::prelude::*;

verus! {

/// What a queue holds: the addressable bytes of its storage, the read
/// position, the position up to which records are complete, and the number
/// of records waiting.
///
/// While `start <= end` the layout is linear and the waiting bytes are
/// `storage[start..end]`. While `end < start` it is wrapped, and they are
/// `storage[start..]` followed by `storage[..end]`.
#[verifier::ext_equal]
pub struct Layout {
    pub storage: Seq<u8>,
    pub start: nat,
    pub end: nat,
    pub count: nat,
}

/// A layout together with the position at which the record being written
/// goes on.
#[verifier::ext_equal]
pub struct Cursor {
    pub layout: Layout,
    pub at: nat,
}

/// One write: the bytes that were handed to the writer, and the number of
/// bytes that the storage could take at that time without being moved.
pub struct Fragment {
    pub bytes: Seq<u8>,
    pub cap: nat,
}

/// The ways in which one fragment of a record can be put into a layout.
pub enum Placement {
    /// The fragment goes into the free bytes ahead of `start`.
    InPlace,
    /// New storage is made, and takes the waiting bytes in one span, the
    /// bytes of the record written so far, and the fragment.
    Linearize,
    /// The fragment goes on the end of the storage.
    Append,
    /// The bytes of the record written so far move from the end of the
    /// storage to its beginning, and the fragment goes behind them.
    Relocate,
}

/// The bytes of the writes `frags`, first to last.
pub open spec fn bytes_of(frags: Seq<Fragment>) -> Seq<u8>
    decreases frags.len(),
{
    if frags.len() == 0 {
        Seq::empty()
    } else {
        frags[0].bytes + bytes_of(frags.drop_first())
    }
}

impl Layout {
    /// The empty layout.
    pub open spec fn empty() -> Layout {
        Layout { storage: Seq::empty(), start: 0, end: 0, count: 0 }
    }

    /// Both positions lie within the storage.
    pub open spec fn inv(self) -> bool {
        self.start <= self.storage.len() && self.end <= self.storage.len()
    }

    /// The waiting bytes lie in two spans, and writing goes on ahead of
    /// `start`.
    pub open spec fn wrapped(self) -> bool {
        self.end < self.start
    }

    /// The waiting bytes from `start` on.
    pub open spec fn tail(self) -> Seq<u8> {
        if self.wrapped() {
            self.storage.subrange(self.start as int, self.storage.len() as int)
        } else {
            self.storage.subrange(self.start as int, self.end as int)
        }
    }

    /// The waiting bytes at the beginning of a wrapped storage.
    pub open spec fn front(self) -> Seq<u8> {
        if self.wrapped() {
            self.storage.subrange(0, self.end as int)
        } else {
            Seq::empty()
        }
    }

    /// All waiting bytes, oldest first.
    pub open spec fn committed(self) -> Seq<u8> {
        self.tail() + self.front()
    }

    /// The first `k` of `records` fill the tail and the others the front, so
    /// that no record lies across the two spans.
    pub open spec fn splits(self, records: Seq<Seq<u8>>, k: int) -> bool {
        &&& 0 <= k <= records.len()
        &&& self.tail() == records.take(k).flatten()
        &&& self.front() == records.skip(k).flatten()
    }

    /// The layout holds exactly `records`, in this order, each of them in one
    /// piece.
    pub open spec fn frames(self, records: Seq<Seq<u8>>) -> bool {
        &&& self.count == records.len()
        &&& exists|k: int| self.splits(records, k)
    }

    /// The waiting bytes and their number are those of `earlier`, in the same
    /// two spans or joined into the tail.
    pub open spec fn keeps(self, earlier: Layout) -> bool {
        &&& self.count == earlier.count
        &&& {
            ||| self.tail() == earlier.tail() && self.front() == earlier.front()
            ||| self.tail() == earlier.committed() && self.front() == Seq::<u8>::empty()
        }
    }

    /// The layout holds what `earlier` held and the record `rec` behind it:
    /// at the end of the front span, alone in the front span, or at the end
    /// of a tail that holds everything.
    pub open spec fn appends(self, earlier: Layout, rec: Seq<u8>) -> bool {
        &&& self.count == earlier.count + 1
        &&& {
            ||| self.tail() == earlier.tail() && self.front() == earlier.front() + rec
            ||| self.tail() == earlier.committed() && self.front() == rec
            ||| self.tail() == earlier.committed() + rec && self.front() == Seq::<u8>::empty()
        }
    }

    /// The layout is `earlier` with one record more: a writer began on
    /// `earlier.opened()`, made the writes `frags`, and the record was
    /// sealed where it ended.
    pub open spec fn pushed(self, earlier: Layout, frags: Seq<Fragment>) -> bool {
        &&& earlier.opened().admits(frags)
        &&& self == earlier.opened().written(frags).sealed()
    }

    /// The layout is what a writer left that began on `earlier.opened()` and
    /// gave up after the writes `frags`: nothing of what it wrote counts.
    pub open spec fn abandoned(self, earlier: Layout, frags: Seq<Fragment>) -> bool {
        &&& earlier.opened().admits(frags)
        &&& self == earlier.opened().written(frags).layout
    }

    /// The layout from which the next record is read. Where the tail has been
    /// read to the end of the storage, reading goes on at the beginning: the
    /// storage is cut down to the front span, which becomes the tail.
    pub open spec fn reclaimed(self) -> Layout {
        if self.start == self.storage.len() {
            let end: nat = if self.start == self.end { 0 } else { self.end };
            Layout { storage: self.storage.subrange(0, end as int), start: 0, end, count: self.count }
        } else {
            self
        }
    }

    /// The bytes that are handed to the decoder for the next record.
    pub open spec fn head(self) -> Seq<u8> {
        let r: Layout = self.reclaimed();
        r.storage.subrange(r.start as int, r.storage.len() as int)
    }

    /// The layout after one record of `used` bytes has been read.
    pub open spec fn popped(self, used: nat) -> Layout {
        let r: Layout = self.reclaimed();
        Layout { start: r.start + used, count: (r.count - 1) as nat, ..r }
    }

    /// The cursor with which the next record begins. In a linear layout the
    /// bytes behind `end`, left by a record that was given up, are cut off.
    pub open spec fn opened(self) -> Cursor {
        if self.wrapped() {
            Cursor { layout: self, at: self.end }
        } else {
            Cursor { layout: Layout { storage: self.storage.take(self.end as int), ..self }, at: self.end }
        }
    }
}

impl Cursor {
    /// The cursor stands either ahead of `start`, behind the front span, or at
    /// the end of the storage of a linear layout.
    pub open spec fn inv(self) -> bool {
        let l: Layout = self.layout;
        &&& l.inv()
        &&& if self.at < l.start {
            if l.wrapped() {
                l.end <= self.at
            } else {
                l.end == l.storage.len()
            }
        } else {
            !l.wrapped() && self.at == l.storage.len()
        }
    }

    /// Where the bytes of the record being written begin.
    pub open spec fn origin(self) -> nat {
        if self.at < self.layout.start && !self.layout.wrapped() {
            0
        } else {
            self.layout.end
        }
    }

    /// The bytes of the record written so far.
    pub open spec fn pending(self) -> Seq<u8> {
        self.layout.storage.subrange(self.origin() as int, self.at as int)
    }

    /// How a fragment of `n` bytes is placed, where the storage can take `cap`
    /// bytes without being moved. Ahead of `start` one byte is always left
    /// free, so that `end` never reaches `start` from below.
    pub open spec fn placement(self, n: nat, cap: nat) -> Placement {
        let l: Layout = self.layout;
        if self.at < l.start {
            if n < l.start - self.at {
                Placement::InPlace
            } else {
                Placement::Linearize
            }
        } else if n <= cap - self.at {
            Placement::Append
        } else if self.at - l.end + n < l.start {
            Placement::Relocate
        } else {
            Placement::Append
        }
    }

    /// The fragment is put over the free bytes at the cursor.
    pub open spec fn put_in_place(self, buf: Seq<u8>) -> Cursor {
        let l: Layout = self.layout;
        let at: nat = self.at + buf.len();
        let storage: Seq<u8> = l.storage.take(self.at as int) + buf + l.storage.skip(at as int);
        Cursor { layout: Layout { storage, ..l }, at }
    }

    /// New storage holds the tail, what lies before the cursor, and the
    /// fragment, in this order; `end` still marks the end of what waits.
    pub open spec fn linearized(self, buf: Seq<u8>) -> Cursor {
        let l: Layout = self.layout;
        let storage: Seq<u8> = l.storage.skip(l.start as int) + l.storage.take(self.at as int) + buf;
        let end: nat = if l.wrapped() {
            (l.storage.len() - l.start + l.end) as nat
        } else {
            (l.end - l.start) as nat
        };
        Cursor { layout: Layout { storage, start: 0, end, count: l.count }, at: storage.len() }
    }

    /// The fragment is put on the end of the storage.
    pub open spec fn appended(self, buf: Seq<u8>) -> Cursor {
        let l: Layout = self.layout;
        Cursor { layout: Layout { storage: l.storage + buf, ..l }, at: l.storage.len() + buf.len() }
    }

    /// What was written of the record moves to the beginning of the storage,
    /// the fragment goes behind it, and the storage is cut off at `end`.
    pub open spec fn relocated(self, buf: Seq<u8>) -> Cursor {
        let l: Layout = self.layout;
        let at: nat = (self.at - l.end + buf.len()) as nat;
        let storage: Seq<u8> = self.pending() + buf + l.storage.subrange(at as int, l.end as int);
        Cursor { layout: Layout { storage, ..l }, at }
    }

    /// The cursor after the fragment `buf` has been written.
    pub open spec fn placed(self, buf: Seq<u8>, cap: nat) -> Cursor {
        match self.placement(buf.len(), cap) {
            Placement::InPlace => self.put_in_place(buf),
            Placement::Linearize => self.linearized(buf),
            Placement::Append => self.appended(buf),
            Placement::Relocate => self.relocated(buf),
        }
    }

    /// The layout once the record is complete: it ends at the cursor, and
    /// counts.
    pub open spec fn sealed(self) -> Layout {
        Layout { end: self.at, count: self.layout.count + 1, ..self.layout }
    }

    /// The cursor after the writes `frags`, first to last.
    pub open spec fn written(self, frags: Seq<Fragment>) -> Cursor
        decreases frags.len(),
    {
        if frags.len() == 0 {
            self
        } else {
            self.placed(frags[0].bytes, frags[0].cap).written(frags.drop_first())
        }
    }

    /// At each of the writes `frags` the capacity is at least the length of
    /// the storage.
    pub open spec fn admits(self, frags: Seq<Fragment>) -> bool
        decreases frags.len(),
    {
        frags.len() > 0 ==> {
            &&& frags[0].cap >= self.layout.storage.len()
            &&& self.placed(frags[0].bytes, frags[0].cap).admits(frags.drop_first())
        }
    }
}

} // verus!
