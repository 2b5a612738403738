//! How the records of a queue lie in its layout, and that every move of the
//! read and write paths keeps them whole and in order.

use vstd::prelude::*;
use vstd::seq_lib::lemma_flatten_concat;
use crate::layout::{bytes_of, Cursor, Fragment, Layout, Placement};

verus! {

/// The bytes of a sequence of records are those of its first `k` records
/// followed by those of the others.
pub proof fn lemma_flatten_split(records: Seq<Seq<u8>>, k: int)
    requires
        0 <= k <= records.len(),
    ensures
        records.flatten() == records.take(k).flatten() + records.skip(k).flatten(),
{
    lemma_flatten_concat(records.take(k), records.skip(k));
    assert(records.take(k) + records.skip(k) =~= records);
}

/// The empty layout frames no records.
pub proof fn lemma_empty_frames()
    ensures
        Layout::empty().inv(),
        Layout::empty().frames(Seq::empty()),
{
    let l: Layout = Layout::empty();
    let none: Seq<Seq<u8>> = Seq::empty();
    assert(l.tail() =~= none.take(0).flatten());
    assert(l.front() =~= none.skip(0).flatten());
    assert(l.splits(none, 0));
}

/// A layout that frames `records` holds their bytes, oldest first.
pub proof fn lemma_frames_committed(l: Layout, records: Seq<Seq<u8>>)
    requires
        l.frames(records),
    ensures
        l.committed() == records.flatten(),
{
    let k: int = choose|k: int| l.splits(records, k);
    lemma_flatten_split(records, k);
}

/// A layout that keeps what an earlier one held frames the same records.
pub proof fn lemma_keeps_frames(l: Layout, earlier: Layout, records: Seq<Seq<u8>>)
    requires
        earlier.frames(records),
        l.keeps(earlier),
    ensures
        l.frames(records),
{
    let k: int = choose|k: int| earlier.splits(records, k);
    if l.tail() == earlier.tail() && l.front() == earlier.front() {
        assert(l.splits(records, k));
    } else {
        let n: int = records.len() as int;
        lemma_flatten_split(records, k);
        assert(records.take(n) =~= records);
        assert(records.skip(n) =~= Seq::<Seq<u8>>::empty());
        assert(l.splits(records, n));
    }
}

/// Keeping is transitive.
pub proof fn lemma_keeps_trans(a: Layout, b: Layout, c: Layout)
    requires
        b.keeps(a),
        c.keeps(b),
    ensures
        c.keeps(a),
{
    if c.tail() == b.tail() && c.front() == b.front() {
    } else {
        assert(b.committed() =~= a.committed());
    }
}

/// A layout that appends `rec` to an earlier one frames the records of the
/// earlier one with `rec` behind them.
pub proof fn lemma_appends_frames(l: Layout, earlier: Layout, records: Seq<Seq<u8>>, rec: Seq<u8>)
    requires
        earlier.frames(records),
        l.appends(earlier, rec),
    ensures
        l.frames(records.push(rec)),
{
    broadcast use Seq::lemma_flatten_push;
    let k: int = choose|k: int| earlier.splits(records, k);
    let more: Seq<Seq<u8>> = records.push(rec);
    lemma_flatten_split(records, k);
    if l.tail() == earlier.tail() && l.front() == earlier.front() + rec {
        assert(more.take(k) =~= records.take(k));
        assert(more.skip(k) =~= records.skip(k).push(rec));
        assert(l.splits(more, k));
    } else if l.tail() == earlier.committed() && l.front() == rec {
        let n: int = records.len() as int;
        assert(more.take(n) =~= records);
        assert(more.skip(n) =~= Seq::<Seq<u8>>::empty().push(rec));
        assert(l.splits(more, n));
    } else {
        let n: int = more.len() as int;
        assert(more.take(n) =~= more);
        assert(more.skip(n) =~= Seq::<Seq<u8>>::empty());
        assert(l.splits(more, n));
    }
}

/// Reading goes on from a layout that keeps what waits.
pub proof fn lemma_reclaimed_keeps(l: Layout)
    requires
        l.inv(),
    ensures
        l.reclaimed().inv(),
        l.reclaimed().keeps(l),
        l.reclaimed().start == l.reclaimed().storage.len() ==> l.reclaimed().committed().len() == 0,
{
    let r: Layout = l.reclaimed();
    if l.start == l.storage.len() {
        if l.wrapped() {
            assert(l.tail() =~= Seq::<u8>::empty());
            assert(r.tail() =~= l.front());
            assert(r.tail() =~= l.committed());
        } else {
            assert(r.tail() =~= l.tail());
        }
    }
}

/// The first of the framed records is what the decoder is handed first, and
/// once its bytes are read the layout frames the others.
pub proof fn lemma_popped_frames(l: Layout, records: Seq<Seq<u8>>)
    requires
        l.inv(),
        l.frames(records),
        records.len() > 0,
    ensures
        records[0].is_prefix_of(l.head()),
        l.popped(records[0].len()).inv(),
        l.popped(records[0].len()).frames(records.drop_first()),
{
    let r: Layout = l.reclaimed();
    lemma_reclaimed_keeps(l);
    lemma_keeps_frames(r, l, records);
    let k: int = choose|k: int| r.splits(records, k);
    let first: Seq<u8> = records[0];
    let rest: Seq<Seq<u8>> = records.drop_first();
    let p: Layout = l.popped(first.len());
    lemma_frames_committed(r, records);
    assert(records.flatten() == first + rest.flatten());
    if k > 0 {
        assert(records.take(k).drop_first() =~= rest.take(k - 1));
        assert(records.take(k).flatten() == first + rest.take(k - 1).flatten());
        assert(records.skip(k) =~= rest.skip(k - 1));
        assert(r.tail() == first + rest.take(k - 1).flatten());
        assert(first.is_prefix_of(r.tail()));
        assert(r.tail().is_prefix_of(l.head()));
        assert(p.tail() =~= r.tail().skip(first.len() as int));
        assert(p.tail() =~= rest.take(k - 1).flatten());
        assert(p.front() =~= r.front());
        assert(p.splits(rest, k - 1));
    } else {
        assert(records.take(0) =~= Seq::<Seq<u8>>::empty());
        assert(r.tail().len() == 0);
        assert(records.skip(0) =~= records);
        if r.wrapped() {
            assert(r.start == r.storage.len());
            assert(false);
        }
        assert(first.len() == 0);
        assert(first =~= Seq::<u8>::empty());
        assert(rest.flatten() =~= records.flatten());
        assert(rest.take(0) =~= Seq::<Seq<u8>>::empty());
        assert(rest.skip(0) =~= rest);
        assert(p == Layout { count: p.count, ..r });
        assert(p.splits(rest, 0));
    }
}

/// A record begins on a well-formed cursor with nothing written, in a layout
/// that keeps what waits.
pub proof fn lemma_opened(l: Layout)
    requires
        l.inv(),
    ensures
        l.opened().inv(),
        l.opened().layout.keeps(l),
        l.opened().pending() == Seq::<u8>::empty(),
{
    let c: Cursor = l.opened();
    if !l.wrapped() {
        assert(c.layout.tail() =~= l.tail());
    }
    assert(c.pending() =~= Seq::<u8>::empty());
}

/// Writing a fragment keeps the cursor well-formed and what waits untouched,
/// and puts the fragment behind what was written of the record, in one piece
/// with it.
pub proof fn lemma_placed(c: Cursor, buf: Seq<u8>, cap: nat)
    requires
        c.inv(),
        cap >= c.layout.storage.len(),
    ensures
        c.placed(buf, cap).inv(),
        c.placed(buf, cap).layout.keeps(c.layout),
        c.placed(buf, cap).pending() == c.pending() + buf,
{
    let l: Layout = c.layout;
    let d: Cursor = c.placed(buf, cap);
    let m: Layout = d.layout;
    match c.placement(buf.len(), cap) {
        Placement::InPlace => {
            assert(m.tail() =~= l.tail());
            assert(m.front() =~= l.front());
            assert(d.pending() =~= c.pending() + buf);
        },
        Placement::Linearize => {
            assert(m.tail() =~= l.committed());
            assert(d.pending() =~= c.pending() + buf);
        },
        Placement::Append => {
            assert(m.tail() =~= l.tail());
            assert(d.pending() =~= c.pending() + buf);
        },
        Placement::Relocate => {
            assert(m.tail() =~= l.tail());
            assert(d.pending() =~= c.pending() + buf);
        },
    }
}

/// Any run of writes keeps the cursor well-formed and what waits untouched,
/// and puts the bytes written, in their order, behind what was written of the
/// record before.
pub proof fn lemma_written(c: Cursor, frags: Seq<Fragment>)
    requires
        c.inv(),
        c.admits(frags),
    ensures
        c.written(frags).inv(),
        c.written(frags).layout.keeps(c.layout),
        c.written(frags).pending() == c.pending() + bytes_of(frags),
    decreases frags.len(),
{
    if frags.len() > 0 {
        let d: Cursor = c.placed(frags[0].bytes, frags[0].cap);
        lemma_placed(c, frags[0].bytes, frags[0].cap);
        lemma_written(d, frags.drop_first());
        lemma_keeps_trans(c.layout, d.layout, c.written(frags).layout);
        assert(c.pending() + frags[0].bytes + bytes_of(frags.drop_first()) =~= c.pending() + bytes_of(
            frags,
        ));
    } else {
        assert(c.pending() + bytes_of(frags) =~= c.pending());
    }
}

/// A complete record is appended to what waited when it was begun.
pub proof fn lemma_sealed(c: Cursor, earlier: Layout)
    requires
        c.inv(),
        c.layout.keeps(earlier),
    ensures
        c.sealed().inv(),
        c.sealed().appends(earlier, c.pending()),
{
    let l: Layout = c.layout;
    let s: Layout = c.sealed();
    if c.at < l.start {
        assert(s.tail() =~= l.tail());
        assert(s.front() =~= l.front() + c.pending());
        assert(Seq::<u8>::empty() + c.pending() =~= c.pending());
    } else {
        assert(s.tail() =~= l.tail() + c.pending());
        assert(l.front() =~= Seq::<u8>::empty());
        assert(l.committed() =~= l.tail());
        assert(earlier.committed() =~= l.committed()) by {
            if l.tail() == earlier.tail() && l.front() == earlier.front() {
            } else {
            }
        }
    }
}

/// A push appends the bytes that were written, in one piece and in their
/// order, to what waited.
pub proof fn lemma_pushed(l: Layout, earlier: Layout, frags: Seq<Fragment>)
    requires
        earlier.inv(),
        l.pushed(earlier, frags),
    ensures
        l.inv(),
        l.appends(earlier, bytes_of(frags)),
{
    let begun: Cursor = earlier.opened();
    let last: Cursor = begun.written(frags);
    lemma_opened(earlier);
    lemma_written(begun, frags);
    lemma_keeps_trans(earlier, begun.layout, last.layout);
    lemma_sealed(last, earlier);
    assert(begun.pending() + bytes_of(frags) =~= bytes_of(frags));
}

/// A push that is given up keeps what waited.
pub proof fn lemma_abandoned(l: Layout, earlier: Layout, frags: Seq<Fragment>)
    requires
        earlier.inv(),
        l.abandoned(earlier, frags),
    ensures
        l.inv(),
        l.keeps(earlier),
{
    let begun: Cursor = earlier.opened();
    lemma_opened(earlier);
    lemma_written(begun, frags);
    lemma_keeps_trans(earlier, begun.layout, l);
}

} // verus!
