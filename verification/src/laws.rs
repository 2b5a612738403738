//! What holds of the queue as a whole, stated over its layouts.
//!
//! A push takes a layout to one that `appends` a record; a pop hands the
//! decoder `head()` and takes the layout to `popped(used)`, where `used` is
//! the number of bytes that the decoder read. The laws say what follows when
//! the decoder reads each record to its end and no further.

use vstd::prelude::*;
use crate::framing::{lemma_appends_frames, lemma_frames_committed, lemma_opened, lemma_placed,
    lemma_keeps_frames, lemma_popped_frames, lemma_sealed};
use crate::layout::{Cursor, Layout, Placement};

verus! {

/// The lengths of `records`.
pub open spec fn lengths(records: Seq<Seq<u8>>) -> Seq<nat> {
    records.map_values(|r: Seq<u8>| r.len())
}

/// What a run of pops reads from the layout `l`, where the decoder reads
/// `lens[i]` bytes at the `i`-th pop.
pub open spec fn drained(l: Layout, lens: Seq<nat>) -> Seq<Seq<u8>>
    decreases lens.len(),
{
    if lens.len() == 0 {
        Seq::empty()
    } else {
        seq![l.head().take(lens[0] as int)] + drained(l.popped(lens[0]), lens.drop_first())
    }
}

/// The layout after the run of pops of `drained`.
pub open spec fn drained_layout(l: Layout, lens: Seq<nat>) -> Layout
    decreases lens.len(),
{
    if lens.len() == 0 {
        l
    } else {
        drained_layout(l.popped(lens[0]), lens.drop_first())
    }
}

/// `layouts` is a run of pushes: each layout appends the record of the same
/// index to the layout before it.
pub open spec fn pushes(layouts: Seq<Layout>, records: Seq<Seq<u8>>) -> bool {
    &&& layouts.len() == records.len() + 1
    &&& forall|i: int| 0 <= i < layouts.len() ==> (#[trigger] layouts[i]).inv()
    &&& forall|i: int|
        0 <= i < records.len() ==> (#[trigger] layouts[i + 1]).appends(layouts[i], records[i])
}

/// Round trip: a record pushed into a queue that holds nothing is what the
/// next pop is handed, and once it is read the queue holds nothing again, with
/// the count that it had.
pub proof fn law_round_trip(before: Layout, after: Layout, rec: Seq<u8>)
    requires
        before.frames(Seq::empty()),
        after.inv(),
        after.appends(before, rec),
    ensures
        after.count == before.count + 1,
        after.head().take(rec.len() as int) == rec,
        after.popped(rec.len()).inv(),
        after.popped(rec.len()).count == before.count,
        after.popped(rec.len()).frames(Seq::empty()),
        after.popped(rec.len()).committed() == Seq::<u8>::empty(),
{
    let one: Seq<Seq<u8>> = Seq::<Seq<u8>>::empty().push(rec);
    lemma_appends_frames(after, before, Seq::empty(), rec);
    lemma_popped_frames(after, one);
    assert(one.drop_first() =~= Seq::<Seq<u8>>::empty());
    assert(after.head().take(rec.len() as int) =~= rec);
    lemma_frames_committed(after.popped(rec.len()), Seq::empty());
}

/// A run of pops on a layout that frames `records` reads exactly these
/// records, oldest first, and leaves nothing.
pub proof fn law_drained_in_order(l: Layout, records: Seq<Seq<u8>>)
    requires
        l.inv(),
        l.frames(records),
    ensures
        drained(l, lengths(records)) == records,
        drained_layout(l, lengths(records)).inv(),
        drained_layout(l, lengths(records)).frames(Seq::empty()),
    decreases records.len(),
{
    let lens: Seq<nat> = lengths(records);
    if records.len() > 0 {
        let rest: Seq<Seq<u8>> = records.drop_first();
        lemma_popped_frames(l, records);
        law_drained_in_order(l.popped(records[0].len()), rest);
        assert(lens.drop_first() =~= lengths(rest));
        assert(l.head().take(lens[0] as int) =~= records[0]);
        assert(seq![records[0]] + rest =~= records);
    } else {
        assert(records =~= Seq::<Seq<u8>>::empty());
    }
}

/// A run of pushes onto a layout that frames `first` ends in a layout that
/// frames `first` followed by the pushed records.
pub proof fn law_pushes_frame(layouts: Seq<Layout>, first: Seq<Seq<u8>>, records: Seq<Seq<u8>>)
    requires
        pushes(layouts, records),
        layouts[0].frames(first),
    ensures
        layouts.last().frames(first + records),
    decreases records.len(),
{
    if records.len() == 0 {
        assert(first + records =~= first);
    } else {
        let n: int = records.len() as int;
        assert(pushes(layouts.drop_last(), records.drop_last())) by {
            assert forall|i: int| 0 <= i < records.drop_last().len() implies (
            #[trigger] layouts.drop_last()[i + 1]).appends(
                layouts.drop_last()[i],
                records.drop_last()[i],
            ) by {
                assert(layouts[i + 1].appends(layouts[i], records[i]));
            }
        }
        law_pushes_frame(layouts.drop_last(), first, records.drop_last());
        assert(layouts[n].appends(layouts[n - 1], records[n - 1]));
        lemma_appends_frames(layouts[n], layouts[n - 1], first + records.drop_last(), records[n - 1]);
        assert((first + records.drop_last()).push(records[n - 1]) =~= first + records);
    }
}

/// First in, first out: after any run of pushes onto a queue that holds
/// nothing, a run of pops reads the pushed records in the order in which they
/// were pushed.
pub proof fn law_fifo(layouts: Seq<Layout>, records: Seq<Seq<u8>>)
    requires
        pushes(layouts, records),
        layouts[0].frames(Seq::empty()),
    ensures
        layouts.last().count == records.len(),
        drained(layouts.last(), lengths(records)) == records,
        drained_layout(layouts.last(), lengths(records)).count == 0,
{
    law_pushes_frame(layouts, Seq::empty(), records);
    assert(Seq::<Seq<u8>>::empty() + records =~= records);
    law_drained_in_order(layouts.last(), records);
}

/// What a call of `push` or `pop` does to a queue, but for a pop whose
/// decoder fails.
pub enum Event {
    /// A push wrote this record.
    Pushed(Seq<u8>),
    /// A push was given up, because the encoder failed.
    Abandoned,
    /// A pop read a record of this many bytes.
    Popped(nat),
    /// A pop found no record.
    Nothing,
}

/// The event `e` takes the layout `before` to the layout `after`.
pub open spec fn step(before: Layout, after: Layout, e: Event) -> bool {
    match e {
        Event::Pushed(rec) => after.appends(before, rec),
        Event::Abandoned => after.keeps(before),
        Event::Popped(used) => before.count > 0 && after == before.popped(used),
        Event::Nothing => before.count == 0 && after == before,
    }
}

/// `layouts` are the layouts of a queue before, between and after `events`.
pub open spec fn history(layouts: Seq<Layout>, events: Seq<Event>) -> bool {
    &&& layouts.len() == events.len() + 1
    &&& forall|i: int|
        0 <= i < events.len() ==> step(layouts[i], layouts[i + 1], #[trigger] events[i])
}

/// The number of pushes among `events` that wrote a record.
pub open spec fn pushes_in(events: Seq<Event>) -> nat
    decreases events.len(),
{
    if events.len() == 0 {
        0
    } else {
        pushes_in(events.drop_last()) + if events.last() is Pushed {
            1nat
        } else {
            0nat
        }
    }
}

/// The number of pops among `events` that read a record.
pub open spec fn pops_in(events: Seq<Event>) -> nat
    decreases events.len(),
{
    if events.len() == 0 {
        0
    } else {
        pops_in(events.drop_last()) + if events.last() is Popped {
            1nat
        } else {
            0nat
        }
    }
}

/// The count is the number of pushes less the number of pops that read a
/// record, whatever else was called since the queue was made.
pub proof fn law_count(layouts: Seq<Layout>, events: Seq<Event>)
    requires
        history(layouts, events),
        layouts[0].count == 0,
    ensures
        layouts.last().count + pops_in(events) == pushes_in(events),
    decreases events.len(),
{
    if events.len() > 0 {
        let n: int = events.len() as int;
        assert(history(layouts.drop_last(), events.drop_last())) by {
            assert forall|i: int| 0 <= i < events.drop_last().len() implies step(
                layouts.drop_last()[i],
                layouts.drop_last()[i + 1],
                #[trigger] events.drop_last()[i],
            ) by {
                assert(step(layouts[i], layouts[i + 1], events[i]));
            }
        }
        law_count(layouts.drop_last(), events.drop_last());
        assert(step(layouts[n - 1], layouts[n], events[n - 1]));
    }
}

/// The records that wait after `events` in a queue that held `records`
/// before them, where each pop takes the oldest record.
pub open spec fn replay(records: Seq<Seq<u8>>, events: Seq<Event>) -> Seq<Seq<u8>>
    decreases events.len(),
{
    if events.len() == 0 {
        records
    } else {
        let before: Seq<Seq<u8>> = replay(records, events.drop_last());
        match events.last() {
            Event::Pushed(rec) => before.push(rec),
            Event::Popped(_) => before.drop_first(),
            _ => before,
        }
    }
}

/// Each pop among `events` read the oldest record to its end and no further.
pub open spec fn exact(records: Seq<Seq<u8>>, events: Seq<Event>) -> bool
    decreases events.len(),
{
    events.len() > 0 ==> {
        let before: Seq<Seq<u8>> = replay(records, events.drop_last());
        &&& exact(records, events.drop_last())
        &&& events.last() matches Event::Popped(used) ==> before.len() > 0 && used
            == before[0].len()
    }
}

/// The queue is a queue of records: as long as each pop reads its record to
/// the end and no further, the layout frames at any time the records that
/// were pushed and not yet popped, in the order of the pushes, and each pop
/// is handed bytes that begin with the oldest of them.
pub proof fn law_history(layouts: Seq<Layout>, events: Seq<Event>, records: Seq<Seq<u8>>)
    requires
        history(layouts, events),
        forall|i: int| 0 <= i < layouts.len() ==> (#[trigger] layouts[i]).inv(),
        layouts[0].frames(records),
        exact(records, events),
    ensures
        layouts.last().frames(replay(records, events)),
        forall|i: int|
            0 <= i < events.len() && (#[trigger] events[i]) is Popped ==> replay(
                records,
                events.take(i),
            )[0].is_prefix_of(layouts[i].head()),
    decreases events.len(),
{
    if events.len() > 0 {
        let n: int = events.len() as int;
        let earlier: Seq<Event> = events.drop_last();
        let before: Seq<Seq<u8>> = replay(records, earlier);
        assert(history(layouts.drop_last(), earlier)) by {
            assert forall|i: int| 0 <= i < earlier.len() implies step(
                layouts.drop_last()[i],
                layouts.drop_last()[i + 1],
                #[trigger] earlier[i],
            ) by {
                assert(step(layouts[i], layouts[i + 1], events[i]));
            }
        }
        law_history(layouts.drop_last(), earlier, records);
        assert(step(layouts[n - 1], layouts[n], events[n - 1]));
        assert(layouts[n - 1].inv());
        assert(events.take(n - 1) =~= earlier);
        match events.last() {
            Event::Pushed(rec) => {
                lemma_appends_frames(layouts[n], layouts[n - 1], before, rec);
            },
            Event::Abandoned => {
                lemma_keeps_frames(layouts[n], layouts[n - 1], before);
            },
            Event::Popped(used) => {
                lemma_popped_frames(layouts[n - 1], before);
            },
            Event::Nothing => {},
        }
        assert forall|i: int| 0 <= i < events.len() && (#[trigger] events[i]) is Popped implies replay(
            records,
            events.take(i),
        )[0].is_prefix_of(layouts[i].head()) by {
            if i < n - 1 {
                assert(earlier[i] is Popped);
                assert(earlier.take(i) =~= events.take(i));
            }
        }
    }
}

/// Wrapping keeps order: where a fragment that the end of the storage cannot
/// take finds room ahead of `start`, the record moves there whole, the
/// records that wait stay where they are, and the layout with the record
/// complete is wrapped and frames it behind the others.
pub proof fn law_relocation(c: Cursor, buf: Seq<u8>, cap: nat, records: Seq<Seq<u8>>)
    requires
        c.inv(),
        cap >= c.layout.storage.len(),
        c.layout.frames(records),
        c.placement(buf.len(), cap) == Placement::Relocate,
    ensures
        c.placed(buf, cap).inv(),
        c.placed(buf, cap).pending() == c.pending() + buf,
        c.placed(buf, cap).origin() == 0,
        c.placed(buf, cap).at < c.layout.start,
        c.placed(buf, cap).layout.tail() == c.layout.tail(),
        c.placed(buf, cap).layout.frames(records),
        c.placed(buf, cap).sealed().wrapped(),
        c.placed(buf, cap).sealed().frames(records.push(c.pending() + buf)),
        drained(c.placed(buf, cap).sealed(), lengths(records.push(c.pending() + buf)))
            == records.push(c.pending() + buf),
{
    let d: Cursor = c.placed(buf, cap);
    lemma_placed(c, buf, cap);
    lemma_keeps_frames(d.layout, c.layout, records);
    lemma_sealed(d, c.layout);
    lemma_appends_frames(d.sealed(), c.layout, records, d.pending());
    assert(d.layout.tail() =~= c.layout.tail());
    law_drained_in_order(d.sealed(), records.push(d.pending()));
}

/// Growing keeps order: new storage holds the bytes that wait in one span
/// from its beginning, in their order, and behind them the record with the
/// fragment at its end.
pub proof fn law_growth(c: Cursor, buf: Seq<u8>, cap: nat, records: Seq<Seq<u8>>)
    requires
        c.inv(),
        cap >= c.layout.storage.len(),
        c.layout.frames(records),
        c.placement(buf.len(), cap) == Placement::Linearize,
    ensures
        c.placed(buf, cap).inv(),
        c.placed(buf, cap).layout.start == 0,
        !c.placed(buf, cap).layout.wrapped(),
        c.placed(buf, cap).layout.storage == c.layout.committed() + c.pending() + buf,
        c.placed(buf, cap).layout.tail() == c.layout.committed(),
        c.placed(buf, cap).pending() == c.pending() + buf,
        c.placed(buf, cap).layout.frames(records),
        c.placed(buf, cap).sealed().frames(records.push(c.pending() + buf)),
        drained(c.placed(buf, cap).sealed(), lengths(records.push(c.pending() + buf)))
            == records.push(c.pending() + buf),
{
    let d: Cursor = c.placed(buf, cap);
    lemma_placed(c, buf, cap);
    lemma_keeps_frames(d.layout, c.layout, records);
    lemma_sealed(d, c.layout);
    lemma_appends_frames(d.sealed(), c.layout, records, d.pending());
    law_drained_in_order(d.sealed(), records.push(d.pending()));
    assert(d.layout.tail() =~= c.layout.committed());
    assert(d.layout.storage =~= c.layout.committed() + c.pending() + buf);
}

/// Records of no bytes: one is pushed by a writer that is never written to,
/// which moves no byte and counts one more; and one is popped by reading
/// nothing, which leaves the bytes that wait and counts one less. Either way
/// the other records stay framed, whether or not `start` and `end` agree.
pub proof fn law_zero_length(l: Layout, records: Seq<Seq<u8>>)
    requires
        l.inv(),
        l.frames(records),
    ensures
        l.opened().sealed().inv(),
        l.opened().sealed().count == l.count + 1,
        l.opened().sealed().committed() == l.committed(),
        l.opened().sealed().frames(records.push(Seq::empty())),
        records.len() > 0 && records[0].len() == 0 ==> {
            &&& l.popped(0).inv()
            &&& l.popped(0).count == l.count - 1
            &&& l.popped(0).committed() == l.committed()
            &&& l.popped(0).frames(records.drop_first())
        },
{
    let c: Cursor = l.opened();
    lemma_opened(l);
    lemma_sealed(c, l);
    lemma_appends_frames(c.sealed(), l, records, Seq::empty());
    lemma_frames_committed(l, records);
    lemma_frames_committed(c.sealed(), records.push(Seq::empty()));
    assert(records.push(Seq::<u8>::empty()).flatten() =~= records.flatten()) by {
        broadcast use Seq::lemma_flatten_push;
    }
    if records.len() > 0 && records[0].len() == 0 {
        lemma_popped_frames(l, records);
        lemma_frames_committed(l.popped(0), records.drop_first());
        assert(records[0] =~= Seq::<u8>::empty());
        assert(records.flatten() =~= records.drop_first().flatten());
    }
}

} // verus!
