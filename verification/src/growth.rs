//! The capacity that new storage is asked for when a queue outgrows its own.

use vstd::prelude::*;

verus! {

/// How far `cap` is below `needed`.
pub open spec fn gap(cap: nat, needed: nat) -> nat {
    if cap < needed {
        (needed - cap) as nat
    } else {
        0
    }
}

/// The first capacity that is at least `needed` in the sequence that begins
/// with `cap` and in which each capacity is followed by itself plus its half,
/// rounded down. A capacity whose half is zero does not grow by that rule:
/// for it the answer is `needed` itself.
pub open spec fn grown(cap: nat, needed: nat) -> nat
    decreases gap(cap, needed),
{
    let half: nat = cap / 2;
    if cap >= needed {
        cap
    } else if half == 0 {
        needed
    } else {
        grown(cap + half, needed)
    }
}

/// The `i`-th capacity of the sequence that begins with `cap`.
pub open spec fn step(cap: nat, i: nat) -> nat
    decreases i,
{
    if i == 0 {
        cap
    } else {
        let c: nat = step(cap, (i - 1) as nat);
        c + c / 2
    }
}

/// The grown capacity covers both what there was and what is needed.
pub proof fn lemma_grown_covers(cap: nat, needed: nat)
    ensures
        grown(cap, needed) >= needed,
        grown(cap, needed) >= cap,
    decreases gap(cap, needed),
{
    let half: nat = cap / 2;
    if cap < needed && half != 0 {
        lemma_grown_covers(cap + half, needed);
    }
}

/// From a capacity of two or more, the grown capacity is a member of the
/// sequence, and no earlier member is large enough.
pub proof fn lemma_grown_is_first(cap: nat, needed: nat) -> (j: nat)
    requires
        cap / 2 != 0,
    ensures
        grown(cap, needed) == step(cap, j),
        forall|i: nat| i < j ==> step(cap, i) < needed,
    decreases gap(cap, needed),
{
    if cap >= needed {
        0
    } else {
        let half: nat = cap / 2;
        let next: nat = cap + half;
        let j: nat = lemma_grown_is_first(next, needed);
        assert forall|i: nat| step(next, i) == step(cap, i + 1) by {
            lemma_step_shift(cap, i);
        }
        assert forall|i: nat| i < j + 1 implies step(cap, i) < needed by {
            if i > 0 {
                assert(step(next, (i - 1) as nat) == step(cap, ((i - 1) as nat) + 1));
            }
        }
        j + 1
    }
}

/// The sequence from the second capacity on is the sequence that begins with
/// the second capacity.
pub proof fn lemma_step_shift(cap: nat, i: nat)
    ensures
        step(cap + cap / 2, i) == step(cap, i + 1),
    decreases i,
{
    if i > 0 {
        lemma_step_shift(cap, (i - 1) as nat);
    } else {
        assert(step(cap, 0) == cap);
    }
}

/// The capacity to ask for when storage that can take `cap` bytes has to take
/// `needed`: the grown capacity, or `needed` itself where the grown capacity
/// is beyond what a `usize` can say.
pub fn next_capacity(cap: usize, needed: usize) -> (r: usize)
    ensures
        r == if grown(cap as nat, needed as nat) <= usize::MAX {
            grown(cap as nat, needed as nat)
        } else {
            needed as nat
        },
{
    let mut c: usize = cap;
    while c < needed
        invariant
            grown(c as nat, needed as nat) == grown(cap as nat, needed as nat),
        decreases gap(c as nat, needed as nat),
    {
        let half: usize = c / 2;
        if half == 0 {
            return needed;
        }
        if half > usize::MAX - c {
            proof {
                lemma_grown_covers((c + half) as nat, needed as nat);
            }
            return needed;
        }
        c = c + half;
    }
    c
}

} // verus!
