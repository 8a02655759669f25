//! Request identifiers.
use vstd::prelude::*;

verus! {

/// The identifier handed out after `v`; the counter wraps past `u64::MAX`.
pub open spec fn successor(v: u64) -> u64 {
    if v == u64::MAX {
        0
    } else {
        (v + 1) as u64
    }
}

/// Hands out request identifiers in increasing order, starting at 1.
///
/// Callers that issue requests from several tasks share one generator behind
/// their own lock: each call needs the generator exclusively.
pub struct SequenceGenerator {
    upcoming: u64,
}

impl SequenceGenerator {
    /// The identifier that the next call of `next` returns.
    pub closed spec fn upcoming(&self) -> u64 {
        self.upcoming
    }

    /// A generator whose first identifier is 1.
    pub fn new() -> (r: SequenceGenerator)
        ensures
            r.upcoming() == 1,
    {
        SequenceGenerator { upcoming: 1 }
    }

    /// A generator whose first identifier is `first`.
    pub fn starting_at(first: u64) -> (r: SequenceGenerator)
        ensures
            r.upcoming() == first,
    {
        SequenceGenerator { upcoming: first }
    }

    /// Returns the upcoming identifier and moves past it.
    pub fn next(&mut self) -> (r: u64)
        ensures
            r == old(self).upcoming(),
            final(self).upcoming() == successor(old(self).upcoming()),
    {
        let r = self.upcoming;
        self.upcoming = if r == u64::MAX {
            0
        } else {
            r + 1
        };
        r
    }
}

/// `n` calls of `next` on a generator whose upcoming identifier is `first`,
/// with no wrap on the way, return `first, first + 1, ..., first + n - 1`: the
/// identifiers are pairwise distinct and strictly increasing.
///
/// `states[i]` is the generator before call `i` and `issued[i]` what that call
/// returned.
pub proof fn lemma_identifiers_distinct(
    first: u64,
    states: Seq<SequenceGenerator>,
    issued: Seq<u64>,
)
    requires
        states.len() == issued.len() + 1,
        states[0].upcoming() == first,
        first + issued.len() <= u64::MAX + 1,
        forall|i: int|
            0 <= i < issued.len() ==> #[trigger] issued[i] == states[i].upcoming()
                && states[i + 1].upcoming() == successor(states[i].upcoming()),
    ensures
        issued =~= Seq::new(issued.len(), |i: int| (first + i) as u64),
        forall|i: int, j: int| 0 <= i < j < issued.len() ==> issued[i] < issued[j],
{
    assert forall|i: int| 0 <= i < issued.len() implies #[trigger] states[i].upcoming() == first
        + i by {
        lemma_upcoming_after(first, states, issued, i);
    }
}

proof fn lemma_upcoming_after(
    first: u64,
    states: Seq<SequenceGenerator>,
    issued: Seq<u64>,
    k: int,
)
    requires
        states.len() == issued.len() + 1,
        states[0].upcoming() == first,
        first + issued.len() <= u64::MAX + 1,
        forall|i: int|
            0 <= i < issued.len() ==> #[trigger] issued[i] == states[i].upcoming()
                && states[i + 1].upcoming() == successor(states[i].upcoming()),
        0 <= k < issued.len(),
    ensures
        states[k].upcoming() == first + k,
    decreases k,
{
    if k > 0 {
        lemma_upcoming_after(first, states, issued, k - 1);
        assert(issued[k - 1] == states[k - 1].upcoming());
    }
}

} // verus!
