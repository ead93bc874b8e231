//! Reachability along a step relation on numbered things.
use vstd::prelude::*;

verus! {

/// Each element of `p` is one step from the one before it.
pub open spec fn is_chain(step: spec_fn(int, int) -> bool, p: Seq<int>) -> bool {
    &&& p.len() > 0
    &&& forall|i: int| #![trigger p[i + 1]] 0 <= i < p.len() - 1 ==> step(p[i], p[i + 1])
}

/// Some chain of steps leads from a start to `x`.
pub open spec fn reaches(step: spec_fn(int, int) -> bool, starts: Set<int>, x: int) -> bool {
    exists|p: Seq<int>| #[trigger] is_chain(step, p) && starts.contains(p[0]) && p.last() == x
}

/// A start is reached.
pub proof fn lemma_start(step: spec_fn(int, int) -> bool, starts: Set<int>, x: int)
    requires
        starts.contains(x),
    ensures
        reaches(step, starts, x),
{
    assert(is_chain(step, seq![x]));
}

/// What is one step from something reached is reached.
pub proof fn lemma_step(step: spec_fn(int, int) -> bool, starts: Set<int>, x: int, y: int)
    requires
        reaches(step, starts, x),
        step(x, y),
    ensures
        reaches(step, starts, y),
{
    let p = choose|p: Seq<int>|
        #[trigger] is_chain(step, p) && starts.contains(p[0]) && p.last() == x;
    let q = p.push(y);
    assert forall|i: int| #![trigger q[i + 1]] 0 <= i < q.len() - 1 implies step(q[i], q[i + 1]) by {
        if i + 1 < p.len() {
            assert(q[i + 1] == p[i + 1]);
        }
    }
    assert(is_chain(step, q));
}

/// A set that holds the starts and is closed under steps holds all that is
/// reached.
pub proof fn lemma_closed(
    step: spec_fn(int, int) -> bool,
    starts: Set<int>,
    within: Set<int>,
    x: int,
)
    requires
        forall|s: int| #[trigger] starts.contains(s) ==> within.contains(s),
        forall|a: int, b: int| within.contains(a) && #[trigger] step(a, b) ==> within.contains(b),
        reaches(step, starts, x),
    ensures
        within.contains(x),
{
    let p = choose|p: Seq<int>|
        #[trigger] is_chain(step, p) && starts.contains(p[0]) && p.last() == x;
    lemma_chain_within(step, within, p);
}

proof fn lemma_chain_within(step: spec_fn(int, int) -> bool, within: Set<int>, p: Seq<int>)
    requires
        is_chain(step, p),
        within.contains(p[0]),
        forall|a: int, b: int| within.contains(a) && #[trigger] step(a, b) ==> within.contains(b),
    ensures
        within.contains(p.last()),
    decreases p.len(),
{
    if p.len() > 1 {
        let q = p.drop_last();
        assert forall|i: int| #![trigger q[i + 1]] 0 <= i < q.len() - 1 implies step(
            q[i],
            q[i + 1],
        ) by {
            assert(q[i + 1] == p[i + 1]);
        }
        lemma_chain_within(step, within, q);
        assert(p[p.len() - 2 + 1] == p.last());
        assert(step(q.last(), p.last()));
    }
}

/// More starts reach at least as much.
pub proof fn lemma_monotone(
    step: spec_fn(int, int) -> bool,
    few: Set<int>,
    many: Set<int>,
    x: int,
)
    requires
        few.subset_of(many),
        reaches(step, few, x),
    ensures
        reaches(step, many, x),
{
    let p = choose|p: Seq<int>| #[trigger] is_chain(step, p) && few.contains(p[0]) && p.last() == x;
    assert(many.contains(p[0]));
}

/// Distinct numbers below `n` are at most `n`.
pub proof fn lemma_at_most(s: Seq<int>, n: int)
    requires
        s.no_duplicates(),
        0 <= n,
        forall|i: int| 0 <= i < s.len() ==> 0 <= #[trigger] s[i] < n,
    ensures
        s.len() <= n,
{
    let all = vstd::set_lib::set_int_range(0, n);
    vstd::set_lib::lemma_int_range(0, n);
    s.unique_seq_to_set();
    assert forall|x: int| s.to_set().contains(x) implies all.contains(x) by {}
    vstd::set_lib::lemma_len_subset(s.to_set(), all);
}

} // verus!
