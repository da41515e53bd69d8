//! Facts about filtered sequences that the graph store relies on.

use vstd::prelude::*;

verus! {

/// Filtering keeps exactly the members that satisfy the predicate.
pub proof fn lemma_filter_members<A>(s: Seq<A>, pred: spec_fn(A) -> bool)
    ensures
        forall|x: A| #[trigger] s.filter(pred).contains(x) <==> (s.contains(x) && pred(x)),
    decreases s.len(),
{
    reveal(Seq::filter);
    if s.len() > 0 {
        let rest = s.drop_last();
        let last = s.last();
        lemma_filter_members(rest, pred);
        assert forall|x: A| #[trigger] s.filter(pred).contains(x) <==> (s.contains(x) && pred(
            x,
        )) by {
            let out = s.filter(pred);
            if out.contains(x) {
                let j = choose|j: int| 0 <= j < out.len() && out[j] == x;
                if pred(last) && j == out.len() - 1 {
                    assert(s[s.len() - 1] == x);
                } else {
                    assert(rest.filter(pred)[j] == x);
                    assert(rest.filter(pred).contains(x));
                    let k = choose|k: int| 0 <= k < rest.len() && rest[k] == x;
                    assert(s[k] == x);
                }
            }
            if s.contains(x) && pred(x) {
                let k = choose|k: int| 0 <= k < s.len() && s[k] == x;
                if k == s.len() - 1 {
                    assert(out[out.len() - 1] == x);
                } else {
                    assert(rest[k] == x);
                    assert(rest.filter(pred).contains(x));
                    let j = choose|j: int|
                        0 <= j < rest.filter(pred).len() && rest.filter(pred)[j] == x;
                    assert(out[j] == x);
                }
            }
        }
    }
}

/// Filtering a sequence without repeats leaves no repeats.
pub proof fn lemma_filter_no_duplicates<A>(s: Seq<A>, pred: spec_fn(A) -> bool)
    requires
        s.no_duplicates(),
    ensures
        s.filter(pred).no_duplicates(),
    decreases s.len(),
{
    reveal(Seq::filter);
    if s.len() > 0 {
        let rest = s.drop_last();
        let last = s.last();
        lemma_filter_no_duplicates(rest, pred);
        lemma_filter_members(rest, pred);
        if pred(last) {
            let out = s.filter(pred);
            assert forall|i: int, j: int| 0 <= i < out.len() && 0 <= j < out.len() && i != j implies out[i]
                != out[j] by {
                if i == out.len() - 1 || j == out.len() - 1 {
                    let k = if i == out.len() - 1 { j } else { i };
                    assert(rest.filter(pred)[k] == out[k]);
                    assert(rest.filter(pred).contains(out[k]));
                    if out[k] == last {
                        let m = choose|m: int| 0 <= m < rest.len() && rest[m] == last;
                        assert(s[m] == s[s.len() - 1]);
                    }
                } else {
                    assert(rest.filter(pred)[i] == out[i]);
                    assert(rest.filter(pred)[j] == out[j]);
                }
            }
        }
    }
}

/// What filtering does to a sequence that grew by one element.
pub proof fn lemma_filter_push<A>(s: Seq<A>, x: A, pred: spec_fn(A) -> bool)
    ensures
        s.push(x).filter(pred) == if pred(x) {
            s.filter(pred).push(x)
        } else {
            s.filter(pred)
        },
{
    reveal(Seq::filter);
    assert(s.push(x).drop_last() =~= s);
}

/// A predicate and its negation split a sequence into two parts whose
/// lengths add up to the whole.
pub proof fn lemma_filter_partition<A>(s: Seq<A>, keep: spec_fn(A) -> bool, drop: spec_fn(A) -> bool)
    requires
        forall|x: A| #[trigger] keep(x) == !drop(x),
    ensures
        s.filter(keep).len() + s.filter(drop).len() == s.len(),
    decreases s.len(),
{
    reveal(Seq::filter);
    if s.len() > 0 {
        lemma_filter_partition(s.drop_last(), keep, drop);
    }
}

/// Taking one value out of a sequence without repeats shortens it by one
/// if the value was there and leaves its length alone if not.
pub proof fn lemma_filter_out_one<A>(s: Seq<A>, x: A, pred: spec_fn(A) -> bool)
    requires
        s.no_duplicates(),
        forall|y: A| #[trigger] pred(y) == (y != x),
    ensures
        s.filter(pred).len() == s.len() - if s.contains(x) {
            1int
        } else {
            0int
        },
    decreases s.len(),
{
    reveal(Seq::filter);
    if s.len() > 0 {
        let rest = s.drop_last();
        lemma_filter_out_one(rest, x, pred);
        if s.last() == x {
            assert(s[s.len() - 1] == x);
            if rest.contains(x) {
                let k = choose|k: int| 0 <= k < rest.len() && rest[k] == x;
                assert(s[k] == s[s.len() - 1]);
            }
        } else {
            if s.contains(x) {
                let k = choose|k: int| 0 <= k < s.len() && s[k] == x;
                assert(rest[k] == x);
            }
            if rest.contains(x) {
                let k = choose|k: int| 0 <= k < rest.len() && rest[k] == x;
                assert(s[k] == x);
            }
        }
    }
}

} // verus!
