//! Sorting numbers.
use vstd::prelude::*;
use vstd::relations::{sorted_by, total_ordering};

verus! {

/// The order of numbers by value.
pub open spec fn by_value() -> spec_fn(u128, u128) -> bool {
    |a: u128, b: u128| a <= b
}

/// Numbers from the smallest to the greatest.
pub open spec fn ascending(s: Seq<u128>) -> Seq<u128> {
    s.sort_by(by_value())
}

/// Merges two sorted runs.
fn merge(a: &Vec<u128>, b: &Vec<u128>) -> (r: Vec<u128>)
    requires
        sorted_by(a@, by_value()),
        sorted_by(b@, by_value()),
    ensures
        sorted_by(r@, by_value()),
        r@.to_multiset() == (a@ + b@).to_multiset(),
{
    let mut out: Vec<u128> = Vec::new();
    let mut i: usize = 0;
    let mut j: usize = 0;
    proof {
        assert(a@.take(0) + b@.take(0) =~= out@);
    }
    while i < a.len() || j < b.len()
        invariant
            i <= a@.len(),
            j <= b@.len(),
            sorted_by(a@, by_value()),
            sorted_by(b@, by_value()),
            sorted_by(out@, by_value()),
            forall|k: int, m: int|
                0 <= k < out@.len() && i <= m < a@.len() ==> #[trigger] out@[k] <= #[trigger] a@[m],
            forall|k: int, m: int|
                0 <= k < out@.len() && j <= m < b@.len() ==> #[trigger] out@[k] <= #[trigger] b@[m],
            out@.to_multiset() == (a@.take(i as int) + b@.take(j as int)).to_multiset(),
        decreases a@.len() - i + b@.len() - j,
    {
        let ghost before = out@;
        let take_a = j >= b.len() || (i < a.len() && a[i] <= b[j]);
        let next: u128 = if take_a {
            a[i]
        } else {
            b[j]
        };
        proof {
            broadcast use vstd::seq_lib::group_to_multiset_ensures;

            let whole = a@.take(i as int) + b@.take(j as int);
            if take_a {
                vstd::seq_lib::lemma_multiset_commutative(a@.take(i as int), b@.take(j as int));
                vstd::seq_lib::lemma_multiset_commutative(a@.take(i + 1), b@.take(j as int));
                assert(a@.take(i + 1) =~= a@.take(i as int).push(next));
                assert((a@.take(i + 1) + b@.take(j as int)).to_multiset()
                    =~= whole.to_multiset().insert(next));
            } else {
                assert(a@.take(i as int) + b@.take(j + 1) =~= whole.push(next));
                assert((a@.take(i as int) + b@.take(j + 1)).to_multiset()
                    == whole.to_multiset().insert(next));
            }
            assert(before.push(next).to_multiset() == before.to_multiset().insert(next));
            assert forall|k: int, m: int| 0 <= k <= m < before.push(next).len() implies (
            #[trigger] before.push(next)[k]) <= (#[trigger] before.push(next)[m]) by {
                if m < before.len() {
                    assert(by_value()(before[k], before[m]));
                }
            }
            if take_a {
                assert forall|m: int| j <= m < b@.len() implies next <= #[trigger] b@[m] by {
                    assert(by_value()(b@[j as int], b@[m]));
                }
                assert forall|m: int| i < m < a@.len() implies next <= #[trigger] a@[m] by {
                    assert(by_value()(a@[i as int], a@[m]));
                }
            } else {
                assert forall|m: int| i <= m < a@.len() implies next <= #[trigger] a@[m] by {
                    assert(by_value()(a@[i as int], a@[m]));
                }
                assert forall|m: int| j < m < b@.len() implies next <= #[trigger] b@[m] by {
                    assert(by_value()(b@[j as int], b@[m]));
                }
            }
        }
        out.push(next);
        if take_a {
            i = i + 1;
        } else {
            j = j + 1;
        }
    }
    proof {
        assert(a@.take(i as int) =~= a@);
        assert(b@.take(j as int) =~= b@);
    }
    out
}

/// Sorts a part of a list.
fn sort_range(v: &Vec<u128>, start: usize, end: usize) -> (r: Vec<u128>)
    requires
        start <= end <= v@.len(),
    ensures
        sorted_by(r@, by_value()),
        r@.to_multiset() == v@.subrange(start as int, end as int).to_multiset(),
    decreases end - start,
{
    if end - start <= 1 {
        let mut out: Vec<u128> = Vec::new();
        if start < end {
            out.push(v[start]);
        }
        assert(out@ =~= v@.subrange(start as int, end as int));
        return out;
    }
    let mid: usize = start + (end - start) / 2;
    let left = sort_range(v, start, mid);
    let right = sort_range(v, mid, end);
    let out = merge(&left, &right);
    proof {
        let a = v@.subrange(start as int, mid as int);
        let b = v@.subrange(mid as int, end as int);
        vstd::seq_lib::lemma_multiset_commutative(left@, right@);
        vstd::seq_lib::lemma_multiset_commutative(a, b);
        assert(a + b =~= v@.subrange(start as int, end as int));
    }
    out
}

/// Sorts a list of numbers.
pub fn sort(v: &Vec<u128>) -> (r: Vec<u128>)
    ensures
        r@ == ascending(v@),
        r@.len() == v@.len(),
{
    let out = sort_range(v, 0, v.len());
    proof {
        broadcast use vstd::seq_lib::group_to_multiset_ensures;

        assert(v@.subrange(0, v@.len() as int) =~= v@);
        assert(total_ordering(by_value()));
        v@.lemma_sort_by_ensures(by_value());
        vstd::seq_lib::lemma_sorted_unique(out@, ascending(v@), by_value());
        assert(out@.to_multiset().len() == out@.len());
        assert(v@.to_multiset().len() == v@.len());
    }
    out
}

} // verus!
