//! Sorting of coordinates and ruling lines.

use vstd::prelude::*;

use crate::render::Line;

verus! {

broadcast use {vstd::seq_lib::group_to_multiset_ensures, vstd::multiset::group_multiset_axioms};

/// Placing an element anywhere in a sequence adds it to the sequence's multiset.
pub proof fn lemma_insert_to_multiset<A>(s: Seq<A>, j: int, a: A)
    requires
        0 <= j <= s.len(),
    ensures
        s.insert(j, a).to_multiset() =~= s.to_multiset().insert(a),
{
    let l = s.take(j);
    let r = s.skip(j);
    assert(s.insert(j, a) =~= l.push(a) + r);
    assert(s =~= l + r);
    vstd::seq_lib::lemma_multiset_commutative(l.push(a), r);
    vstd::seq_lib::lemma_multiset_commutative(l, r);
}

/// A sequence of numbers in ascending order.
pub open spec fn ascending(s: Seq<u32>) -> bool {
    forall|i: int, j: int| 0 <= i <= j < s.len() ==> s[i] <= s[j]
}

/// A sequence of numbers in strictly ascending order.
pub open spec fn strictly_ascending(s: Seq<u32>) -> bool {
    forall|i: int, j: int| 0 <= i < j < s.len() ==> s[i] < s[j]
}

/// Ruling lines in ascending order of `x1`.
pub open spec fn ascending_x1(s: Seq<Line>) -> bool {
    forall|i: int, j: int| 0 <= i <= j < s.len() ==> s[i].x1 <= s[j].x1
}

/// Sorts numbers in ascending order.
pub(crate) fn sort_u32(v: Vec<u32>) -> (r: Vec<u32>)
    ensures
        ascending(r@),
        r@.to_multiset() == v@.to_multiset(),
{
    let mut sorted: Vec<u32> = Vec::new();
    let n = v.len();
    let mut i: usize = 0;
    assert(v@.take(0) =~= Seq::<u32>::empty());
    while i < n
        invariant
            n == v@.len(),
            0 <= i <= n,
            ascending(sorted@),
            sorted@.to_multiset() == v@.take(i as int).to_multiset(),
        decreases n - i,
    {
        let a = v[i];
        let mut j = sorted.len();
        while j > 0 && sorted[j - 1] > a
            invariant
                0 <= j <= sorted@.len(),
                forall|k: int| j <= k < sorted@.len() ==> sorted@[k] > a,
            decreases j,
        {
            j = j - 1;
        }
        let ghost before = sorted@;
        sorted.insert(j, a);
        proof {
            lemma_insert_to_multiset(before, j as int, a);
            assert(v@.take(i + 1) =~= v@.take(i as int).push(a));
            assert forall|p: int, q: int| 0 <= p <= q < sorted@.len() implies sorted@[p]
                <= sorted@[q] by {
                if p < j && q > j {
                    assert(before[p] <= before[q - 1]);
                } else if p > j {
                    assert(before[p - 1] <= before[q - 1]);
                } else if q < j {
                } else if p == j && q > j {
                } else if p < j && q == j {
                    assert(before[p] <= before[j - 1]);
                }
            }
        }
        i = i + 1;
    }
    assert(v@.take(n as int) =~= v@);
    sorted
}

/// Sorts ruling lines in ascending order of `x1`.
pub(crate) fn sort_lines_by_x1(v: Vec<Line>) -> (r: Vec<Line>)
    ensures
        ascending_x1(r@),
        r@.to_multiset() == v@.to_multiset(),
{
    let mut sorted: Vec<Line> = Vec::new();
    let n = v.len();
    let mut i: usize = 0;
    assert(v@.take(0) =~= Seq::<Line>::empty());
    while i < n
        invariant
            n == v@.len(),
            0 <= i <= n,
            ascending_x1(sorted@),
            sorted@.to_multiset() == v@.take(i as int).to_multiset(),
        decreases n - i,
    {
        let a = v[i];
        let mut j = sorted.len();
        while j > 0 && sorted[j - 1].x1 > a.x1
            invariant
                0 <= j <= sorted@.len(),
                forall|k: int| j <= k < sorted@.len() ==> sorted@[k].x1 > a.x1,
            decreases j,
        {
            j = j - 1;
        }
        let ghost before = sorted@;
        sorted.insert(j, a);
        proof {
            lemma_insert_to_multiset(before, j as int, a);
            assert(v@.take(i + 1) =~= v@.take(i as int).push(a));
            assert forall|p: int, q: int| 0 <= p <= q < sorted@.len() implies sorted@[p].x1
                <= sorted@[q].x1 by {
                if p < j && q > j {
                    assert(before[p].x1 <= before[q - 1].x1);
                } else if p > j {
                    assert(before[p - 1].x1 <= before[q - 1].x1);
                } else if q < j {
                } else if p == j && q > j {
                } else if p < j && q == j {
                    assert(before[p].x1 <= before[j - 1].x1);
                }
            }
        }
        i = i + 1;
    }
    assert(v@.take(n as int) =~= v@);
    sorted
}

/// Drops the repeats from numbers in ascending order.
pub(crate) fn dedup_sorted(v: Vec<u32>) -> (r: Vec<u32>)
    requires
        ascending(v@),
    ensures
        strictly_ascending(r@),
        forall|y: u32| r@.contains(y) <==> v@.contains(y),
{
    let mut out: Vec<u32> = Vec::new();
    let n = v.len();
    let mut i: usize = 0;
    while i < n
        invariant
            n == v@.len(),
            ascending(v@),
            0 <= i <= n,
            strictly_ascending(out@),
            out@.len() > 0 ==> out@.last() == v@[i - 1],
            i > 0 ==> out@.len() > 0,
            i == 0 ==> out@.len() == 0,
            forall|y: u32| out@.contains(y) <==> v@.take(i as int).contains(y),
        decreases n - i,
    {
        let a = v[i];
        let ghost before = out@;
        if out.len() == 0 || out[out.len() - 1] != a {
            out.push(a);
            proof {
                if before.len() > 0 {
                    assert(v@[i - 1] <= v@[i as int]);
                    assert forall|p: int, q: int| 0 <= p < q < out@.len() implies out@[p]
                        < out@[q] by {
                        if q == out@.len() - 1 && p < q - 1 {
                            assert(before[p] < before[before.len() - 1]);
                        }
                    }
                }
            }
        }
        proof {
            let t = v@.take(i + 1);
            assert(t =~= v@.take(i as int).push(a));
            assert(out@.contains(a)) by {
                assert(out@[out@.len() - 1] == a);
            }
            assert forall|y: u32| out@.contains(y) implies t.contains(y) by {
                if y == a {
                    assert(t[i as int] == a);
                } else {
                    let k = choose|k: int| 0 <= k < out@.len() && #[trigger] out@[k] == y;
                    assert(before[k] == y);
                    assert(before.contains(y));
                    let m = choose|m: int| 0 <= m < i && #[trigger] v@.take(i as int)[m] == y;
                    assert(t[m] == y);
                }
            }
            assert forall|y: u32| t.contains(y) implies out@.contains(y) by {
                let k = choose|k: int| 0 <= k < i + 1 && #[trigger] t[k] == y;
                if k < i {
                    assert(v@.take(i as int)[k] == y);
                    assert(before.contains(y));
                    let m = choose|m: int| 0 <= m < before.len() && #[trigger] before[m] == y;
                    assert(out@[m] == y);
                }
            }
        }
        i = i + 1;
    }
    assert(v@.take(n as int) =~= v@);
    out
}

} // verus!
