//! Tables of `(range, payload)` pairs: sorted by `begin`, checked for
//! overlap, and searched by binary search.

use vstd::prelude::*;
use crate::range::Range;

verus! {

pub open spec fn all_nonempty(s: Seq<(Range, usize)>) -> bool {
    forall|i: int| 0 <= i < s.len() ==> (#[trigger] s[i]).0.begin < s[i].0.end
}

pub open spec fn sorted_by_begin(s: Seq<(Range, usize)>) -> bool {
    forall|a: int, b: int| 0 <= a < b < s.len() ==> (#[trigger] s[a]).0.begin <= (#[trigger] s[b]).0.begin
}

/// Every range ends before the next one begins.
pub open spec fn disjoint_in_order(s: Seq<(Range, usize)>) -> bool {
    forall|a: int, b: int| 0 <= a < b < s.len() ==> (#[trigger] s[a]).0.end <= (#[trigger] s[b]).0.begin
}

pub open spec fn overlap(x: Range, y: Range) -> bool {
    x.begin < y.end && y.begin < x.end
}

/// No two entries at distinct positions have ranges that share a value.
pub open spec fn overlap_free(s: Seq<(Range, usize)>) -> bool {
    forall|a: int, b: int|
        0 <= a < s.len() && 0 <= b < s.len() && a != b ==> !overlap((#[trigger] s[a]).0, (#[trigger] s[b]).0)
}

/// A table that binary search can use: non-empty ranges, in order, disjoint.
pub open spec fn table_wf(s: Seq<(Range, usize)>) -> bool {
    all_nonempty(s) && disjoint_in_order(s)
}

/// Sorts the table by `begin`, keeping its entries.
pub fn sort_by_begin(v: &mut Vec<(Range, usize)>)
    ensures
        final(v)@.len() == old(v)@.len(),
        final(v)@.to_multiset() == old(v)@.to_multiset(),
        sorted_by_begin(final(v)@),
{
    let n = v.len();
    let ghost orig = v@;
    proof {
        assert(v@.to_multiset() == orig.to_multiset());
    }
    let mut i: usize = 1;
    while i < n
        invariant
            v@.len() == n,
            n == orig.len(),
            1 <= i || n == 0,
            v@.to_multiset() == orig.to_multiset(),
            forall|a: int, b: int| 0 <= a < b < i && b < n ==> (#[trigger] v@[a]).0.begin <= (#[trigger] v@[b]).0.begin,
        decreases n - i,
    {
        let mut j: usize = i;
        while j > 0 && v[j - 1].0.begin > v[j].0.begin
            invariant
                v@.len() == n,
                i < n,
                j <= i,
                v@.to_multiset() == orig.to_multiset(),
                forall|a: int, b: int|
                    0 <= a < b <= i && a != j && b != j ==> (#[trigger] v@[a]).0.begin <= (#[trigger] v@[b]).0.begin,
                forall|b: int| j < b <= i ==> v@[j as int].0.begin < (#[trigger] v@[b]).0.begin,
            decreases j,
        {
            let x = v[j - 1];
            let y = v[j];
            let ghost before = v@;
            v.set(j - 1, y);
            v.set(j, x);
            proof {
                assert(v@ =~= before.update(j - 1, y).update(j as int, x));
                before.to_multiset_ensures();
                lemma_swap_multiset(before, j - 1, j as int);
            }
            j = j - 1;
        }
        i = i + 1;
    }
}

pub proof fn lemma_swap_multiset<A>(s: Seq<A>, a: int, b: int)
    requires
        0 <= a < s.len(),
        0 <= b < s.len(),
    ensures
        s.update(a, s[b]).update(b, s[a]).to_multiset() == s.to_multiset(),
{
    let t = s.update(a, s[b]);
    s.to_multiset_ensures();
    t.to_multiset_ensures();
    t.update(b, s[a]).to_multiset_ensures();
    vstd::seq_lib::to_multiset_update(s, a, s[b]);
    vstd::seq_lib::to_multiset_update(t, b, s[a]);
    assert(t.to_multiset().insert(s[a]).remove(t[b]) =~= s.to_multiset());
}

/// Whether no two entries of a table sorted by `begin` overlap; checks
/// neighbours only.
pub fn is_overlap_free(v: &Vec<(Range, usize)>) -> (r: bool)
    requires
        all_nonempty(v@),
        sorted_by_begin(v@),
    ensures
        r == overlap_free(v@),
        r ==> disjoint_in_order(v@),
{
    let n = v.len();
    let mut i: usize = 1;
    while i < n
        invariant
            n == v@.len(),
            all_nonempty(v@),
            sorted_by_begin(v@),
            1 <= i || n == 0,
            forall|a: int, b: int| 0 <= a < b < i && b < n ==> (#[trigger] v@[a]).0.end <= (#[trigger] v@[b]).0.begin,
        decreases n - i,
    {
        if v[i - 1].0.end > v[i].0.begin {
            proof {
                let a = i - 1;
                let b = i as int;
                assert(v@[a].0.begin <= v@[b].0.begin);
                assert(overlap(v@[a].0, v@[b].0));
            }
            return false;
        }
        proof {
            assert forall|a: int, b: int| 0 <= a < b < i + 1 && b < n implies (#[trigger] v@[a]).0.end
                <= (#[trigger] v@[b]).0.begin by {
                if b == i && a < i - 1 {
                    assert(v@[a].0.end <= v@[i - 1].0.begin);
                    assert(v@[i - 1].0.begin < v@[i - 1].0.end);
                }
            }
        }
        i = i + 1;
    }
    proof {
        assert forall|a: int, b: int|
            0 <= a < v@.len() && 0 <= b < v@.len() && a != b implies !overlap(
            (#[trigger] v@[a]).0,
            (#[trigger] v@[b]).0,
        ) by {
            if a < b {
                assert(v@[a].0.end <= v@[b].0.begin);
            } else {
                assert(v@[b].0.end <= v@[a].0.begin);
            }
        }
    }
    true
}

/// The position of the entry whose range covers `pc`, by binary search.
pub fn lookup(v: &Vec<(Range, usize)>, pc: u64) -> (r: Option<usize>)
    requires
        table_wf(v@),
    ensures
        match r {
            Some(i) => i < v@.len() && v@[i as int].0.covers(pc),
            None => forall|k: int| 0 <= k < v@.len() ==> !(#[trigger] v@[k]).0.covers(pc),
        },
{
    let mut lo: usize = 0;
    let mut hi: usize = v.len();
    while lo < hi
        invariant
            lo <= hi <= v@.len(),
            table_wf(v@),
            forall|k: int| 0 <= k < lo ==> !(#[trigger] v@[k]).0.covers(pc),
            forall|k: int| hi <= k < v@.len() ==> !(#[trigger] v@[k]).0.covers(pc),
        decreases hi - lo,
    {
        let mid = lo + (hi - lo) / 2;
        if pc < v[mid].0.begin {
            proof {
                assert forall|k: int| mid <= k < v@.len() implies !(#[trigger] v@[k]).0.covers(pc) by {
                    if k > mid {
                        assert(v@[mid as int].0.end <= v@[k].0.begin);
                    }
                }
            }
            hi = mid;
        } else if pc >= v[mid].0.end {
            proof {
                assert forall|k: int| 0 <= k <= mid implies !(#[trigger] v@[k]).0.covers(pc) by {
                    if k < mid {
                        assert(v@[k].0.end <= v@[mid as int].0.begin);
                    }
                }
            }
            lo = mid + 1;
        } else {
            return Some(mid);
        }
    }
    None
}

} // verus!
