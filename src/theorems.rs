//! Facts about the indexes and the results of lookups, proved from the
//! contracts of the functions they speak of.

use vstd::prelude::*;
use crate::context::{admitted, Context};
use crate::frames::{attr_of, own_attr, resolve_attr, FullContext, StrAttr};
use crate::range::Range;
use crate::table::{all_nonempty, disjoint_in_order, sorted_by_begin};
use crate::frames::Frame;
use crate::dwarf::{Die, UnitData};

verus! {

/// The unit-range index of a well-formed context, as `Context::new` builds
/// it, is sorted by `begin`, pairwise disjoint, and holds no empty range.
pub proof fn lemma_unit_ranges_ordered(c: Context)
    requires
        c.wf(),
    ensures
        sorted_by_begin(c.unit_ranges@),
        disjoint_in_order(c.unit_ranges@),
        all_nonempty(c.unit_ranges@),
{
    assert forall|a: int, b: int| 0 <= a < b < c.unit_ranges@.len() implies (#[trigger] c.unit_ranges@[a]).0.begin
        <= (#[trigger] c.unit_ranges@[b]).0.begin by {
        assert(c.unit_ranges@[a].0.begin < c.unit_ranges@[a].0.end);
    }
}

/// Ranges are half-open: a non-empty range holds its `begin` and not its `end`.
pub proof fn lemma_half_open(r: Range)
    requires
        r.begin < r.end,
    ensures
        r.covers(r.begin),
        !r.covers(r.end),
{
}

/// Frames come innermost first: when every matching function entry has a
/// linkage name, the functions' depths never increase along the frames, and
/// a frame without a function can only be the last one.
pub proof fn lemma_frames_ordered(fc: FullContext, pc: u64, frames: Seq<Frame>)
    requires
        fc.wf(),
        exists|order: Seq<usize>| #[trigger] fc.frames_for(pc, order, frames),
        forall|v: usize| #[trigger] fc.matched(pc, v) ==> attr_of(
            fc.unit_of(fc.funcs@[v as int]).dies@,
            fc.funcs@[v as int].die as int,
            StrAttr::LinkageName,
        ).is_some(),
    ensures
        forall|a: int, b: int|
            0 <= a < b < frames.len() && (#[trigger] frames[a]).function.is_some()
                && (#[trigger] frames[b]).function.is_some()
                ==> frames[a].function.unwrap().depth >= frames[b].function.unwrap().depth,
        forall|i: int| 0 <= i < frames.len() && (#[trigger] frames[i]).function.is_none() ==> i == frames.len() - 1,
{
    let order = choose|order: Seq<usize>| #[trigger] fc.frames_for(pc, order, frames);
    let n = order.len();
    assert forall|i: int| 0 <= i < n implies (#[trigger] frames[i]).function.is_some()
        && frames[i].function.unwrap().depth == fc.depth_at(order[i]) by {
        assert(order.contains(order[i]));
        assert(fc.matched(pc, order[i]));
        assert(fc.function_of(fc.funcs@[order[i] as int], frames[i].function));
    }
    assert forall|a: int, b: int|
        0 <= a < b < frames.len() && (#[trigger] frames[a]).function.is_some()
            && (#[trigger] frames[b]).function.is_some()
            implies frames[a].function.unwrap().depth >= frames[b].function.unwrap().depth by {
        if b >= n {
            assert(b == n);
            if n == 0 {
            } else {
            }
        }
    }
}

/// Two sequences strictly ordered by an asymmetric relation `lt` that hold
/// the same elements are equal.
pub proof fn lemma_ordered_unique<A>(s1: Seq<A>, s2: Seq<A>, lt: spec_fn(A, A) -> bool)
    requires
        forall|x: A, y: A| #[trigger] lt(x, y) ==> !lt(y, x),
        forall|a: int, b: int| 0 <= a < b < s1.len() ==> lt(#[trigger] s1[a], #[trigger] s1[b]),
        forall|a: int, b: int| 0 <= a < b < s2.len() ==> lt(#[trigger] s2[a], #[trigger] s2[b]),
        forall|x: A| s1.contains(x) <==> s2.contains(x),
    ensures
        s1 == s2,
    decreases s1.len() + s2.len(),
{
    if s1.len() == 0 || s2.len() == 0 {
        if s1.len() > 0 {
            assert(s1.contains(s1[0]));
        }
        if s2.len() > 0 {
            assert(s2.contains(s2[0]));
        }
        assert(s1 =~= s2);
    } else {
        assert(s1.contains(s1[0]));
        assert(s2.contains(s2[0]));
        let p = choose|p: int| 0 <= p < s2.len() && s2[p] == s1[0];
        let q = choose|q: int| 0 <= q < s1.len() && s1[q] == s2[0];
        if p > 0 {
            if q > 0 {
                assert(lt(s1[0], s1[q]));
                assert(lt(s2[0], s2[p]));
            }
        }
        assert(s1[0] == s2[0]) by {
            if p > 0 && q == 0 {
            }
        }
        let t1 = s1.drop_first();
        let t2 = s2.drop_first();
        assert forall|x: A| t1.contains(x) <==> t2.contains(x) by {
            if t1.contains(x) {
                let i = choose|i: int| 0 <= i < t1.len() && t1[i] == x;
                assert(s1[i + 1] == x);
                assert(lt(s1[0], x));
                assert(s2.contains(x));
                let w = choose|w: int| 0 <= w < s2.len() && s2[w] == x;
                assert(w != 0);
                assert(t2[w - 1] == x);
            }
            if t2.contains(x) {
                let i = choose|i: int| 0 <= i < t2.len() && t2[i] == x;
                assert(s2[i + 1] == x);
                assert(lt(s2[0], x));
                assert(s1.contains(x));
                let w = choose|w: int| 0 <= w < s1.len() && s1[w] == x;
                assert(w != 0);
                assert(t1[w - 1] == x);
            }
        }
        lemma_ordered_unique(t1, t2, lt);
        assert(s1 =~= s2) by {
            assert forall|i: int| 0 <= i < s1.len() implies s1[i] == s2[i] by {
                if i > 0 {
                    assert(t1[i - 1] == t2[i - 1]);
                }
            }
        }
    }
}

/// Building twice from the same units gives the same index: the same
/// units, with the same entries, line tables and attributes, and the same
/// unit ranges.
pub proof fn lemma_construction_deterministic(input: Seq<UnitData>, a: Context, b: Context)
    requires
        a.wf(),
        b.wf(),
        a.built_from(input),
        b.built_from(input),
    ensures
        a.unit_ranges@ == b.unit_ranges@,
        a.units@.len() == b.units@.len(),
        forall|i: int| 0 <= i < a.units@.len() ==> {
            let x = #[trigger] a.units@[i];
            let y = b.units@[i];
            &&& x.index == y.index
            &&& x.dies@ == y.dies@
            &&& x.files@ == y.files@
            &&& x.sequences@ == y.sequences@
            &&& x.seq_table@ == y.seq_table@
            &&& x.comp_dir == y.comp_dir
            &&& x.lang == y.lang
            &&& x.base_addr == y.base_addr
        },
{
    let ia = a.units@.map_values(|u: crate::context::UnitState| u.index as int);
    let ib = b.units@.map_values(|u: crate::context::UnitState| u.index as int);
    let id = |x: int, y: int| x < y;
    assert forall|k: int| ia.contains(k) <==> ib.contains(k) by {
        if ia.contains(k) {
            let i = choose|i: int| 0 <= i < ia.len() && ia[i] == k;
            assert(a.units@[i].index == k);
            assert(admitted(input[k]));
            let w = choose|w: int| 0 <= w < b.units@.len() && (#[trigger] b.units@[w]).index == k;
            assert(ib[w] == k);
        }
        if ib.contains(k) {
            let i = choose|i: int| 0 <= i < ib.len() && ib[i] == k;
            assert(b.units@[i].index == k);
            assert(admitted(input[k]));
            let w = choose|w: int| 0 <= w < a.units@.len() && (#[trigger] a.units@[w]).index == k;
            assert(ia[w] == k);
        }
    }
    assert forall|x: int, y: int| 0 <= x < y < ia.len() implies id(#[trigger] ia[x], #[trigger] ia[y]) by {
        assert(a.units@[x].index < a.units@[y].index);
    }
    assert forall|x: int, y: int| 0 <= x < y < ib.len() implies id(#[trigger] ib[x], #[trigger] ib[y]) by {
        assert(b.units@[x].index < b.units@[y].index);
    }
    lemma_ordered_unique(ia, ib, id);
    assert(ia.len() == ib.len());
    assert forall|i: int| 0 <= i < a.units@.len() implies (#[trigger] a.units@[i]).seq_table@ == b.units@[i].seq_table@
        && a.units@[i].index == b.units@[i].index by {
        assert(ia[i] == ib[i]);
        let x = a.units@[i];
        let y = b.units@[i];
        lemma_seq_table_unique(x, y);
    }
    lemma_unit_ranges_unique(a, b);
}

proof fn lemma_seq_table_unique(x: crate::context::UnitState, y: crate::context::UnitState)
    requires
        x.wf(),
        y.wf(),
        x.sequences@ == y.sequences@,
    ensures
        x.seq_table@ == y.seq_table@,
{
    let begin = |e: (Range, usize), f: (Range, usize)| e.0.begin < f.0.begin;
    assert forall|e: (Range, usize)| x.seq_table@.contains(e) <==> y.seq_table@.contains(e) by {
        if x.seq_table@.contains(e) {
            let i = choose|i: int| 0 <= i < x.seq_table@.len() && x.seq_table@[i] == e;
            assert(x.seq_table@[i].0.begin < x.seq_table@[i].0.end);
            assert(crate::context::isolated(y.sequences@, e.1 as int));
            let w = choose|w: int| 0 <= w < y.seq_table@.len() && (#[trigger] y.seq_table@[w]).1 == e.1;
            assert(y.seq_table@[w].0 == e.0);
            assert(y.seq_table@[w] == e);
        }
        if y.seq_table@.contains(e) {
            let i = choose|i: int| 0 <= i < y.seq_table@.len() && y.seq_table@[i] == e;
            assert(y.seq_table@[i].0.begin < y.seq_table@[i].0.end);
            assert(crate::context::isolated(x.sequences@, e.1 as int));
            let w = choose|w: int| 0 <= w < x.seq_table@.len() && (#[trigger] x.seq_table@[w]).1 == e.1;
            assert(x.seq_table@[w].0 == e.0);
            assert(x.seq_table@[w] == e);
        }
    }
    assert forall|p: int, q: int| 0 <= p < q < x.seq_table@.len() implies begin(#[trigger] x.seq_table@[p], #[trigger] x.seq_table@[q]) by {
        assert(x.seq_table@[p].0.begin < x.seq_table@[p].0.end);
    }
    assert forall|p: int, q: int| 0 <= p < q < y.seq_table@.len() implies begin(#[trigger] y.seq_table@[p], #[trigger] y.seq_table@[q]) by {
        assert(y.seq_table@[p].0.begin < y.seq_table@[p].0.end);
    }
    lemma_ordered_unique(x.seq_table@, y.seq_table@, begin);
}

proof fn lemma_unit_ranges_unique(a: Context, b: Context)
    requires
        a.wf(),
        b.wf(),
        a.units@.len() == b.units@.len(),
        forall|i: int| 0 <= i < a.units@.len() ==> (#[trigger] a.units@[i]).dies@ == b.units@[i].dies@,
        forall|i: int| 0 <= i < a.unit_ranges@.len() ==> {
            let (r, id) = #[trigger] a.unit_ranges@[i];
            id < a.units@.len() && a.units@[id as int].has_root_range(r)
        },
        forall|i: int| 0 <= i < b.unit_ranges@.len() ==> {
            let (r, id) = #[trigger] b.unit_ranges@[i];
            id < b.units@.len() && b.units@[id as int].has_root_range(r)
        },
        forall|id: int, j: int|
            0 <= id < a.units@.len() && #[trigger] a.units@[id].root_nonempty_at(j)
                ==> a.unit_ranges@.contains((a.units@[id].root_ranges().unwrap()[j], #[verifier::truncate] (id as usize))),
        forall|id: int, j: int|
            0 <= id < b.units@.len() && #[trigger] b.units@[id].root_nonempty_at(j)
                ==> b.unit_ranges@.contains((b.units@[id].root_ranges().unwrap()[j], #[verifier::truncate] (id as usize))),
    ensures
        a.unit_ranges@ == b.unit_ranges@,
{
    let begin = |e: (Range, usize), f: (Range, usize)| e.0.begin < f.0.begin;
    assert forall|e: (Range, usize)| a.unit_ranges@.contains(e) <==> b.unit_ranges@.contains(e) by {
        if a.unit_ranges@.contains(e) {
            let i = choose|i: int| 0 <= i < a.unit_ranges@.len() && a.unit_ranges@[i] == e;
            let id = e.1 as int;
            assert(e.0.begin < e.0.end);
            let rs = a.units@[id].root_ranges().unwrap();
            let j = choose|j: int| 0 <= j < rs.len() && rs[j] == e.0;
            assert(b.units@[id].root_nonempty_at(j));
        }
        if b.unit_ranges@.contains(e) {
            let i = choose|i: int| 0 <= i < b.unit_ranges@.len() && b.unit_ranges@[i] == e;
            let id = e.1 as int;
            assert(e.0.begin < e.0.end);
            let rs = b.units@[id].root_ranges().unwrap();
            let j = choose|j: int| 0 <= j < rs.len() && rs[j] == e.0;
            assert(a.units@[id].root_nonempty_at(j));
        }
    }
    assert forall|p: int, q: int| 0 <= p < q < a.unit_ranges@.len() implies begin(#[trigger] a.unit_ranges@[p], #[trigger] a.unit_ranges@[q]) by {
        assert(a.unit_ranges@[p].0.begin < a.unit_ranges@[p].0.end);
    }
    assert forall|p: int, q: int| 0 <= p < q < b.unit_ranges@.len() implies begin(#[trigger] b.unit_ranges@[p], #[trigger] b.unit_ranges@[q]) by {
        assert(b.unit_ranges@[p].0.begin < b.unit_ranges@[p].0.end);
    }
    lemma_ordered_unique(a.unit_ranges@, b.unit_ranges@, begin);
}

/// Querying depends on the context and the address alone: two results for
/// the same `pc` have as many frames, and at each position the same
/// function, or none.
pub proof fn lemma_query_deterministic(fc: FullContext, pc: u64, f1: Seq<Frame>, f2: Seq<Frame>)
    requires
        fc.wf(),
        exists|o: Seq<usize>| #[trigger] fc.frames_for(pc, o, f1),
        exists|o: Seq<usize>| #[trigger] fc.frames_for(pc, o, f2),
    ensures
        f1.len() == f2.len(),
        forall|i: int| 0 <= i < f1.len() ==> (#[trigger] f1[i]).function.is_some() == f2[i].function.is_some(),
        forall|i: int| 0 <= i < f1.len() && (#[trigger] f1[i]).function.is_some() ==> {
            let x = f1[i].function.unwrap();
            let y = f2[i].function.unwrap();
            x.unit_id == y.unit_id && x.die == y.die && x.depth == y.depth && x.language == y.language
                && x.name@ == y.name@
        },
{
    let o1 = choose|o: Seq<usize>| #[trigger] fc.frames_for(pc, o, f1);
    let o2 = choose|o: Seq<usize>| #[trigger] fc.frames_for(pc, o, f2);
    let lt = |a: usize, b: usize| fc.precedes(a, b);
    assert forall|x: usize| o1.contains(x) <==> o2.contains(x) by {
        assert(o1.contains(x) == fc.matched(pc, x));
        assert(o2.contains(x) == fc.matched(pc, x));
    }
    assert forall|a: int, b: int| 0 <= a < b < o1.len() implies lt(#[trigger] o1[a], #[trigger] o1[b]) by {}
    assert forall|a: int, b: int| 0 <= a < b < o2.len() implies lt(#[trigger] o2[a], #[trigger] o2[b]) by {}
    lemma_ordered_unique(o1, o2, lt);
    let n = o1.len();
    assert forall|i: int| 0 <= i < f1.len() implies (#[trigger] f1[i]).function.is_some() == f2[i].function.is_some()
        && (f1[i].function.is_some() ==> {
            let x = f1[i].function.unwrap();
            let y = f2[i].function.unwrap();
            x.unit_id == y.unit_id && x.die == y.die && x.depth == y.depth && x.language == y.language
                && x.name@ == y.name@
        }) by {
        if i < n {
            assert(fc.function_of(fc.funcs@[o1[i] as int], f1[i].function));
            assert(fc.function_of(fc.funcs@[o1[i] as int], f2[i].function));
        }
    }
}

/// A string attribute that an entry lacks is taken from its abstract
/// origin when the origin has it.
pub proof fn lemma_attr_from_origin(dies: Seq<Die>, i: int, o: usize, which: StrAttr)
    requires
        0 <= i < dies.len(),
        o < dies.len(),
        own_attr(dies[i], which).is_none(),
        dies[i].abstract_origin == Some(o),
        own_attr(dies[o as int], which).is_some(),
    ensures
        attr_of(dies, i, which) == own_attr(dies[o as int], which),
{
    assert(i != o);
    assert(dies.len() >= 2);
    let n = dies.len() as nat;
    reveal_with_fuel(resolve_attr, 2);
    assert(resolve_attr(dies, i, which, n) == resolve_attr(dies, o as int, which, (n - 1) as nat));
    assert(resolve_attr(dies, o as int, which, (n - 1) as nat) == own_attr(dies[o as int], which));
}

} // verus!
