//! Enumeration of the stack variables in scope at an address.

use vstd::prelude::*;
use crate::dwarf::{die_ranges, Die, LocEntry, Tag};
use crate::frames::{attr_of, str_attr, FullContext, Function, StrAttr};
use crate::range::{any_covers, any_range_covers};

verus! {

/// A variable live at the probed address, with its location expression.
#[derive(Clone, Debug)]
pub struct StackVar {
    pub name: Option<String>,
    pub expr: Vec<u8>,
}

/// The variables found at one address, handed out one at a time.
pub struct StackVarIter {
    pub vars: Vec<StackVar>,
}

impl StackVarIter {
    /// The next variable, if any is left.
    pub fn next(&mut self) -> (r: Option<StackVar>)
        ensures
            old(self).vars@.len() > 0 ==> r == Some(old(self).vars@[0])
                && final(self).vars@ == old(self).vars@.drop_first(),
            old(self).vars@.len() == 0 ==> r.is_none() && final(self).vars@ == old(self).vars@,
    {
        if self.vars.len() > 0 {
            let v = self.vars.remove(0);
            proof {
                assert(self.vars@ =~= old(self).vars@.drop_first());
            }
            Some(v)
        } else {
            None
        }
    }
}

/// Entry `k` lies in the subtree of entry `a`.
pub open spec fn encloses(dies: Seq<Die>, a: int, k: int) -> bool {
    &&& 0 <= a < k < dies.len()
    &&& forall|j: int| a < j <= k ==> (#[trigger] dies[j]).depth > dies[a].depth
}

/// A lexical block whose ranges cover `pc`, or that has none.
pub open spec fn admits(d: Die, pc: u64) -> bool {
    d.tag == Tag::LexicalBlock && match die_ranges(d) {
        Some(rs) => any_covers(rs, pc),
        None => true,
    }
}

/// Entry `k` is below entry `f`, and every entry between them on the path
/// from `f` is a lexical block that admits `pc`.
pub open spec fn in_scope(dies: Seq<Die>, f: int, k: int, pc: u64) -> bool {
    &&& encloses(dies, f, k)
    &&& forall|a: int| f < a < k && #[trigger] encloses(dies, a, k) ==> admits(dies[a], pc)
}

/// `i` is the first entry of the list that covers `pc`.
pub open spec fn first_cover(list: Seq<LocEntry>, pc: u64, i: int) -> bool {
    &&& 0 <= i < list.len()
    &&& list[i].range.covers(pc)
    &&& forall|j: int| 0 <= j < i ==> !(#[trigger] list[j]).range.covers(pc)
}

/// Entry `d` is a variable with a location-list entry that covers `pc`.
pub open spec fn live_at(d: Die, pc: u64) -> bool {
    d.tag == Tag::Variable && match d.location {
        Some(list) => exists|i: int| #[trigger] first_cover(list@, pc, i),
        None => false,
    }
}

/// `v` reports variable entry `k`: its name, and the expression of its
/// first location-list entry that covers `pc`.
pub open spec fn reports(dies: Seq<Die>, k: int, pc: u64, v: StackVar) -> bool {
    &&& v.name == attr_of(dies, k, StrAttr::Name)
    &&& match dies[k].location {
        Some(list) => exists|i: int| #[trigger] first_cover(list@, pc, i) && v.expr@ == list@[i].expr@,
        None => false,
    }
}

/// `vars` reports, in order, the entries `ks`: exactly the variables in
/// scope below `f` that are live at `pc`.
pub open spec fn found_at(dies: Seq<Die>, f: int, pc: u64, ks: Seq<int>, vars: Seq<StackVar>) -> bool {
    &&& ks.len() == vars.len()
    &&& forall|a: int, b: int| 0 <= a < b < ks.len() ==> #[trigger] ks[a] < #[trigger] ks[b]
    &&& forall|i: int| 0 <= i < ks.len() ==> in_scope(dies, f, #[trigger] ks[i], pc)
        && live_at(dies[ks[i]], pc) && reports(dies, ks[i], pc, vars[i])
    &&& forall|k: int| in_scope(dies, f, k, pc) && live_at(dies[k], pc) ==> #[trigger] ks.contains(k)
}

/// The expression of the first entry of `list` that covers `pc`.
fn find_cover(list: &Vec<LocEntry>, pc: u64) -> (r: Option<Vec<u8>>)
    ensures
        match r {
            Some(e) => exists|i: int| #[trigger] first_cover(list@, pc, i) && e@ == list@[i].expr@,
            None => forall|i: int| !(#[trigger] first_cover(list@, pc, i)),
        },
{
    let mut i: usize = 0;
    while i < list.len()
        invariant
            i <= list@.len(),
            forall|j: int| 0 <= j < i ==> !(#[trigger] list@[j]).range.covers(pc),
        decreases list@.len() - i,
    {
        if list[i].range.contains(pc) {
            let src = &list[i].expr;
            let mut e: Vec<u8> = Vec::new();
            let mut b: usize = 0;
            while b < src.len()
                invariant
                    b <= src@.len(),
                    e@ == src@.subrange(0, b as int),
                decreases src@.len() - b,
            {
                e.push(src[b]);
                b = b + 1;
                assert(e@ =~= src@.subrange(0, b as int));
            }
            assert(e@ =~= src@);
            assert(first_cover(list@, pc, i as int));
            return Some(e);
        }
        i = i + 1;
    }
    None
}

/// No entry after `a` and before `k` has left the subtree of `a`.
pub open spec fn open_at(dies: Seq<Die>, a: int, k: int) -> bool {
    forall|j: int| a < j < k ==> (#[trigger] dies[j]).depth > dies[a].depth
}

/// Every entry still open at `k`, above the depth being skipped, admits `pc`.
pub open spec fn chain_ok(dies: Seq<Die>, f: int, k: int, pc: u64, skip: Option<usize>) -> bool {
    forall|a: int| f < a < k && #[trigger] open_at(dies, a, k) && (skip matches Some(t) ==> dies[a].depth < t)
        ==> admits(dies[a], pc)
}

/// When skipping, `root` is the open entry whose subtree is skipped.
pub open spec fn skip_ok(dies: Seq<Die>, f: int, k: int, pc: u64, skip: Option<usize>, root: int) -> bool {
    skip matches Some(t) ==> f < root < k && dies[root].depth == t && !admits(dies[root], pc)
        && open_at(dies, root, k)
}

proof fn lemma_visible(dies: Seq<Die>, f: int, k: int, pc: u64, skip: Option<usize>, root: int)
    requires
        encloses(dies, f, k),
        chain_ok(dies, f, k, pc, skip),
        skip_ok(dies, f, k, pc, skip, root),
    ensures
        (match skip {
            Some(t) => dies[k].depth <= t,
            None => true,
        }) == in_scope(dies, f, k, pc),
{
    let visible = match skip {
        Some(t) => dies[k].depth <= t,
        None => true,
    };
    if visible {
        assert forall|a: int| f < a < k && #[trigger] encloses(dies, a, k) implies admits(dies[a], pc) by {
            assert(open_at(dies, a, k));
            assert(dies[k].depth > dies[a].depth);
        }
    } else {
        assert(encloses(dies, root, k));
    }
}

proof fn lemma_step(
    dies: Seq<Die>,
    f: int,
    k: int,
    pc: u64,
    skip: Option<usize>,
    root: int,
    next: Option<usize>,
    next_root: int,
)
    requires
        encloses(dies, f, k),
        chain_ok(dies, f, k, pc, skip),
        skip_ok(dies, f, k, pc, skip, root),
        next == (if !(match skip {
            Some(t) => dies[k].depth <= t,
            None => true,
        }) {
            skip
        } else if admits(dies[k], pc) {
            None
        } else {
            Some(dies[k].depth)
        }),
        next_root == (if (match skip {
            Some(t) => dies[k].depth <= t,
            None => true,
        }) { k } else { root }),
    ensures
        chain_ok(dies, f, k + 1, pc, next),
        skip_ok(dies, f, k + 1, pc, next, next_root),
{
    assert forall|a: int| f < a < k + 1 && #[trigger] open_at(dies, a, k + 1) && (next matches Some(t) ==> dies[a].depth < t)
        implies admits(dies[a], pc) by {
        if a < k {
            assert(open_at(dies, a, k));
            assert(dies[k].depth > dies[a].depth);
        }
    }
    if next.is_some() && next_root == root {
        assert(open_at(dies, root, k + 1));
    }
}

proof fn lemma_record(
    dies: Seq<Die>,
    f: int,
    k: int,
    pc: u64,
    visible: bool,
    ks0: Seq<int>,
    vars0: Seq<StackVar>,
    ks: Seq<int>,
    vars: Seq<StackVar>,
)
    requires
        visible == in_scope(dies, f, k, pc),
        ks0.len() == vars0.len(),
        forall|a: int, b: int| 0 <= a < b < ks0.len() ==> #[trigger] ks0[a] < #[trigger] ks0[b],
        forall|i: int| 0 <= i < ks0.len() ==> f < #[trigger] ks0[i] < k,
        forall|i: int| 0 <= i < ks0.len() ==> in_scope(dies, f, #[trigger] ks0[i], pc)
            && live_at(dies[ks0[i]], pc) && reports(dies, ks0[i], pc, vars0[i]),
        forall|q: int| f < q < k && in_scope(dies, f, q, pc) && live_at(dies[q], pc) ==> #[trigger] ks0.contains(q),
        (ks == ks0 && vars == vars0 && !(visible && live_at(dies[k], pc))) || (ks == ks0.push(k)
            && vars == vars0.push(vars.last()) && visible && live_at(dies[k], pc)
            && reports(dies, k, pc, vars.last())),
    ensures
        ks.len() == vars.len(),
        forall|a: int, b: int| 0 <= a < b < ks.len() ==> #[trigger] ks[a] < #[trigger] ks[b],
        forall|i: int| 0 <= i < ks.len() ==> f < #[trigger] ks[i] < k + 1,
        forall|i: int| 0 <= i < ks.len() ==> in_scope(dies, f, #[trigger] ks[i], pc)
            && live_at(dies[ks[i]], pc) && reports(dies, ks[i], pc, vars[i]),
        forall|q: int| f < q < k + 1 && in_scope(dies, f, q, pc) && live_at(dies[q], pc) ==> #[trigger] ks.contains(q),
{
    if ks != ks0 {
        assert forall|i: int| 0 <= i < ks0.len() implies vars[i] == vars0[i] by {}
        assert forall|q: int| f < q < k + 1 && in_scope(dies, f, q, pc) && live_at(dies[q], pc)
            implies #[trigger] ks.contains(q) by {
            if q == k {
                assert(ks[ks.len() - 1] == q);
            } else {
                assert(ks0.contains(q));
                let w = choose|w: int| 0 <= w < ks0.len() && ks0[w] == q;
                assert(ks[w] == q);
            }
        }
    }
}

impl Function {
    /// The variables in scope at `pc`, in DFS order: each variable below the
    /// function, reached through lexical blocks that admit `pc` only, whose
    /// location list has an entry covering `pc`.
    pub fn stack_variables_at(&self, ctx: &FullContext, pc: u64) -> (r: StackVarIter)
        requires
            ctx.wf(),
            self.unit_id < ctx.light.units@.len(),
            self.die < ctx.light.units@[self.unit_id as int].dies@.len(),
        ensures
            exists|ks: Seq<int>| #[trigger] found_at(ctx.light.units@[self.unit_id as int].dies@, self.die as int, pc, ks, r.vars@),
    {
        let dies = &ctx.light.units[self.unit_id].dies;
        let n = dies.len();
        let f = self.die;
        let top = dies[f].depth;
        let mut vars: Vec<StackVar> = Vec::new();
        let ghost mut ks: Seq<int> = Seq::empty();
        let mut skip: Option<usize> = None;
        let ghost mut root: int = 0;
        let mut k: usize = f + 1;
        while k < n && dies[k].depth > top
            invariant
                n == dies@.len(),
                f < k <= n,
                top == dies@[f as int].depth,
                forall|j: int| f < j < k ==> (#[trigger] dies@[j]).depth > top,
                chain_ok(dies@, f as int, k as int, pc, skip),
                skip_ok(dies@, f as int, k as int, pc, skip, root),
                ks.len() == vars@.len(),
                forall|a: int, b: int| 0 <= a < b < ks.len() ==> #[trigger] ks[a] < #[trigger] ks[b],
                forall|i: int| 0 <= i < ks.len() ==> f < #[trigger] ks[i] < k,
                forall|i: int| 0 <= i < ks.len() ==> in_scope(dies@, f as int, #[trigger] ks[i], pc)
                    && live_at(dies@[ks[i]], pc) && reports(dies@, ks[i], pc, vars@[i]),
                forall|q: int| f < q < k && in_scope(dies@, f as int, q, pc) && live_at(dies@[q], pc)
                    ==> #[trigger] ks.contains(q),
            decreases n - k,
        {
            let d = &dies[k];
            let visible = match skip {
                Some(s) => d.depth <= s,
                None => true,
            };
            proof {
                assert(encloses(dies@, f as int, k as int));
                lemma_visible(dies@, f as int, k as int, pc, skip, root);
            }
            let ghost vars_before = vars@;
            let ghost ks_before = ks;
            let mut next = skip;
            if visible {
                let mut recurse = false;
                match d.tag {
                    Tag::Variable => {
                        if let Some(list) = &d.location {
                            if let Some(expr) = find_cover(list, pc) {
                                let name = str_attr(dies, k, StrAttr::Name);
                                vars.push(StackVar { name, expr });
                                proof {
                                    ks = ks.push(k as int);
                                    assert(live_at(dies@[k as int], pc));
                                    assert(reports(dies@, k as int, pc, vars@.last()));
                                    assert(vars@ == vars_before.push(vars@.last()));
                                }
                            } else {
                                proof {
                                    assert(!live_at(dies@[k as int], pc));
                                }
                            }
                        }
                    },
                    Tag::LexicalBlock => {
                        recurse = match d.read_ranges() {
                            Some(rs) => any_range_covers(&rs, pc),
                            None => true,
                        };
                    },
                    _ => {},
                }
                proof {
                    assert(recurse == admits(dies@[k as int], pc));
                }
                next = if recurse {
                    None
                } else {
                    Some(d.depth)
                };
            }
            proof {
                let next_root = if visible { k as int } else { root };
                lemma_step(dies@, f as int, k as int, pc, skip, root, next, next_root);
                root = next_root;
                lemma_record(dies@, f as int, k as int, pc, visible, ks_before, vars_before, ks, vars@);
            }
            skip = next;
            k = k + 1;
        }
        proof {
            assert forall|q: int| in_scope(dies@, f as int, q, pc) && live_at(dies@[q], pc)
                implies #[trigger] ks.contains(q) by {
                if q >= k {
                    assert(k < dies@.len());
                    assert(dies@[k as int].depth <= top);
                }
            }
        }
        let r = StackVarIter { vars };
        proof {
            assert(dies@ == ctx.light.units@[self.unit_id as int].dies@);
            assert(found_at(dies@, f as int, pc, ks, r.vars@));
        }
        r
    }
}

} // verus!
