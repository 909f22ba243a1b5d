//! The full context: the function index, and frame resolution by address.

use vstd::prelude::*;
use intervaltree::IntervalTree;
use crate::context::{file_at, lemma_same_contents, Context, Location, UnitState};
use crate::demangle::{cpp_demangled, demangle_cpp, demangle_rust, rust_demangled};
use crate::dwarf::{die_ranges, Die, Tag};
use crate::path::{render_file, rendered_path};
use crate::range::Range;
use crate::table::lemma_swap_multiset;
use crate::tree::{build_tree, tree_elements, tree_query_point};

verus! {

pub const DW_LANG_C_PLUS_PLUS: u16 = 0x0004;
pub const DW_LANG_C_PLUS_PLUS_03: u16 = 0x0019;
pub const DW_LANG_C_PLUS_PLUS_11: u16 = 0x001a;
pub const DW_LANG_RUST: u16 = 0x001c;
pub const DW_LANG_C_PLUS_PLUS_14: u16 = 0x0021;

/// A string attribute that may be inherited through `DW_AT_abstract_origin`.
#[derive(Clone, Copy, Debug, PartialEq, Eq, Structural)]
pub enum StrAttr {
    Name,
    LinkageName,
}

pub open spec fn own_attr(d: Die, which: StrAttr) -> Option<String> {
    match which {
        StrAttr::Name => d.name,
        StrAttr::LinkageName => d.linkage_name,
    }
}

/// The attribute of entry `i`, or of its abstract origin, following at most
/// `fuel` links.
pub open spec fn resolve_attr(dies: Seq<Die>, i: int, which: StrAttr, fuel: nat) -> Option<String>
    decreases fuel,
{
    if fuel == 0 || !(0 <= i < dies.len()) {
        None
    } else {
        match own_attr(dies[i], which) {
            Some(s) => Some(s),
            None => match dies[i].abstract_origin {
                Some(o) => resolve_attr(dies, o as int, which, (fuel - 1) as nat),
                None => None,
            },
        }
    }
}

/// The attribute of entry `i` of a unit, looked up through abstract origins.
/// A chain longer than the unit cannot be acyclic, so at most that many links
/// are followed.
pub open spec fn attr_of(dies: Seq<Die>, i: int, which: StrAttr) -> Option<String> {
    resolve_attr(dies, i, which, dies.len() as nat)
}

/// The string attribute `which` of entry `i`, found on the entry or through
/// its chain of abstract origins.
pub fn str_attr(dies: &Vec<Die>, i: usize, which: StrAttr) -> (r: Option<String>)
    ensures
        r == attr_of(dies@, i as int, which),
{
    let mut cur: usize = i;
    let mut fuel: usize = dies.len();
    while fuel > 0
        invariant
            fuel <= dies@.len(),
            attr_of(dies@, i as int, which) == resolve_attr(dies@, cur as int, which, fuel as nat),
        decreases fuel,
    {
        if cur >= dies.len() {
            return None;
        }
        let d = &dies[cur];
        let own = match which {
            StrAttr::Name => &d.name,
            StrAttr::LinkageName => &d.linkage_name,
        };
        match own {
            Some(s) => {
                return Some(s.clone());
            },
            None => match d.abstract_origin {
                Some(o) => {
                    cur = o;
                    fuel = fuel - 1;
                },
                None => {
                    return None;
                },
            },
        }
    }
    None
}

/// One range of a function entry: where it is and how deep it is nested.
#[derive(Clone, Copy, Debug, PartialEq, Eq, Structural)]
pub struct Func {
    pub range: Range,
    pub unit_id: usize,
    pub die: usize,
    pub depth: usize,
}

pub open spec fn is_function(t: Tag) -> bool {
    t == Tag::Subprogram || t == Tag::InlinedSubroutine
}

/// A function in a frame: its entry, its name and its unit's language.
#[derive(Clone, Debug)]
pub struct Function {
    pub unit_id: usize,
    pub die: usize,
    pub depth: usize,
    pub name: String,
    pub language: u16,
}

/// What `demangled_name` gives for a name in a language.
pub open spec fn demangled(lang: u16, name: Seq<char>) -> Option<Seq<char>> {
    if lang == DW_LANG_RUST {
        rust_demangled(name)
    } else if lang == DW_LANG_C_PLUS_PLUS || lang == DW_LANG_C_PLUS_PLUS_03 || lang == DW_LANG_C_PLUS_PLUS_11
        || lang == DW_LANG_C_PLUS_PLUS_14 {
        cpp_demangled(name)
    } else {
        None
    }
}

impl Function {
    /// The name as recorded in the debug information.
    pub fn raw_name(&self) -> (r: String)
        ensures
            r@ == self.name@,
    {
        self.name.clone()
    }

    /// The name demangled by the scheme of the function's language: Rust's
    /// for Rust, Itanium's for every C++ dialect, none otherwise.
    pub fn demangled_name(&self) -> (r: Option<String>)
        ensures
            match r {
                Some(d) => demangled(self.language, self.name@) == Some(d@),
                None => demangled(self.language, self.name@).is_none(),
            },
    {
        let lang = self.language;
        if lang == DW_LANG_RUST {
            demangle_rust(&self.name)
        } else if lang == DW_LANG_C_PLUS_PLUS || lang == DW_LANG_C_PLUS_PLUS_03 || lang == DW_LANG_C_PLUS_PLUS_11
            || lang == DW_LANG_C_PLUS_PLUS_14 {
            demangle_cpp(&self.name)
        } else {
            None
        }
    }
}

impl Function {
    /// The name to show: demangled when the language's scheme applies, else
    /// as recorded.
    pub fn display_name(&self) -> (r: String)
        ensures
            r@ == match demangled(self.language, self.name@) {
                Some(d) => d,
                None => self.name@,
            },
    {
        match self.demangled_name() {
            Some(d) => d,
            None => self.raw_name(),
        }
    }
}

/// A frame: the function active there, if named, and a source position.
#[derive(Clone, Debug)]
pub struct Frame {
    pub function: Option<Function>,
    pub location: Option<Location>,
}

/// The frames at one address, innermost first, handed out one at a time.
pub struct IterFrames {
    pub frames: Vec<Frame>,
}

impl IterFrames {
    /// The next frame, if any is left.
    pub fn next(&mut self) -> (r: Option<Frame>)
        ensures
            old(self).frames@.len() > 0 ==> r == Some(old(self).frames@[0])
                && final(self).frames@ == old(self).frames@.drop_first(),
            old(self).frames@.len() == 0 ==> r.is_none() && final(self).frames@ == old(self).frames@,
    {
        if self.frames.len() > 0 {
            let f = self.frames.remove(0);
            proof {
                assert(self.frames@ =~= old(self).frames@.drop_first());
            }
            Some(f)
        } else {
            None
        }
    }
}

/// The light context with its function index.
pub struct FullContext {
    pub light: Context,
    /// One record per range of every function entry.
    pub funcs: Vec<Func>,
    /// The ranges of `funcs`, each with its record's position.
    pub tree: IntervalTree<u64, usize>,
}

/// `r` is one of the ranges of `d`.
pub open spec fn has_range(d: Die, r: Range) -> bool {
    match die_ranges(d) {
        Some(rs) => rs.contains(r),
        None => false,
    }
}

/// The call-site position that an inlined entry records.
pub open spec fn call_site_location(u: UnitState, d: Die, l: Location) -> bool {
    &&& l.line == d.call_line
    &&& l.column == d.call_column
    &&& match d.call_file {
        Some(fi) => match file_at(u.files@, fi) {
            Some(fe) => l.file.is_some() && l.file.unwrap()@ == rendered_path(u.comp_dir, fe.directory, fe.path),
            None => l.file.is_none(),
        },
        None => l.file.is_none(),
    }
}

/// The position at which an inlined entry was called.
fn call_site(u: &UnitState, d: &Die) -> (r: Location)
    ensures
        call_site_location(*u, *d, r),
{
    let file = match d.call_file {
        Some(fi) => if 1 <= fi && fi <= u.files.len() as u64 {
            let fe = &u.files[(fi - 1) as usize];
            Some(render_file(&u.comp_dir, &fe.directory, &fe.path))
        } else {
            None
        },
        None => None,
    };
    Location { file, line: d.call_line, column: d.call_column }
}

impl FullContext {
    pub open spec fn unit_of(self, f: Func) -> UnitState {
        self.light.units@[f.unit_id as int]
    }

    pub open spec fn die_of(self, f: Func) -> Die {
        self.unit_of(f).dies@[f.die as int]
    }

    /// `f` is a range of a function entry of the context, at that entry's depth.
    pub open spec fn func_ok(self, f: Func) -> bool {
        &&& f.unit_id < self.light.units@.len()
        &&& f.die < self.unit_of(f).dies@.len()
        &&& is_function(self.die_of(f).tag)
        &&& f.depth == self.die_of(f).depth
        &&& has_range(self.die_of(f), f.range)
        &&& f.range.begin < f.range.end
    }

    pub open spec fn wf(self) -> bool {
        &&& self.light.wf()
        &&& forall|i: int| 0 <= i < self.funcs@.len() ==> self.func_ok(#[trigger] self.funcs@[i])
        &&& forall|b: u64, e: u64, v: usize| #[trigger] tree_elements(self.tree).contains((b, e, v))
            <==> v < self.funcs@.len() && self.funcs@[v as int].range == (Range { begin: b, end: e })
    }

    /// Record `v` is a function range that covers `pc`.
    pub open spec fn matched(self, pc: u64, v: usize) -> bool {
        v < self.funcs@.len() && self.funcs@[v as int].range.covers(pc)
    }

    pub open spec fn depth_at(self, v: usize) -> usize {
        self.funcs@[v as int].depth
    }

    /// Record `a` comes before record `b` in a frame chain: it is deeper, or
    /// as deep and earlier in the index.
    pub open spec fn precedes(self, a: usize, b: usize) -> bool {
        self.depth_at(a) > self.depth_at(b) || (self.depth_at(a) == self.depth_at(b) && a < b)
    }

    /// What a frame's location is after the frame of `f`: its call site if
    /// `f` is inlined, else nothing.
    pub open spec fn carried_after(self, f: Func, loc: Option<Location>) -> bool {
        if self.die_of(f).tag == Tag::InlinedSubroutine {
            loc matches Some(l) && call_site_location(self.unit_of(f), self.die_of(f), l)
        } else {
            loc.is_none()
        }
    }

    /// `fun` is the handle of `f`, present when its linkage name resolves.
    pub open spec fn function_of(self, f: Func, fun: Option<Function>) -> bool {
        match attr_of(self.unit_of(f).dies@, f.die as int, StrAttr::LinkageName) {
            Some(n) => fun matches Some(x) && x.name@ == n@ && x.unit_id == f.unit_id && x.die == f.die
                && x.depth == f.depth && x.language == self.unit_of(f).lang,
            None => fun.is_none(),
        }
    }

    /// `frames` are the frames at `pc`, built from the matching records, each
    /// once, in the order `order`: deepest first, ties by position in the
    /// index, each frame located where the next
    /// inner one was called from, the innermost at `pc` itself.
    pub open spec fn frames_for(self, pc: u64, order: Seq<usize>, frames: Seq<Frame>) -> bool {
        let n = order.len();
        &&& forall|v: usize| order.contains(v) == self.matched(pc, v)
        &&& order.no_duplicates()
        &&& forall|a: int, b: int| 0 <= a < b < n ==> self.precedes(#[trigger] order[a], #[trigger] order[b])
        &&& forall|i: int| 0 <= i < n ==> (#[trigger] order[i]) < self.funcs@.len()
        &&& forall|a: int, b: int| 0 <= a < b < n ==> self.depth_at(#[trigger] order[a]) >= self.depth_at(#[trigger] order[b])
        &&& frames.len() == n || frames.len() == n + 1
        &&& forall|i: int| 0 <= i < n ==> self.function_of(self.funcs@[order[i] as int], (#[trigger] frames[i]).function)
        &&& forall|i: int| 0 < i < n ==> self.carried_after(self.funcs@[order[i - 1] as int], (#[trigger] frames[i]).location)
        &&& n > 0 ==> self.unit_of(self.funcs@[order[0] as int]).location_result(pc, frames[0].location)
        &&& n > 0 ==> (frames.len() == n + 1 <==> self.die_of(self.funcs@[order[n - 1] as int]).tag == Tag::InlinedSubroutine)
        &&& n > 0 && frames.len() == n + 1 ==> frames[n as int].function.is_none()
            && self.carried_after(self.funcs@[order[n - 1] as int], frames[n as int].location)
        &&& n == 0 ==> (frames.len() == 1 <==> self.light.resolves(pc))
        &&& n == 0 && frames.len() == 1 ==> frames[0].function.is_none()
            && self.light.location_result(pc, frames[0].location)
    }

    /// Sorts record positions deepest first, ties by position, keeping them all.
    fn sort_by_depth(&self, v: &mut Vec<usize>)
        requires
            forall|i: int| 0 <= i < old(v)@.len() ==> (#[trigger] old(v)@[i]) < self.funcs@.len(),
        ensures
            final(v)@.to_multiset() == old(v)@.to_multiset(),
            forall|i: int| 0 <= i < final(v)@.len() ==> (#[trigger] final(v)@[i]) < self.funcs@.len(),
            forall|a: int, b: int| 0 <= a < b < final(v)@.len()
                ==> self.precedes(#[trigger] final(v)@[a], #[trigger] final(v)@[b]) || final(v)@[a] == final(v)@[b],
    {
        let n = v.len();
        let ghost orig = v@;
        let mut i: usize = 1;
        while i < n
            invariant
                v@.len() == n,
                v@.to_multiset() == orig.to_multiset(),
                forall|k: int| 0 <= k < n ==> (#[trigger] v@[k]) < self.funcs@.len(),
                forall|a: int, b: int| 0 <= a < b < i && b < n
                    ==> self.precedes(#[trigger] v@[a], #[trigger] v@[b]) || v@[a] == v@[b],
            decreases n - i,
        {
            let mut j: usize = i;
            while j > 0 && (self.funcs[v[j]].depth > self.funcs[v[j - 1]].depth || (self.funcs[v[j]].depth
                == self.funcs[v[j - 1]].depth && v[j] < v[j - 1]))
                invariant
                    v@.len() == n,
                    i < n,
                    j <= i,
                    v@.to_multiset() == orig.to_multiset(),
                    forall|k: int| 0 <= k < n ==> (#[trigger] v@[k]) < self.funcs@.len(),
                    forall|a: int, b: int|
                        0 <= a < b <= i && a != j && b != j ==> self.precedes(#[trigger] v@[a], #[trigger] v@[b])
                            || v@[a] == v@[b],
                    forall|b: int| j < b <= i ==> self.precedes(v@[j as int], #[trigger] v@[b]),
                decreases j,
            {
                let x = v[j - 1];
                let y = v[j];
                let ghost before = v@;
                v.set(j - 1, y);
                v.set(j, x);
                proof {
                    assert(v@ =~= before.update(j - 1, y).update(j as int, x));
                    lemma_swap_multiset(before, j - 1, j as int);
                }
                j = j - 1;
            }
            i = i + 1;
        }
    }

    /// The positions of `v`, each once, in the order of first occurrence.
    fn dedup(v: &Vec<usize>) -> (r: Vec<usize>)
        ensures
            r@.no_duplicates(),
            forall|x: usize| r@.contains(x) == v@.contains(x),
    {
        let mut r: Vec<usize> = Vec::new();
        let mut i: usize = 0;
        while i < v.len()
            invariant
                i <= v@.len(),
                r@.no_duplicates(),
                forall|x: usize| r@.contains(x) ==> v@.contains(x),
                forall|w: int| 0 <= w < i ==> r@.contains(#[trigger] v@[w]),
            decreases v@.len() - i,
        {
            let x = v[i];
            let mut seen = false;
            let mut k: usize = 0;
            while k < r.len()
                invariant
                    k <= r@.len(),
                    seen ==> r@.contains(x),
                    !seen ==> forall|w: int| 0 <= w < k ==> r@[w] != x,
                decreases r@.len() - k,
            {
                if r[k] == x {
                    seen = true;
                }
                k = k + 1;
            }
            proof {
                assert(v@.contains(v@[i as int]));
            }
            if !seen {
                let ghost prev = r@;
                r.push(x);
                proof {
                    assert(!prev.contains(x));
                    assert forall|a: int, b: int| 0 <= a < r@.len() && 0 <= b < r@.len() && a != b
                        implies r@[a] != r@[b] by {
                        if a == prev.len() as int {
                            assert(prev[b] == r@[b]);
                        } else if b == prev.len() as int {
                            assert(prev[a] == r@[a]);
                        } else {
                            assert(prev[a] == r@[a] && prev[b] == r@[b]);
                        }
                    }
                    assert forall|y: usize| r@.contains(y) implies v@.contains(y) by {
                        let w = choose|w: int| 0 <= w < r@.len() && r@[w] == y;
                        if w < prev.len() {
                            assert(prev[w] == y);
                        }
                    }
                    assert forall|w: int| 0 <= w < i + 1 implies r@.contains(#[trigger] v@[w]) by {
                        if w < i {
                            let q = choose|q: int| 0 <= q < prev.len() && prev[q] == v@[w];
                            assert(r@[q] == v@[w]);
                        } else {
                            assert(r@[prev.len() as int] == x);
                        }
                    }
                }
            }
            i = i + 1;
        }
        proof {
            assert forall|x: usize| v@.contains(x) implies r@.contains(x) by {
                let w = choose|w: int| 0 <= w < v@.len() && v@[w] == x;
                assert(r@.contains(v@[w]));
            }
        }
        r
    }

    /// The frames active at `pc`, innermost first.
    pub fn query(&self, pc: u64) -> (r: IterFrames)
        requires
            self.wf(),
        ensures
            exists|order: Seq<usize>| self.frames_for(pc, order, r.frames@),
    {
        let found = tree_query_point(&self.tree, pc);
        let mut order = Self::dedup(&found);
        proof {
            assert forall|i: int| 0 <= i < order@.len() implies (#[trigger] order@[i]) < self.funcs@.len() by {
                assert(order@.contains(order@[i]));
            }
        }
        let ghost unique = order@;
        self.sort_by_depth(&mut order);
        proof {
            lemma_same_contents(unique, order@);
            unique.lemma_multiset_has_no_duplicates();
            order@.lemma_multiset_has_no_duplicates_conv();
            assert forall|a: int, b: int| 0 <= a < b < order@.len() implies self.precedes(
                #[trigger] order@[a],
                #[trigger] order@[b],
            ) by {
                assert(order@[a] != order@[b]);
            }
            assert forall|v: usize| order@.contains(v) == self.matched(pc, v) by {
                if self.matched(pc, v) {
                    let r = self.funcs@[v as int].range;
                    assert(tree_elements(self.tree).contains((r.begin, r.end, v)));
                }
            }
        }
        let n = order.len();
        let baseline = if n > 0 {
            let f = self.funcs[order[0]];
            self.light.units[f.unit_id].find_location_inner(pc)
        } else {
            self.light.find_location(pc)
        };
        let ghost base = baseline;
        let mut frames: Vec<Frame> = Vec::new();
        let mut carry = baseline;
        let mut i: usize = 0;
        while i < n
            invariant
                n == order@.len(),
                i <= n,
                frames@.len() == i,
                forall|k: int| 0 <= k < n ==> (#[trigger] order@[k]) < self.funcs@.len(),
                self.wf(),
                n > 0 ==> self.unit_of(self.funcs@[order@[0] as int]).location_result(pc, base),
                i == 0 ==> carry == base,
                i > 0 ==> self.unit_of(self.funcs@[order@[0] as int]).location_result(pc, frames@[0].location),
                i > 0 ==> self.carried_after(self.funcs@[order@[i - 1] as int], carry),
                forall|k: int| 0 <= k < i ==> self.function_of(self.funcs@[order@[k] as int], (#[trigger] frames@[k]).function),
                forall|k: int| 0 < k < i ==> self.carried_after(self.funcs@[order@[k - 1] as int], (#[trigger] frames@[k]).location),
            decreases n - i,
        {
            let f = self.funcs[order[i]];
            proof {
                assert(self.func_ok(self.funcs@[order@[i as int] as int]));
            }
            let unit = &self.light.units[f.unit_id];
            let d = &unit.dies[f.die];
            let name = str_attr(&unit.dies, f.die, StrAttr::LinkageName);
            let next_carry = if matches!(d.tag, Tag::InlinedSubroutine) {
                Some(call_site(unit, d))
            } else {
                None
            };
            let function = match name {
                Some(name) => Some(Function { unit_id: f.unit_id, die: f.die, depth: f.depth, name, language: unit.lang }),
                None => None,
            };
            let ghost prev = frames@;
            frames.push(Frame { function, location: carry });
            proof {
                assert forall|k: int| 0 <= k < i implies frames@[k] == prev[k] by {}
            }
            carry = next_carry;
            i = i + 1;
        }
        if carry.is_some() {
            frames.push(Frame { function: None, location: carry });
        }
        let r = IterFrames { frames };
        proof {
            assert(self.frames_for(pc, order@, r.frames@));
        }
        r
    }
}

impl Context {
    /// Builds the function index: one record per non-empty range of every
    /// subprogram and inlined subroutine, at the depth of its entry.
    pub fn parse_functions(self) -> (r: FullContext)
        requires
            self.wf(),
        ensures
            r.wf(),
            r.light == self,
            forall|u: int, d: int, j: int| #[trigger] self.is_func_range(u, d, j)
                ==> r.funcs@.contains(self.func_record(u, d, j)),
            forall|i: int| 0 <= i < r.funcs@.len() ==> (#[trigger] r.funcs@[i]).range.begin < r.funcs@[i].range.end,
    {
        let mut funcs: Vec<Func> = Vec::new();
        let mut elems: Vec<(u64, u64, usize)> = Vec::new();
        let mut u: usize = 0;
        while u < self.units.len()
            invariant
                self.wf(),
                u <= self.units@.len(),
                elems@.len() == funcs@.len(),
                forall|i: int| 0 <= i < elems@.len() ==> #[trigger] elems@[i] == (funcs@[i].range.begin, funcs@[i].range.end, i as usize),
                forall|i: int| 0 <= i < funcs@.len() ==> Self::func_in(self, #[trigger] funcs@[i]),
                forall|u2: int, d: int, j: int| u2 < u && #[trigger] self.is_func_range(u2, d, j)
                    ==> funcs@.contains(self.func_record(u2, d, j)),
            decreases self.units@.len() - u,
        {
            let dies = &self.units[u].dies;
            let mut d: usize = 0;
            while d < dies.len()
                invariant
                    self.wf(),
                    u < self.units@.len(),
                    dies == self.units@[u as int].dies,
                    d <= dies@.len(),
                    elems@.len() == funcs@.len(),
                    forall|i: int| 0 <= i < elems@.len() ==> #[trigger] elems@[i] == (funcs@[i].range.begin, funcs@[i].range.end, i as usize),
                    forall|i: int| 0 <= i < funcs@.len() ==> Self::func_in(self, #[trigger] funcs@[i]),
                    forall|u2: int, d2: int, j: int| (u2 < u || (u2 == u && d2 < d)) && #[trigger] self.is_func_range(u2, d2, j)
                        ==> funcs@.contains(self.func_record(u2, d2, j)),
                decreases dies@.len() - d,
            {
                let die = &dies[d];
                if matches!(die.tag, Tag::Subprogram) || matches!(die.tag, Tag::InlinedSubroutine) {
                    if let Some(rs) = die.read_ranges() {
                        let mut j: usize = 0;
                        while j < rs.len()
                            invariant
                                self.wf(),
                                u < self.units@.len(),
                                dies == self.units@[u as int].dies,
                                d < dies@.len(),
                                is_function(dies@[d as int].tag),
                                die_ranges(dies@[d as int]) == Some(rs@),
                                j <= rs@.len(),
                                elems@.len() == funcs@.len(),
                                forall|i: int| 0 <= i < elems@.len() ==> #[trigger] elems@[i] == (funcs@[i].range.begin, funcs@[i].range.end, i as usize),
                                forall|i: int| 0 <= i < funcs@.len() ==> Self::func_in(self, #[trigger] funcs@[i]),
                                forall|u2: int, d2: int, j2: int|
                                    (u2 < u || (u2 == u && d2 < d) || (u2 == u && d2 == d && j2 < j))
                                        && #[trigger] self.is_func_range(u2, d2, j2)
                                        ==> funcs@.contains(self.func_record(u2, d2, j2)),
                            decreases rs@.len() - j,
                        {
                            let g = rs[j];
                            if g.begin < g.end {
                                let f = Func { range: g, unit_id: u, die: d, depth: dies[d].depth };
                                let idx = funcs.len();
                                proof {
                                    assert(rs@.contains(g));
                                }
                                let ghost prev = funcs@;
                                funcs.push(f);
                                elems.push((g.begin, g.end, idx));
                                proof {
                                    assert(funcs@[funcs@.len() - 1] == f);
                                    assert(f == self.func_record(u as int, d as int, j as int));
                                    assert forall|y: Func| prev.contains(y) implies funcs@.contains(y) by {
                                        let w = choose|w: int| 0 <= w < prev.len() && prev[w] == y;
                                        assert(funcs@[w] == y);
                                    }
                                }
                            }
                            j = j + 1;
                        }
                    }
                }
                d = d + 1;
            }
            u = u + 1;
        }
        let ghost es = elems@;
        let ne = elems.len();
        let tree = build_tree(elems);
        let r = FullContext { light: self, funcs, tree };
        proof {
            assert forall|i: int| 0 <= i < r.funcs@.len() implies r.func_ok(#[trigger] r.funcs@[i]) by {
                assert(Self::func_in(self, r.funcs@[i]));
            }
            assert forall|b: u64, e: u64, v: usize| #[trigger] tree_elements(r.tree).contains((b, e, v))
                implies v < r.funcs@.len() && r.funcs@[v as int].range == (Range { begin: b, end: e }) by {
                assert(es.contains((b, e, v)));
                let i = choose|i: int| 0 <= i < es.len() && es[i] == (b, e, v);
                assert(es[i] == (r.funcs@[i].range.begin, r.funcs@[i].range.end, i as usize));
                assert(es.len() == ne);
                assert(i == v);
            }
            assert forall|b: u64, e: u64, v: usize| v < r.funcs@.len() && r.funcs@[v as int].range == (Range { begin: b, end: e })
                implies #[trigger] tree_elements(r.tree).contains((b, e, v)) by {
                assert(es[v as int] == (b, e, v));
                assert(es.contains((b, e, v)));
            }
        }
        r
    }

    /// Entry `d` of unit `u` is a function entry with a non-empty `j`-th range.
    pub open spec fn is_func_range(self, u: int, d: int, j: int) -> bool {
        &&& 0 <= u < self.units@.len()
        &&& 0 <= d < self.units@[u].dies@.len()
        &&& is_function(self.units@[u].dies@[d].tag)
        &&& die_ranges(self.units@[u].dies@[d]) matches Some(rs) && 0 <= j < rs.len() && rs[j].begin < rs[j].end
    }

    /// The record of the `j`-th range of entry `d` of unit `u`.
    pub open spec fn func_record(self, u: int, d: int, j: int) -> Func {
        Func {
            range: die_ranges(self.units@[u].dies@[d]).unwrap()[j],
            unit_id: u as usize,
            die: d as usize,
            depth: self.units@[u].dies@[d].depth,
        }
    }

    /// `f` is a range of a function entry of this context, at its depth.
    pub open spec fn func_in(self, f: Func) -> bool {
        let u = self.units@[f.unit_id as int];
        &&& f.unit_id < self.units@.len()
        &&& f.die < u.dies@.len()
        &&& is_function(u.dies@[f.die as int].tag)
        &&& f.depth == u.dies@[f.die as int].depth
        &&& has_range(u.dies@[f.die as int], f.range)
        &&& f.range.begin < f.range.end
    }
}

} // verus!
