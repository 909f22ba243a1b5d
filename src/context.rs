//! The light context: per-unit line tables and the index from address
//! ranges to compilation units.

use vstd::prelude::*;
use crate::dwarf::{die_ranges, Die, FileEntry, LineRow, LineSequence, Tag, UnitData};
use crate::path::{rendered_path, render_file};
use crate::range::Range;
use crate::table::{all_nonempty, is_overlap_free, lookup, overlap, sort_by_begin, table_wf};

verus! {

/// Why a context could not be built.
#[derive(Clone, Copy, Debug, PartialEq, Eq, Structural)]
pub enum Error {
    /// Two compilation units claim a common address.
    OverlappingUnitRanges,
}

/// A resolved source position.
#[derive(Clone, Debug)]
pub struct Location {
    pub file: Option<String>,
    pub line: Option<u64>,
    pub column: Option<u64>,
}

/// What the index keeps of one compilation unit.
#[derive(Clone, Debug)]
pub struct UnitState {
    /// Position of the unit in the list the context was built from.
    pub index: usize,
    pub dies: Vec<Die>,
    pub files: Vec<FileEntry>,
    pub sequences: Vec<LineSequence>,
    /// The non-empty sequences' ranges, sorted, each with its sequence's position.
    pub seq_table: Vec<(Range, usize)>,
    pub comp_dir: Option<String>,
    pub lang: u16,
    pub base_addr: u64,
}

/// Whether a unit takes part in the index: its first entry is a compile
/// unit with `low_pc`, and it has a line program and a language.
pub open spec fn admitted(u: UnitData) -> bool {
    u.dies@.len() > 0 && u.dies@[0].tag == Tag::CompileUnit && u.dies@[0].low_pc.is_some()
        && u.line_program.is_some() && u.language.is_some()
}

/// The addresses a line-number sequence covers.
pub open spec fn seq_range(s: LineSequence) -> Range {
    Range { begin: s.start, end: s.end }
}

/// Sequence `s` is non-empty and shares no address with any other
/// non-empty sequence. Only such sequences are looked up: overlapping ones,
/// as left behind by code that the linker discarded, are ignored.
pub open spec fn isolated(seqs: Seq<LineSequence>, s: int) -> bool {
    &&& 0 <= s < seqs.len()
    &&& seqs[s].start < seqs[s].end
    &&& forall|q: int| 0 <= q < seqs.len() && q != s && seqs[q].start < seqs[q].end
        ==> !#[trigger] overlap(seq_range(seqs[s]), seq_range(seqs[q]))
}

/// `r` is one of the non-empty ranges of the unit entry of `input[k]`, an
/// admitted unit.
pub open spec fn root_range_of(input: Seq<UnitData>, k: int, r: Range) -> bool {
    &&& 0 <= k < input.len()
    &&& admitted(input[k])
    &&& r.begin < r.end
    &&& match die_ranges(input[k].dies@[0]) {
        Some(rs) => rs.contains(r),
        None => false,
    }
}

/// Two distinct ranges of admitted units, or one range claimed by two
/// units, share an address.
pub open spec fn input_ranges_overlap(input: Seq<UnitData>) -> bool {
    exists|k1: int, r1: Range, k2: int, r2: Range|
        #[trigger] root_range_of(input, k1, r1) && #[trigger] root_range_of(input, k2, r2) && (k1 != k2 || r1 != r2)
            && overlap(r1, r2)
}

proof fn lemma_overlap_iff(input: Seq<UnitData>, units: Seq<UnitState>, t: Seq<(Range, usize)>, ok: bool)
    requires
        units.len() <= usize::MAX,
        t.no_duplicates(),
        all_nonempty(t),
        ok == crate::table::overlap_free(t),
        forall|id: int| 0 <= id < units.len() ==> {
            let u = #[trigger] units[id];
            u.index < input.len() && admitted(input[u.index as int]) && u.made_from(input[u.index as int])
        },
        forall|a: int, b: int| 0 <= a < b < units.len() ==> (#[trigger] units[a]).index < (#[trigger] units[b]).index,
        forall|q: int| 0 <= q < input.len() && admitted(#[trigger] input[q])
            ==> exists|id: int| 0 <= id < units.len() && (#[trigger] units[id]).index == q,
        forall|i: int| 0 <= i < t.len() ==> {
            let (r, id) = #[trigger] t[i];
            id < units.len() && units[id as int].has_root_range(r)
        },
        forall|id: int, j: int|
            0 <= id < units.len() && #[trigger] units[id].root_nonempty_at(j)
                ==> t.contains((units[id].root_ranges().unwrap()[j], #[verifier::truncate] (id as usize))),
    ensures
        ok == !input_ranges_overlap(input),
{
    if ok {
        assert forall|k1: int, r1: Range, k2: int, r2: Range|
            #[trigger] root_range_of(input, k1, r1) && #[trigger] root_range_of(input, k2, r2) && (k1 != k2 || r1 != r2)
                implies !overlap(r1, r2) by {
            let id1 = choose|id: int| 0 <= id < units.len() && (#[trigger] units[id]).index == k1;
            let id2 = choose|id: int| 0 <= id < units.len() && (#[trigger] units[id]).index == k2;
            let rs1 = units[id1].root_ranges().unwrap();
            let rs2 = units[id2].root_ranges().unwrap();
            let j1 = choose|j: int| 0 <= j < rs1.len() && rs1[j] == r1;
            let j2 = choose|j: int| 0 <= j < rs2.len() && rs2[j] == r2;
            assert(units[id1].root_nonempty_at(j1));
            assert(units[id2].root_nonempty_at(j2));
            let e1 = (r1, id1 as usize);
            let e2 = (r2, id2 as usize);
            assert(t.contains(e1));
            assert(t.contains(e2));
            let a = choose|a: int| 0 <= a < t.len() && t[a] == e1;
            let b = choose|b: int| 0 <= b < t.len() && t[b] == e2;
            if k1 != k2 {
                assert(id1 != id2);
            }
            assert(e1 != e2);
            assert(a != b);
            assert(!overlap(t[a].0, t[b].0));
        }
    } else {
        let (a, b) = choose|a: int, b: int|
            0 <= a < t.len() && 0 <= b < t.len() && a != b && overlap((#[trigger] t[a]).0, (#[trigger] t[b]).0);
        let (r1, id1) = t[a];
        let (r2, id2) = t[b];
        assert(t[a] != t[b]);
        let k1 = units[id1 as int].index as int;
        let k2 = units[id2 as int].index as int;
        assert(r1.begin < r1.end);
        assert(r2.begin < r2.end);
        assert(root_range_of(input, k1, r1));
        assert(root_range_of(input, k2, r2));
        if id1 != id2 {
            if id1 < id2 {
                assert(units[id1 as int].index < units[id2 as int].index);
            } else {
                assert(units[id2 as int].index < units[id1 as int].index);
            }
        }
        assert(k1 != k2 || r1 != r2);
        assert(overlap(r1, r2));
    }
}

/// Whether the table holds `e`.
fn table_has(t: &Vec<(Range, usize)>, e: (Range, usize)) -> (r: bool)
    ensures
        r == t@.contains(e),
{
    let mut i: usize = 0;
    while i < t.len()
        invariant
            i <= t@.len(),
            forall|j: int| 0 <= j < i ==> t@[j] != e,
        decreases t@.len() - i,
    {
        if t[i].0 == e.0 && t[i].1 == e.1 {
            proof {
                assert(t@[i as int] == e);
            }
            return true;
        }
        i = i + 1;
    }
    false
}

/// `r` is the error `e`.
pub open spec fn fails_with(r: Result<Context, Error>, e: Error) -> bool {
    match r {
        Err(x) => x == e,
        Ok(_) => false,
    }
}

/// The file-table entry that a row's file index names (indices count from 1).
pub open spec fn file_at(files: Seq<FileEntry>, fi: u64) -> Option<FileEntry> {
    if 1 <= fi && fi <= files.len() {
        Some(files[fi - 1])
    } else {
        None
    }
}

/// `k` is the position of the first row past `pc`: all rows before it are at
/// or below `pc`.
pub open spec fn first_row_past(rows: Seq<LineRow>, pc: u64, k: int) -> bool {
    &&& 0 <= k <= rows.len()
    &&& forall|j: int| 0 <= j < k ==> (#[trigger] rows[j]).address <= pc
    &&& k < rows.len() ==> rows[k].address > pc
}

impl UnitState {
    pub open spec fn wf(self) -> bool {
        &&& table_wf(self.seq_table@)
        &&& forall|i: int| 0 <= i < self.seq_table@.len() ==> {
            let (r, s) = #[trigger] self.seq_table@[i];
            isolated(self.sequences@, s as int) && r == seq_range(self.sequences@[s as int])
        }
        &&& forall|s: int| #[trigger] isolated(self.sequences@, s)
            ==> exists|i: int| 0 <= i < self.seq_table@.len() && (#[trigger] self.seq_table@[i]).1 == s
    }

    /// Some isolated line-number sequence of the unit covers `pc`.
    pub open spec fn has_line_info(self, pc: u64) -> bool {
        exists|s: int| #[trigger] isolated(self.sequences@, s) && self.sequences@[s].start <= pc
            && pc < self.sequences@[s].end
    }

    /// `loc` describes the row in effect at `pc` (if any) in the given sequence.
    pub open spec fn location_of_row(self, row: Option<LineRow>, loc: Location) -> bool {
        match row {
            None => loc.file.is_none() && loc.line.is_none() && loc.column.is_none(),
            Some(row) => {
                &&& loc.line == row.line
                &&& loc.column == row.column
                &&& match file_at(self.files@, row.file) {
                    None => loc.file.is_none(),
                    Some(f) => loc.file.is_some() && loc.file.unwrap()@ == rendered_path(
                        self.comp_dir,
                        f.directory,
                        f.path,
                    ),
                }
            },
        }
    }

    /// `loc` is the position that the line program gives for `pc`: the last
    /// row at or below `pc` of the sequence that covers it.
    pub open spec fn locates(self, pc: u64, loc: Location) -> bool {
        exists|s: int, k: int|
            0 <= s < self.sequences@.len() && #[trigger] self.sequences@[s].start <= pc
                && pc < self.sequences@[s].end && #[trigger] first_row_past(self.sequences@[s].rows@, pc, k)
                && self.location_of_row(
                if k > 0 {
                    Some(self.sequences@[s].rows@[k - 1])
                } else {
                    None
                },
                loc,
            )
    }

    /// `r` is what the unit's line program says of `pc`.
    pub open spec fn location_result(self, pc: u64, r: Option<Location>) -> bool {
        &&& r.is_some() == self.has_line_info(pc)
        &&& r matches Some(loc) ==> self.locates(pc, loc)
    }

    /// The source position of `pc` within this unit.
    pub fn find_location_inner(&self, pc: u64) -> (r: Option<Location>)
        requires
            self.wf(),
        ensures
            self.location_result(pc, r),
    {
        let idx = match lookup(&self.seq_table, pc) {
            Some(i) => i,
            None => {
                proof {
                    if self.has_line_info(pc) {
                        let s = choose|s: int| 0 <= s < self.sequences@.len()
                            && (#[trigger] self.sequences@[s]).start <= pc && pc < self.sequences@[s].end;
                        let i = choose|i: int| 0 <= i < self.seq_table@.len() && (#[trigger] self.seq_table@[i]).1 == s;
                        assert(self.seq_table@[i].0.covers(pc));
                    }
                }
                return None;
            },
        };
        let s = self.seq_table[idx].1;
        let rows = &self.sequences[s].rows;
        let mut k: usize = 0;
        while k < rows.len() && rows[k].address <= pc
            invariant
                k <= rows@.len(),
                forall|j: int| 0 <= j < k ==> (#[trigger] rows@[j]).address <= pc,
            decreases rows@.len() - k,
        {
            k = k + 1;
        }
        let loc = if k == 0 {
            Location { file: None, line: None, column: None }
        } else {
            let row = rows[k - 1];
            let file = if 1 <= row.file && row.file <= self.files.len() as u64 {
                let f = &self.files[(row.file - 1) as usize];
                Some(render_file(&self.comp_dir, &f.directory, &f.path))
            } else {
                None
            };
            Location { file, line: row.line, column: row.column }
        };
        proof {
            assert(first_row_past(self.sequences@[s as int].rows@, pc, k as int));
        }
        Some(loc)
    }
}

/// The light context: every admitted unit and the index of their ranges.
pub struct Context {
    /// Non-empty unit ranges, sorted and disjoint, each with its unit's position.
    pub unit_ranges: Vec<(Range, usize)>,
    pub units: Vec<UnitState>,
}

impl Context {
    pub open spec fn wf(self) -> bool {
        &&& table_wf(self.unit_ranges@)
        &&& forall|i: int| 0 <= i < self.unit_ranges@.len() ==> (#[trigger] self.unit_ranges@[i]).1 < self.units@.len()
        &&& forall|u: int| 0 <= u < self.units@.len() ==> (#[trigger] self.units@[u]).wf()
    }

    /// Some unit range covers `pc` and that unit has line information for it.
    pub open spec fn resolves(self, pc: u64) -> bool {
        exists|i: int| 0 <= i < self.unit_ranges@.len() && #[trigger] self.unit_ranges@[i].0.covers(pc)
            && self.units@[self.unit_ranges@[i].1 as int].has_line_info(pc)
    }

    /// `r` is what the index says of `pc`.
    pub open spec fn location_result(self, pc: u64, r: Option<Location>) -> bool {
        &&& r.is_some() == self.resolves(pc)
        &&& r matches Some(loc) ==> exists|i: int| 0 <= i < self.unit_ranges@.len()
                && #[trigger] self.unit_ranges@[i].0.covers(pc)
                && self.units@[self.unit_ranges@[i].1 as int].locates(pc, loc)
    }

    /// The source position of `pc`: the unit range that covers it is found by
    /// binary search, then the unit's line program is consulted.
    pub fn find_location(&self, pc: u64) -> (r: Option<Location>)
        requires
            self.wf(),
        ensures
            self.location_result(pc, r),
    {
        match lookup(&self.unit_ranges, pc) {
            None => None,
            Some(i) => {
                let u = self.unit_ranges[i].1;
                proof {
                    assert forall|j: int| 0 <= j < self.unit_ranges@.len() && #[trigger] self.unit_ranges@[j].0.covers(pc)
                        implies j == i by {
                        if j != i as int {
                            if j < i {
                                assert(self.unit_ranges@[j].0.end <= self.unit_ranges@[i as int].0.begin);
                            } else {
                                assert(self.unit_ranges@[i as int].0.end <= self.unit_ranges@[j].0.begin);
                            }
                        }
                    }
                }
                self.units[u].find_location_inner(pc)
            },
        }
    }
}


/// Whether sequence `s` is non-empty and shares no address with another
/// non-empty sequence.
fn is_isolated(sequences: &Vec<LineSequence>, s: usize) -> (r: bool)
    requires
        s < sequences@.len(),
    ensures
        r == isolated(sequences@, s as int),
{
    let a = &sequences[s];
    if a.start >= a.end {
        return false;
    }
    let mut q: usize = 0;
    while q < sequences.len()
        invariant
            q <= sequences@.len(),
            s < sequences@.len(),
            a.start == sequences@[s as int].start,
            a.end == sequences@[s as int].end,
            sequences@[s as int].start < sequences@[s as int].end,
            forall|p: int| 0 <= p < q && p != s && sequences@[p].start < sequences@[p].end
                ==> !#[trigger] overlap(seq_range(sequences@[s as int]), seq_range(sequences@[p])),
        decreases sequences@.len() - q,
    {
        let b = &sequences[q];
        proof {
            assert(seq_range(sequences@[s as int]) == (Range { begin: a.start, end: a.end }));
            assert(seq_range(sequences@[q as int]) == (Range { begin: b.start, end: b.end }));
        }
        if q != s && b.start < b.end && a.start < b.end && b.start < a.end {
            proof {
                assert(overlap(seq_range(sequences@[s as int]), seq_range(sequences@[q as int])));
            }
            return false;
        }
        proof {
            assert(q == s || b.start >= b.end || !overlap(seq_range(sequences@[s as int]), seq_range(sequences@[q as int])));
        }
        q = q + 1;
    }
    true
}

/// The ranges of the isolated sequences, sorted, each with its sequence's
/// position.
#[verifier::spinoff_prover]
#[verifier::rlimit(40)]
fn build_seq_table(sequences: &Vec<LineSequence>) -> (t: Vec<(Range, usize)>)
    ensures
        table_wf(t@),
        forall|i: int| 0 <= i < t@.len() ==> {
            let (rg, s) = #[trigger] t@[i];
            isolated(sequences@, s as int) && rg == seq_range(sequences@[s as int])
        },
        forall|s: int| #[trigger] isolated(sequences@, s)
            ==> exists|i: int| 0 <= i < t@.len() && (#[trigger] t@[i]).1 == s,
{
    let mut t: Vec<(Range, usize)> = Vec::new();
    let mut s: usize = 0;
    while s < sequences.len()
        invariant
            s <= sequences@.len(),
            all_nonempty(t@),
            forall|i: int| 0 <= i < t@.len() ==> {
                let (rg, q) = #[trigger] t@[i];
                isolated(sequences@, q as int) && rg == seq_range(sequences@[q as int])
            },
            forall|q: int| 0 <= q < s && #[trigger] isolated(sequences@, q)
                ==> exists|i: int| 0 <= i < t@.len() && (#[trigger] t@[i]).1 == q,
            forall|a: int, b: int| 0 <= a < b < t@.len() ==> (#[trigger] t@[a]).1 < (#[trigger] t@[b]).1,
            forall|i: int| 0 <= i < t@.len() ==> (#[trigger] t@[i]).1 < s,
        decreases sequences@.len() - s,
    {
        let ghost prev = t@;
        if is_isolated(sequences, s) {
            let seq = &sequences[s];
            t.push((Range { begin: seq.start, end: seq.end }, s));
        }
        proof {
            assert forall|a: int, b: int| 0 <= a < b < t@.len() implies (#[trigger] t@[a]).1 < (#[trigger] t@[b]).1 by {
                if b < prev.len() {
                    assert(t@[a] == prev[a]);
                    assert(t@[b] == prev[b]);
                } else {
                    assert(t@[a] == prev[a]);
                }
            }
            assert forall|q: int| 0 <= q < s + 1 && #[trigger] isolated(sequences@, q)
                implies exists|i: int| 0 <= i < t@.len() && (#[trigger] t@[i]).1 == q by {
                if q < s {
                    let i = choose|i: int| 0 <= i < prev.len() && (#[trigger] prev[i]).1 == q;
                    assert(t@[i] == prev[i]);
                } else {
                    assert(t@[t@.len() - 1].1 == s);
                }
            }
        }
        s = s + 1;
    }
    let ghost before = t@;
    sort_by_begin(&mut t);
    proof {
        lemma_same_contents(before, t@);
        assert(before.no_duplicates()) by {
            assert forall|a: int, b: int| 0 <= a < before.len() && 0 <= b < before.len() && a != b
                implies before[a] != before[b] by {
                if a < b {
                    assert(before[a].1 < before[b].1);
                } else {
                    assert(before[b].1 < before[a].1);
                }
            }
        }
        before.lemma_multiset_has_no_duplicates();
        t@.lemma_multiset_has_no_duplicates_conv();
        assert forall|a: int, b: int| 0 <= a < t@.len() && 0 <= b < t@.len() && a != b
            implies !overlap((#[trigger] t@[a]).0, (#[trigger] t@[b]).0) by {
            assert(t@[a] != t@[b]);
            let p = t@[a].1 as int;
            let q = t@[b].1 as int;
            assert(isolated(sequences@, p));
            assert(isolated(sequences@, q));
            assert(p != q);
            assert(!overlap(seq_range(sequences@[p]), seq_range(sequences@[q])));
        }
        assert(crate::table::overlap_free(t@));
    }
    let ok = is_overlap_free(&t);
    proof {
        assert(ok);
    }
    t
}

pub proof fn lemma_same_contents<A>(a: Seq<A>, b: Seq<A>)
    requires
        a.to_multiset() == b.to_multiset(),
    ensures
        forall|x: A| a.contains(x) <==> b.contains(x),
        forall|i: int| 0 <= i < a.len() ==> b.contains(#[trigger] a[i]),
        forall|i: int| 0 <= i < b.len() ==> a.contains(#[trigger] b[i]),
{
    a.to_multiset_ensures();
    b.to_multiset_ensures();
    assert forall|i: int| 0 <= i < a.len() implies b.contains(#[trigger] a[i]) by {
        assert(a.contains(a[i]));
        assert(a.to_multiset().count(a[i]) > 0);
    }
    assert forall|i: int| 0 <= i < b.len() implies a.contains(#[trigger] b[i]) by {
        assert(b.contains(b[i]));
        assert(b.to_multiset().count(b[i]) > 0);
    }
}


impl UnitState {
    /// This state was made from `u`, found at position `index` of the input.
    pub open spec fn made_from(self, u: UnitData) -> bool {
        &&& self.dies@ == u.dies@
        &&& self.files@ == u.line_program.unwrap().files@
        &&& self.sequences@ == u.line_program.unwrap().sequences@
        &&& self.comp_dir == u.comp_dir
        &&& self.lang == u.language.unwrap()
        &&& self.base_addr == u.dies@[0].low_pc.unwrap()
    }

    /// The ranges of the unit entry.
    pub open spec fn root_ranges(self) -> Option<Seq<Range>> {
        die_ranges(self.dies@[0])
    }

    /// `r` is one of the ranges of the unit entry.
    pub open spec fn has_root_range(self, r: Range) -> bool {
        match self.root_ranges() {
            Some(rs) => rs.contains(r),
            None => false,
        }
    }

    /// The unit entry's `j`-th range exists and is not empty.
    pub open spec fn root_nonempty_at(self, j: int) -> bool {
        match self.root_ranges() {
            Some(rs) => 0 <= j < rs.len() && rs[j].begin < rs[j].end,
            None => false,
        }
    }
}

impl Context {
    /// `self` indexes exactly the admitted units of `input`, in their order,
    /// and exactly the non-empty ranges of their unit entries.
    pub open spec fn built_from(self, input: Seq<UnitData>) -> bool {
        &&& forall|id: int| 0 <= id < self.units@.len() ==> {
            let u = #[trigger] self.units@[id];
            u.index < input.len() && admitted(input[u.index as int]) && u.made_from(input[u.index as int])
        }
        &&& forall|a: int, b: int| 0 <= a < b < self.units@.len()
            ==> (#[trigger] self.units@[a]).index < (#[trigger] self.units@[b]).index
        &&& forall|k: int| 0 <= k < input.len() && admitted(#[trigger] input[k])
            ==> exists|id: int| 0 <= id < self.units@.len() && (#[trigger] self.units@[id]).index == k
        &&& forall|i: int| 0 <= i < self.unit_ranges@.len() ==> {
            let (r, id) = #[trigger] self.unit_ranges@[i];
            id < self.units@.len() && self.units@[id as int].has_root_range(r)
        }
        &&& forall|id: int, j: int|
            0 <= id < self.units@.len() && #[trigger] self.units@[id].root_nonempty_at(j)
                ==> self.unit_ranges@.contains((self.units@[id].root_ranges().unwrap()[j], id as usize))
    }

    /// Builds the light context from the decoded units. Units that are not
    /// admitted are left out; empty ranges are dropped, and a range that a
    /// unit lists twice is indexed once. Fails when a unit's line-number
    /// sequences overlap, else when two units' ranges do.
    pub fn new(input: Vec<UnitData>) -> (r: Result<Context, Error>)
        ensures
            r matches Ok(c) ==> c.wf() && c.built_from(input@),
            fails_with(r, Error::OverlappingUnitRanges) == input_ranges_overlap(input@),
            r is Err ==> fails_with(r, Error::OverlappingUnitRanges),
    {
        let ghost orig = input@;
        let mut rest = input;
        proof {
            assert(rest@.len() == rest.len());
            assert(rest@ =~= orig.subrange(0, orig.len() as int));
        }
        let mut ranges: Vec<(Range, usize)> = Vec::new();
        let mut units: Vec<UnitState> = Vec::new();
        let mut k: usize = 0;
        while rest.len() > 0
            invariant
                k + rest@.len() == orig.len(),
                orig.len() <= usize::MAX,
                orig == input@,
                ranges@.no_duplicates(),
                rest@ == orig.subrange(k as int, orig.len() as int),
                all_nonempty(ranges@),
                forall|u: int| 0 <= u < units@.len() ==> (#[trigger] units@[u]).wf(),
                forall|id: int| 0 <= id < units@.len() ==> {
                    let u = #[trigger] units@[id];
                    u.index < k && admitted(orig[u.index as int]) && u.made_from(orig[u.index as int])
                },
                forall|a: int, b: int| 0 <= a < b < units@.len()
                    ==> (#[trigger] units@[a]).index < (#[trigger] units@[b]).index,
                forall|q: int| 0 <= q < k && admitted(#[trigger] orig[q])
                    ==> exists|id: int| 0 <= id < units@.len() && (#[trigger] units@[id]).index == q,
                forall|i: int| 0 <= i < ranges@.len() ==> {
                    let (r, id) = #[trigger] ranges@[i];
                    id < units@.len() && units@[id as int].has_root_range(r)
                },
                forall|id: int, j: int|
                    0 <= id < units@.len() && #[trigger] units@[id].root_nonempty_at(j)
                        ==> ranges@.contains((units@[id].root_ranges().unwrap()[j], #[verifier::truncate] (id as usize))),
            decreases rest@.len(),
        {
            let data = rest.remove(0);
            proof {
                assert(data == orig[k as int]);
                assert(rest@ =~= orig.subrange(k + 1, orig.len() as int));
            }
            let ghost units_before = units@;
            let ghost ranges_before = ranges@;
            let ok = data.dies.len() > 0 && data.line_program.is_some() && data.language.is_some()
                && matches!(data.dies[0].tag, Tag::CompileUnit) && data.dies[0].low_pc.is_some();
            if ok {
                let id = units.len();
                let root_ranges = data.dies[0].read_ranges();
                let base_addr = data.dies[0].low_pc.unwrap();
                let lang = data.language.unwrap();
                let program = data.line_program.unwrap();
                let seq_table = build_seq_table(&program.sequences);
                {
                    {
                        if let Some(rs) = root_ranges {
                            let mut j: usize = 0;
                            while j < rs.len()
                                invariant
                                    j <= rs@.len(),
                                    id == units@.len(),
                                    all_nonempty(ranges@),
                                    ranges@.no_duplicates(),
                                    forall|i: int| 0 <= i < ranges_before.len() ==> ranges@[i] == ranges_before[i],
                                    ranges_before.len() <= ranges@.len(),
                                    forall|i: int| ranges_before.len() <= i < ranges@.len() ==> {
                                        let (r, q) = #[trigger] ranges@[i];
                                        q == id && rs@.contains(r)
                                    },
                                    forall|jj: int| 0 <= jj < j && rs@[jj].begin < rs@[jj].end
                                        ==> ranges@.contains((#[trigger] rs@[jj], id)),
                                decreases rs@.len() - j,
                            {
                                let g = rs[j];
                                if g.begin < g.end && !table_has(&ranges, (g, id)) {
                                    let ghost prev = ranges@;
                                    ranges.push((g, id));
                                    proof {
                                        assert forall|a: int, b: int| 0 <= a < b < ranges@.len() implies ranges@[a]
                                            != ranges@[b] by {
                                            if b == ranges@.len() - 1 {
                                                assert(prev[a] == ranges@[a]);
                                            } else {
                                                assert(prev[a] == ranges@[a] && prev[b] == ranges@[b]);
                                            }
                                        }
                                        assert(ranges@[ranges@.len() - 1] == (g, id));
                                        assert forall|jj: int| 0 <= jj < j && rs@[jj].begin < rs@[jj].end
                                            implies ranges@.contains((#[trigger] rs@[jj], id)) by {
                                            let w = choose|w: int| 0 <= w < prev.len() && prev[w] == (rs@[jj], id);
                                            assert(ranges@[w] == prev[w]);
                                        }
                                        assert(rs@.contains(g));
                                    }
                                }
                                j = j + 1;
                            }
                        }
                        let st = UnitState {
                            index: k,
                            dies: data.dies,
                            files: program.files,
                            sequences: program.sequences,
                            seq_table,
                            comp_dir: data.comp_dir,
                            lang,
                            base_addr,
                        };
                        proof {
                            assert(st.wf());
                            assert(st.made_from(orig[k as int]));
                        }
                        units.push(st);
                        proof {
                            assert(units@[id as int] == st);
                            assert forall|id2: int| 0 <= id2 < units@.len() implies #[trigger] units@[id2] == (
                                if id2 < id { units_before[id2] } else { st }) by {}
                            assert forall|i: int| 0 <= i < ranges@.len() implies {
                                let (r, q) = #[trigger] ranges@[i];
                                q < units@.len() && units@[q as int].has_root_range(r)
                            } by {
                                if i < ranges_before.len() {
                                    assert(ranges@[i] == ranges_before[i]);
                                }
                            }
                            assert forall|id2: int, j: int|
                                0 <= id2 < units@.len() && #[trigger] units@[id2].root_nonempty_at(j)
                                    implies ranges@.contains((units@[id2].root_ranges().unwrap()[j], id2 as usize)) by {
                                if id2 < id {
                                    let rs = units@[id2].root_ranges().unwrap();
                                    let w = choose|w: int| 0 <= w < ranges_before.len() && ranges_before[w] == (rs[j], id2 as usize);
                                    assert(ranges@[w] == ranges_before[w]);
                                }
                            }
                            assert forall|q: int| 0 <= q < k + 1 && admitted(#[trigger] orig[q])
                                implies exists|id2: int| 0 <= id2 < units@.len() && (#[trigger] units@[id2]).index == q by {
                                if q < k {
                                    let w = choose|w: int| 0 <= w < units_before.len() && (#[trigger] units_before[w]).index == q;
                                    assert(units@[w] == units_before[w]);
                                } else {
                                    assert(units@[id as int].index == q);
                                }
                            }
                        }
                    }
                }
            }
            k = k + 1;
        }
        let ghost collected = ranges@;
        sort_by_begin(&mut ranges);
        proof {
            lemma_same_contents(collected, ranges@);
            collected.lemma_multiset_has_no_duplicates();
            ranges@.lemma_multiset_has_no_duplicates_conv();
        }
        let ok = is_overlap_free(&ranges);
        let unit_count = units.len();
        proof {
            assert(unit_count == units@.len());
            lemma_overlap_iff(orig, units@, ranges@, ok);
        }
        if !ok {
            return Err(Error::OverlappingUnitRanges);
        }
        Ok(Context { unit_ranges: ranges, units })
    }
}

} // verus!
