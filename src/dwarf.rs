//! The decoded form of the debug information that the engine indexes: one
//! `UnitData` per compilation unit, each holding its entries in DFS order.

use vstd::prelude::*;
use crate::range::Range;

verus! {

/// The kind of a debugging information entry, as far as resolution cares.
#[derive(Clone, Copy, Debug, PartialEq, Eq, Structural)]
pub enum Tag {
    CompileUnit,
    Subprogram,
    InlinedSubroutine,
    Variable,
    LexicalBlock,
    Other,
}

/// How a `DW_AT_high_pc` attribute was encoded.
#[derive(Clone, Copy, Debug, PartialEq, Eq, Structural)]
pub enum HighPc {
    /// An absolute address: the end of the range.
    Addr(u64),
    /// An unsigned constant: the length of the range, counted from `low_pc`.
    Offset(u64),
}

/// One entry of a location list: an expression valid over `range`.
#[derive(Clone, Debug)]
pub struct LocEntry {
    pub range: Range,
    pub expr: Vec<u8>,
}

/// A debugging information entry, with the attributes that resolution reads.
#[derive(Clone, Debug)]
pub struct Die {
    /// Depth in the unit's tree; the unit's root entry has depth 0.
    pub depth: usize,
    pub tag: Tag,
    /// The decoded `DW_AT_ranges` list, when the entry has one.
    pub ranges: Option<Vec<Range>>,
    pub low_pc: Option<u64>,
    pub high_pc: Option<HighPc>,
    pub name: Option<String>,
    pub linkage_name: Option<String>,
    /// `DW_AT_abstract_origin`, as the position of the origin entry in the unit.
    pub abstract_origin: Option<usize>,
    pub call_file: Option<u64>,
    pub call_line: Option<u64>,
    pub call_column: Option<u64>,
    /// The decoded location list that `DW_AT_location` refers to, if any.
    pub location: Option<Vec<LocEntry>>,
}

/// An entry of a line-number program's file table.
#[derive(Clone, Debug)]
pub struct FileEntry {
    pub directory: Option<String>,
    pub path: String,
}

/// A row of the line-number state machine.
#[derive(Clone, Copy, Debug, PartialEq, Eq, Structural)]
pub struct LineRow {
    pub address: u64,
    /// Index into the file table; 0 names no file.
    pub file: u64,
    pub line: Option<u64>,
    /// `None` stands for the left edge of the line.
    pub column: Option<u64>,
}

/// A contiguous run of rows covering `[start, end)`.
#[derive(Clone, Debug)]
pub struct LineSequence {
    pub start: u64,
    pub end: u64,
    pub rows: Vec<LineRow>,
}

/// A line-number program: its file table and its sequences.
#[derive(Clone, Debug)]
pub struct LineProgram {
    pub files: Vec<FileEntry>,
    pub sequences: Vec<LineSequence>,
}

/// One compilation unit as decoded from the debug sections.
#[derive(Clone, Debug)]
pub struct UnitData {
    /// The unit's entries in DFS pre-order, the unit entry first.
    pub dies: Vec<Die>,
    /// The program that `DW_AT_stmt_list` refers to.
    pub line_program: Option<LineProgram>,
    pub language: Option<u16>,
    pub comp_dir: Option<String>,
}

/// The ranges that the entry's attributes describe, or `None` when it has no
/// range information: the `DW_AT_ranges` list if present, else the single
/// range of `low_pc` and `high_pc`.
pub open spec fn die_ranges(d: Die) -> Option<Seq<Range>> {
    match d.ranges {
        Some(rs) => Some(rs@),
        None => match (d.low_pc, d.high_pc) {
            (Some(lo), Some(HighPc::Addr(hi))) => Some(seq![Range { begin: lo, end: hi }]),
            (Some(lo), Some(HighPc::Offset(len))) =>
                if lo + len <= u64::MAX {
                    Some(seq![Range { begin: lo, end: (lo + len) as u64 }])
                } else {
                    None
                },
            _ => None,
        },
    }
}

impl Die {
    /// The entry's ranges; an offset `high_pc` is added to `low_pc`. A sum
    /// that does not fit in 64 bits gives no range information.
    pub fn read_ranges(&self) -> (r: Option<Vec<Range>>)
        ensures
            match r {
                Some(v) => die_ranges(*self) == Some(v@),
                None => die_ranges(*self).is_none(),
            },
    {
        match &self.ranges {
            Some(rs) => {
                let mut out: Vec<Range> = Vec::new();
                let mut i: usize = 0;
                while i < rs.len()
                    invariant
                        i <= rs@.len(),
                        out@ == rs@.subrange(0, i as int),
                    decreases rs@.len() - i,
                {
                    out.push(rs[i]);
                    i = i + 1;
                    assert(out@ =~= rs@.subrange(0, i as int));
                }
                assert(out@ =~= rs@);
                Some(out)
            },
            None => match (self.low_pc, self.high_pc) {
                (Some(lo), Some(HighPc::Addr(hi))) => Some(vec![Range { begin: lo, end: hi }]),
                (Some(lo), Some(HighPc::Offset(len))) => match lo.checked_add(len) {
                    Some(hi) => Some(vec![Range { begin: lo, end: hi }]),
                    None => None,
                },
                _ => None,
            },
        }
    }
}

} // verus!
