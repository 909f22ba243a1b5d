//! Resolution of program-counter values into inlined frames, source
//! locations and stack variables, over decoded DWARF debug information.

mod context;
mod demangle;
mod dwarf;
mod frames;
mod path;
mod range;
mod table;
mod theorems;
mod tree;
mod vars;

pub use context::{Context, Error, Location, UnitState};
pub use dwarf::{Die, FileEntry, HighPc, LineProgram, LineRow, LineSequence, LocEntry, Tag, UnitData};
pub use frames::{Frame, Func, FullContext, Function, IterFrames, StrAttr, str_attr};
pub use range::Range;
pub use vars::{StackVar, StackVarIter};
pub use theorems::{
    lemma_attr_from_origin, lemma_construction_deterministic, lemma_frames_ordered, lemma_query_deterministic, lemma_half_open, lemma_ordered_unique,
    lemma_unit_ranges_ordered,
};
