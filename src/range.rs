use vstd::prelude::*;

verus! {

/// A half-open range `[begin, end)` of program-counter values.
#[derive(Clone, Copy, Debug, PartialEq, Eq, Structural)]
pub struct Range {
    pub begin: u64,
    pub end: u64,
}

impl Range {
    pub open spec fn covers(self, pc: u64) -> bool {
        self.begin <= pc && pc < self.end
    }

    pub open spec fn is_empty(self) -> bool {
        self.begin >= self.end
    }

    /// Whether `pc` lies in the range: `begin` is in, `end` is not.
    pub fn contains(&self, pc: u64) -> (r: bool)
        ensures
            r == self.covers(pc),
    {
        self.begin <= pc && pc < self.end
    }
}

/// Whether some range of `rs` covers `pc`.
pub open spec fn any_covers(rs: Seq<Range>, pc: u64) -> bool {
    exists|i: int| 0 <= i < rs.len() && #[trigger] rs[i].covers(pc)
}

/// Whether some range of the list covers `pc`, scanning the list in order.
pub fn any_range_covers(rs: &Vec<Range>, pc: u64) -> (r: bool)
    ensures
        r == any_covers(rs@, pc),
{
    let mut i: usize = 0;
    while i < rs.len()
        invariant
            i <= rs@.len(),
            forall|k: int| 0 <= k < i ==> !(#[trigger] rs@[k]).covers(pc),
        decreases rs@.len() - i,
    {
        if rs[i].contains(pc) {
            return true;
        }
        i = i + 1;
    }
    false
}

} // verus!
