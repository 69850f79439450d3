use vstd::prelude::*;

pub mod aggregate;
pub mod laws;
pub mod model;
pub mod records;
pub mod repository;

pub use aggregate::{ConnectionMatrix, Edge};
pub use records::{CallRecord, CellRecord, MessageRecord};
pub use repository::{PartyIndex, RecordRepository};

verus! {

/// Sum of two sizes.
pub fn add(left: usize, right: usize) -> (r: usize)
    requires
        left + right <= usize::MAX,
    ensures
        r == left + right,
{
    left + right
}

} // verus!
