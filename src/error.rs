use vstd::prelude::*;

verus! {

/// Why a read, an allocation or a write of seats did not complete.
#[derive(Debug)]
pub enum SeatError {
    /// The document could not be opened, read or saved.
    IOFailure { path: String },
    /// The document has no sheet of the expected name.
    SchemaFailure { sheet: String },
    /// More students than seats left once the excluded ones are removed; the three counts
    /// are the students, all seats, and the distinct excluded labels.
    CapacityFailure { students: usize, seats: usize, excluded: usize },
    /// A seat label does not end in a row number.
    FormatFailure { label: String },
}

} // verus!
