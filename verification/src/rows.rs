//! The persisted log record and its mathematical model.

use vstd::prelude::*;

verus! {

/// One persisted log record: at `timestamp` (Unix epoch seconds) the
/// application had been active for `duration` seconds since the previous
/// flush.
#[derive(Debug, Clone)]
pub struct Row {
    pub timestamp: u64,
    pub application: String,
    pub duration: u64,
}

/// The mathematical value of a `Row`.
pub ghost struct RowModel {
    pub timestamp: u64,
    pub application: Seq<char>,
    pub duration: u64,
}

impl View for Row {
    type V = RowModel;

    open spec fn view(&self) -> RowModel {
        RowModel {
            timestamp: self.timestamp,
            application: self.application@,
            duration: self.duration,
        }
    }
}

/// The models of a sequence of rows.
pub open spec fn row_models(rows: Seq<Row>) -> Seq<RowModel> {
    rows.map_values(|r: Row| r@)
}

} // verus!
