//! Resolution of ambiguously-delimited CSV-like byte buffers.
//!
//! A byte that looks like a delimiter, quote or newline may in fact be part
//! of a data value.  The simple path (`easy`) tokenizes well-formed lines and
//! repairs rows with a known excess-field shape; the resolution path
//! (`medium`) searches over interpretations of ambiguous delimiter and quote
//! occurrences for one that is shape-valid and has low per-column
//! heterogeneity.

use vstd::prelude::*;

pub mod csv;
pub mod errors;

verus! {

/// The byte sequences held by a row of cells.
pub open spec fn cells_view(v: Seq<Vec<u8>>) -> Seq<Seq<u8>> {
    v.map_values(|x: Vec<u8>| x@)
}

/// The byte sequences held by a table of rows of cells.
pub open spec fn table_view(v: Seq<Vec<Vec<u8>>>) -> Seq<Seq<Seq<u8>>> {
    v.map_values(|x: Vec<Vec<u8>>| cells_view(x@))
}

/// Appending a cell to a row appends its bytes to the row's view.
pub proof fn lemma_cells_view_push(s: Seq<Vec<u8>>, x: Vec<u8>)
    ensures
        cells_view(s.push(x)) == cells_view(s).push(x@),
{
    assert(cells_view(s.push(x)) =~= cells_view(s).push(x@));
}

/// Appending a row to a table appends its view to the table's view.
pub proof fn lemma_table_view_push(s: Seq<Vec<Vec<u8>>>, x: Vec<Vec<u8>>)
    ensures
        table_view(s.push(x)) == table_view(s).push(cells_view(x@)),
{
    assert(table_view(s.push(x)) =~= table_view(s).push(cells_view(x@)));
}

/// A line/column position in the input, used to report where resolution
/// broke down.
#[derive(Debug, Clone, Copy, PartialEq, Eq, Structural)]
pub struct Position {
    pub line: usize,
    pub column: usize,
}

} // verus!
