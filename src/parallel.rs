//! The buffer encoding shared with the parallel brute-force backend: one
//! buffer of 81 cells per board, row-major, 0 for an unknown cell.
use vstd::prelude::*;
use crate::board::SudokuBoard;

verus! {

/// The boards a parallel backend reads per dispatch.
pub const BATCH_WIDTH: usize = 1;

/// One input buffer per board, each holding the board's cells in row-major
/// order.
pub fn encode_batch(boards: &Vec<SudokuBoard>) -> (r: Vec<[u32; 81]>)
    ensures
        r.len() == boards.len(),
        forall|i: int| 0 <= i < boards.len() ==> (#[trigger] r@[i])@ == boards@[i].cells(),
{
    let mut r: Vec<[u32; 81]> = Vec::new();
    let mut i: usize = 0;
    while i < boards.len()
        invariant
            i <= boards.len(),
            r.len() == i,
            forall|j: int| 0 <= j < i ==> (#[trigger] r@[j])@ == boards@[j].cells(),
        decreases boards.len() - i,
    {
        r.push(boards[i].to_cells());
        i += 1;
    }
    r
}

/// Reads one result buffer: the board it holds when every cell is filled,
/// `None` when some cell is still 0.
pub fn decode_result(cells: &[u32; 81]) -> (r: Option<SudokuBoard>)
    ensures
        r is None <==> exists|i: int| 0 <= i < 81 && #[trigger] cells@[i] == 0,
        r matches Some(b) ==> b.cells() == cells@,
{
    let mut i: usize = 0;
    while i < 81
        invariant
            i <= 81,
            forall|j: int| 0 <= j < i ==> #[trigger] cells@[j] != 0,
        decreases 81 - i,
    {
        if cells[i] == 0 {
            return None;
        }
        i += 1;
    }
    Some(SudokuBoard::from_cells(*cells))
}

/// Reads the result buffers of a batch, one outcome per buffer, in order.
pub fn decode_results(results: &Vec<[u32; 81]>) -> (r: Vec<Option<SudokuBoard>>)
    ensures
        r.len() == results.len(),
        forall|i: int| 0 <= i < results.len() ==> ((#[trigger] r@[i]) is None <==> exists|j: int| 0 <= j < 81 && results@[i]@[j] == 0),
        forall|i: int| 0 <= i < results.len() ==> (#[trigger] r@[i] matches Some(b) ==> b.cells() == results@[i]@),
{
    let mut r: Vec<Option<SudokuBoard>> = Vec::new();
    let mut i: usize = 0;
    while i < results.len()
        invariant
            i <= results.len(),
            r.len() == i,
            forall|k: int| 0 <= k < i ==> ((#[trigger] r@[k]) is None <==> exists|j: int| 0 <= j < 81 && results@[k]@[j] == 0),
            forall|k: int| 0 <= k < i ==> (#[trigger] r@[k] matches Some(b) ==> b.cells() == results@[k]@),
        decreases results.len() - i,
    {
        let d = decode_result(&results[i]);
        r.push(d);
        i += 1;
    }
    r
}

} // verus!
