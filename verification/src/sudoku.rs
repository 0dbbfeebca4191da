use vstd::prelude::*;

verus! {

/// A 9×9 grid of given digits, row by row: 81 entries, `0` for an empty
/// cell, `1..=9` for a given value.
#[derive(Clone, Debug)]
pub struct Sudoku {
    pub cases: Vec<usize>,
}

impl Sudoku {
    pub open spec fn wf(self) -> bool {
        self.cases@.len() == 81 && forall|c: int| 0 <= c < 81 ==> self.cases@[c] <= 9
    }
}

} // verus!
