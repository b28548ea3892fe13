//! Matrix scanning, the pure half: the board drives one row at a time and
//! reads every column input under the active-low pull-up convention (a low
//! level means the switch conducts). This module turns the column levels
//! read row by row into the raw row-major snapshot the debouncer consumes.

use vstd::prelude::*;

verus! {

proof fn lemma_row_major_lt(r2: int, c2: int, r: int, c: int, cols: int)
    requires
        0 <= c2 < cols,
        0 <= c,
        0 <= r2 < r,
    ensures
        r2 * cols + c2 < r * cols + c,
{
    assert(r2 * cols + c2 < r * cols + c) by (nonlinear_arith)
        requires
            0 <= c2 < cols && 0 <= c && 0 <= r2 < r,
    ;
}

/// Flattens the electrical levels read during one scan (one inner vector of
/// column levels per row, all of width `cols`) into the raw snapshot: one
/// bit per position in row-major order, true where the switch is actuated,
/// which under active-low wiring is a low level.
pub fn snapshot_from_levels(levels: &Vec<Vec<bool>>, cols: usize) -> (snap: Vec<bool>)
    requires
        forall|r: int| 0 <= r < levels@.len() ==> (#[trigger] levels@[r])@.len() == cols,
    ensures
        snap@.len() == levels@.len() * cols,
        forall|r: int, c: int|
            0 <= r < levels@.len() && 0 <= c < cols ==> #[trigger] snap@[r * cols + c]
                == !levels@[r]@[c],
{
    let rows = levels.len();
    let mut snap: Vec<bool> = Vec::new();
    let mut r: usize = 0;
    while r < rows
        invariant
            r <= rows,
            rows == levels@.len(),
            forall|r2: int| 0 <= r2 < rows ==> (#[trigger] levels@[r2])@.len() == cols,
            snap@.len() == r * cols,
            forall|r2: int, c2: int|
                0 <= r2 < r && 0 <= c2 < cols ==> #[trigger] snap@[r2 * cols + c2]
                    == !levels@[r2]@[c2],
        decreases rows - r,
    {
        let mut c: usize = 0;
        while c < cols
            invariant
                c <= cols,
                r < rows,
                rows == levels@.len(),
                forall|r2: int| 0 <= r2 < rows ==> (#[trigger] levels@[r2])@.len() == cols,
                snap@.len() == r * cols + c,
                forall|r2: int, c2: int|
                    0 <= r2 < r && 0 <= c2 < cols ==> #[trigger] snap@[r2 * cols + c2]
                        == !levels@[r2]@[c2],
                forall|c2: int|
                    0 <= c2 < c ==> #[trigger] snap@[r as int * cols + c2] == !levels@[r as int]@[c2],
        decreases cols - c,
        {
            snap.push(!levels[r][c]);
            proof {
                assert forall|r2: int, c2: int|
                    0 <= r2 < r && 0 <= c2 < cols implies #[trigger] snap@[r2 * cols + c2]
                    == !levels@[r2]@[c2] by {
                    lemma_row_major_lt(r2, c2, r as int, c as int, cols as int);
                }
                let ghost ri = r as int;
                assert forall|c2: int|
                    0 <= c2 < c + 1 implies #[trigger] snap@[ri * cols + c2]
                    == !levels@[ri]@[c2] by {
                    if c2 < c {
                        assert(snap@[r as int * cols + c2] == snap@.drop_last()[r as int * cols
                            + c2]);
                    } else {
                        assert(r as int * cols + c2 == snap@.len() - 1);
                    }
                }
            }
            c += 1;
        }
        proof {
            assert((r as int + 1) * cols == r as int * cols + cols) by (nonlinear_arith);
        }
        r += 1;
    }
    proof {
        assert forall|r2: int, c2: int|
            0 <= r2 < levels@.len() && 0 <= c2 < cols implies #[trigger] snap@[r2 * cols + c2]
            == !levels@[r2]@[c2] by {
        }
    }
    snap
}

} // verus!
