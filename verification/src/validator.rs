use vstd::prelude::*;

use crate::grid::{cell, cell_ok, in_grid, sees, spec_valid, Grid};

verus! {

/// Whether the digit at `(r, c)`, if any, clashes with no cell it sees.
fn cell_correct(grid: &Grid, r: usize, c: usize) -> (b: bool)
    requires
        grid.wf(),
        r < 9,
        c < 9,
    ensures
        b == cell_ok(grid@, r as int, c as int),
{
    let v = grid.get(r, c);
    if v == 0 {
        return true;
    }
    let mut r2: usize = 0;
    while r2 < 9
        invariant
            grid.wf(),
            r < 9,
            c < 9,
            r2 <= 9,
            v == cell(grid@, r as int, c as int),
            v != 0,
            forall|a: int, b2: int|
                in_grid(a, b2) && a < r2 && !(a == r && b2 == c) && sees(r as int, c as int, a, b2)
                    ==> v != #[trigger] cell(grid@, a, b2),
        decreases 9 - r2,
    {
        let mut c2: usize = 0;
        while c2 < 9
            invariant
                grid.wf(),
                r < 9,
                c < 9,
                r2 < 9,
                c2 <= 9,
                v == cell(grid@, r as int, c as int),
                v != 0,
                forall|a: int, b2: int|
                    in_grid(a, b2) && a < r2 && !(a == r && b2 == c) && sees(
                        r as int,
                        c as int,
                        a,
                        b2,
                    ) ==> v != #[trigger] cell(grid@, a, b2),
                forall|b2: int|
                    0 <= b2 < c2 && !(r2 == r && b2 == c) && sees(
                        r as int,
                        c as int,
                        r2 as int,
                        b2,
                    ) ==> v != #[trigger] cell(grid@, r2 as int, b2),
            decreases 9 - c2,
        {
            if !(r2 == r && c2 == c) {
                let share = r2 == r || c2 == c || (r2 / 3 == r / 3 && c2 / 3 == c / 3);
                if share && grid.get(r2, c2) == v {
                    return false;
                }
            }
            c2 += 1;
        }
        r2 += 1;
    }
    true
}

/// The Validator: whether no row, column, or box of the board repeats a
/// nonzero digit. Empty cells never count as clashes.
pub fn board_correct(grid: &Grid) -> (b: bool)
    requires
        grid.wf(),
    ensures
        b == spec_valid(grid@),
{
    let mut r: usize = 0;
    while r < 9
        invariant
            grid.wf(),
            r <= 9,
            forall|a: int, b2: int| in_grid(a, b2) && a < r ==> #[trigger] cell_ok(grid@, a, b2),
        decreases 9 - r,
    {
        let mut c: usize = 0;
        while c < 9
            invariant
                grid.wf(),
                r < 9,
                c <= 9,
                forall|a: int, b2: int| in_grid(a, b2) && a < r ==> #[trigger] cell_ok(
                    grid@,
                    a,
                    b2,
                ),
                forall|b2: int| 0 <= b2 < c ==> #[trigger] cell_ok(grid@, r as int, b2),
            decreases 9 - c,
        {
            if !cell_correct(grid, r, c) {
                return false;
            }
            c += 1;
        }
        r += 1;
    }
    true
}

} // verus!
