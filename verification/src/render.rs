use vstd::prelude::*;

use crate::grid::{cell, Grid};

verus! {

/// The ASCII digit for a cell value.
pub open spec fn digit_byte(v: u8) -> u8 {
    (48 + v) as u8
}

/// The bytes of row `r` up to column `n`: one digit per cell, with a single
/// space after columns 2 and 5.
pub open spec fn row_bytes_upto(s: Seq<u8>, r: int, n: int) -> Seq<u8>
    decreases n,
{
    if n <= 0 {
        Seq::empty()
    } else {
        row_bytes_upto(s, r, n - 1) + seq![digit_byte(cell(s, r, n - 1))] + if n - 1 == 2 || n - 1
            == 5 {
            seq![32u8]
        } else {
            Seq::empty()
        }
    }
}

/// The bytes of the first `n` rows: each row on its own line, with a blank
/// line after rows 2 and 5.
pub open spec fn board_bytes_upto(s: Seq<u8>, n: int) -> Seq<u8>
    decreases n,
{
    if n <= 0 {
        Seq::empty()
    } else {
        board_bytes_upto(s, n - 1) + row_bytes_upto(s, n - 1, 9) + seq![10u8] + if n - 1 == 2 || n
            - 1 == 5 {
            seq![10u8]
        } else {
            Seq::empty()
        }
    }
}

/// The textual dump of the whole board, with a trailing blank line.
pub open spec fn spec_render(s: Seq<u8>) -> Seq<u8> {
    board_bytes_upto(s, 9) + seq![10u8]
}

/// Render the board in the conventional 3x3-block layout: a space after
/// columns 2 and 5, a blank line after rows 2 and 5, and a trailing blank
/// line after the grid.
pub fn render_board(grid: &Grid) -> (out: Vec<u8>)
    requires
        grid.wf(),
    ensures
        out@ == spec_render(grid@),
{
    let mut out: Vec<u8> = Vec::new();
    let mut r: usize = 0;
    while r < 9
        invariant
            grid.wf(),
            r <= 9,
            out@ == board_bytes_upto(grid@, r as int),
        decreases 9 - r,
    {
        proof {
            assert(out@ =~= board_bytes_upto(grid@, r as int) + row_bytes_upto(
                grid@,
                r as int,
                0,
            ));
        }
        let mut c: usize = 0;
        while c < 9
            invariant
                grid.wf(),
                r < 9,
                c <= 9,
                out@ == board_bytes_upto(grid@, r as int) + row_bytes_upto(
                    grid@,
                    r as int,
                    c as int,
                ),
            decreases 9 - c,
        {
            let v = grid.get(r, c);
            out.push(48 + v);
            if c == 2 || c == 5 {
                out.push(32);
            }
            proof {
                assert(out@ =~= board_bytes_upto(grid@, r as int) + row_bytes_upto(
                    grid@,
                    r as int,
                    c as int + 1,
                ));
            }
            c += 1;
        }
        out.push(10);
        if r == 2 || r == 5 {
            out.push(10);
        }
        proof {
            assert(out@ =~= board_bytes_upto(grid@, r as int + 1));
        }
        r += 1;
    }
    out.push(10);
    proof {
        assert(out@ =~= spec_render(grid@));
    }
    out
}

} // verus!
