use vstd::prelude::*;

use crate::grid::{
    cell, count_zeros, lemma_cell_update, lemma_count_zeros_bounds, lemma_count_zeros_complete,
    lemma_count_zeros_update, lemma_rc_index, spec_complete, Grid,
};
use crate::rng::RandomSource;
use crate::solver::{
    board_possible, find_full_tiles, lemma_single_hole_possible, lemma_tiles_full_complete,
    lemma_tiles_props, spec_board_possible,
};
use crate::grid::{grid_wf, spec_valid};

verus! {

/// Dig a puzzle out of a complete board: repeatedly pick a random filled
/// cell, empty it, and keep the removal only if the solvability oracle still
/// accepts the board; stop once at most `tile_goal` cells remain filled or
/// every cell has been tried. Returns the number of cells left filled, which
/// is `tile_goal` unless the pool ran out first. Cells are only ever cleared,
/// never changed, and whenever anything was removed the final board still
/// passes the oracle. On a valid complete board with a goal below 81, at
/// least one removal is always accepted, whatever the random draws: the first
/// probe leaves a single hole, which the oracle always accepts.
pub fn generate_puzzle<R: RandomSource>(grid: &mut Grid, tile_goal: u8, rng: &mut R) -> (count: u8)
    requires
        old(grid).wf(),
        spec_complete(old(grid)@),
        tile_goal <= 81,
    ensures
        final(grid).wf(),
        forall|i: int| 0 <= i < 81 ==> final(grid)@[i] == old(grid)@[i] || final(grid)@[i] == 0,
        count as int == 81 - count_zeros(final(grid)@),
        count >= tile_goal,
        final(grid)@ != old(grid)@ ==> spec_board_possible(final(grid)@),
        spec_valid(old(grid)@) && tile_goal < 81 ==> count < 81,
{
    let ghost s0 = grid@;
    proof {
        lemma_count_zeros_complete(s0);
        lemma_tiles_props(s0, 81, true);
        lemma_tiles_full_complete(s0, 81);
    }
    let mut tiles = find_full_tiles(grid);
    let mut removed: u8 = 0;
    while removed < 81 - tile_goal && tiles.len() > 0
        invariant
            grid.wf(),
            grid_wf(s0),
            crate::grid::spec_complete(s0),
            tile_goal <= 81,
            removed as int <= 81 - tile_goal as int,
            count_zeros(grid@) == removed as int,
            forall|k: int| 0 <= k < tiles@.len() ==> ((#[trigger] tiles@[k]).0 < 9) && (
            tiles@[k].1 < 9) && (cell(grid@, tiles@[k].0 as int, tiles@[k].1 as int) != 0),
            forall|k1: int, k2: int| 0 <= k1 < k2 < tiles@.len() ==> tiles@[k1] != tiles@[k2],
            forall|i: int| 0 <= i < 81 ==> grid@[i] == s0[i] || grid@[i] == 0,
            removed == 0 ==> grid@ == s0,
            removed > 0 ==> spec_board_possible(grid@),
            spec_valid(s0) && tile_goal < 81 && tiles@.len() < 81 ==> removed > 0,
        decreases tiles@.len(),
    {
        let ran = rng.next_below(tiles.len());
        let (r, c) = tiles[ran];
        let ghost tiles_prev = tiles@;
        tiles.remove(ran);
        proof {
            assert forall|k: int| 0 <= k < tiles@.len() implies ((#[trigger] tiles@[k]).0 < 9) && (
            tiles@[k].1 < 9) && (cell(grid@, tiles@[k].0 as int, tiles@[k].1 as int) != 0) && (
            tiles@[k] != tiles_prev[ran as int]) by {
                if k < ran {
                    assert(tiles@[k] == tiles_prev[k]);
                } else {
                    assert(tiles@[k] == tiles_prev[k + 1]);
                }
            }
            assert forall|k1: int, k2: int| 0 <= k1 < k2 < tiles@.len() implies tiles@[k1]
                != tiles@[k2] by {
                if k2 < ran {
                } else if k1 < ran {
                    assert(tiles@[k1] == tiles_prev[k1] && tiles@[k2] == tiles_prev[k2 + 1]);
                } else {
                    assert(tiles@[k1] == tiles_prev[k1 + 1] && tiles@[k2] == tiles_prev[k2 + 1]);
                }
            }
        }
        let temp = grid.get(r, c);
        let ghost gprev = grid@;
        grid.set(r, c, 0);
        proof {
            lemma_cell_update(gprev, r as int, c as int, 0);
            lemma_count_zeros_update(gprev, r as int * 9 + c as int, 0);
            lemma_rc_index(r as int, c as int);
        }
        if board_possible(grid) {
            removed = removed + 1;
            proof {
                assert forall|k: int| 0 <= k < tiles@.len() implies cell(
                    grid@,
                    tiles@[k].0 as int,
                    tiles@[k].1 as int,
                ) != 0 by {
                    lemma_rc_index(tiles@[k].0 as int, tiles@[k].1 as int);
                    assert(tiles@[k] != ((r, c)));
                    assert(cell(gprev, tiles@[k].0 as int, tiles@[k].1 as int) != 0);
                }
                assert forall|i: int| 0 <= i < 81 implies grid@[i] == s0[i] || grid@[i] == 0 by {
                    if i != r as int * 9 + c as int {
                        assert(grid@[i] == gprev[i]);
                    }
                }
            }
        } else {
            proof {
                if removed == 0 && spec_valid(s0) && tile_goal < 81 {
                    lemma_single_hole_possible(s0, r as int, c as int);
                    assert(false);
                }
            }
            grid.set(r, c, temp);
            proof {
                assert(grid@ =~= gprev);
            }
        }
    }
    proof {
        lemma_count_zeros_bounds(grid@);
        if grid@ != s0 {
            assert(removed > 0);
        }
        if spec_valid(s0) && tile_goal < 81 {
            assert(removed > 0);
        }
    }
    81 - removed
}

/// With the goal already met (81 filled cells requested of a complete board),
/// digging removes nothing and reports a full board: the contract of
/// `generate_puzzle` alone forces `count == 81` and an unchanged grid.
pub proof fn lemma_goal_already_met(s0: Seq<u8>, s1: Seq<u8>, count: u8)
    requires
        s0.len() == 81,
        s1.len() == 81,
        spec_complete(s0),
        count >= 81,
        count as int == 81 - count_zeros(s1),
        forall|i: int| 0 <= i < 81 ==> s1[i] == s0[i] || s1[i] == 0,
    ensures
        count == 81,
        s1 =~= s0,
{
    lemma_count_zeros_bounds(s1);
    lemma_count_zeros_complete(s1);
}


/// A rejected removal restores the board bit for bit: clearing a cell and
/// then writing its saved value back yields exactly the board it started
/// from.
pub proof fn lemma_rejected_removal_restores(s: Seq<u8>, r: int, c: int)
    requires
        s.len() == 81,
        crate::grid::in_grid(r, c),
    ensures
        s.update(r * 9 + c, 0).update(r * 9 + c, s[r * 9 + c]) =~= s,
{
    lemma_rc_index(r, c);
}

} // verus!

