use vstd::prelude::*;

use crate::grid::{
    cell, count_zeros, grid_wf, in_grid, lemma_cell_update, lemma_index_rc, lemma_rc_index,
    same_box, sees, spec_complete, spec_valid, cell_ok, Grid,
};
use crate::rng::RandomSource;

verus! {

/// The deterministic seed pattern: `(3r + c + r/3) mod 9 + 1`, which fills
/// the board with no repeated digit in any row, column, or box.
pub open spec fn pattern_value(r: int, c: int) -> u8 {
    (((3 * r + c + r / 3) % 9) + 1) as u8
}

/// Two nonnegative integers less than 9 apart with equal remainders mod 9
/// are equal.
proof fn lemma_mod9_eq(x: int, y: int)
    requires
        0 <= x,
        0 <= y,
        x % 9 == y % 9,
        -9 < x - y < 9,
    ensures
        x == y,
{
    vstd::arithmetic::div_mod::lemma_fundamental_div_mod(x, 9);
    vstd::arithmetic::div_mod::lemma_fundamental_div_mod(y, 9);
    assert(x - y == 9 * (x / 9) - 9 * (y / 9));
}

/// The pattern formula reduced to a small normal form:
/// `(3r + c + r/3) mod 9 == (r/3 + 3(r mod 3) + c) mod 9`.
proof fn lemma_pattern_normal(r: int, c: int)
    requires
        in_grid(r, c),
    ensures
        0 <= r / 3 <= 2,
        0 <= r % 3 <= 2,
        (3 * r + c + r / 3) % 9 == (r / 3 + 3 * (r % 3) + c) % 9,
{
    vstd::arithmetic::div_mod::lemma_fundamental_div_mod(r, 3);
    vstd::arithmetic::div_mod::lemma_mod_pos_bound(r, 3);
    let u = r / 3 + 3 * (r % 3) + c;
    assert(3 * r + c + r / 3 == 9 * (r / 3) + u);
    vstd::arithmetic::div_mod::lemma_mod_multiples_vanish(r / 3, u, 9);
    vstd::arithmetic::div_mod::lemma_mod_pos_bound(u, 9);
}

/// Two distinct cells that share a row, column, or box get distinct pattern
/// digits.
proof fn lemma_pattern_distinct(r1: int, c1: int, r2: int, c2: int)
    requires
        in_grid(r1, c1),
        in_grid(r2, c2),
        !(r1 == r2 && c1 == c2),
        sees(r1, c1, r2, c2),
    ensures
        pattern_value(r1, c1) != pattern_value(r2, c2),
{
    lemma_pattern_normal(r1, c1);
    lemma_pattern_normal(r2, c2);
    vstd::arithmetic::div_mod::lemma_mod_pos_bound(3 * r1 + c1 + r1 / 3, 9);
    vstd::arithmetic::div_mod::lemma_mod_pos_bound(3 * r2 + c2 + r2 / 3, 9);
    let a1 = r1 / 3;
    let b1 = r1 % 3;
    let a2 = r2 / 3;
    let b2 = r2 % 3;
    let u1 = a1 + 3 * b1 + c1;
    let u2 = a2 + 3 * b2 + c2;
    vstd::arithmetic::div_mod::lemma_fundamental_div_mod(r1, 3);
    vstd::arithmetic::div_mod::lemma_fundamental_div_mod(r2, 3);
    if pattern_value(r1, c1) == pattern_value(r2, c2) {
        assert(u1 % 9 == u2 % 9);
        if r1 == r2 {
            lemma_mod9_eq(u1, u2);
        } else if c1 == c2 {
            lemma_mod9_eq(u1, u2);
        } else {
            assert(same_box(r1, c1, r2, c2));
            vstd::arithmetic::div_mod::lemma_fundamental_div_mod(c1, 3);
            vstd::arithmetic::div_mod::lemma_fundamental_div_mod(c2, 3);
            vstd::arithmetic::div_mod::lemma_mod_pos_bound(c1, 3);
            vstd::arithmetic::div_mod::lemma_mod_pos_bound(c2, 3);
            assert(-2 <= c1 - c2 <= 2);
            lemma_mod9_eq(u1, u2);
        }
        assert(false);
    }
}

/// A board filled by the base pattern is complete and satisfies the grid
/// invariant.
pub proof fn lemma_base_pattern_valid(s: Seq<u8>)
    requires
        s.len() == 81,
        forall|r: int, c: int| in_grid(r, c) ==> #[trigger] cell(s, r, c) == pattern_value(r, c),
    ensures
        spec_valid(s),
        spec_complete(s),
{
    assert forall|r: int, c: int| in_grid(r, c) implies #[trigger] cell_ok(s, r, c) by {
        if cell(s, r, c) != 0 {
            assert forall|rr: int, cc: int|
                in_grid(rr, cc) && !(rr == r && cc == c) && sees(r, c, rr, cc)
                implies cell(s, r, c) != #[trigger] cell(s, rr, cc) by {
                lemma_pattern_distinct(r, c, rr, cc);
            }
        }
    }
    assert forall|i: int| 0 <= i < 81 implies s[i] != 0 by {
        lemma_index_rc(i);
        let r = i / 9;
        let c = i % 9;
        assert(cell(s, r, c) == pattern_value(r, c));
        vstd::arithmetic::div_mod::lemma_mod_pos_bound(3 * r + c + r / 3, 9);
    }
}

/// The board filled by the base pattern alone, before any randomization.
pub fn base_pattern_board() -> (g: Grid)
    ensures
        g.wf(),
        forall|r: int, c: int| in_grid(r, c) ==> #[trigger] cell(g@, r, c) == pattern_value(r, c),
{
    let mut g = Grid::new();
    let mut r: usize = 0;
    while r < 9
        invariant
            g.wf(),
            r <= 9,
            forall|r0: int, c0: int| in_grid(r0, c0) && r0 < r
                ==> #[trigger] cell(g@, r0, c0) == pattern_value(r0, c0),
        decreases 9 - r,
    {
        let mut c: usize = 0;
        while c < 9
            invariant
                g.wf(),
                r < 9,
                c <= 9,
                forall|r0: int, c0: int| in_grid(r0, c0) && r0 < r
                    ==> #[trigger] cell(g@, r0, c0) == pattern_value(r0, c0),
                forall|c0: int| 0 <= c0 < c
                    ==> #[trigger] cell(g@, r as int, c0) == pattern_value(r as int, c0),
            decreases 9 - c,
        {
            let v: u8 = ((3 * r + c + r / 3) % 9 + 1) as u8;
            proof {
                vstd::arithmetic::div_mod::lemma_mod_pos_bound(3 * (r as int) + c as int + r as int / 3, 9);
            }
            let ghost gprev = g@;
            g.set(r, c, v);
            proof {
                lemma_cell_update(gprev, r as int, c as int, v);
            }
            c += 1;
        }
        r += 1;
    }
    g
}

/// Exchange of one pair of items, as a mapping on indices.
pub open spec fn swap_map(x: int, x1: int, x2: int) -> int {
    if x == x1 {
        x2
    } else if x == x2 {
        x1
    } else {
        x
    }
}

/// The board with rows `r1` and `r2` exchanged.
pub open spec fn spec_swap_rows(s: Seq<u8>, r1: int, r2: int) -> Seq<u8> {
    Seq::new(81, |i: int| cell(s, swap_map(i / 9, r1, r2), i % 9))
}

/// The board with columns `c1` and `c2` exchanged.
pub open spec fn spec_swap_cols(s: Seq<u8>, c1: int, c2: int) -> Seq<u8> {
    Seq::new(81, |i: int| cell(s, i / 9, swap_map(i % 9, c1, c2)))
}

proof fn lemma_swap_rows_cells(s: Seq<u8>, r1: int, r2: int)
    requires
        s.len() == 81,
        0 <= r1 < 9,
        0 <= r2 < 9,
    ensures
        forall|r: int, c: int| in_grid(r, c)
            ==> #[trigger] cell(spec_swap_rows(s, r1, r2), r, c) == cell(s, swap_map(r, r1, r2), c),
{
    assert forall|r: int, c: int| in_grid(r, c)
        implies #[trigger] cell(spec_swap_rows(s, r1, r2), r, c)
            == cell(s, swap_map(r, r1, r2), c) by {
        lemma_rc_index(r, c);
    }
}

proof fn lemma_swap_cols_cells(s: Seq<u8>, c1: int, c2: int)
    requires
        s.len() == 81,
        0 <= c1 < 9,
        0 <= c2 < 9,
    ensures
        forall|r: int, c: int| in_grid(r, c)
            ==> #[trigger] cell(spec_swap_cols(s, c1, c2), r, c) == cell(s, r, swap_map(c, c1, c2)),
{
    assert forall|r: int, c: int| in_grid(r, c)
        implies #[trigger] cell(spec_swap_cols(s, c1, c2), r, c)
            == cell(s, r, swap_map(c, c1, c2)) by {
        lemma_rc_index(r, c);
    }
}

/// Exchanging two rows of one band keeps the board well formed, and it keeps
/// the grid invariant and completeness.
pub proof fn lemma_swap_rows_preserves(s: Seq<u8>, r1: int, r2: int)
    requires
        grid_wf(s),
        0 <= r1 < 9,
        0 <= r2 < 9,
        r1 / 3 == r2 / 3,
    ensures
        grid_wf(spec_swap_rows(s, r1, r2)),
        spec_valid(s) ==> spec_valid(spec_swap_rows(s, r1, r2)),
        spec_complete(s) ==> spec_complete(spec_swap_rows(s, r1, r2)),
{
    let t = spec_swap_rows(s, r1, r2);
    lemma_swap_rows_cells(s, r1, r2);
    assert forall|i: int| 0 <= i < 81 implies t[i] <= 9 && (spec_complete(s) ==> t[i] != 0) by {
        lemma_index_rc(i);
        let r = i / 9;
        let c = i % 9;
        let a = swap_map(r, r1, r2);
        assert(t[i] == cell(t, r, c));
        assert(cell(t, r, c) == cell(s, a, c));
        lemma_rc_index(a, c);
    }
    if spec_valid(s) {
        assert forall|r: int, c: int| in_grid(r, c) implies #[trigger] cell_ok(t, r, c) by {
            let a = swap_map(r, r1, r2);
            if cell(t, r, c) != 0 {
                assert forall|rr: int, cc: int|
                    in_grid(rr, cc) && !(rr == r && cc == c) && sees(r, c, rr, cc)
                    implies cell(t, r, c) != #[trigger] cell(t, rr, cc) by {
                    let b = swap_map(rr, r1, r2);
                    assert(cell(t, r, c) == cell(s, a, c));
                    assert(cell(t, rr, cc) == cell(s, b, cc));
                    assert(cell_ok(s, a, c));
                    assert(cell(s, a, c) != cell(s, b, cc));
                }
            }
        }
    }
}

/// Exchanging two columns of one stack keeps the board well formed, and it
/// keeps the grid invariant and completeness.
pub proof fn lemma_swap_cols_preserves(s: Seq<u8>, c1: int, c2: int)
    requires
        grid_wf(s),
        0 <= c1 < 9,
        0 <= c2 < 9,
        c1 / 3 == c2 / 3,
    ensures
        grid_wf(spec_swap_cols(s, c1, c2)),
        spec_valid(s) ==> spec_valid(spec_swap_cols(s, c1, c2)),
        spec_complete(s) ==> spec_complete(spec_swap_cols(s, c1, c2)),
{
    let t = spec_swap_cols(s, c1, c2);
    lemma_swap_cols_cells(s, c1, c2);
    assert forall|i: int| 0 <= i < 81 implies t[i] <= 9 && (spec_complete(s) ==> t[i] != 0) by {
        lemma_index_rc(i);
        let r = i / 9;
        let c = i % 9;
        let a = swap_map(c, c1, c2);
        assert(t[i] == cell(t, r, c));
        assert(cell(t, r, c) == cell(s, r, a));
        lemma_rc_index(r, a);
    }
    if spec_valid(s) {
        assert forall|r: int, c: int| in_grid(r, c) implies #[trigger] cell_ok(t, r, c) by {
            let a = swap_map(c, c1, c2);
            if cell(t, r, c) != 0 {
                assert forall|rr: int, cc: int|
                    in_grid(rr, cc) && !(rr == r && cc == c) && sees(r, c, rr, cc)
                    implies cell(t, r, c) != #[trigger] cell(t, rr, cc) by {
                    let b = swap_map(cc, c1, c2);
                    assert(cell(t, r, c) == cell(s, r, a));
                    assert(cell(t, rr, cc) == cell(s, rr, b));
                    assert(cell_ok(s, r, a));
                    assert(cell(s, r, a) != cell(s, rr, b));
                }
            }
        }
    }
}

/// Pick a random row and exchange it with a random other row of its band of
/// three; the swap never crosses a band boundary.
#[verifier::rlimit(60)]
#[verifier::loop_isolation(false)]
pub fn shift_rows<R: RandomSource>(grid: &mut Grid, rng: &mut R)
    requires
        old(grid).wf(),
    ensures
        final(grid).wf(),
        exists|r1: int, r2: int|
            0 <= r1 < 9 && 0 <= r2 < 9 && r1 != r2 && r1 / 3 == r2 / 3 && -2 <= r1 - r2 <= 2
                && final(grid)@ == spec_swap_rows(old(grid)@, r1, r2),
        spec_valid(old(grid)@) ==> spec_valid(final(grid)@),
        spec_complete(old(grid)@) ==> spec_complete(final(grid)@),
{
    let r: usize = rng.next_below(9);
    let pick: usize = rng.next_below(2);
    proof {
        vstd::arithmetic::div_mod::lemma_fundamental_div_mod(r as int, 3);
        vstd::arithmetic::div_mod::lemma_mod_pos_bound(r as int, 3);
    }
    let r2: usize = if r % 3 == 0 {
        r + 1 + pick
    } else if r % 3 == 1 {
        if pick == 0 {
            r - 1
        } else {
            r + 1
        }
    } else {
        r - 2 + pick
    };
    proof {
        crate::grid::lemma_band(r2 as int, r as int);
        assert(r2 as int / 3 == r as int / 3);
        assert(r != r2);
    }
    let ghost s0 = grid@;
    let mut c: usize = 0;
    while c < 9
        invariant
            grid.wf(),
            r < 9,
            r2 < 9,
            r != r2,
            c <= 9,
            s0.len() == 81,
            forall|k: int| 0 <= k < c ==> #[trigger] cell(grid@, r as int, k) == cell(s0, r2 as int, k)
                && cell(grid@, r2 as int, k) == cell(s0, r as int, k),
            forall|rr: int, k: int| in_grid(rr, k) && rr != r as int && rr != r2 as int
                ==> #[trigger] cell(grid@, rr, k) == cell(s0, rr, k),
            forall|k: int| c <= k < 9 ==> #[trigger] cell(grid@, r as int, k) == cell(s0, r as int, k)
                && cell(grid@, r2 as int, k) == cell(s0, r2 as int, k),
        decreases 9 - c,
    {
        let va = grid.get(r, c);
        let vb = grid.get(r2, c);
        let ghost g0 = grid@;
        grid.set(r, c, vb);
        let ghost g1 = grid@;
        grid.set(r2, c, va);
        proof {
            lemma_cell_update(g0, r as int, c as int, vb);
            lemma_cell_update(g1, r2 as int, c as int, va);
            assert(cell(grid@, r as int, c as int) == vb);
            assert(cell(grid@, r2 as int, c as int) == va);
            assert forall|k: int| 0 <= k < c + 1 implies #[trigger] cell(grid@, r as int, k)
                == cell(s0, r2 as int, k) && cell(grid@, r2 as int, k) == cell(s0, r as int, k) by {
                if k < c {
                    assert(cell(g1, r as int, k) == cell(g0, r as int, k));
                    assert(cell(grid@, r as int, k) == cell(g1, r as int, k));
                    assert(cell(g1, r2 as int, k) == cell(g0, r2 as int, k));
                    assert(cell(grid@, r2 as int, k) == cell(g1, r2 as int, k));
                    assert(cell(g0, r as int, k) == cell(s0, r2 as int, k));
                } else {
                    assert(cell(g0, r as int, c as int) == cell(s0, r as int, c as int));
                    assert(cell(g0, r2 as int, c as int) == cell(s0, r2 as int, c as int));
                }
            }
            assert forall|k: int| c + 1 <= k < 9 implies #[trigger] cell(grid@, r as int, k)
                == cell(s0, r as int, k) && cell(grid@, r2 as int, k) == cell(s0, r2 as int, k) by {
                assert(cell(g1, r as int, k) == cell(g0, r as int, k));
                assert(cell(grid@, r as int, k) == cell(g1, r as int, k));
                assert(cell(g1, r2 as int, k) == cell(g0, r2 as int, k));
                assert(cell(grid@, r2 as int, k) == cell(g1, r2 as int, k));
                assert(cell(g0, r as int, k) == cell(s0, r as int, k));
            }
        }
        c += 1;
    }
    proof {
        let t = spec_swap_rows(s0, r as int, r2 as int);
        lemma_swap_rows_cells(s0, r as int, r2 as int);
        assert forall|i: int| 0 <= i < 81 implies grid@[i] == t[i] by {
            lemma_index_rc(i);
            let rr = i / 9;
            let cc = i % 9;
            assert(grid@[i] == cell(grid@, rr, cc));
            assert(t[i] == cell(t, rr, cc));
            if rr == r as int {
                assert(cell(grid@, r as int, cc) == cell(s0, r2 as int, cc));
            } else if rr == r2 as int {
                assert(cell(grid@, r as int, cc) == cell(s0, r2 as int, cc));
                assert(cell(grid@, r2 as int, cc) == cell(s0, r as int, cc));
            } else {
                assert(cell(grid@, rr, cc) == cell(s0, rr, cc));
            }
        }
        assert(grid@ =~= t);
        lemma_swap_rows_preserves(s0, r as int, r2 as int);
    }
}

/// Pick a random column and exchange it with a random other column of its
/// stack of three; the swap never crosses a stack boundary.
#[verifier::rlimit(60)]
#[verifier::loop_isolation(false)]
pub fn shift_cols<R: RandomSource>(grid: &mut Grid, rng: &mut R)
    requires
        old(grid).wf(),
    ensures
        final(grid).wf(),
        exists|c1: int, c2: int|
            0 <= c1 < 9 && 0 <= c2 < 9 && c1 != c2 && c1 / 3 == c2 / 3 && -2 <= c1 - c2 <= 2
                && final(grid)@ == spec_swap_cols(old(grid)@, c1, c2),
        spec_valid(old(grid)@) ==> spec_valid(final(grid)@),
        spec_complete(old(grid)@) ==> spec_complete(final(grid)@),
{
    let c: usize = rng.next_below(9);
    let pick: usize = rng.next_below(2);
    proof {
        vstd::arithmetic::div_mod::lemma_fundamental_div_mod(c as int, 3);
        vstd::arithmetic::div_mod::lemma_mod_pos_bound(c as int, 3);
    }
    let c2: usize = if c % 3 == 0 {
        c + 1 + pick
    } else if c % 3 == 1 {
        if pick == 0 {
            c - 1
        } else {
            c + 1
        }
    } else {
        c - 2 + pick
    };
    proof {
        crate::grid::lemma_band(c2 as int, c as int);
        assert(c2 as int / 3 == c as int / 3);
        assert(c != c2);
    }
    let ghost s0 = grid@;
    let mut r: usize = 0;
    while r < 9
        invariant
            grid.wf(),
            c < 9,
            c2 < 9,
            c != c2,
            r <= 9,
            s0.len() == 81,
            forall|k: int| 0 <= k < r ==> #[trigger] cell(grid@, k, c as int) == cell(s0, k, c2 as int)
                && cell(grid@, k, c2 as int) == cell(s0, k, c as int),
            forall|k: int, cc: int| in_grid(k, cc) && cc != c as int && cc != c2 as int
                ==> #[trigger] cell(grid@, k, cc) == cell(s0, k, cc),
            forall|k: int| r <= k < 9 ==> #[trigger] cell(grid@, k, c as int) == cell(s0, k, c as int)
                && cell(grid@, k, c2 as int) == cell(s0, k, c2 as int),
        decreases 9 - r,
    {
        let va = grid.get(r, c);
        let vb = grid.get(r, c2);
        let ghost g0 = grid@;
        grid.set(r, c, vb);
        let ghost g1 = grid@;
        grid.set(r, c2, va);
        proof {
            lemma_cell_update(g0, r as int, c as int, vb);
            lemma_cell_update(g1, r as int, c2 as int, va);
            assert(cell(grid@, r as int, c as int) == vb);
            assert(cell(grid@, r as int, c2 as int) == va);
            assert forall|k: int| 0 <= k < r + 1 implies #[trigger] cell(grid@, k, c as int)
                == cell(s0, k, c2 as int) && cell(grid@, k, c2 as int) == cell(s0, k, c as int) by {
                if k < r {
                    assert(cell(g1, k, c as int) == cell(g0, k, c as int));
                    assert(cell(grid@, k, c as int) == cell(g1, k, c as int));
                    assert(cell(g1, k, c2 as int) == cell(g0, k, c2 as int));
                    assert(cell(grid@, k, c2 as int) == cell(g1, k, c2 as int));
                    assert(cell(g0, k, c as int) == cell(s0, k, c2 as int));
                } else {
                    assert(cell(g0, r as int, c as int) == cell(s0, r as int, c as int));
                    assert(cell(g0, r as int, c2 as int) == cell(s0, r as int, c2 as int));
                }
            }
            assert forall|k: int| r + 1 <= k < 9 implies #[trigger] cell(grid@, k, c as int)
                == cell(s0, k, c as int) && cell(grid@, k, c2 as int) == cell(s0, k, c2 as int) by {
                assert(cell(g1, k, c as int) == cell(g0, k, c as int));
                assert(cell(grid@, k, c as int) == cell(g1, k, c as int));
                assert(cell(g1, k, c2 as int) == cell(g0, k, c2 as int));
                assert(cell(grid@, k, c2 as int) == cell(g1, k, c2 as int));
                assert(cell(g0, k, c as int) == cell(s0, k, c as int));
            }
        }
        r += 1;
    }
    proof {
        let t = spec_swap_cols(s0, c as int, c2 as int);
        lemma_swap_cols_cells(s0, c as int, c2 as int);
        assert forall|i: int| 0 <= i < 81 implies grid@[i] == t[i] by {
            lemma_index_rc(i);
            let rr = i / 9;
            let cc = i % 9;
            assert(grid@[i] == cell(grid@, rr, cc));
            assert(t[i] == cell(t, rr, cc));
            if cc == c as int {
                assert(cell(grid@, rr, c as int) == cell(s0, rr, c2 as int));
            } else if cc == c2 as int {
                assert(cell(grid@, rr, c as int) == cell(s0, rr, c2 as int));
                assert(cell(grid@, rr, c2 as int) == cell(s0, rr, c as int));
            } else {
                assert(cell(grid@, rr, cc) == cell(s0, rr, cc));
            }
        }
        assert(grid@ =~= t);
        lemma_swap_cols_preserves(s0, c as int, c2 as int);
    }
}

/// `p` maps each index in 0..9 to one in the same block of three.
pub open spec fn band_preserving(p: spec_fn(int) -> int) -> bool {
    forall|x: int| 0 <= x < 9 ==> (0 <= #[trigger] p(x) < 9 && p(x) / 3 == x / 3)
}

/// The board is the base pattern with row `r` drawn from row `sig(r)` of its
/// band and column `c` drawn from column `tau(c)` of its stack.
pub open spec fn pattern_shuffled(
    s: Seq<u8>,
    sig: spec_fn(int) -> int,
    tau: spec_fn(int) -> int,
) -> bool {
    &&& band_preserving(sig)
    &&& band_preserving(tau)
    &&& forall|r: int, c: int| in_grid(r, c) ==> #[trigger] cell(s, r, c) == pattern_value(
        sig(r),
        tau(c),
    )
}

/// The board arises from the base pattern by permuting rows inside their
/// bands and columns inside their stacks.
pub open spec fn is_pattern_shuffle(s: Seq<u8>) -> bool {
    exists|sig: spec_fn(int) -> int, tau: spec_fn(int) -> int| pattern_shuffled(s, sig, tau)
}

/// Build a complete, valid board: seed with the base pattern, then apply 100
/// rounds of one band-preserving row swap and one column swap each. The
/// result is always some within-band shuffle of the base pattern.
pub fn generate_complete_board<R: RandomSource>(rng: &mut R) -> (g: Grid)
    ensures
        g.wf(),
        spec_complete(g@),
        spec_valid(g@),
        is_pattern_shuffle(g@),
{
    let mut g = base_pattern_board();
    proof {
        lemma_base_pattern_valid(g@);
        let id = (|x: int| x);
        assert(pattern_shuffled(g@, id, id));
    }
    let mut i: usize = 0;
    while i < 100
        invariant
            g.wf(),
            spec_complete(g@),
            spec_valid(g@),
            is_pattern_shuffle(g@),
        decreases 100 - i,
    {
        let ghost ga = g@;
        shift_rows(&mut g, rng);
        proof {
            let (sig, tau) = choose|sig: spec_fn(int) -> int, tau: spec_fn(int) -> int|
                pattern_shuffled(ga, sig, tau);
            let (r1, r2) = choose|r1: int, r2: int|
                0 <= r1 < 9 && 0 <= r2 < 9 && r1 != r2 && r1 / 3 == r2 / 3 && -2 <= r1 - r2 <= 2
                    && g@ == spec_swap_rows(ga, r1, r2);
            lemma_swap_rows_cells(ga, r1, r2);
            let sig2 = (|x: int| sig(swap_map(x, r1, r2)));
            assert forall|r: int, c: int| in_grid(r, c) implies #[trigger] cell(g@, r, c)
                == pattern_value(sig2(r), tau(c)) by {
                assert(cell(g@, r, c) == cell(ga, swap_map(r, r1, r2), c));
                assert(cell(ga, swap_map(r, r1, r2), c) == pattern_value(
                    sig(swap_map(r, r1, r2)),
                    tau(c),
                ));
            }
            assert(band_preserving(sig2)) by {
                assert forall|x: int| 0 <= x < 9 implies (0 <= #[trigger] sig2(x) < 9 && sig2(x)
                    / 3 == x / 3) by {
                    assert(0 <= sig(swap_map(x, r1, r2)) < 9);
                }
            }
            assert(pattern_shuffled(g@, sig2, tau));
        }
        let ghost gb = g@;
        shift_cols(&mut g, rng);
        proof {
            let (sig, tau) = choose|sig: spec_fn(int) -> int, tau: spec_fn(int) -> int|
                pattern_shuffled(gb, sig, tau);
            let (c1, c2) = choose|c1: int, c2: int|
                0 <= c1 < 9 && 0 <= c2 < 9 && c1 != c2 && c1 / 3 == c2 / 3 && -2 <= c1 - c2 <= 2
                    && g@ == spec_swap_cols(gb, c1, c2);
            lemma_swap_cols_cells(gb, c1, c2);
            let tau2 = (|x: int| tau(swap_map(x, c1, c2)));
            assert forall|r: int, c: int| in_grid(r, c) implies #[trigger] cell(g@, r, c)
                == pattern_value(sig(r), tau2(c)) by {
                assert(cell(g@, r, c) == cell(gb, r, swap_map(c, c1, c2)));
                assert(cell(gb, r, swap_map(c, c1, c2)) == pattern_value(
                    sig(r),
                    tau(swap_map(c, c1, c2)),
                ));
            }
            assert(band_preserving(tau2)) by {
                assert forall|x: int| 0 <= x < 9 implies (0 <= #[trigger] tau2(x) < 9 && tau2(x)
                    / 3 == x / 3) by {
                    assert(0 <= tau(swap_map(x, c1, c2)) < 9);
                }
            }
            assert(pattern_shuffled(g@, sig, tau2));
        }
        i += 1;
    }
    g
}

} // verus!
