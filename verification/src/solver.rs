use vstd::prelude::*;

use crate::grid::{
    cell, cell_ok, count_zeros, grid_wf, in_grid, lemma_count_zeros_bounds,
    lemma_count_zeros_update, lemma_index_rc, lemma_rc_index, same_box, sees, spec_complete,
    spec_valid, Grid,
};
use crate::rng::RandomSource;
use crate::validator::board_correct;

verus! {

/// Digit `v` appears somewhere in row `r`.
pub open spec fn value_in_row(s: Seq<u8>, r: int, v: u8) -> bool {
    exists|c: int| 0 <= c < 9 && #[trigger] cell(s, r, c) == v
}

/// Digit `v` appears somewhere in column `c`.
pub open spec fn value_in_col(s: Seq<u8>, c: int, v: u8) -> bool {
    exists|r: int| 0 <= r < 9 && #[trigger] cell(s, r, c) == v
}

/// Digit `v` appears somewhere in the box of `(r, c)`.
pub open spec fn value_in_box(s: Seq<u8>, r: int, c: int, v: u8) -> bool {
    exists|r2: int, c2: int|
        in_grid(r2, c2) && same_box(r2, c2, r, c) && #[trigger] cell(s, r2, c2) == v
}

/// Digit `v` could legally be placed at `(r, c)`: it is a digit and is absent
/// from the cell's row, column, and box.
pub open spec fn is_candidate(s: Seq<u8>, r: int, c: int, v: u8) -> bool {
    &&& 1 <= v <= 9
    &&& !value_in_row(s, r, v)
    &&& !value_in_col(s, c, v)
    &&& !value_in_box(s, r, c, v)
}

/// Some empty cell other than `(r, c)` that `(r, c)` sees also has `v` as a
/// candidate.
pub open spec fn is_peer_source(s: Seq<u8>, r: int, c: int, a: int, b: int, v: u8) -> bool {
    &&& in_grid(a, b)
    &&& !(a == r && b == c)
    &&& sees(r, c, a, b)
    &&& cell(s, a, b) == 0
    &&& is_candidate(s, a, b, v)
}

pub open spec fn peer_has_candidate(s: Seq<u8>, r: int, c: int, v: u8) -> bool {
    exists|a: int, b: int| is_peer_source(s, r, c, a, b, v)
}

/// Whether digit `v` survives for `(r, c)`: it must be a candidate, and under
/// the elimination pass (`strict`) no empty peer may share it.
pub open spec fn keeps(s: Seq<u8>, r: int, c: int, v: u8, strict: bool) -> bool {
    is_candidate(s, r, c, v) && (strict ==> !peer_has_candidate(s, r, c, v))
}

/// The surviving digits among `1..=n`, in ascending order.
pub open spec fn digits_upto(s: Seq<u8>, r: int, c: int, n: int, strict: bool) -> Seq<u8>
    decreases n,
{
    if n <= 0 {
        Seq::empty()
    } else {
        digits_upto(s, r, c, n - 1, strict) + if keeps(s, r, c, n as u8, strict) {
            seq![n as u8]
        } else {
            Seq::empty()
        }
    }
}

/// The candidate set of `(r, c)`, ascending.
pub open spec fn candidates_of(s: Seq<u8>, r: int, c: int) -> Seq<u8> {
    digits_upto(s, r, c, 9, false)
}

/// The candidates of `(r, c)` that no empty peer shares, ascending.
pub open spec fn eliminated_of(s: Seq<u8>, r: int, c: int) -> Seq<u8> {
    digits_upto(s, r, c, 9, true)
}

/// The forced move at `(r, c)`, if any: an empty cell with exactly one
/// candidate, or failing that exactly one candidate that survives the
/// peer-elimination pass.
pub open spec fn forced_at(s: Seq<u8>, r: int, c: int) -> Option<u8> {
    if cell(s, r, c) != 0 {
        Option::None
    } else if candidates_of(s, r, c).len() == 1 {
        Option::Some(candidates_of(s, r, c)[0])
    } else if eliminated_of(s, r, c).len() == 1 {
        Option::Some(eliminated_of(s, r, c)[0])
    } else {
        Option::None
    }
}

/// The forced moves of the cells at row-major indices below `n`, in order.
pub open spec fn moves_upto(s: Seq<u8>, n: int) -> Seq<(u8, u8, u8)>
    decreases n,
{
    if n <= 0 {
        Seq::empty()
    } else {
        moves_upto(s, n - 1) + match forced_at(s, (n - 1) / 9, (n - 1) % 9) {
            Option::Some(v) => seq![((((n - 1) / 9) as u8), (((n - 1) % 9) as u8), v)],
            Option::None => Seq::empty(),
        }
    }
}

/// All forced moves of the board, in row-major order of their cells.
pub open spec fn spec_forced_moves(s: Seq<u8>) -> Seq<(u8, u8, u8)> {
    moves_upto(s, 81)
}

/// The board after one move is written.
pub open spec fn apply_move(s: Seq<u8>, m: (u8, u8, u8)) -> Seq<u8> {
    s.update(m.0 as int * 9 + m.1 as int, m.2)
}

/// The board after a list of moves is written, in order.
pub open spec fn spec_apply_moves(s: Seq<u8>, ms: Seq<(u8, u8, u8)>) -> Seq<u8>
    decreases ms.len(),
{
    if ms.len() == 0 {
        s
    } else {
        apply_move(spec_apply_moves(s, ms.drop_last()), ms.last())
    }
}

pub proof fn lemma_digits_props(s: Seq<u8>, r: int, c: int, n: int, strict: bool)
    requires
        0 <= n <= 9,
    ensures
        forall|k: int| 0 <= k < digits_upto(s, r, c, n, strict).len()
            ==> keeps(s, r, c, #[trigger] digits_upto(s, r, c, n, strict)[k], strict)
                && 1 <= digits_upto(s, r, c, n, strict)[k] <= n,
        forall|v: u8| 1 <= v <= n && keeps(s, r, c, v, strict)
            ==> #[trigger] digits_upto(s, r, c, n, strict).contains(v),
        forall|k1: int, k2: int| 0 <= k1 < k2 < digits_upto(s, r, c, n, strict).len()
            ==> digits_upto(s, r, c, n, strict)[k1] < digits_upto(s, r, c, n, strict)[k2],
    decreases n,
{
    if n > 0 {
        lemma_digits_props(s, r, c, n - 1, strict);
        let prev = digits_upto(s, r, c, n - 1, strict);
        let cur = digits_upto(s, r, c, n, strict);
        assert forall|v: u8| 1 <= v <= n && keeps(s, r, c, v, strict) implies #[trigger] cur.contains(
            v,
        ) by {
            if v <= n - 1 {
                assert(prev.contains(v));
                let k = choose|k: int| 0 <= k < prev.len() && prev[k] == v;
                assert(cur[k] == v);
                assert(cur.contains(v));
            } else {
                assert(v == n as u8);
                assert(cur[cur.len() - 1] == v);
                assert(cur.contains(v));
            }
        }
    }
}

pub proof fn lemma_moves_props(s: Seq<u8>, n: int)
    requires
        0 <= n <= 81,
    ensures
        forall|k: int| 0 <= k < moves_upto(s, n).len()
            ==> ((#[trigger] moves_upto(s, n)[k]).0 < 9) && (moves_upto(s, n)[k].1 < 9) && (1
                <= moves_upto(s, n)[k].2) && (moves_upto(s, n)[k].2 <= 9) && (moves_upto(
                s,
                n,
            )[k].0 as int * 9 + moves_upto(s, n)[k].1 as int) < n && (cell(
                s,
                moves_upto(s, n)[k].0 as int,
                moves_upto(s, n)[k].1 as int,
            ) == 0),
    decreases n,
{
    if n > 0 {
        lemma_moves_props(s, n - 1);
        lemma_index_rc(n - 1);
        let r = (n - 1) / 9;
        let c = (n - 1) % 9;
        let prev = moves_upto(s, n - 1);
        let cur = moves_upto(s, n);
        assert forall|k: int| 0 <= k < cur.len() implies ((#[trigger] cur[k]).0 < 9) && (cur[k].1
            < 9) && (1 <= cur[k].2) && (cur[k].2 <= 9) && (cur[k].0 as int * 9
            + cur[k].1 as int) < n && (cell(s, cur[k].0 as int, cur[k].1 as int) == 0) by {
            if k < prev.len() {
                assert(cur[k] == prev[k]);
            } else {
                let e = cur[k];
                assert(forced_at(s, r, c) is Some);
                assert(cell(s, r, c) == 0);
                if candidates_of(s, r, c).len() == 1 {
                    assert(e.2 == candidates_of(s, r, c)[0]);
                    lemma_digits_props(s, r, c, 9, false);
                    assert(keeps(s, r, c, candidates_of(s, r, c)[0], false));
                } else {
                    assert(e.2 == eliminated_of(s, r, c)[0]);
                    lemma_digits_props(s, r, c, 9, true);
                    assert(keeps(s, r, c, eliminated_of(s, r, c)[0], true));
                }
                assert(e.0 as int == r && e.1 as int == c);
            }
        }
    }
}

proof fn lemma_apply_moves_len(s: Seq<u8>, ms: Seq<(u8, u8, u8)>)
    requires
        s.len() == 81,
        forall|k: int| 0 <= k < ms.len() ==> ((#[trigger] ms[k]).0 < 9) && (ms[k].1 < 9),
    ensures
        spec_apply_moves(s, ms).len() == s.len(),
    decreases ms.len(),
{
    if ms.len() > 0 {
        assert forall|k: int| 0 <= k < ms.drop_last().len() implies ((#[trigger] ms.drop_last()[k]).0
            < 9) && (ms.drop_last()[k].1 < 9) by {
            assert(ms.drop_last()[k] == ms[k]);
        }
        lemma_apply_moves_len(s, ms.drop_last());
        let m = ms.last();
        lemma_rc_index(m.0 as int, m.1 as int);
    }
}

/// Writing a list of digit moves never adds an empty cell; if the first move
/// targets an empty cell, the count of empty cells strictly falls; and the
/// board stays well formed.
pub proof fn lemma_apply_moves_zeros(s: Seq<u8>, ms: Seq<(u8, u8, u8)>)
    requires
        s.len() == 81,
        forall|k: int| 0 <= k < ms.len()
            ==> (#[trigger] ms[k]).0 < 9 && ms[k].1 < 9 && 1 <= ms[k].2 <= 9,
    ensures
        count_zeros(spec_apply_moves(s, ms)) <= count_zeros(s),
        ms.len() > 0 && cell(s, ms[0].0 as int, ms[0].1 as int) == 0 ==> count_zeros(
            spec_apply_moves(s, ms),
        ) < count_zeros(s),
        grid_wf(s) ==> grid_wf(spec_apply_moves(s, ms)),
    decreases ms.len(),
{
    if ms.len() > 0 {
        let pre = spec_apply_moves(s, ms.drop_last());
        let m = ms.last();
        assert forall|k: int| 0 <= k < ms.drop_last().len() implies ((#[trigger] ms.drop_last()[k]).0
            < 9) && (ms.drop_last()[k].1 < 9) && (1 <= ms.drop_last()[k].2) && (ms.drop_last()[k].2
            <= 9) by {
            assert(ms.drop_last()[k] == ms[k]);
        }
        lemma_apply_moves_zeros(s, ms.drop_last());
        lemma_apply_moves_len(s, ms.drop_last());
        lemma_rc_index(m.0 as int, m.1 as int);
        lemma_count_zeros_update(pre, m.0 as int * 9 + m.1 as int, m.2);
        if ms.len() == 1 {
            assert(ms.drop_last() =~= Seq::<(u8, u8, u8)>::empty());
            assert(pre == s);
            assert(ms[0] == m);
        }
        if grid_wf(s) {
            assert forall|i: int| 0 <= i < 81 implies spec_apply_moves(s, ms)[i] <= 9 by {
                if i != m.0 as int * 9 + m.1 as int {
                    assert(spec_apply_moves(s, ms)[i] == pre[i]);
                }
            }
        }
    }
}

/// The board left when no forced move remains: write every forced move of the
/// current snapshot, then repeat.
pub open spec fn spec_propagate(s: Seq<u8>) -> Seq<u8>
    decreases count_zeros(s),
    when s.len() == 81
    via spec_propagate_decreases
{
    if spec_forced_moves(s).len() == 0 {
        s
    } else {
        spec_propagate(spec_apply_moves(s, spec_forced_moves(s)))
    }
}

#[via_fn]
proof fn spec_propagate_decreases(s: Seq<u8>) {
    if s.len() == 81 && spec_forced_moves(s).len() > 0 {
        lemma_moves_props(s, 81);
        lemma_apply_moves_zeros(s, spec_forced_moves(s));
        lemma_apply_moves_len(s, spec_forced_moves(s));
        lemma_count_zeros_bounds(spec_apply_moves(s, spec_forced_moves(s)));
    }
}

/// The solvability oracle: after propagation has run out of forced moves, the
/// residual board still satisfies the grid invariant.
pub open spec fn spec_board_possible(s: Seq<u8>) -> bool {
    spec_valid(spec_propagate(s))
}

/// The oracle is a pure function of the board: two runs on one board agree.
pub proof fn lemma_board_possible_deterministic(s: Seq<u8>, b1: bool, b2: bool)
    requires
        b1 == spec_board_possible(s),
        b2 == spec_board_possible(s),
    ensures
        b1 == b2,
{
}

fn row_has(grid: &Grid, r: usize, v: u8) -> (b: bool)
    requires
        grid.wf(),
        r < 9,
    ensures
        b == value_in_row(grid@, r as int, v),
{
    let mut k: usize = 0;
    while k < 9
        invariant
            grid.wf(),
            r < 9,
            k <= 9,
            forall|c: int| 0 <= c < k ==> #[trigger] cell(grid@, r as int, c) != v,
        decreases 9 - k,
    {
        if grid.get(r, k) == v {
            return true;
        }
        k += 1;
    }
    false
}

fn col_has(grid: &Grid, c: usize, v: u8) -> (b: bool)
    requires
        grid.wf(),
        c < 9,
    ensures
        b == value_in_col(grid@, c as int, v),
{
    let mut k: usize = 0;
    while k < 9
        invariant
            grid.wf(),
            c < 9,
            k <= 9,
            forall|r: int| 0 <= r < k ==> #[trigger] cell(grid@, r, c as int) != v,
        decreases 9 - k,
    {
        if grid.get(k, c) == v {
            return true;
        }
        k += 1;
    }
    false
}

fn box_has(grid: &Grid, r: usize, c: usize, v: u8) -> (b: bool)
    requires
        grid.wf(),
        r < 9,
        c < 9,
    ensures
        b == value_in_box(grid@, r as int, c as int, v),
{
    let br = (r / 3) * 3;
    let bc = (c / 3) * 3;
    let mut k: usize = 0;
    while k < 9
        invariant
            grid.wf(),
            r < 9,
            c < 9,
            k <= 9,
            br == 3 * (r as int / 3),
            bc == 3 * (c as int / 3),
            forall|k0: int| 0 <= k0 < k ==> #[trigger] cell(
                grid@,
                3 * (r as int / 3) + k0 / 3,
                3 * (c as int / 3) + k0 % 3,
            ) != v,
        decreases 9 - k,
    {
        proof {
            vstd::arithmetic::div_mod::lemma_fundamental_div_mod(k as int, 3);
            vstd::arithmetic::div_mod::lemma_mod_pos_bound(k as int, 3);
            vstd::arithmetic::div_mod::lemma_fundamental_div_mod(r as int, 3);
            vstd::arithmetic::div_mod::lemma_mod_pos_bound(r as int, 3);
            vstd::arithmetic::div_mod::lemma_fundamental_div_mod(c as int, 3);
            vstd::arithmetic::div_mod::lemma_mod_pos_bound(c as int, 3);
        }
        let rr = br + k / 3;
        let cc = bc + k % 3;
        if grid.get(rr, cc) == v {
            proof {
                vstd::arithmetic::div_mod::lemma_fundamental_div_mod_converse(
                    rr as int,
                    3,
                    r as int / 3,
                    k as int / 3,
                );
                vstd::arithmetic::div_mod::lemma_fundamental_div_mod_converse(
                    cc as int,
                    3,
                    c as int / 3,
                    k as int % 3,
                );
                assert(same_box(rr as int, cc as int, r as int, c as int));
            }
            return true;
        }
        k += 1;
    }
    proof {
        if value_in_box(grid@, r as int, c as int, v) {
            let (r2, c2) = choose|r2: int, c2: int|
                in_grid(r2, c2) && same_box(r2, c2, r as int, c as int) && #[trigger] cell(
                    grid@,
                    r2,
                    c2,
                ) == v;
            vstd::arithmetic::div_mod::lemma_fundamental_div_mod(r2, 3);
            vstd::arithmetic::div_mod::lemma_mod_pos_bound(r2, 3);
            vstd::arithmetic::div_mod::lemma_fundamental_div_mod(c2, 3);
            vstd::arithmetic::div_mod::lemma_mod_pos_bound(c2, 3);
            let d = r2 - 3 * (r as int / 3);
            let e = c2 - 3 * (c as int / 3);
            let k0 = 3 * d + e;
            vstd::arithmetic::div_mod::lemma_fundamental_div_mod_converse(k0, 3, d, e);
            assert(cell(grid@, 3 * (r as int / 3) + k0 / 3, 3 * (c as int / 3) + k0 % 3) != v);
            assert(false);
        }
    }
    false
}

fn is_candidate_at(grid: &Grid, r: usize, c: usize, v: u8) -> (b: bool)
    requires
        grid.wf(),
        r < 9,
        c < 9,
    ensures
        b == is_candidate(grid@, r as int, c as int, v),
{
    1 <= v && v <= 9 && !row_has(grid, r, v) && !col_has(grid, c, v) && !box_has(grid, r, c, v)
}

fn peer_gives(grid: &Grid, r: usize, c: usize, v: u8) -> (b: bool)
    requires
        grid.wf(),
        r < 9,
        c < 9,
    ensures
        b == peer_has_candidate(grid@, r as int, c as int, v),
{
    let mut i: usize = 0;
    while i < 81
        invariant
            grid.wf(),
            r < 9,
            c < 9,
            i <= 81,
            forall|a: int, b2: int| in_grid(a, b2) && a * 9 + b2 < i ==> !is_peer_source(
                grid@,
                r as int,
                c as int,
                a,
                b2,
                v,
            ),
        decreases 81 - i,
    {
        let a = i / 9;
        let b = i % 9;
        proof {
            lemma_index_rc(i as int);
        }
        if !(a == r && b == c) {
            let share = a == r || b == c || (a / 3 == r / 3 && b / 3 == c / 3);
            if share && grid.get(a, b) == 0 {
                if is_candidate_at(grid, a, b, v) {
                    proof {
                        assert(is_peer_source(grid@, r as int, c as int, a as int, b as int, v));
                    }
                    return true;
                }
            }
        }
        proof {
            assert(!is_peer_source(grid@, r as int, c as int, a as int, b as int, v));
            assert forall|a2: int, b2: int| in_grid(a2, b2) && a2 * 9 + b2 < i + 1 implies
                !is_peer_source(grid@, r as int, c as int, a2, b2, v) by {
                if a2 * 9 + b2 == i {
                    lemma_rc_index(a2, b2);
                }
            }
        }
        i += 1;
    }
    proof {
        if peer_has_candidate(grid@, r as int, c as int, v) {
            let (a, b) = choose|a: int, b: int|
                is_peer_source(grid@, r as int, c as int, a, b, v);
            lemma_rc_index(a, b);
            assert(false);
        }
    }
    false
}

/// The candidate digits of `(r, c)`: 1 through 9 minus every digit present in
/// the cell's row, column, or box, in ascending order. Candidates are defined
/// only for empty cells; calling this on a filled cell is a programmer error,
/// which the precondition rejects.
pub fn find_possibilities_for_position(grid: &Grid, r: usize, c: usize) -> (poss: Vec<u8>)
    requires
        grid.wf(),
        r < 9,
        c < 9,
        cell(grid@, r as int, c as int) == 0,
    ensures
        poss@ == candidates_of(grid@, r as int, c as int),
{
    let mut poss: Vec<u8> = Vec::new();
    let mut v: u8 = 1;
    while v <= 9
        invariant
            grid.wf(),
            r < 9,
            c < 9,
            1 <= v <= 10,
            poss@ == digits_upto(grid@, r as int, c as int, v as int - 1, false),
        decreases 10 - v,
    {
        if is_candidate_at(grid, r, c, v) {
            poss.push(v);
        }
        proof {
            assert(poss@ =~= digits_upto(grid@, r as int, c as int, v as int, false));
        }
        v += 1;
    }
    poss
}

/// The candidates of `(r, c)` that survive the elimination pass against the
/// candidates of every empty peer.
fn eliminated_for_position(grid: &Grid, r: usize, c: usize) -> (kept: Vec<u8>)
    requires
        grid.wf(),
        r < 9,
        c < 9,
        cell(grid@, r as int, c as int) == 0,
    ensures
        kept@ == eliminated_of(grid@, r as int, c as int),
{
    let mut kept: Vec<u8> = Vec::new();
    let mut v: u8 = 1;
    while v <= 9
        invariant
            grid.wf(),
            r < 9,
            c < 9,
            1 <= v <= 10,
            kept@ == digits_upto(grid@, r as int, c as int, v as int - 1, true),
        decreases 10 - v,
    {
        if is_candidate_at(grid, r, c, v) {
            if !peer_gives(grid, r, c, v) {
                kept.push(v);
            }
        }
        proof {
            assert(kept@ =~= digits_upto(grid@, r as int, c as int, v as int, true));
        }
        v += 1;
    }
    kept
}

/// Every forced move of the current board: for each empty cell, its single
/// candidate, or the single candidate no empty peer shares.
pub fn find_forced_moves(grid: &Grid) -> (moves: Vec<(u8, u8, u8)>)
    requires
        grid.wf(),
    ensures
        moves@ == spec_forced_moves(grid@),
{
    let mut moves: Vec<(u8, u8, u8)> = Vec::new();
    let mut i: usize = 0;
    while i < 81
        invariant
            grid.wf(),
            i <= 81,
            moves@ == moves_upto(grid@, i as int),
        decreases 81 - i,
    {
        let r = i / 9;
        let c = i % 9;
        proof {
            lemma_index_rc(i as int);
        }
        if grid.get(r, c) == 0 {
            let poss = find_possibilities_for_position(grid, r, c);
            if poss.len() == 1 {
                moves.push((r as u8, c as u8, poss[0]));
            } else {
                let elim = eliminated_for_position(grid, r, c);
                if elim.len() == 1 {
                    moves.push((r as u8, c as u8, elim[0]));
                }
            }
        }
        proof {
            assert(moves@ =~= moves_upto(grid@, i as int + 1));
        }
        i += 1;
    }
    moves
}

/// Write every forced move of the current snapshot in one pass; report
/// whether there was any.
pub fn make_moves(grid: &mut Grid) -> (b: bool)
    requires
        old(grid).wf(),
    ensures
        final(grid).wf(),
        b == (spec_forced_moves(old(grid)@).len() > 0),
        final(grid)@ == spec_apply_moves(old(grid)@, spec_forced_moves(old(grid)@)),
        b ==> count_zeros(final(grid)@) < count_zeros(old(grid)@),
{
    let ghost s0 = grid@;
    let forced = find_forced_moves(grid);
    proof {
        lemma_moves_props(s0, 81);
    }
    if forced.len() == 0 {
        proof {
            assert(spec_apply_moves(s0, spec_forced_moves(s0)) == s0);
        }
        return false;
    }
    let mut k: usize = 0;
    while k < forced.len()
        invariant
            grid.wf(),
            s0.len() == 81,
            forced@ == spec_forced_moves(s0),
            k <= forced@.len(),
            grid@ == spec_apply_moves(s0, forced@.take(k as int)),
        decreases forced@.len() - k,
    {
        proof {
            lemma_moves_props(s0, 81);
        }
        let (mr, mc, mv) = forced[k];
        grid.set(mr as usize, mc as usize, mv);
        proof {
            assert(forced@.take(k + 1).drop_last() =~= forced@.take(k as int));
            assert(forced@.take(k + 1).last() == forced@[k as int]);
            assert(grid@ =~= spec_apply_moves(s0, forced@.take(k + 1)));
        }
        k += 1;
    }
    proof {
        assert(forced@.take(forced@.len() as int) =~= forced@);
        lemma_apply_moves_zeros(s0, forced@);
        assert(cell(s0, forced@[0].0 as int, forced@[0].1 as int) == 0);
    }
    true
}

/// Find all forced moves, write one chosen at random, and report whether any
/// was found.
pub fn make_move<R: RandomSource>(grid: &mut Grid, rng: &mut R) -> (b: bool)
    requires
        old(grid).wf(),
    ensures
        final(grid).wf(),
        b == (spec_forced_moves(old(grid)@).len() > 0),
        !b ==> final(grid)@ == old(grid)@,
        b ==> exists|k: int|
            0 <= k < spec_forced_moves(old(grid)@).len() && final(grid)@ == apply_move(
                old(grid)@,
                spec_forced_moves(old(grid)@)[k],
            ),
{
    let ghost s0 = grid@;
    let forced = find_forced_moves(grid);
    if forced.len() == 0 {
        return false;
    }
    proof {
        lemma_moves_props(s0, 81);
    }
    let ran = rng.next_below(forced.len());
    let (mr, mc, mv) = forced[ran];
    grid.set(mr as usize, mc as usize, mv);
    proof {
        assert(grid@ == apply_move(s0, forced@[ran as int]));
    }
    true
}

/// The solvability oracle: on a private copy, write forced moves until none
/// remain, then check the grid invariant. The caller's board is untouched.
pub fn board_possible(grid: &Grid) -> (b: bool)
    requires
        grid.wf(),
    ensures
        b == spec_board_possible(grid@),
{
    let mut work = grid.duplicate();
    proof {
        lemma_count_zeros_bounds(work@);
    }
    let mut progressed = true;
    while progressed
        invariant
            work.wf(),
            0 <= count_zeros(work@),
            spec_propagate(work@) == spec_propagate(grid@),
            !progressed ==> spec_forced_moves(work@).len() == 0,
        decreases count_zeros(work@) + if progressed {
            1int
        } else {
            0int
        },
    {
        let ghost wprev = work@;
        progressed = make_moves(&mut work);
        proof {
            lemma_count_zeros_bounds(work@);
            if spec_forced_moves(wprev).len() > 0 {
                assert(spec_propagate(wprev) == spec_propagate(work@));
            } else {
                assert(work@ == wprev);
            }
        }
    }
    proof {
        assert(spec_propagate(work@) == work@);
    }
    board_correct(&work)
}

/// Forced-move determinism: on a board whose single empty cell has exactly
/// one legal digit, the forced moves are exactly that one placement.
pub proof fn lemma_single_empty_forced(s: Seq<u8>, r: int, c: int, v: u8)
    requires
        s.len() == 81,
        in_grid(r, c),
        cell(s, r, c) == 0,
        forall|i: int| 0 <= i < 81 && i != r * 9 + c ==> s[i] != 0,
        is_candidate(s, r, c, v),
        forall|w: u8| 1 <= w <= 9 && w != v ==> !is_candidate(s, r, c, w),
    ensures
        spec_forced_moves(s) =~= seq![(r as u8, c as u8, v)],
{
    lemma_digits_props(s, r, c, 9, false);
    let cs = candidates_of(s, r, c);
    assert(cs.contains(v));
    let k0 = choose|k: int| 0 <= k < cs.len() && cs[k] == v;
    if cs.len() >= 2 {
        assert(keeps(s, r, c, cs[0], false));
        assert(keeps(s, r, c, cs[1], false));
        assert(cs[0] == v && cs[1] == v);
        assert(false);
    }
    assert(cs.len() == 1);
    assert(cs[0] == v);
    assert(forced_at(s, r, c) == Option::Some(v));
    lemma_moves_single(s, 81, r, c, v);
}

proof fn lemma_moves_single(s: Seq<u8>, n: int, r: int, c: int, v: u8)
    requires
        s.len() == 81,
        in_grid(r, c),
        0 <= n <= 81,
        forced_at(s, r, c) == Option::Some(v),
        forall|i: int| 0 <= i < 81 && i != r * 9 + c ==> s[i] != 0,
    ensures
        moves_upto(s, n) =~= if n > r * 9 + c {
            seq![(r as u8, c as u8, v)]
        } else {
            Seq::<(u8, u8, u8)>::empty()
        },
    decreases n,
{
    lemma_rc_index(r, c);
    if n > 0 {
        lemma_moves_single(s, n - 1, r, c, v);
        lemma_index_rc(n - 1);
        if n - 1 == r * 9 + c {
            assert((n - 1) / 9 == r && (n - 1) % 9 == c);
        } else {
            assert(s[n - 1] != 0);
            assert(cell(s, (n - 1) / 9, (n - 1) % 9) == s[n - 1]);
            assert(forced_at(s, (n - 1) / 9, (n - 1) % 9) == Option::<u8>::None);
        }
    }
}

/// The coordinates of the cells whose emptiness matches `want_full`, in
/// row-major order, below row-major index `n`.
pub open spec fn tiles_upto(s: Seq<u8>, n: int, want_full: bool) -> Seq<(usize, usize)>
    decreases n,
{
    if n <= 0 {
        Seq::empty()
    } else {
        tiles_upto(s, n - 1, want_full) + if (s[n - 1] != 0) == want_full {
            seq![((((n - 1) / 9) as usize), (((n - 1) % 9) as usize))]
        } else {
            Seq::empty()
        }
    }
}

/// The coordinates of the cells that are full (`want_full`) or empty, in
/// row-major order.
pub fn find_tiles(grid: &Grid, want_full: bool) -> (tiles: Vec<(usize, usize)>)
    requires
        grid.wf(),
    ensures
        tiles@ == tiles_upto(grid@, 81, want_full),
{
    let mut tiles: Vec<(usize, usize)> = Vec::new();
    let mut i: usize = 0;
    while i < 81
        invariant
            grid.wf(),
            i <= 81,
            tiles@ == tiles_upto(grid@, i as int, want_full),
        decreases 81 - i,
    {
        let r = i / 9;
        let c = i % 9;
        proof {
            lemma_index_rc(i as int);
        }
        let filled = grid.get(r, c) != 0;
        if filled == want_full {
            tiles.push((r, c));
        }
        proof {
            assert(tiles@ =~= tiles_upto(grid@, i as int + 1, want_full));
        }
        i += 1;
    }
    tiles
}

pub fn find_empty_tiles(grid: &Grid) -> (tiles: Vec<(usize, usize)>)
    requires
        grid.wf(),
    ensures
        tiles@ == tiles_upto(grid@, 81, false),
{
    find_tiles(grid, false)
}

pub fn find_full_tiles(grid: &Grid) -> (tiles: Vec<(usize, usize)>)
    requires
        grid.wf(),
    ensures
        tiles@ == tiles_upto(grid@, 81, true),
{
    find_tiles(grid, true)
}

pub proof fn lemma_tiles_props(s: Seq<u8>, n: int, want_full: bool)
    requires
        s.len() == 81,
        0 <= n <= 81,
    ensures
        forall|k: int| 0 <= k < tiles_upto(s, n, want_full).len()
            ==> (#[trigger] tiles_upto(s, n, want_full)[k]).0 < 9 && tiles_upto(
                s,
                n,
                want_full,
            )[k].1 < 9 && ((cell(
                s,
                tiles_upto(s, n, want_full)[k].0 as int,
                tiles_upto(s, n, want_full)[k].1 as int,
            ) != 0) == want_full) && (tiles_upto(s, n, want_full)[k].0 as int * 9 + tiles_upto(
                s,
                n,
                want_full,
            )[k].1 as int) < n,
        forall|k1: int, k2: int| 0 <= k1 < k2 < tiles_upto(s, n, want_full).len()
            ==> tiles_upto(s, n, want_full)[k1] != tiles_upto(s, n, want_full)[k2],
    decreases n,
{
    if n > 0 {
        lemma_tiles_props(s, n - 1, want_full);
        lemma_index_rc(n - 1);
        let prev = tiles_upto(s, n - 1, want_full);
        let cur = tiles_upto(s, n, want_full);
        if (s[n - 1] != 0) == want_full {
            assert forall|k1: int, k2: int| 0 <= k1 < k2 < cur.len() implies cur[k1] != cur[k2] by {
                if k2 == cur.len() - 1 {
                    assert(cur[k1] == prev[k1]);
                    assert((prev[k1].0 as int * 9 + prev[k1].1 as int) < n - 1);
                }
            }
        }
    }
}

/// The eight cells of `(r, c)`'s box other than `(r, c)` itself, among the
/// first `n` box positions in row-major order of the box.
pub open spec fn box_peers_upto(r: int, c: int, n: int) -> Seq<(usize, usize)>
    decreases n,
{
    if n <= 0 {
        Seq::empty()
    } else {
        box_peers_upto(r, c, n - 1) + if 3 * (r / 3) + (n - 1) / 3 == r && 3 * (c / 3) + (n - 1) % 3
            == c {
            Seq::empty()
        } else {
            seq![
                (((3 * (r / 3) + (n - 1) / 3) as usize), ((3 * (c / 3) + (n - 1) % 3) as usize)),
            ]
        }
    }
}

/// The coordinates of the eight other cells of `(r, c)`'s box, in row-major
/// order of the box.
pub fn find_box_increments(r: usize, c: usize) -> (peers: Vec<(usize, usize)>)
    requires
        r < 9,
        c < 9,
    ensures
        peers@ == box_peers_upto(r as int, c as int, 9),
{
    let mut peers: Vec<(usize, usize)> = Vec::new();
    let mut k: usize = 0;
    while k < 9
        invariant
            r < 9,
            c < 9,
            k <= 9,
            peers@ == box_peers_upto(r as int, c as int, k as int),
        decreases 9 - k,
    {
        proof {
            vstd::arithmetic::div_mod::lemma_fundamental_div_mod(r as int, 3);
            vstd::arithmetic::div_mod::lemma_mod_pos_bound(r as int, 3);
            vstd::arithmetic::div_mod::lemma_fundamental_div_mod(c as int, 3);
            vstd::arithmetic::div_mod::lemma_mod_pos_bound(c as int, 3);
            vstd::arithmetic::div_mod::lemma_fundamental_div_mod(k as int, 3);
            vstd::arithmetic::div_mod::lemma_mod_pos_bound(k as int, 3);
        }
        let rr = (r / 3) * 3 + k / 3;
        let cc = (c / 3) * 3 + k % 3;
        if !(rr == r && cc == c) {
            peers.push((rr, cc));
        }
        proof {
            assert(peers@ =~= box_peers_upto(r as int, c as int, k as int + 1));
        }
        k += 1;
    }
    peers
}


proof fn lemma_complete_no_moves(s: Seq<u8>, n: int)
    requires
        s.len() == 81,
        0 <= n <= 81,
        forall|i: int| 0 <= i < 81 ==> s[i] != 0,
    ensures
        moves_upto(s, n) =~= Seq::<(u8, u8, u8)>::empty(),
    decreases n,
{
    if n > 0 {
        lemma_complete_no_moves(s, n - 1);
        lemma_index_rc(n - 1);
        assert(cell(s, (n - 1) / 9, (n - 1) % 9) == s[n - 1]);
        assert(forced_at(s, (n - 1) / 9, (n - 1) % 9) == Option::<u8>::None);
    }
}

/// On a board with no empty cell the propagation loop makes no move, so the
/// solvability oracle reduces to the Validator alone.
pub proof fn lemma_complete_board_possible(s: Seq<u8>)
    requires
        s.len() == 81,
        forall|i: int| 0 <= i < 81 ==> s[i] != 0,
    ensures
        spec_propagate(s) == s,
        spec_board_possible(s) == spec_valid(s),
{
    lemma_complete_no_moves(s, 81);
    assert(spec_forced_moves(s).len() == 0);
}


proof fn lemma_cleared_cell_candidate(s: Seq<u8>, r: int, c: int)
    requires
        grid_wf(s),
        spec_valid(s),
        spec_complete(s),
        in_grid(r, c),
    ensures
        is_candidate(s.update(r * 9 + c, 0), r, c, s[r * 9 + c]),
{
    lemma_rc_index(r, c);
    let t = s.update(r * 9 + c, 0);
    let v = s[r * 9 + c];
    crate::grid::lemma_cell_update(s, r, c, 0);
    assert(cell(s, r, c) == v);
    assert(1 <= v <= 9);
    assert(cell_ok(s, r, c));
    if value_in_row(t, r, v) {
        let c2 = choose|c2: int| 0 <= c2 < 9 && #[trigger] cell(t, r, c2) == v;
        assert(cell(t, r, c) == 0);
        assert(cell(t, r, c2) == cell(s, r, c2));
        assert(cell(s, r, c) != cell(s, r, c2));
        assert(false);
    }
    if value_in_col(t, c, v) {
        let r2 = choose|r2: int| 0 <= r2 < 9 && #[trigger] cell(t, r2, c) == v;
        assert(cell(t, r, c) == 0);
        assert(cell(t, r2, c) == cell(s, r2, c));
        assert(cell(s, r, c) != cell(s, r2, c));
        assert(false);
    }
    if value_in_box(t, r, c, v) {
        let (r2, c2) = choose|r2: int, c2: int|
            in_grid(r2, c2) && same_box(r2, c2, r, c) && #[trigger] cell(t, r2, c2) == v;
        assert(cell(t, r, c) == 0);
        assert(!(r2 == r && c2 == c));
        assert(cell(t, r2, c2) == cell(s, r2, c2));
        assert(sees(r, c, r2, c2));
        assert(cell(s, r, c) != cell(s, r2, c2));
        assert(false);
    }
}

proof fn lemma_digits_no_peer(s: Seq<u8>, r: int, c: int, n: int)
    requires
        0 <= n <= 9,
        forall|v: u8| !peer_has_candidate(s, r, c, v),
    ensures
        digits_upto(s, r, c, n, true) =~= digits_upto(s, r, c, n, false),
    decreases n,
{
    if n > 0 {
        lemma_digits_no_peer(s, r, c, n - 1);
        assert(!peer_has_candidate(s, r, c, n as u8));
        assert(keeps(s, r, c, n as u8, true) == keeps(s, r, c, n as u8, false));
    }
}

proof fn lemma_moves_none(s: Seq<u8>, n: int)
    requires
        0 <= n <= 81,
        forall|r: int, c: int| in_grid(r, c) ==> (#[trigger] forced_at(s, r, c)) is None,
    ensures
        moves_upto(s, n) =~= Seq::<(u8, u8, u8)>::empty(),
    decreases n,
{
    if n > 0 {
        lemma_moves_none(s, n - 1);
        lemma_index_rc(n - 1);
        assert(forced_at(s, (n - 1) / 9, (n - 1) % 9) is None);
    }
}

/// Clearing one cell of a valid complete board always leaves a board the
/// oracle accepts: the cleared digit is still a legal candidate there, so
/// propagation either restores it (as the single candidate) or, with several
/// candidates left and no other empty cell to eliminate against, makes no
/// move at all; either way the Validator passes.
pub proof fn lemma_single_hole_possible(s: Seq<u8>, r: int, c: int)
    requires
        grid_wf(s),
        spec_valid(s),
        spec_complete(s),
        in_grid(r, c),
    ensures
        spec_board_possible(s.update(r * 9 + c, 0)),
{
    lemma_rc_index(r, c);
    let idx = r * 9 + c;
    let t = s.update(idx, 0);
    let v = s[idx];
    crate::grid::lemma_cell_update(s, r, c, 0);
    lemma_cleared_cell_candidate(s, r, c);
    crate::grid::lemma_clear_preserves_valid(s, r, c);
    assert(t.len() == 81);
    assert(forall|i: int| 0 <= i < 81 && i != idx ==> t[i] == s[i] && t[i] != 0);
    assert forall|v2: u8| !peer_has_candidate(t, r, c, v2) by {
        if peer_has_candidate(t, r, c, v2) {
            let (a, b) = choose|a: int, b: int| is_peer_source(t, r, c, a, b, v2);
            lemma_rc_index(a, b);
            assert(cell(t, a, b) == t[a * 9 + b]);
            assert(a * 9 + b != idx);
            assert(false);
        }
    }
    if candidates_of(t, r, c).len() == 1 {
        lemma_digits_props(t, r, c, 9, false);
        assert(keeps(t, r, c, v, false));
        assert(candidates_of(t, r, c).contains(v));
        let k0 = choose|k: int|
            0 <= k < candidates_of(t, r, c).len() && candidates_of(t, r, c)[k] == v;
        assert(candidates_of(t, r, c)[0] == v);
        assert(forced_at(t, r, c) == Option::Some(v));
        lemma_moves_single(t, 81, r, c, v);
        let ms = spec_forced_moves(t);
        assert(ms =~= seq![(r as u8, c as u8, v)]);
        assert(ms.drop_last() =~= Seq::<(u8, u8, u8)>::empty());
        assert(spec_apply_moves(t, ms.drop_last()) == t);
        assert(spec_apply_moves(t, ms) == apply_move(t, ms.last()));
        assert(ms.last().0 as int * 9 + ms.last().1 as int == idx);
        assert(apply_move(t, ms.last()) =~= s);
        lemma_complete_board_possible(s);
        assert(spec_propagate(t) == spec_propagate(s));
        assert(spec_board_possible(t));
    } else {
        lemma_digits_no_peer(t, r, c, 9);
        assert(eliminated_of(t, r, c) =~= candidates_of(t, r, c));
        assert(forced_at(t, r, c) is None);
        assert forall|a: int, b: int| in_grid(a, b) implies (#[trigger] forced_at(
            t,
            a,
            b,
        )) is None by {
            if !(a == r && b == c) {
                lemma_rc_index(a, b);
                assert(cell(t, a, b) == t[a * 9 + b]);
                assert(a * 9 + b != idx);
                assert(cell(t, a, b) != 0);
            }
        }
        lemma_moves_none(t, 81);
        assert(spec_forced_moves(t).len() == 0);
        assert(spec_propagate(t) == t);
        assert(spec_board_possible(t));
    }
}

/// A complete board yields one full tile per cell: 81 of them.
pub proof fn lemma_tiles_full_complete(s: Seq<u8>, n: int)
    requires
        s.len() == 81,
        0 <= n <= 81,
        forall|i: int| 0 <= i < 81 ==> s[i] != 0,
    ensures
        tiles_upto(s, n, true).len() == n,
    decreases n,
{
    if n > 0 {
        lemma_tiles_full_complete(s, n - 1);
    }
}

} // verus!



