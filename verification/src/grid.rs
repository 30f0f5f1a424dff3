use vstd::prelude::*;

verus! {

/// A 9x9 Sudoku board stored row-major in 81 cells; 0 marks an empty cell,
/// 1 through 9 a placed digit.
pub struct Grid {
    cells: Vec<u8>,
}

/// Well-formed board view: 81 cells, each holding a value in 0..=9.
pub open spec fn grid_wf(s: Seq<u8>) -> bool {
    &&& s.len() == 81
    &&& forall|i: int| 0 <= i < 81 ==> s[i] <= 9
}

/// The value of cell `(r, c)`.
pub open spec fn cell(s: Seq<u8>, r: int, c: int) -> u8 {
    s[r * 9 + c]
}

pub open spec fn in_grid(r: int, c: int) -> bool {
    0 <= r < 9 && 0 <= c < 9
}

/// Both cells lie in the same 3x3 box.
pub open spec fn same_box(r1: int, c1: int, r2: int, c2: int) -> bool {
    r1 / 3 == r2 / 3 && c1 / 3 == c2 / 3
}

/// The two cells share a row, a column, or a box.
pub open spec fn sees(r1: int, c1: int, r2: int, c2: int) -> bool {
    r1 == r2 || c1 == c2 || same_box(r1, c1, r2, c2)
}

/// No other cell that `(r, c)` sees holds the same nonzero digit.
pub open spec fn cell_ok(s: Seq<u8>, r: int, c: int) -> bool {
    cell(s, r, c) != 0 ==> forall|r2: int, c2: int|
        in_grid(r2, c2) && !(r2 == r && c2 == c) && sees(r, c, r2, c2)
            ==> cell(s, r, c) != #[trigger] cell(s, r2, c2)
}

/// The grid invariant: no row, column, or box repeats a nonzero digit.
pub open spec fn spec_valid(s: Seq<u8>) -> bool {
    forall|r: int, c: int| in_grid(r, c) ==> #[trigger] cell_ok(s, r, c)
}

/// Every cell is filled.
pub open spec fn spec_complete(s: Seq<u8>) -> bool {
    forall|i: int| 0 <= i < 81 ==> s[i] != 0
}

/// Number of empty cells.
pub open spec fn count_zeros(s: Seq<u8>) -> int
    decreases s.len(),
{
    if s.len() == 0 {
        0
    } else {
        count_zeros(s.drop_last()) + if s.last() == 0 { 1int } else { 0int }
    }
}

pub proof fn lemma_count_zeros_bounds(s: Seq<u8>)
    ensures
        0 <= count_zeros(s) <= s.len(),
    decreases s.len(),
{
    if s.len() > 0 {
        lemma_count_zeros_bounds(s.drop_last());
    }
}

pub proof fn lemma_count_zeros_update(s: Seq<u8>, i: int, v: u8)
    requires
        0 <= i < s.len(),
    ensures
        count_zeros(s.update(i, v)) == count_zeros(s) - (if s[i] == 0 { 1int } else { 0int })
            + (if v == 0 { 1int } else { 0int }),
    decreases s.len(),
{
    let t = s.update(i, v);
    if i == s.len() - 1 {
        assert(t.drop_last() =~= s.drop_last());
        assert(t.last() == v);
    } else {
        assert(t.drop_last() =~= s.drop_last().update(i, v));
        lemma_count_zeros_update(s.drop_last(), i, v);
        assert(t.last() == s.last());
    }
}

pub proof fn lemma_count_zeros_complete(s: Seq<u8>)
    ensures
        (count_zeros(s) == 0) <==> (forall|i: int| 0 <= i < s.len() ==> s[i] != 0),
    decreases s.len(),
{
    if s.len() > 0 {
        lemma_count_zeros_complete(s.drop_last());
        lemma_count_zeros_bounds(s.drop_last());
        if count_zeros(s) == 0 {
            assert forall|i: int| 0 <= i < s.len() implies s[i] != 0 by {
                if i < s.len() - 1 {
                    assert(s.drop_last()[i] != 0);
                } else {
                    assert(s.last() != 0);
                }
            }
        } else {
            if forall|i: int| 0 <= i < s.len() ==> s[i] != 0 {
                assert forall|i: int| 0 <= i < s.drop_last().len() implies s.drop_last()[i] != 0
                    by {
                    assert(s[i] != 0);
                }
                assert(s.last() != 0);
                assert(false);
            }
        }
    }
}

/// `(r, c)` with `r, c` in 0..9 names the cell at row-major index `r * 9 + c`.
pub proof fn lemma_rc_index(r: int, c: int)
    requires
        in_grid(r, c),
    ensures
        0 <= r * 9 + c < 81,
        (r * 9 + c) / 9 == r,
        (r * 9 + c) % 9 == c,
{
    vstd::arithmetic::div_mod::lemma_fundamental_div_mod_converse(r * 9 + c, 9, r, c);
}

/// A row-major index `i` names the cell `(i / 9, i % 9)`.
pub proof fn lemma_index_rc(i: int)
    requires
        0 <= i < 81,
    ensures
        in_grid(i / 9, i % 9),
        (i / 9) * 9 + (i % 9) == i,
{
    vstd::arithmetic::div_mod::lemma_fundamental_div_mod(i, 9);
}

/// `x / 3 == y / 3` exactly when `x` lies in the block of three starting at
/// `3 * (y / 3)`; in that case the two differ by at most 2.
pub proof fn lemma_band(x: int, y: int)
    requires
        0 <= x < 9,
        0 <= y < 9,
    ensures
        (x / 3 == y / 3) <==> (3 * (y / 3) <= x < 3 * (y / 3) + 3),
        x / 3 == y / 3 ==> -2 <= x - y <= 2,
{
    vstd::arithmetic::div_mod::lemma_fundamental_div_mod(x, 3);
    vstd::arithmetic::div_mod::lemma_fundamental_div_mod(y, 3);
}

/// Writing cell `(r, c)` changes that cell and no other.
pub proof fn lemma_cell_update(s: Seq<u8>, r: int, c: int, v: u8)
    requires
        s.len() == 81,
        in_grid(r, c),
    ensures
        cell(s.update(r * 9 + c, v), r, c) == v,
        forall|rr: int, cc: int| in_grid(rr, cc) && !(rr == r && cc == c)
            ==> #[trigger] cell(s.update(r * 9 + c, v), rr, cc) == cell(s, rr, cc),
{
    lemma_rc_index(r, c);
    assert forall|rr: int, cc: int| in_grid(rr, cc) && !(rr == r && cc == c)
        implies #[trigger] cell(s.update(r * 9 + c, v), rr, cc) == cell(s, rr, cc) by {
        lemma_rc_index(rr, cc);
        if rr * 9 + cc == r * 9 + c {
            assert(rr == (r * 9 + c) / 9);
            assert(false);
        }
    }
}

/// Clearing one cell never introduces a clash: the board stays valid.
pub proof fn lemma_clear_preserves_valid(s: Seq<u8>, r: int, c: int)
    requires
        s.len() == 81,
        in_grid(r, c),
        spec_valid(s),
    ensures
        spec_valid(s.update(r * 9 + c, 0)),
{
    let t = s.update(r * 9 + c, 0);
    lemma_cell_update(s, r, c, 0);
    assert forall|a: int, b: int| in_grid(a, b) implies #[trigger] cell_ok(t, a, b) by {
        if cell(t, a, b) != 0 {
            assert(!(a == r && b == c));
            assert(cell(t, a, b) == cell(s, a, b));
            assert(cell_ok(s, a, b));
            assert forall|a2: int, b2: int|
                in_grid(a2, b2) && !(a2 == a && b2 == b) && sees(a, b, a2, b2)
                implies cell(t, a, b) != #[trigger] cell(t, a2, b2) by {
                if a2 == r && b2 == c {
                    assert(cell(t, a2, b2) == 0);
                } else {
                    assert(cell(t, a2, b2) == cell(s, a2, b2));
                    assert(cell(s, a, b) != cell(s, a2, b2));
                }
            }
        }
    }
}

impl View for Grid {
    type V = Seq<u8>;

    closed spec fn view(&self) -> Seq<u8> {
        self.cells@
    }
}

impl Grid {
    pub open spec fn wf(&self) -> bool {
        grid_wf(self@)
    }

    /// A board with every cell empty.
    pub fn new() -> (g: Grid)
        ensures
            g.wf(),
            forall|i: int| 0 <= i < 81 ==> g@[i] == 0,
    {
        let mut cells: Vec<u8> = Vec::new();
        let mut i: usize = 0;
        while i < 81
            invariant
                cells@.len() == i,
                i <= 81,
                forall|k: int| 0 <= k < i ==> cells@[k] == 0,
            decreases 81 - i,
        {
            cells.push(0);
            i += 1;
        }
        Grid { cells }
    }

    pub fn get(&self, r: usize, c: usize) -> (v: u8)
        requires
            self.wf(),
            r < 9,
            c < 9,
        ensures
            v == cell(self@, r as int, c as int),
            v <= 9,
    {
        self.cells[r * 9 + c]
    }

    pub fn set(&mut self, r: usize, c: usize, v: u8)
        requires
            old(self).wf(),
            r < 9,
            c < 9,
            v <= 9,
        ensures
            final(self).wf(),
            final(self)@ == old(self)@.update(r as int * 9 + c as int, v),
    {
        self.cells.set(r * 9 + c, v);
    }

    /// A fresh board with the same contents.
    pub fn duplicate(&self) -> (g: Grid)
        requires
            self.wf(),
        ensures
            g.wf(),
            g@ == self@,
    {
        let mut cells: Vec<u8> = Vec::new();
        let mut i: usize = 0;
        while i < 81
            invariant
                self.wf(),
                cells@.len() == i,
                i <= 81,
                forall|k: int| 0 <= k < i ==> cells@[k] == self@[k],
            decreases 81 - i,
        {
            cells.push(self.cells[i]);
            i += 1;
        }
        let g = Grid { cells };
        proof {
            assert(g@ =~= self@);
        }
        g
    }

    /// Whether the two boards hold the same values everywhere.
    pub fn eq_grid(&self, other: &Grid) -> (b: bool)
        requires
            self.wf(),
            other.wf(),
        ensures
            b == (self@ == other@),
    {
        let mut i: usize = 0;
        while i < 81
            invariant
                self.wf(),
                other.wf(),
                i <= 81,
                forall|k: int| 0 <= k < i ==> self@[k] == other@[k],
            decreases 81 - i,
        {
            if self.cells[i] != other.cells[i] {
                return false;
            }
            i += 1;
        }
        proof {
            assert(self@ =~= other@);
        }
        true
    }
}

} // verus!
