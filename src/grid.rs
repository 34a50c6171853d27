//! The board and the backtracking search over it.
use vstd::prelude::*;
use crate::model::{
    lemma_most_constrained_unique, pick, saturating, search, tries,
    lemma_cleared_legal, unique_at,
    lemma_complete_cells, most_constrained,
    before, cell_index, fresh_at, lemma_before_index, lemma_slot, lemma_slot_bound, at, complete, consistent, count_legal, empties, extends, grid_ok, lemma_count_legal,
    lemma_block_origin, lemma_empties_update, lemma_index, lemma_place_legal,
    lemma_same_block, lemma_solution_value_legal, legal, on_board, same_unit, side, solvable, solved,
};

verus! {

/// Why a board given to [`SudokuSolver::from_values`] was refused.
#[derive(Debug, Clone, Copy, PartialEq, Eq, Structural)]
pub enum InvalidInput {
    /// The block size is zero or too large for `u8` digits.
    BadBlockSize,
    /// The number of cells is not `N * N`.
    WrongDimensions,
    /// A character that should be a digit is not one.
    BadSymbol,
    /// A cell holds a digit above `N`.
    DigitOutOfRange,
    /// A digit is repeated in a row, a column or a block.
    Conflict,
}

/// Largest block size whose digits fit in a `u8`.
pub const MAX_BLOCK: usize = 15;

/// An `N x N` board (`N = block * block`), with a candidate set per cell and
/// a count of failed trials of the search.
pub struct SudokuSolver {
    block: usize,
    size: usize,
    matrix: Vec<u8>,
    pos_sols: Vec<bool>,
    num_calls: usize,
}

impl SudokuSolver {
    /// The block size `B`.
    pub closed spec fn block_spec(&self) -> int {
        self.block as int
    }

    /// The cell values, row by row.
    pub closed spec fn cells(&self) -> Seq<u8> {
        self.matrix@
    }

    /// The candidate flags: entry `p * N + (v - 1)` is the flag of value `v` at cell `p`.
    pub closed spec fn candidates(&self) -> Seq<bool> {
        self.pos_sols@
    }

    /// The number of failed trials so far.
    pub closed spec fn calls(&self) -> nat {
        self.num_calls as nat
    }

    pub closed spec fn wf(&self) -> bool {
        &&& 1 <= self.block <= MAX_BLOCK
        &&& self.size == self.block * self.block
        &&& grid_ok(self.matrix@, self.block as int)
        &&& self.pos_sols@.len() == self.size * self.size * self.size
    }

    pub open spec fn n(&self) -> int {
        side(self.block_spec())
    }

    /// What a well-formed board guarantees: cells of the right number and
    /// range, and one candidate flag per cell and value.
    pub proof fn lemma_wf(&self)
        requires
            self.wf(),
        ensures
            1 <= self.block_spec() <= MAX_BLOCK,
            grid_ok(self.cells(), self.block_spec()),
            self.candidates().len() == self.n() * self.n() * self.n(),
    {
    }

    proof fn lemma_wf_bounds(&self)
        requires
            self.wf(),
        ensures
            self.size <= 225,
            self.n() == self.size,
            self.matrix@.len() == self.size * self.size,
            self.size * self.size <= 50625,
            self.size * self.size * self.size <= 11390625,
    {
        let b = self.block as int;
        assert(b * b <= 225) by (nonlinear_arith)
            requires
                1 <= b <= 15,
        ;
        let n = self.size as int;
        assert(n * n <= 50625 && n * n * n <= 11390625) by (nonlinear_arith)
            requires
                0 <= n <= 225,
        ;
    }

    /// An empty board of `block * block` cells a side.
    pub fn new(block: usize) -> (r: Self)
        requires
            1 <= block <= MAX_BLOCK,
        ensures
            r.wf(),
            r.block_spec() == block,
            r.cells() == Seq::new((block * block * block * block) as nat, |i: int| 0u8),
            r.candidates() == Seq::new((r.n() * r.n() * r.n()) as nat, |i: int| false),
            r.calls() == 0,
    {
        assert(block * block <= 225) by (nonlinear_arith)
            requires
                1 <= block <= 15,
        ;
        let size: usize = block * block;
        assert(size * size <= 50625 && size * size * size <= 11390625) by (nonlinear_arith)
            requires
                0 <= size <= 225,
        ;
        let total: usize = size * size;
        let matrix: Vec<u8> = vec![0u8; total];
        let pos_sols: Vec<bool> = vec![false; total * size];
        let r = SudokuSolver { block, size, matrix, pos_sols, num_calls: 0 };
        assert(r.cells() =~= Seq::new((block * block * block * block) as nat, |i: int| 0u8)) by {
            assert(block * block * block * block == size * size) by (nonlinear_arith)
                requires
                    size == block * block,
            ;
        }
        assert(r.candidates() =~= Seq::new((r.n() * r.n() * r.n()) as nat, |i: int| false));
        r
    }

    /// The value at row `row`, column `col` (`0` when empty).
    pub fn value(&self, row: usize, col: usize) -> (r: u8)
        requires
            self.wf(),
            row < self.n(),
            col < self.n(),
        ensures
            r == at(self.cells(), self.block_spec(), row as int, col as int),
    {
        proof {
            self.lemma_wf_bounds();
            lemma_index(self.size as int, row as int, col as int);
        }
        self.matrix[row * self.size + col]
    }

    /// The block size `B`.
    pub fn block_size(&self) -> (r: usize)
        ensures
            r == self.block_spec(),
    {
        self.block
    }

    /// The side `N = B * B`.
    pub fn side_len(&self) -> (r: usize)
        requires
            self.wf(),
        ensures
            r == self.n(),
    {
        self.size
    }

    /// The number of failed trials of the search so far.
    pub fn num_calls(&self) -> (r: usize)
        ensures
            r == self.calls(),
    {
        self.num_calls
    }

    /// A copy of the cell values, row by row.
    pub fn values(&self) -> (r: Vec<u8>)
        ensures
            r@ == self.cells(),
    {
        self.matrix.clone()
    }

    /// Whether `num` appears nowhere in the row, the column or the block of
    /// `(row, col)`, the cell itself included.
    pub fn check_matrix(&self, row: usize, col: usize, num: u8) -> (r: bool)
        requires
            self.wf(),
            row < self.n(),
            col < self.n(),
        ensures
            r == legal(self.cells(), self.block_spec(), row as int, col as int, num),
    {
        proof {
            self.lemma_wf_bounds();
        }
        let n = self.size;
        let b = self.block;
        let ghost g = self.cells();
        let ghost bi = b as int;
        assert(n as int == side(bi));
        let mut i: usize = 0;
        while i < n
            invariant
                self.wf(),
                n == self.n(),
                n as int == side(bi),
                n <= 225,
                n * n <= 50625,
                g == self.cells(),
                bi == b,
                b == self.block,
                row < n,
                col < n,
                i <= n,
                forall|j: int| 0 <= j < i ==> #[trigger] at(g, bi, row as int, j) != num,
                forall|j: int| 0 <= j < i ==> #[trigger] at(g, bi, j, col as int) != num,
            decreases n - i,
        {
            proof {
                lemma_index(n as int, row as int, i as int);
                lemma_index(n as int, i as int, col as int);
            }
            if self.matrix[row * n + i] == num {
                assert(at(g, bi, row as int, i as int) == num);
                return false;
            }
            if self.matrix[i * n + col] == num {
                assert(at(g, bi, i as int, col as int) == num);
                return false;
            }
            assert(at(g, bi, row as int, i as int) != num);
            assert(at(g, bi, i as int, col as int) != num);
            i += 1;
        }
        proof {
            lemma_block_origin(bi, row as int);
            lemma_block_origin(bi, col as int);
        }
        let r0: usize = row - row % b;
        let c0: usize = col - col % b;
        assert(r0 + b <= n && c0 + b <= n);
        let mut i: usize = 0;
        while i < b
            invariant
                self.wf(),
                n == self.n(),
                n as int == side(bi),
                n <= 225,
                n * n <= 50625,
                g == self.cells(),
                bi == b,
                b == self.block,
                r0 + b <= n,
                c0 + b <= n,
                r0 == row - row % b,
                c0 == col - col % b,
                row < n,
                col < n,
                i <= b,
                forall|x: int, y: int|
                    0 <= x < i && 0 <= y < b ==> #[trigger] at(g, bi, r0 + x, c0 + y) != num,
            decreases b - i,
        {
            let mut j: usize = 0;
            while j < b
                invariant
                    self.wf(),
                    n == self.n(),
                    n as int == side(bi),
                    n <= 225,
                    n * n <= 50625,
                    g == self.cells(),
                    bi == b,
                    b == self.block,
                    r0 + b <= n,
                    c0 + b <= n,
                    r0 == row - row % b,
                    c0 == col - col % b,
                    row < n,
                    col < n,
                    i < b,
                    j <= b,
                    forall|x: int, y: int|
                        0 <= x < i && 0 <= y < b ==> #[trigger] at(g, bi, r0 + x, c0 + y) != num,
                    forall|y: int| 0 <= y < j ==> #[trigger] at(g, bi, r0 + i, c0 + y) != num,
                decreases b - j,
            {
                proof {
                    lemma_index(n as int, (r0 + i) as int, (c0 + j) as int);
                }
                if self.matrix[(r0 + i) * n + (c0 + j)] == num {
                    proof {
                        lemma_same_block(bi, row as int, (r0 + i) as int);
                        lemma_same_block(bi, col as int, (c0 + j) as int);
                    }
                    assert(at(g, bi, (r0 + i) as int, (c0 + j) as int) == num);
                    assert(same_unit(bi, row as int, col as int, (r0 + i) as int, (c0 + j) as int));
                    return false;
                }
                assert(at(g, bi, r0 + i, c0 + j) != num);
                j += 1;
            }
            i += 1;
        }
        proof {
            assert forall|r2: int, c2: int|
                on_board(bi, r2, c2) && same_unit(bi, row as int, col as int, r2, c2) implies #[trigger] at(
                g,
                bi,
                r2,
                c2,
            ) != num by {
                if r2 != row && c2 != col {
                    lemma_same_block(bi, row as int, r2);
                    lemma_same_block(bi, col as int, c2);
                    assert(at(g, bi, r0 + (r2 - r0), c0 + (c2 - c0)) != num);
                }
            }
        }
        true
    }
}

impl SudokuSolver {
    /// Sets the cell at `(row, col)` to `num` without checking legality, and
    /// clears the candidate flag of a placed value.
    pub fn place(&mut self, row: usize, col: usize, num: u8)
        requires
            old(self).wf(),
            row < old(self).n(),
            col < old(self).n(),
            num <= old(self).n(),
        ensures
            final(self).wf(),
            final(self).block_spec() == old(self).block_spec(),
            final(self).calls() == old(self).calls(),
            final(self).cells() == old(self).cells().update(
                cell_index(old(self).block_spec(), row as int, col as int),
                num,
            ),
            num == 0 ==> final(self).candidates() == old(self).candidates(),
            num > 0 ==> final(self).candidates() == old(self).candidates().update(
                cell_index(old(self).block_spec(), row as int, col as int) * old(self).n() + num
                    - 1,
                false,
            ),
    {
        proof {
            self.lemma_wf_bounds();
            lemma_index(self.size as int, row as int, col as int);
            if num > 0 {
                lemma_slot_bound(self.size as int, row * self.size + col, num - 1);
            }
        }
        let n = self.size;
        let p = row * n + col;
        self.matrix.set(p, num);
        if num > 0 {
            self.pos_sols.set(p * n + (num as usize - 1), false);
        }
        proof {
            let g = self.matrix@;
            assert forall|i: int| 0 <= i < g.len() implies #[trigger] g[i] <= side(self.block as int) by {
                if i != p {
                    assert(g[i] == old(self).matrix@[i]);
                }
            }
        }
    }

    /// Empties the cell at `(row, col)`.
    pub fn unplace(&mut self, row: usize, col: usize)
        requires
            old(self).wf(),
            row < old(self).n(),
            col < old(self).n(),
        ensures
            final(self).wf(),
            final(self).block_spec() == old(self).block_spec(),
            final(self).calls() == old(self).calls(),
            final(self).cells() == old(self).cells().update(
                cell_index(old(self).block_spec(), row as int, col as int),
                0,
            ),
            final(self).candidates() == old(self).candidates(),
    {
        self.place(row, col, 0);
    }

    /// Whether every cell holds a placed value.
    pub fn is_complete(&self) -> (r: bool)
        requires
            self.wf(),
        ensures
            r == complete(self.cells()),
    {
        let mut i: usize = 0;
        while i < self.matrix.len()
            invariant
                i <= self.matrix@.len(),
                forall|j: int| 0 <= j < i ==> #[trigger] self.matrix@[j] != 0,
            decreases self.matrix@.len() - i,
        {
            if self.matrix[i] == 0 {
                return false;
            }
            i += 1;
        }
        true
    }

    /// Recomputes the candidate flags of the cell at `(row, col)` and returns
    /// how many values in `1..=N` are legal there.
    fn refresh_cell(&mut self, row: usize, col: usize) -> (count: usize)
        requires
            old(self).wf(),
            row < old(self).n(),
            col < old(self).n(),
        ensures
            final(self).wf(),
            final(self).block_spec() == old(self).block_spec(),
            final(self).calls() == old(self).calls(),
            final(self).cells() == old(self).cells(),
            count == count_legal(
                old(self).cells(),
                old(self).block_spec(),
                row as int,
                col as int,
                old(self).n(),
            ),
            count <= old(self).n(),
            forall|v: int|
                0 <= v < old(self).n() ==> #[trigger] final(self).candidates()[cell_index(
                    old(self).block_spec(),
                    row as int,
                    col as int,
                ) * old(self).n() + v] == legal(
                    old(self).cells(),
                    old(self).block_spec(),
                    row as int,
                    col as int,
                    (v + 1) as u8,
                ),
            forall|k: int|
                0 <= k < old(self).candidates().len() && (k < cell_index(
                    old(self).block_spec(),
                    row as int,
                    col as int,
                ) * old(self).n() || k >= cell_index(
                    old(self).block_spec(),
                    row as int,
                    col as int,
                ) * old(self).n() + old(self).n()) ==> #[trigger] final(self).candidates()[k]
                    == old(self).candidates()[k],
    {
        proof {
            self.lemma_wf_bounds();
            lemma_index(self.size as int, row as int, col as int);
        }
        let n = self.size;
        let p = row * n + col;
        let ghost g = self.cells();
        let ghost b = self.block as int;
        let ghost cs0 = self.candidates();
        let mut count: usize = 0;
        let mut v: usize = 0;
        while v < n
            invariant
                self.wf(),
                n == self.size,
                n as int == side(b),
                b == self.block,
                n <= 225,
                n * n <= 50625,
                n * n * n <= 11390625,
                row < n,
                col < n,
                p == cell_index(b, row as int, col as int),
                p < n * n,
                g == self.cells(),
                self.calls() == old(self).calls(),
                cs0 == old(self).candidates(),
                cs0.len() == self.pos_sols@.len(),
                v <= n,
                count <= v,
                count == count_legal(g, b, row as int, col as int, v as int),
                forall|w: int|
                    0 <= w < v ==> #[trigger] self.pos_sols@[p * n + w] == legal(
                        g,
                        b,
                        row as int,
                        col as int,
                        (w + 1) as u8,
                    ),
                forall|k: int|
                    0 <= k < cs0.len() && (k < p * n || k >= p * n + n) ==> #[trigger] self.pos_sols@[k]
                        == cs0[k],
            decreases n - v,
        {
            proof {
                lemma_slot_bound(n as int, p as int, v as int);
            }
            let ok = self.check_matrix(row, col, (v + 1) as u8);
            let ghost before_set = self.pos_sols@;
            self.pos_sols.set(p * n + v, ok);
            assert(self.pos_sols@ == before_set.update(p * n + v, ok));
            if ok {
                count += 1;
            }
            v += 1;
        }
        count
    }
}

impl SudokuSolver {
    /// Refreshes the candidate flags of every empty cell and returns the
    /// empty cell with the fewest legal values (the first in row-major order
    /// among ties) with that number, or `None` when no cell is empty.
    fn pick_cell(&mut self) -> (r: Option<(usize, usize, usize)>)
        requires
            old(self).wf(),
        ensures
            final(self).wf(),
            final(self).block_spec() == old(self).block_spec(),
            final(self).calls() == old(self).calls(),
            final(self).cells() == old(self).cells(),
            forall|r2: int, c2: int|
                on_board(old(self).block_spec(), r2, c2) ==> #[trigger] fresh_at(
                    old(self).cells(),
                    final(self).candidates(),
                    old(self).block_spec(),
                    r2,
                    c2,
                ),
            r.is_none() ==> complete(old(self).cells()),
            r matches Some((row, col, k)) ==> most_constrained(
                old(self).cells(),
                old(self).block_spec(),
                row as int,
                col as int,
                k as int,
            ),
    {
        proof {
            self.lemma_wf_bounds();
        }
        let n = self.size;
        let ghost g = self.cells();
        let ghost b = self.block as int;
        let mut best: Option<(usize, usize, usize)> = None;
        let mut i: usize = 0;
        while i < n
            invariant
                self.wf(),
                n == self.size,
                n as int == side(b),
                b == self.block,
                n <= 225,
                n * n <= 50625,
                g == self.cells(),
                self.calls() == old(self).calls(),
                i <= n,
                forall|r2: int, c2: int|
                    on_board(b, r2, c2) && before(r2, c2, i as int, 0) ==> #[trigger] fresh_at(
                        g,
                        self.candidates(),
                        b,
                        r2,
                        c2,
                    ),
                best.is_none() ==> forall|r2: int, c2: int|
                    on_board(b, r2, c2) && before(r2, c2, i as int, 0) ==> #[trigger] at(
                        g,
                        b,
                        r2,
                        c2,
                    ) != 0,
                best matches Some((br, bc, bk)) ==> {
                    &&& on_board(b, br as int, bc as int)
                    &&& before(br as int, bc as int, i as int, 0)
                    &&& at(g, b, br as int, bc as int) == 0
                    &&& bk == count_legal(g, b, br as int, bc as int, side(b))
                    &&& forall|r2: int, c2: int|
                        on_board(b, r2, c2) && at(g, b, r2, c2) == 0 && before(
                            r2,
                            c2,
                            i as int,
                            0,
                        ) ==> bk <= #[trigger] count_legal(g, b, r2, c2, side(b))
                    &&& forall|r2: int, c2: int|
                        on_board(b, r2, c2) && at(g, b, r2, c2) == 0 && before(
                            r2,
                            c2,
                            br as int,
                            bc as int,
                        ) ==> bk < #[trigger] count_legal(g, b, r2, c2, side(b))
                },
            decreases n - i,
        {
            let mut j: usize = 0;
            while j < n
                invariant
                    self.wf(),
                    n == self.size,
                    n as int == side(b),
                    b == self.block,
                    n <= 225,
                    n * n <= 50625,
                    g == self.cells(),
                    self.calls() == old(self).calls(),
                    i < n,
                    j <= n,
                    forall|r2: int, c2: int|
                        on_board(b, r2, c2) && before(r2, c2, i as int, j as int) ==> #[trigger] fresh_at(
                            g,
                            self.candidates(),
                            b,
                            r2,
                            c2,
                        ),
                    best.is_none() ==> forall|r2: int, c2: int|
                        on_board(b, r2, c2) && before(r2, c2, i as int, j as int) ==> #[trigger] at(
                            g,
                            b,
                            r2,
                            c2,
                        ) != 0,
                    best matches Some((br, bc, bk)) ==> {
                        &&& on_board(b, br as int, bc as int)
                        &&& before(br as int, bc as int, i as int, j as int)
                        &&& at(g, b, br as int, bc as int) == 0
                        &&& bk == count_legal(g, b, br as int, bc as int, side(b))
                        &&& forall|r2: int, c2: int|
                            on_board(b, r2, c2) && at(g, b, r2, c2) == 0 && before(
                                r2,
                                c2,
                                i as int,
                                j as int,
                            ) ==> bk <= #[trigger] count_legal(g, b, r2, c2, side(b))
                        &&& forall|r2: int, c2: int|
                            on_board(b, r2, c2) && at(g, b, r2, c2) == 0 && before(
                                r2,
                                c2,
                                br as int,
                                bc as int,
                            ) ==> bk < #[trigger] count_legal(g, b, r2, c2, side(b))
                    },
                decreases n - j,
            {
                proof {
                    lemma_index(n as int, i as int, j as int);
                }
                if self.matrix[i * n + j] == 0 {
                    let ghost cs = self.candidates();
                    let cnt = self.refresh_cell(i, j);
                    proof {
                        let p = i * n + j;
                        assert forall|r2: int, c2: int|
                            on_board(b, r2, c2) && before(
                                r2,
                                c2,
                                i as int,
                                j as int,
                            ) implies #[trigger] fresh_at(g, self.candidates(), b, r2, c2) by {
                            assert(fresh_at(g, cs, b, r2, c2));
                            lemma_before_index(n as int, r2, c2, i as int, j as int);
                            lemma_index(n as int, r2, c2);
                            if at(g, b, r2, c2) == 0 {
                                assert forall|v: int| 0 <= v < side(b) implies #[trigger] self.candidates()[
                                    cell_index(b, r2, c2) * side(b) + v] == legal(
                                    g,
                                    b,
                                    r2,
                                    c2,
                                    (v + 1) as u8,
                                ) by {
                                    lemma_slot(n as int, r2 * n + c2, p as int, v);
                                    lemma_slot_bound(n as int, r2 * n + c2, v);
                                    assert(cs[cell_index(b, r2, c2) * side(b) + v] == legal(
                                        g,
                                        b,
                                        r2,
                                        c2,
                                        (v + 1) as u8,
                                    ));
                                }
                            }
                        }
                        assert(fresh_at(g, self.candidates(), b, i as int, j as int));
                    }
                    let replace = match best {
                        None => true,
                        Some((_, _, bk)) => cnt < bk,
                    };
                    if replace {
                        best = Some((i, j, cnt));
                    }
                } else {
                    assert(at(g, b, i as int, j as int) != 0);
                    assert(fresh_at(g, self.candidates(), b, i as int, j as int));
                }
                j += 1;
            }
            i += 1;
        }
        proof {
            if best.is_none() {
                lemma_complete_cells(g, b);
            }
        }
        best
    }

    /// Computes the candidate flags of every empty cell from the current values.
    pub fn setup(&mut self)
        requires
            old(self).wf(),
        ensures
            final(self).wf(),
            final(self).block_spec() == old(self).block_spec(),
            final(self).calls() == old(self).calls(),
            final(self).cells() == old(self).cells(),
            forall|r2: int, c2: int|
                on_board(old(self).block_spec(), r2, c2) ==> #[trigger] fresh_at(
                    old(self).cells(),
                    final(self).candidates(),
                    old(self).block_spec(),
                    r2,
                    c2,
                ),
    {
        let _ = self.pick_cell();
    }
}

impl SudokuSolver {
    /// Backtracking search from the current board. On success the solution is
    /// left in place; on failure the board is as it was. Every candidate that
    /// was placed and then taken back adds one to the trial counter.
    pub fn solver(&mut self) -> (r: bool)
        requires
            old(self).wf(),
            consistent(old(self).cells(), old(self).block_spec()),
        ensures
            final(self).wf(),
            final(self).block_spec() == old(self).block_spec(),
            final(self).calls() >= old(self).calls(),
            r ==> solved(final(self).cells(), old(self).block_spec()),
            r ==> extends(final(self).cells(), old(self).cells()),
            !r ==> final(self).cells() == old(self).cells(),
            r <==> solvable(old(self).cells(), old(self).block_spec()),
            complete(old(self).cells()) ==> r && final(self).cells() == old(self).cells()
                && final(self).calls() == old(self).calls(),
            r == search(old(self).cells(), old(self).block_spec()).0,
            final(self).cells() == search(old(self).cells(), old(self).block_spec()).1,
            final(self).calls() == saturating(
                old(self).calls(),
                search(old(self).cells(), old(self).block_spec()).2,
            ),
        decreases empties(old(self).cells()),
    {
        let ghost g = self.cells();
        let ghost b = self.block as int;
        proof {
            self.lemma_wf_bounds();
        }
        let n = self.size;
        let chosen = self.pick_cell();
        match chosen {
            None => {
                assert(solved(g, b));
                assert(extends(g, g));
                assert(search(g, b) == (true, g, 0nat));
                true
            },
            Some((row, col, k)) => {
                let ghost idx = cell_index(b, row as int, col as int);
                proof {
                    lemma_index(n as int, row as int, col as int);
                    assert(g[idx] == 0);
                    assert(!complete(g));
                    let q = (row as int, col as int);
                    assert(most_constrained(g, b, q.0, q.1, count_legal(g, b, q.0, q.1, side(b)) as int));
                    let p = pick(g, b);
                    lemma_most_constrained_unique(
                        g,
                        b,
                        p.0,
                        p.1,
                        count_legal(g, b, p.0, p.1, side(b)) as int,
                        row as int,
                        col as int,
                        k as int,
                    );
                    assert(p == q);
                }
                let ghost mut acc: nat = 0;
                if k == 0 {
                    proof {
                        if solvable(g, b) {
                            let s = choose|s: Seq<u8>| solved(s, b) && extends(s, g);
                            lemma_solution_value_legal(s, g, b, row as int, col as int);
                            lemma_count_legal(
                                g,
                                b,
                                row as int,
                                col as int,
                                n as int,
                                at(s, b, row as int, col as int) as int,
                            );
                        }
                        assert(search(g, b) == (false, g, 0nat));
                    }
                    return false;
                }
                assert(search(g, b) == tries(g, b, row as int, col as int, 1));
                let mut v: usize = 1;
                while v <= n
                    invariant
                        self.wf(),
                        n == self.size,
                        n as int == side(b),
                        b == self.block,
                        n <= 225,
                        g == self.cells(),
                        g == old(self).cells(),
                        b == old(self).block_spec(),
                        self.calls() >= old(self).calls(),
                        grid_ok(g, b),
                        consistent(g, b),
                        on_board(b, row as int, col as int),
                        idx == cell_index(b, row as int, col as int),
                        0 <= idx < g.len(),
                        g[idx] == 0,
                        at(g, b, row as int, col as int) == 0,
                        1 <= v <= n + 1,
                        self.calls() == saturating(old(self).calls(), acc),
                        search(g, b) == tries(g, b, row as int, col as int, 1),
                        tries(g, b, row as int, col as int, 1) == (
                            tries(g, b, row as int, col as int, v as int).0,
                            tries(g, b, row as int, col as int, v as int).1,
                            acc + tries(g, b, row as int, col as int, v as int).2,
                        ),
                        forall|s: Seq<u8>|
                            #[trigger] solved(s, b) && extends(s, g) ==> at(
                                s,
                                b,
                                row as int,
                                col as int,
                            ) >= v,
                    decreases n + 1 - v,
                {
                    if self.check_matrix(row, col, v as u8) {
                        self.place(row, col, v as u8);
                        proof {
                            lemma_place_legal(g, b, row as int, col as int, v as u8);
                            lemma_empties_update(g, idx, v as u8);
                        }
                        let ghost h = self.cells();
                        assert(empties(h) < empties(g));
                        let ghost calls0 = self.calls();
                        assert(tries(g, b, row as int, col as int, v as int) == if search(h, b).0 {
                            search(h, b)
                        } else {
                            (
                                tries(g, b, row as int, col as int, v + 1).0,
                                tries(g, b, row as int, col as int, v + 1).1,
                                search(h, b).2 + 1 + tries(g, b, row as int, col as int, v + 1).2,
                            )
                        });
                        if self.solver() {
                            assert(extends(self.cells(), g));
                            return true;
                        }
                        if self.num_calls < usize::MAX {
                            self.num_calls = self.num_calls + 1;
                        }
                        proof {
                            acc = acc + search(h, b).2 + 1;
                        }
                        self.unplace(row, col);
                        assert(self.cells() =~= g);
                        proof {
                            assert forall|s: Seq<u8>|
                                #[trigger] solved(s, b) && extends(s, g) implies at(
                                    s,
                                    b,
                                    row as int,
                                    col as int,
                                ) >= v + 1 by {
                                if at(s, b, row as int, col as int) == v {
                                    assert(extends(s, h));
                                }
                            }
                        }
                    } else {
                        assert(tries(g, b, row as int, col as int, v as int) == tries(
                            g,
                            b,
                            row as int,
                            col as int,
                            v + 1,
                        ));
                        proof {
                            assert forall|s: Seq<u8>|
                                #[trigger] solved(s, b) && extends(s, g) implies at(
                                    s,
                                    b,
                                    row as int,
                                    col as int,
                                ) >= v + 1 by {
                                lemma_solution_value_legal(s, g, b, row as int, col as int);
                            }
                        }
                    }
                    v += 1;
                }
                proof {
                    if solvable(g, b) {
                        let s = choose|s: Seq<u8>| solved(s, b) && extends(s, g);
                        lemma_solution_value_legal(s, g, b, row as int, col as int);
                    }
                }
                assert(tries(g, b, row as int, col as int, v as int) == (false, g, 0nat));
                false
            },
        }
    }

    /// Computes the candidates of every empty cell, then searches.
    pub fn solve(&mut self) -> (r: bool)
        requires
            old(self).wf(),
            consistent(old(self).cells(), old(self).block_spec()),
        ensures
            final(self).wf(),
            final(self).block_spec() == old(self).block_spec(),
            final(self).calls() >= old(self).calls(),
            r ==> solved(final(self).cells(), old(self).block_spec()),
            r ==> extends(final(self).cells(), old(self).cells()),
            !r ==> final(self).cells() == old(self).cells(),
            r <==> solvable(old(self).cells(), old(self).block_spec()),
            complete(old(self).cells()) ==> r && final(self).cells() == old(self).cells()
                && final(self).calls() == old(self).calls(),
            r == search(old(self).cells(), old(self).block_spec()).0,
            final(self).cells() == search(old(self).cells(), old(self).block_spec()).1,
            final(self).calls() == saturating(
                old(self).calls(),
                search(old(self).cells(), old(self).block_spec()).2,
            ),
    {
        self.setup();
        self.solver()
    }
}

/// What is wrong with a board of block size `block` and cells `g`, checked in
/// this order: the block size, the number of cells, the digits, repetitions.
pub open spec fn input_error(block: int, g: Seq<u8>) -> Option<InvalidInput> {
    if !(1 <= block <= MAX_BLOCK) {
        Some(InvalidInput::BadBlockSize)
    } else if g.len() != side(block) * side(block) {
        Some(InvalidInput::WrongDimensions)
    } else if !grid_ok(g, block) {
        Some(InvalidInput::DigitOutOfRange)
    } else if !consistent(g, block) {
        Some(InvalidInput::Conflict)
    } else {
        None
    }
}

impl SudokuSolver {
    /// Builds a board of block size `block` from its cell values, row by row
    /// (`0` for an empty cell), refusing a malformed or self-contradicting one.
    pub fn from_values(block: usize, values: Vec<u8>) -> (r: Result<Self, InvalidInput>)
        ensures
            input_error(block as int, values@) matches Some(e) ==> (r matches Err(e2) && e2 == e),
            input_error(block as int, values@) is None ==> (r matches Ok(s) && s.wf()
                && s.block_spec() == block && s.cells() == values@ && s.calls() == 0
                && consistent(s.cells(), s.block_spec()) && s.candidates() == Seq::new(
                (s.n() * s.n() * s.n()) as nat,
                |i: int| false,
            )),
    {
        if block < 1 || block > MAX_BLOCK {
            return Err(InvalidInput::BadBlockSize);
        }
        assert(block * block <= 225) by (nonlinear_arith)
            requires
                1 <= block <= 15,
        ;
        let size: usize = block * block;
        assert(size * size <= 50625 && size * size * size <= 11390625) by (nonlinear_arith)
            requires
                0 <= size <= 225,
        ;
        let total: usize = size * size;
        if values.len() != total {
            return Err(InvalidInput::WrongDimensions);
        }
        let mut i: usize = 0;
        while i < total
            invariant
                values@.len() == total,
                size as int == side(block as int),
                total == size * size,
                1 <= block <= MAX_BLOCK,
                i <= total,
                forall|j: int| 0 <= j < i ==> #[trigger] values@[j] <= size,
            decreases total - i,
        {
            if values[i] as usize > size {
                assert(!grid_ok(values@, block as int));
                return Err(InvalidInput::DigitOutOfRange);
            }
            i += 1;
        }
        let ghost g = values@;
        let ghost b = block as int;
        let mut s = SudokuSolver {
            block,
            size,
            matrix: values,
            pos_sols: vec![false; total * size],
            num_calls: 0,
        };
        let n = size;
        let mut r: usize = 0;
        while r < n
            invariant
                s.wf(),
                s.block == block,
                b == block,
                s.size == n,
                n as int == side(b),
                n <= 225,
                n * n <= 50625,
                s.cells() == g,
                g == values@,
                1 <= block <= MAX_BLOCK,
                s.num_calls == 0,
                grid_ok(g, b),
                forall|k: int| 0 <= k < s.candidates().len() ==> !#[trigger] s.candidates()[k],
                r <= n,
                forall|r1: int, c1: int|
                    on_board(b, r1, c1) && r1 < r ==> #[trigger] unique_at(g, b, r1, c1),
            decreases n - r,
        {
            let mut c: usize = 0;
            while c < n
                invariant
                    s.wf(),
                    s.block == block,
                    b == block,
                    s.size == n,
                    n as int == side(b),
                    n <= 225,
                    n * n <= 50625,
                    s.cells() == g,
                    g == values@,
                    1 <= block <= MAX_BLOCK,
                    s.num_calls == 0,
                    grid_ok(g, b),
                    forall|k: int| 0 <= k < s.candidates().len() ==> !#[trigger] s.candidates()[k],
                    r < n,
                    c <= n,
                    forall|r1: int, c1: int|
                        on_board(b, r1, c1) && before(r1, c1, r as int, c as int)
                            ==> #[trigger] unique_at(g, b, r1, c1),
                decreases n - c,
            {
                proof {
                    lemma_index(n as int, r as int, c as int);
                }
                let v = s.matrix[r * n + c];
                if v != 0 {
                    proof {
                        lemma_cleared_legal(g, b, r as int, c as int);
                    }
                    let ghost cs0 = s.candidates();
                    s.place(r, c, 0);
                    let ok = s.check_matrix(r, c, v);
                    assert(s.candidates() == cs0);
                    s.place(r, c, v);
                    assert(s.cells() =~= g);
                    proof {
                        let idx = cell_index(b, r as int, c as int) * s.n() + v - 1;
                        lemma_slot_bound(n as int, (r * n + c) as int, v - 1);
                        assert(s.candidates() == cs0.update(idx, false));
                        assert forall|k: int| 0 <= k < s.candidates().len() implies !#[trigger] s.candidates()[k] by {
                            if k != idx {
                                assert(s.candidates()[k] == cs0[k]);
                            }
                        }
                    }
                    if !ok {
                        assert(!unique_at(g, b, r as int, c as int));
                        assert(!consistent(g, b));
                        return Err(InvalidInput::Conflict);
                    }
                }
                assert(unique_at(g, b, r as int, c as int));
                c += 1;
            }
            r += 1;
        }
        proof {
            assert forall|r1: int, c1: int, r2: int, c2: int|
                on_board(b, r1, c1) && on_board(b, r2, c2) && (r1 != r2 || c1 != c2) && same_unit(
                    b,
                    r1,
                    c1,
                    r2,
                    c2,
                ) && #[trigger] at(g, b, r1, c1) != 0 implies at(g, b, r1, c1) != #[trigger] at(
                g,
                b,
                r2,
                c2,
            ) by {
                assert(unique_at(g, b, r1, c1));
            }
            assert(s.candidates() =~= Seq::new((s.n() * s.n() * s.n()) as nat, |i: int| false));
        }
        Ok(s)
    }
}

impl SudokuSolver {
    /// Whether `num` is flagged as a candidate of the cell at `(row, col)`.
    pub fn is_candidate(&self, row: usize, col: usize, num: u8) -> (r: bool)
        requires
            self.wf(),
            row < self.n(),
            col < self.n(),
            1 <= num <= self.n(),
        ensures
            r == self.candidates()[cell_index(self.block_spec(), row as int, col as int) * self.n()
                + num - 1],
    {
        proof {
            self.lemma_wf_bounds();
            lemma_index(self.size as int, row as int, col as int);
            lemma_slot_bound(self.size as int, row * self.size + col, num - 1);
        }
        self.pos_sols[(row * self.size + col) * self.size + (num as usize - 1)]
    }
}

} // verus!
