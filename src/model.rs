//! The mathematical model of a board: a row-major sequence of cell values,
//! where `0` is an empty cell and `1..=N` a placed digit.
use vstd::prelude::*;
use vstd::arithmetic::div_mod::{
    lemma_fundamental_div_mod,
    lemma_fundamental_div_mod_converse,
    lemma_mod_pos_bound,
};

verus! {

/// Side of a board made of `b x b` blocks.
pub open spec fn side(b: int) -> int {
    b * b
}

/// Position of the cell at row `r`, column `c` in the row-major sequence.
pub open spec fn cell_index(b: int, r: int, c: int) -> int {
    r * side(b) + c
}

/// `(r1, c1)` comes before `(r2, c2)` in row-major order.
pub open spec fn before(r1: int, c1: int, r2: int, c2: int) -> bool {
    r1 < r2 || (r1 == r2 && c1 < c2)
}

/// The candidate flags of an empty cell say exactly which values are legal there.
pub open spec fn fresh_at(g: Seq<u8>, cs: Seq<bool>, b: int, r: int, c: int) -> bool {
    at(g, b, r, c) == 0 ==> forall|v: int|
        0 <= v < side(b) ==> #[trigger] cs[cell_index(b, r, c) * side(b) + v] == legal(
            g,
            b,
            r,
            c,
            (v + 1) as u8,
        )
}

/// Value of the cell at row `r`, column `c`.
pub open spec fn at(g: Seq<u8>, b: int, r: int, c: int) -> u8 {
    g[r * side(b) + c]
}

pub open spec fn on_board(b: int, r: int, c: int) -> bool {
    0 <= r < side(b) && 0 <= c < side(b)
}

/// Two positions share a row, a column or a block.
pub open spec fn same_unit(b: int, r1: int, c1: int, r2: int, c2: int) -> bool {
    r1 == r2 || c1 == c2 || (r1 / b == r2 / b && c1 / b == c2 / b)
}

/// No cell in the row, column or block of `(r, c)` holds `v`.
pub open spec fn legal(g: Seq<u8>, b: int, r: int, c: int, v: u8) -> bool {
    forall|r2: int, c2: int|
        #![trigger at(g, b, r2, c2)]
        on_board(b, r2, c2) && same_unit(b, r, c, r2, c2) ==> at(g, b, r2, c2) != v
}

/// The value at `(r, c)`, if placed, appears nowhere else in its row, column or block.
pub open spec fn unique_at(g: Seq<u8>, b: int, r: int, c: int) -> bool {
    at(g, b, r, c) != 0 ==> forall|r2: int, c2: int|
        #![trigger at(g, b, r2, c2)]
        on_board(b, r2, c2) && (r != r2 || c != c2) && same_unit(b, r, c, r2, c2) ==> at(g, b, r, c)
            != at(g, b, r2, c2)
}

/// A board of the right length whose values lie in `0..=N`.
pub open spec fn grid_ok(g: Seq<u8>, b: int) -> bool {
    &&& 1 <= b
    &&& g.len() == side(b) * side(b)
    &&& forall|i: int| 0 <= i < g.len() ==> #[trigger] g[i] <= side(b)
}

/// No placed value is repeated in a row, a column or a block.
pub open spec fn consistent(g: Seq<u8>, b: int) -> bool {
    forall|r1: int, c1: int, r2: int, c2: int|
        #![trigger at(g, b, r1, c1), at(g, b, r2, c2)]
        on_board(b, r1, c1) && on_board(b, r2, c2) && (r1 != r2 || c1 != c2) && same_unit(
            b,
            r1,
            c1,
            r2,
            c2,
        ) && at(g, b, r1, c1) != 0 ==> at(g, b, r1, c1) != at(g, b, r2, c2)
}

/// Every cell holds a placed value.
pub open spec fn complete(g: Seq<u8>) -> bool {
    forall|i: int| 0 <= i < g.len() ==> #[trigger] g[i] != 0
}

/// A fully and validly filled board.
pub open spec fn solved(g: Seq<u8>, b: int) -> bool {
    grid_ok(g, b) && complete(g) && consistent(g, b)
}

/// `s` keeps every value placed in `g`.
pub open spec fn extends(s: Seq<u8>, g: Seq<u8>) -> bool {
    s.len() == g.len() && forall|i: int| 0 <= i < g.len() && g[i] != 0 ==> #[trigger] s[i] == g[i]
}

/// Some solved board keeps every value placed in `g`.
pub open spec fn solvable(g: Seq<u8>, b: int) -> bool {
    exists|s: Seq<u8>| solved(s, b) && extends(s, g)
}

/// Number of values in `1..=k` that are legal at `(r, c)`.
pub open spec fn count_legal(g: Seq<u8>, b: int, r: int, c: int, k: int) -> nat
    decreases k,
{
    if k <= 0 {
        0
    } else {
        count_legal(g, b, r, c, k - 1) + if legal(g, b, r, c, k as u8) {
            1nat
        } else {
            0nat
        }
    }
}

/// `(r, c)` is an empty cell with `k` legal values, no empty cell has fewer,
/// and every empty cell before it in row-major order has more.
pub open spec fn most_constrained(g: Seq<u8>, b: int, r: int, c: int, k: int) -> bool {
    &&& on_board(b, r, c)
    &&& at(g, b, r, c) == 0
    &&& k == count_legal(g, b, r, c, side(b))
    &&& forall|r2: int, c2: int|
        on_board(b, r2, c2) && at(g, b, r2, c2) == 0 ==> k <= #[trigger] count_legal(
            g,
            b,
            r2,
            c2,
            side(b),
        )
    &&& forall|r2: int, c2: int|
        on_board(b, r2, c2) && at(g, b, r2, c2) == 0 && before(r2, c2, r, c) ==> k
            < #[trigger] count_legal(g, b, r2, c2, side(b))
}

/// The cell the search branches on: the most constrained empty cell.
pub open spec fn pick(g: Seq<u8>, b: int) -> (int, int) {
    choose|p: (int, int)|
        most_constrained(g, b, p.0, p.1, count_legal(g, b, p.0, p.1, side(b)) as int)
}

/// `a + k`, held at the largest `usize`.
pub open spec fn saturating(a: nat, k: nat) -> nat {
    if a + k > usize::MAX {
        usize::MAX as nat
    } else {
        a + k
    }
}

/// The search from board `g`: whether it succeeds, the board it ends with
/// (`g` itself on failure) and how many placed candidates it took back.
pub open spec fn search(g: Seq<u8>, b: int) -> (bool, Seq<u8>, nat)
    decreases empties(g), side(b) + 2,
    via search_decreases
{
    if !grid_ok(g, b) {
        (false, g, 0)
    } else if complete(g) {
        (true, g, 0)
    } else {
        let p = pick(g, b);
        if count_legal(g, b, p.0, p.1, side(b)) == 0 {
            (false, g, 0)
        } else {
            tries(g, b, p.0, p.1, 1)
        }
    }
}

/// The search from board `g` branching on cell `(r, c)`, trying the values
/// from `v` up to `N` in ascending order.
pub open spec fn tries(g: Seq<u8>, b: int, r: int, c: int, v: int) -> (bool, Seq<u8>, nat)
    decreases empties(g), side(b) + 1 - v,
    via tries_decreases
{
    if !(grid_ok(g, b) && on_board(b, r, c) && at(g, b, r, c) == 0 && 1 <= v <= side(b) && v
        < 256) {
        (false, g, 0)
    } else if legal(g, b, r, c, v as u8) {
        let sub = search(g.update(cell_index(b, r, c), v as u8), b);
        if sub.0 {
            sub
        } else {
            let rest = tries(g, b, r, c, v + 1);
            (rest.0, rest.1, sub.2 + 1 + rest.2)
        }
    } else {
        tries(g, b, r, c, v + 1)
    }
}

#[via_fn]
proof fn search_decreases(g: Seq<u8>, b: int) {
    assert(b * b >= 0) by (nonlinear_arith);
}

#[via_fn]
proof fn tries_decreases(g: Seq<u8>, b: int, r: int, c: int, v: int) {
    if grid_ok(g, b) && on_board(b, r, c) && at(g, b, r, c) == 0 && 1 <= v <= side(b) && v < 256 {
        lemma_index(side(b), r, c);
        lemma_empties_update(g, cell_index(b, r, c), v as u8);
    }
}

/// Only one cell is the most constrained.
pub proof fn lemma_most_constrained_unique(
    g: Seq<u8>,
    b: int,
    r1: int,
    c1: int,
    k1: int,
    r2: int,
    c2: int,
    k2: int,
)
    requires
        most_constrained(g, b, r1, c1, k1),
        most_constrained(g, b, r2, c2, k2),
    ensures
        r1 == r2 && c1 == c2,
{
    assert(k1 <= count_legal(g, b, r2, c2, side(b)));
    assert(k2 <= count_legal(g, b, r1, c1, side(b)));
    if before(r1, c1, r2, c2) {
        assert(k2 < count_legal(g, b, r1, c1, side(b)));
    } else if before(r2, c2, r1, c1) {
        assert(k1 < count_legal(g, b, r2, c2, side(b)));
    }
}

/// Number of empty cells.
pub open spec fn empties(g: Seq<u8>) -> nat
    decreases g.len(),
{
    if g.len() == 0 {
        0
    } else {
        empties(g.drop_last()) + if g.last() == 0 {
            1nat
        } else {
            0nat
        }
    }
}

pub proof fn lemma_index(n: int, r: int, c: int)
    requires
        0 <= r < n,
        0 <= c < n,
    ensures
        0 <= r * n + c < n * n,
{
    assert(0 <= r * n + c < n * n) by (nonlinear_arith)
        requires
            0 <= r < n,
            0 <= c < n,
    ;
}

pub proof fn lemma_index_inj(n: int, r1: int, c1: int, r2: int, c2: int)
    requires
        0 <= r1 < n,
        0 <= c1 < n,
        0 <= r2 < n,
        0 <= c2 < n,
        r1 * n + c1 == r2 * n + c2,
    ensures
        r1 == r2,
        c1 == c2,
{
    if r1 < r2 {
        assert(r1 * n + n <= r2 * n) by (nonlinear_arith)
            requires
                r1 < r2,
                0 <= n,
        ;
    } else if r2 < r1 {
        assert(r2 * n + n <= r1 * n) by (nonlinear_arith)
            requires
                r2 < r1,
                0 <= n,
        ;
    }
}

pub proof fn lemma_before_index(n: int, r1: int, c1: int, r2: int, c2: int)
    requires
        0 <= r1 < n,
        0 <= c1 < n,
        0 <= r2 < n,
        0 <= c2 < n,
        before(r1, c1, r2, c2),
    ensures
        r1 * n + c1 < r2 * n + c2,
{
    if r1 < r2 {
        assert(r1 * n + n <= r2 * n) by (nonlinear_arith)
            requires
                r1 < r2,
                0 <= n,
        ;
    }
}

/// The flags of cell `p` occupy `p * n .. p * n + n`, inside `0 .. n * n * n`.
pub proof fn lemma_slot(n: int, q: int, p: int, v: int)
    requires
        0 <= q < p,
        0 <= v < n,
    ensures
        q * n + v < p * n,
{
    assert(q * n + n <= p * n) by (nonlinear_arith)
        requires
            q < p,
            0 <= n,
    ;
}

pub proof fn lemma_slot_bound(n: int, p: int, v: int)
    requires
        0 <= p < n * n,
        0 <= v < n,
    ensures
        0 <= p * n + v < n * n * n,
{
    assert(0 <= p * n + v < n * n * n) by (nonlinear_arith)
        requires
            0 <= p < n * n,
            0 <= v < n,
    ;
}

/// A board whose every cell, by row and column, holds a value is complete.
pub proof fn lemma_complete_cells(g: Seq<u8>, b: int)
    requires
        grid_ok(g, b),
        forall|r: int, c: int| on_board(b, r, c) ==> #[trigger] at(g, b, r, c) != 0,
    ensures
        complete(g),
{
    let n = side(b);
    assert(n >= 1) by (nonlinear_arith)
        requires
            b >= 1,
            n == b * b,
    ;
    assert forall|i: int| 0 <= i < g.len() implies #[trigger] g[i] != 0 by {
        lemma_fundamental_div_mod(i, n);
        lemma_mod_pos_bound(i, n);
        let r = i / n;
        let c = i % n;
        assert(0 <= r < n) by (nonlinear_arith)
            requires
                i == n * r + c,
                0 <= c < n,
                0 <= i < n * n,
        ;
        assert(at(g, b, r, c) != 0);
        assert(r * n + c == i) by (nonlinear_arith)
            requires
                i == n * r + c,
        ;
    }
}

/// The rows that share a block with row `r` are those from `r - r % b` on, `b` of them.
pub proof fn lemma_same_block(b: int, r: int, r2: int)
    requires
        0 < b,
        0 <= r,
        0 <= r2,
    ensures
        (r2 / b == r / b) <==> (r - r % b <= r2 && r2 < r - r % b + b),
{
    lemma_fundamental_div_mod(r, b);
    lemma_fundamental_div_mod(r2, b);
    lemma_mod_pos_bound(r, b);
    lemma_mod_pos_bound(r2, b);
    if r - r % b <= r2 && r2 < r - r % b + b {
        assert(r2 == (r / b) * b + (r2 - (r - r % b))) by (nonlinear_arith)
            requires
                r == b * (r / b) + r % b,
        ;
        lemma_fundamental_div_mod_converse(r2, b, r / b, r2 - (r - r % b));
    }
    if r2 / b == r / b {
        assert(r - r % b == b * (r / b));
    }
}

/// The block of row `r` starts at row `r - r % b` and ends inside the board.
pub proof fn lemma_block_origin(b: int, r: int)
    requires
        1 <= b,
        0 <= r < side(b),
    ensures
        0 <= r % b <= r,
        r - r % b + b <= side(b),
{
    let n = side(b);
    lemma_fundamental_div_mod(r, b);
    lemma_mod_pos_bound(r, b);
    assert(0 <= r / b < b) by (nonlinear_arith)
        requires
            r == b * (r / b) + r % b,
            0 <= r % b < b,
            0 <= r < b * b,
    ;
    assert(b * (r / b) + b <= n) by (nonlinear_arith)
        requires
            0 <= r / b < b,
            n == b * b,
    ;
}

/// A value that a solution puts in an empty cell of `g` is legal there in `g`.
pub proof fn lemma_solution_value_legal(s: Seq<u8>, g: Seq<u8>, b: int, r: int, c: int)
    requires
        solved(s, b),
        extends(s, g),
        on_board(b, r, c),
        at(g, b, r, c) == 0,
    ensures
        1 <= at(s, b, r, c) <= side(b),
        legal(g, b, r, c, at(s, b, r, c)),
{
    let n = side(b);
    lemma_index(n, r, c);
    let v = at(s, b, r, c);
    assert forall|r2: int, c2: int|
        on_board(b, r2, c2) && same_unit(b, r, c, r2, c2) implies #[trigger] at(g, b, r2, c2)
        != v by {
        lemma_index(n, r2, c2);
        if r2 != r || c2 != c {
            assert(at(s, b, r, c) != at(s, b, r2, c2));
        }
    }
}

/// Placing a legal value in an empty cell keeps a board consistent.
pub proof fn lemma_place_legal(g: Seq<u8>, b: int, r: int, c: int, v: u8)
    requires
        grid_ok(g, b),
        consistent(g, b),
        on_board(b, r, c),
        at(g, b, r, c) == 0,
        1 <= v <= side(b),
        legal(g, b, r, c, v),
    ensures
        grid_ok(g.update(r * side(b) + c, v), b),
        consistent(g.update(r * side(b) + c, v), b),
        extends(g.update(r * side(b) + c, v), g),
{
    let n = side(b);
    lemma_index(n, r, c);
    let h = g.update(r * n + c, v);
    assert forall|r1: int, c1: int, r2: int, c2: int|
        on_board(b, r1, c1) && on_board(b, r2, c2) && (r1 != r2 || c1 != c2) && same_unit(
            b,
            r1,
            c1,
            r2,
            c2,
        ) && #[trigger] at(h, b, r1, c1) != 0 implies at(h, b, r1, c1) != #[trigger] at(
        h,
        b,
        r2,
        c2,
    ) by {
        lemma_index(n, r1, c1);
        lemma_index(n, r2, c2);
        if r1 * n + c1 == r * n + c {
            lemma_index_inj(n, r1, c1, r, c);
            if r2 * n + c2 == r * n + c {
                lemma_index_inj(n, r2, c2, r, c);
            }
            assert(at(g, b, r2, c2) != v);
        } else if r2 * n + c2 == r * n + c {
            lemma_index_inj(n, r2, c2, r, c);
            assert(same_unit(b, r, c, r1, c1));
            assert(at(g, b, r1, c1) != v);
        } else {
            assert(at(g, b, r1, c1) != at(g, b, r2, c2));
        }
    }
}

/// With its own cell cleared, the value of a cell is legal there exactly
/// when it is repeated nowhere in the cell's row, column or block.
pub proof fn lemma_cleared_legal(g: Seq<u8>, b: int, r: int, c: int)
    requires
        grid_ok(g, b),
        on_board(b, r, c),
        at(g, b, r, c) != 0,
    ensures
        legal(g.update(cell_index(b, r, c), 0), b, r, c, at(g, b, r, c)) <==> unique_at(g, b, r, c),
{
    let n = side(b);
    lemma_index(n, r, c);
    let h = g.update(cell_index(b, r, c), 0);
    let v = at(g, b, r, c);
    assert forall|r2: int, c2: int| on_board(b, r2, c2) && (r != r2 || c != c2) implies #[trigger] at(
        h,
        b,
        r2,
        c2,
    ) == at(g, b, r2, c2) by {
        lemma_index(n, r2, c2);
        if r2 * n + c2 == r * n + c {
            lemma_index_inj(n, r2, c2, r, c);
        }
    }
    if legal(h, b, r, c, v) {
        assert forall|r2: int, c2: int|
            on_board(b, r2, c2) && (r != r2 || c != c2) && same_unit(b, r, c, r2, c2) implies v
            != #[trigger] at(g, b, r2, c2) by {
            assert(at(h, b, r2, c2) != v);
        }
    }
    if unique_at(g, b, r, c) {
        assert forall|r2: int, c2: int|
            on_board(b, r2, c2) && same_unit(b, r, c, r2, c2) implies #[trigger] at(h, b, r2, c2)
            != v by {
            if r != r2 || c != c2 {
                assert(at(g, b, r2, c2) != v);
            } else {
                assert(h[r * n + c] == 0);
            }
        }
    }
}

/// Some value in `1..=k` is legal exactly when the count up to `k` is positive.
pub proof fn lemma_count_legal(g: Seq<u8>, b: int, r: int, c: int, k: int, v: int)
    requires
        1 <= v <= k,
        legal(g, b, r, c, v as u8),
    ensures
        count_legal(g, b, r, c, k) >= 1,
    decreases k,
{
    if v < k {
        lemma_count_legal(g, b, r, c, k - 1, v);
    }
}

/// Setting one cell changes the count of empty cells by what that cell was and becomes.
pub proof fn lemma_empties_update(g: Seq<u8>, i: int, v: u8)
    requires
        0 <= i < g.len(),
    ensures
        empties(g.update(i, v)) + (if g[i] == 0 { 1int } else { 0int }) == empties(g) + (if v == 0 {
            1int
        } else {
            0int
        }),
    decreases g.len(),
{
    let h = g.update(i, v);
    if i == g.len() - 1 {
        assert(h.drop_last() =~= g.drop_last());
    } else {
        assert(h.drop_last() =~= g.drop_last().update(i, v));
        lemma_empties_update(g.drop_last(), i, v);
    }
}

/// A board with no empty cell is complete.
pub proof fn lemma_empties_zero(g: Seq<u8>)
    ensures
        complete(g) <==> empties(g) == 0,
    decreases g.len(),
{
    if g.len() > 0 {
        lemma_empties_zero(g.drop_last());
        if complete(g) {
            assert forall|i: int| 0 <= i < g.drop_last().len() implies #[trigger] g.drop_last()[i]
                != 0 by {
                assert(g[i] != 0);
            }
        }
        if empties(g) == 0 {
            assert forall|i: int| 0 <= i < g.len() implies #[trigger] g[i] != 0 by {
                if i < g.len() - 1 {
                    assert(g.drop_last()[i] == g[i]);
                }
            }
        }
    }
}

} // verus!
