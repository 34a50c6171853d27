//! Properties of solved boards and of the search's results.
use vstd::prelude::*;
use vstd::set::axiom_set_remove_len;
use vstd::set_lib::{
    lemma_int_range, lemma_len_subset, lemma_map_size, lemma_subset_equality, set_int_range,
};
use vstd::arithmetic::div_mod::{
    lemma_fundamental_div_mod,
    lemma_fundamental_div_mod_converse,
    lemma_mod_pos_bound,
};
use crate::model::{
    at, cell_index, complete, consistent, count_legal, empties, extends, grid_ok, legal,
    lemma_complete_cells, lemma_count_legal, lemma_empties_zero, lemma_index, lemma_index_inj,
    lemma_most_constrained_unique, lemma_place_legal, lemma_solution_value_legal, most_constrained,
    on_board, pick, same_unit, search, side, solvable, solved, tries,
};

verus! {

/// Row `r` holds `v`.
pub open spec fn row_has(g: Seq<u8>, b: int, r: int, v: int) -> bool {
    exists|c: int| 0 <= c < side(b) && #[trigger] at(g, b, r, c) == v
}

/// Column `c` holds `v`.
pub open spec fn col_has(g: Seq<u8>, b: int, c: int, v: int) -> bool {
    exists|r: int| 0 <= r < side(b) && #[trigger] at(g, b, r, c) == v
}

/// The block in block row `br` and block column `bc` holds `v`.
pub open spec fn block_has(g: Seq<u8>, b: int, br: int, bc: int, v: int) -> bool {
    exists|i: int, j: int| 0 <= i < b && 0 <= j < b && #[trigger] at(g, b, br * b + i, bc * b + j) == v
}

/// If `n` distinct positions of one unit of a solved board are listed by
/// `f`, every value in `1..=n` stands at one of them.
proof fn lemma_unit_covers(g: Seq<u8>, b: int, f: spec_fn(int) -> (int, int), v: int)
    requires
        grid_ok(g, b),
        consistent(g, b),
        forall|k: int| 0 <= k < side(b) ==> at(g, b, #[trigger] f(k).0, f(k).1) != 0,
        1 <= v <= side(b),
        forall|k: int| 0 <= k < side(b) ==> on_board(b, #[trigger] f(k).0, f(k).1),
        forall|k1: int, k2: int|
            0 <= k1 < side(b) && 0 <= k2 < side(b) && k1 != k2 ==> #[trigger] f(k1) != #[trigger] f(
                k2,
            ) && same_unit(b, f(k1).0, f(k1).1, f(k2).0, f(k2).1),
    ensures
        exists|k: int| 0 <= k < side(b) && at(g, b, #[trigger] f(k).0, f(k).1) == v,
{
    let n = side(b);
    let dom = set_int_range(0, n);
    let h = |k: int| at(g, b, f(k).0, f(k).1) as int;
    let img = dom.map(h);
    let vals = set_int_range(1, n + 1);
    assert(n >= 1) by (nonlinear_arith)
        requires
            b >= 1,
            n == b * b,
    ;
    lemma_int_range(0, n);
    lemma_int_range(1, n + 1);
    assert forall|k1: int, k2: int| dom.contains(k1) && dom.contains(k2) && #[trigger] h(k1) == #[trigger] h(k2)
        implies k1 == k2 by {
        if k1 != k2 {
            let pa = f(k1);
            let pb = f(k2);
            assert(at(g, b, pa.0, pa.1) != 0);
            assert(at(g, b, pa.0, pa.1) != at(g, b, pb.0, pb.1));
        }
    }
    lemma_map_size(dom, img, h);
    assert forall|x: int| img.contains(x) implies vals.contains(x) by {
        let k = choose|k: int| dom.contains(k) && h(k) == x;
        lemma_index(n, f(k).0, f(k).1);
        assert(at(g, b, f(k).0, f(k).1) != 0);
        assert(g[f(k).0 * n + f(k).1] <= n);
    }
    lemma_subset_equality(img, vals);
    assert(vals.contains(v));
    assert(img.contains(v));
    let k = choose|k: int| dom.contains(k) && h(k) == v;
    assert(0 <= k < n && at(g, b, f(k).0, f(k).1) == v);
}

proof fn lemma_block_cell(b: int, br: int, bc: int, k: int)
    requires
        1 <= b,
        0 <= br < b,
        0 <= bc < b,
        0 <= k < side(b),
    ensures
        0 <= k / b < b,
        0 <= k % b < b,
        (br * b + k / b) / b == br,
        (bc * b + k % b) / b == bc,
        on_board(b, br * b + k / b, bc * b + k % b),
        k == b * (k / b) + k % b,
{
    lemma_fundamental_div_mod(k, b);
    lemma_mod_pos_bound(k, b);
    assert(0 <= k / b < b) by (nonlinear_arith)
        requires
            k == b * (k / b) + k % b,
            0 <= k % b < b,
            0 <= k < b * b,
    ;
    lemma_fundamental_div_mod_converse(br * b + k / b, b, br, k / b);
    lemma_fundamental_div_mod_converse(bc * b + k % b, b, bc, k % b);
    assert(br * b + k / b < b * b && bc * b + k % b < b * b) by (nonlinear_arith)
        requires
            0 <= br < b,
            0 <= bc < b,
            0 <= k / b < b,
            0 <= k % b < b,
    ;
}

/// On a solved board every row, every column and every block holds each
/// value of `1..=N` exactly once.
pub proof fn lemma_solved_units(g: Seq<u8>, b: int)
    requires
        solved(g, b),
    ensures
        forall|r: int, v: int|
            0 <= r < side(b) && 1 <= v <= side(b) ==> #[trigger] row_has(g, b, r, v),
        forall|c: int, v: int|
            0 <= c < side(b) && 1 <= v <= side(b) ==> #[trigger] col_has(g, b, c, v),
        forall|br: int, bc: int, v: int|
            0 <= br < b && 0 <= bc < b && 1 <= v <= side(b) ==> #[trigger] block_has(g, b, br, bc, v),
        forall|r: int, c1: int, c2: int|
            0 <= r < side(b) && 0 <= c1 < side(b) && 0 <= c2 < side(b) && #[trigger] at(g, b, r, c1)
                == #[trigger] at(g, b, r, c2) ==> c1 == c2,
        forall|c: int, r1: int, r2: int|
            0 <= c < side(b) && 0 <= r1 < side(b) && 0 <= r2 < side(b) && #[trigger] at(g, b, r1, c)
                == #[trigger] at(g, b, r2, c) ==> r1 == r2,
        forall|br: int, bc: int, i1: int, j1: int, i2: int, j2: int|
            0 <= br < b && 0 <= bc < b && 0 <= i1 < b && 0 <= j1 < b && 0 <= i2 < b && 0 <= j2 < b
                && #[trigger] at(g, b, br * b + i1, bc * b + j1) == #[trigger] at(
                g,
                b,
                br * b + i2,
                bc * b + j2,
            ) ==> i1 == i2 && j1 == j2,
{
    let n = side(b);
    assert forall|r: int, c: int| on_board(b, r, c) implies #[trigger] at(g, b, r, c) != 0 by {
        lemma_index(n, r, c);
    }
    assert forall|r: int, v: int| 0 <= r < n && 1 <= v <= n implies #[trigger] row_has(g, b, r, v) by {
        let f = |k: int| (r, k);
        lemma_unit_covers(g, b, f, v);
        let k = choose|k: int| 0 <= k < n && at(g, b, #[trigger] f(k).0, f(k).1) == v;
        assert(at(g, b, r, k) == v);
    }
    assert forall|c: int, v: int| 0 <= c < n && 1 <= v <= n implies #[trigger] col_has(g, b, c, v) by {
        let f = |k: int| (k, c);
        lemma_unit_covers(g, b, f, v);
        let k = choose|k: int| 0 <= k < n && at(g, b, #[trigger] f(k).0, f(k).1) == v;
        assert(at(g, b, k, c) == v);
    }
    assert forall|br: int, bc: int, v: int|
        0 <= br < b && 0 <= bc < b && 1 <= v <= n implies #[trigger] block_has(g, b, br, bc, v) by {
        let f = |k: int| (br * b + k / b, bc * b + k % b);
        assert forall|k: int| 0 <= k < n implies on_board(b, #[trigger] f(k).0, f(k).1) by {
            lemma_block_cell(b, br, bc, k);
        }
        assert forall|k1: int, k2: int| 0 <= k1 < n && 0 <= k2 < n && k1 != k2 implies #[trigger] f(k1)
            != #[trigger] f(k2) && same_unit(b, f(k1).0, f(k1).1, f(k2).0, f(k2).1) by {
            lemma_block_cell(b, br, bc, k1);
            lemma_block_cell(b, br, bc, k2);
        }
        lemma_unit_covers(g, b, f, v);
        let k = choose|k: int| 0 <= k < n && at(g, b, #[trigger] f(k).0, f(k).1) == v;
        lemma_block_cell(b, br, bc, k);
        assert(at(g, b, br * b + k / b, bc * b + k % b) == v);
    }
    assert forall|r: int, c1: int, c2: int|
        0 <= r < n && 0 <= c1 < n && 0 <= c2 < n && #[trigger] at(g, b, r, c1) == #[trigger] at(
            g,
            b,
            r,
            c2,
        ) implies c1 == c2 by {
        lemma_index(n, r, c1);
        assert(g[r * n + c1] != 0);
    }
    assert forall|c: int, r1: int, r2: int|
        0 <= c < n && 0 <= r1 < n && 0 <= r2 < n && #[trigger] at(g, b, r1, c) == #[trigger] at(
            g,
            b,
            r2,
            c,
        ) implies r1 == r2 by {
        lemma_index(n, r1, c);
        assert(g[r1 * n + c] != 0);
    }
    assert forall|br: int, bc: int, i1: int, j1: int, i2: int, j2: int|
        0 <= br < b && 0 <= bc < b && 0 <= i1 < b && 0 <= j1 < b && 0 <= i2 < b && 0 <= j2 < b
            && #[trigger] at(g, b, br * b + i1, bc * b + j1) == #[trigger] at(
            g,
            b,
            br * b + i2,
            bc * b + j2,
        ) implies i1 == i2 && j1 == j2 by {
        let k1 = i1 * b + j1;
        let k2 = i2 * b + j2;
        assert(0 <= k1 < n && 0 <= k2 < n) by (nonlinear_arith)
            requires
                k1 == i1 * b + j1,
                k2 == i2 * b + j2,
                0 <= i1 < b,
                0 <= j1 < b,
                0 <= i2 < b,
                0 <= j2 < b,
                n == b * b,
        ;
        lemma_fundamental_div_mod_converse(k1, b, i1, j1);
        lemma_fundamental_div_mod_converse(k2, b, i2, j2);
        lemma_block_cell(b, br, bc, k1);
        lemma_block_cell(b, br, bc, k2);
        lemma_index(n, br * b + i1, bc * b + j1);
        assert(g[(br * b + i1) * n + bc * b + j1] != 0);
    }
}

/// A solved board is a valid input of the search, is complete, has no empty
/// cell and is its own solution: searching it again succeeds at once,
/// leaving it and the trial counter as they are.
pub proof fn lemma_solved_is_fixed_point(g: Seq<u8>, b: int)
    requires
        solved(g, b),
    ensures
        grid_ok(g, b),
        consistent(g, b),
        complete(g),
        empties(g) == 0,
        solvable(g, b),
        search(g, b) == (true, g, 0nat),
{
    lemma_empties_zero(g);
    assert(extends(g, g));
}

/// The search's outcome, final board and count of taken-back trials are a
/// function of the board alone: two searches from equal boards agree on all three.
pub proof fn lemma_search_reproducible(g1: Seq<u8>, g2: Seq<u8>, b: int)
    requires
        g1 == g2,
    ensures
        search(g1, b) == search(g2, b),
{
}

/// Trying values from `v` on in the only empty cell of a board succeeds with
/// no trial taken back, once some value from `v` on is legal there.
proof fn lemma_last_cell_tries(g: Seq<u8>, b: int, r: int, c: int, v: int, w: int)
    requires
        grid_ok(g, b),
        side(b) < 256,
        on_board(b, r, c),
        at(g, b, r, c) == 0,
        forall|r2: int, c2: int|
            on_board(b, r2, c2) && (r2 != r || c2 != c) ==> #[trigger] at(g, b, r2, c2) != 0,
        consistent(g, b),
        1 <= v <= w <= side(b),
        legal(g, b, r, c, w as u8),
    ensures
        tries(g, b, r, c, v).0,
        tries(g, b, r, c, v).2 == 0,
    decreases w - v,
{
    let n = side(b);
    if legal(g, b, r, c, v as u8) {
        lemma_index(n, r, c);
        let h = g.update(cell_index(b, r, c), v as u8);
        lemma_place_legal(g, b, r, c, v as u8);
        assert forall|r2: int, c2: int| on_board(b, r2, c2) implies #[trigger] at(h, b, r2, c2) != 0 by {
            lemma_index(n, r2, c2);
            if r2 != r || c2 != c {
                if r2 * n + c2 == r * n + c {
                    lemma_index_inj(n, r2, c2, r, c);
                }
                assert(at(g, b, r2, c2) != 0);
            }
        }
        lemma_complete_cells(h, b);
        assert(search(h, b) == (true, h, 0nat));
    } else {
        lemma_last_cell_tries(g, b, r, c, v + 1, w);
    }
}

/// A consistent board with a single empty cell is solved by its first legal
/// trial, with no trial taken back.
pub proof fn lemma_single_blank(g: Seq<u8>, b: int, r: int, c: int)
    requires
        grid_ok(g, b),
        side(b) < 256,
        consistent(g, b),
        on_board(b, r, c),
        at(g, b, r, c) == 0,
        forall|r2: int, c2: int|
            on_board(b, r2, c2) && (r2 != r || c2 != c) ==> #[trigger] at(g, b, r2, c2) != 0,
    ensures
        search(g, b).0,
        search(g, b).2 == 0,
{
    lemma_single_blank_solvable(g, b, r, c);
    let n = side(b);
    lemma_index(n, r, c);
    assert(!complete(g)) by {
        assert(g[r * n + c] == 0);
    }
    let k = count_legal(g, b, r, c, n) as int;
    assert(most_constrained(g, b, r, c, k)) by {
        assert forall|r2: int, c2: int|
            on_board(b, r2, c2) && at(g, b, r2, c2) == 0 implies k <= #[trigger] count_legal(
            g,
            b,
            r2,
            c2,
            n,
        ) by {
            assert(r2 == r && c2 == c);
        }
    }
    let q = (r, c);
    assert(most_constrained(g, b, q.0, q.1, count_legal(g, b, q.0, q.1, n) as int));
    let p = pick(g, b);
    lemma_most_constrained_unique(g, b, p.0, p.1, count_legal(g, b, p.0, p.1, n) as int, r, c, k);
    let s = choose|s: Seq<u8>| solved(s, b) && extends(s, g);
    lemma_solution_value_legal(s, g, b, r, c);
    let w = at(s, b, r, c) as int;
    lemma_count_legal(g, b, r, c, n, w);
    lemma_last_cell_tries(g, b, r, c, 1, w);
}

/// A board that keeps every value of `g` has no more empty cells than `g`,
/// and a solved board has none.
pub proof fn lemma_progress(s: Seq<u8>, g: Seq<u8>, b: int)
    requires
        extends(s, g),
    ensures
        empties(s) <= empties(g),
        solved(s, b) ==> empties(s) == 0,
    decreases g.len(),
{
    lemma_empties_zero(s);
    if g.len() > 0 {
        assert(extends(s.drop_last(), g.drop_last()));
        lemma_progress(s.drop_last(), g.drop_last(), b);
    }
}

/// An injection between finite sets of the same size reaches every element.
proof fn lemma_injection_onto(dom: Set<int>, cod: Set<int>, h: spec_fn(int) -> int, y: int)
    requires
        dom.finite(),
        cod.finite(),
        dom.len() == cod.len(),
        forall|x1: int, x2: int|
            dom.contains(x1) && dom.contains(x2) && #[trigger] h(x1) == #[trigger] h(x2) ==> x1 == x2,
        forall|x: int| dom.contains(x) ==> cod.contains(#[trigger] h(x)),
        cod.contains(y),
    ensures
        exists|x: int| dom.contains(x) && #[trigger] h(x) == y,
{
    let img = dom.map(h);
    lemma_map_size(dom, img, h);
    assert forall|z: int| img.contains(z) implies cod.contains(z) by {
        let x = choose|x: int| dom.contains(x) && h(x) == z;
    }
    lemma_subset_equality(img, cod);
    assert(img.contains(y));
}

/// `0 .. n` without `i`, of `n - 1` elements.
proof fn lemma_range_but(n: int, i: int)
    requires
        0 <= i < n,
    ensures
        set_int_range(0, n).remove(i).finite(),
        set_int_range(0, n).remove(i).len() == n - 1,
{
    lemma_int_range(0, n);
    axiom_set_remove_len(set_int_range(0, n), i);
}

/// The row of an empty cell misses some value.
proof fn lemma_row_misses(g: Seq<u8>, b: int, r: int, c: int) -> (v: int)
    requires
        grid_ok(g, b),
        consistent(g, b),
        on_board(b, r, c),
        at(g, b, r, c) == 0,
    ensures
        1 <= v <= side(b),
        forall|c2: int| 0 <= c2 < side(b) ==> #[trigger] at(g, b, r, c2) != v,
{
    let n = side(b);
    if forall|w: int| 1 <= w <= n ==> #[trigger] row_has(g, b, r, w) {
        let dom = set_int_range(1, n + 1);
        let cod = set_int_range(0, n).remove(c);
        let h = |w: int| choose|c2: int| 0 <= c2 < n && #[trigger] at(g, b, r, c2) == w;
        lemma_int_range(1, n + 1);
        lemma_range_but(n, c);
        assert forall|w1: int, w2: int|
            dom.contains(w1) && dom.contains(w2) && #[trigger] h(w1) == #[trigger] h(w2) implies w1
            == w2 by {
            assert(row_has(g, b, r, w1));
            assert(row_has(g, b, r, w2));
            assert(at(g, b, r, h(w1)) == w1);
            assert(at(g, b, r, h(w2)) == w2);
        }
        lemma_map_size(dom, dom.map(h), h);
        assert forall|z: int| dom.map(h).contains(z) implies cod.contains(z) by {
            let w = choose|w: int| dom.contains(w) && h(w) == z;
            assert(row_has(g, b, r, w));
            assert(at(g, b, r, h(w)) == w);
        }
        lemma_len_subset(dom.map(h), cod);
        assert(false);
        0
    } else {
        let w = choose|w: int| !(1 <= w <= n ==> #[trigger] row_has(g, b, r, w));
        w
    }
}

/// On a consistent board whose only empty cell is `(r, c)`, a value missing
/// from row `r` is missing from column `c` too.
proof fn lemma_col_misses(g: Seq<u8>, b: int, r: int, c: int, v: int)
    requires
        grid_ok(g, b),
        consistent(g, b),
        on_board(b, r, c),
        at(g, b, r, c) == 0,
        forall|r2: int, c2: int|
            on_board(b, r2, c2) && (r2 != r || c2 != c) ==> #[trigger] at(g, b, r2, c2) != 0,
        1 <= v <= side(b),
        forall|c2: int| 0 <= c2 < side(b) ==> #[trigger] at(g, b, r, c2) != v,
    ensures
        forall|r2: int| 0 <= r2 < side(b) ==> #[trigger] at(g, b, r2, c) != v,
{
    let n = side(b);
    assert forall|c2: int| 0 <= c2 < n && c2 != c implies #[trigger] col_has(g, b, c2, v) by {
        let f = |k: int| (k, c2);
        lemma_unit_covers(g, b, f, v);
        let k = choose|k: int| 0 <= k < n && at(g, b, #[trigger] f(k).0, f(k).1) == v;
        assert(at(g, b, k, c2) == v);
    }
    let dom = set_int_range(0, n).remove(c);
    let cod = set_int_range(0, n).remove(r);
    let h = |c2: int| choose|r2: int| 0 <= r2 < n && #[trigger] at(g, b, r2, c2) == v;
    lemma_range_but(n, c);
    lemma_range_but(n, r);
    assert forall|c1: int, c2: int|
        dom.contains(c1) && dom.contains(c2) && #[trigger] h(c1) == #[trigger] h(c2) implies c1
        == c2 by {
        assert(col_has(g, b, c1, v));
        assert(col_has(g, b, c2, v));
        assert(at(g, b, h(c1), c1) == v);
        assert(at(g, b, h(c2), c2) == v);
    }
    assert forall|c2: int| dom.contains(c2) implies cod.contains(#[trigger] h(c2)) by {
        assert(col_has(g, b, c2, v));
        assert(at(g, b, h(c2), c2) == v);
    }
    assert forall|r2: int| 0 <= r2 < n implies #[trigger] at(g, b, r2, c) != v by {
        if r2 != r {
            lemma_injection_onto(dom, cod, h, r2);
            let c2 = choose|c2: int| dom.contains(c2) && #[trigger] h(c2) == r2;
            assert(col_has(g, b, c2, v));
            assert(at(g, b, r2, c2) == v);
            assert(at(g, b, r2, c2) != at(g, b, r2, c));
        }
    }
}

/// Block `k` (in row-major order of blocks) holds `v`.
spec fn block_k_has(g: Seq<u8>, b: int, k: int, v: int) -> bool {
    block_has(g, b, k / b, k % b, v)
}

/// On a consistent board whose only empty cell is `(r, c)`, a value missing
/// from row `r` is missing from the block of `(r, c)` too.
proof fn lemma_block_misses(g: Seq<u8>, b: int, r: int, c: int, v: int)
    requires
        grid_ok(g, b),
        consistent(g, b),
        on_board(b, r, c),
        at(g, b, r, c) == 0,
        forall|r2: int, c2: int|
            on_board(b, r2, c2) && (r2 != r || c2 != c) ==> #[trigger] at(g, b, r2, c2) != 0,
        1 <= v <= side(b),
        forall|c2: int| 0 <= c2 < side(b) ==> #[trigger] at(g, b, r, c2) != v,
    ensures
        forall|r2: int, c2: int|
            on_board(b, r2, c2) && r2 / b == r / b && c2 / b == c / b ==> #[trigger] at(g, b, r2, c2)
                != v,
{
    let n = side(b);
    lemma_block_cell(b, 0, 0, r);
    lemma_block_cell(b, 0, 0, c);
    let k0 = (r / b) * b + c / b;
    assert(0 <= k0 < n) by (nonlinear_arith)
        requires
            0 <= r / b < b,
            0 <= c / b < b,
            k0 == (r / b) * b + c / b,
            n == b * b,
    ;
    lemma_fundamental_div_mod_converse(k0, b, r / b, c / b);
    assert forall|k: int| 0 <= k < n && k != k0 implies #[trigger] block_k_has(g, b, k, v) by {
        lemma_block_cell(b, 0, 0, k);
        let br = k / b;
        let bc = k % b;
        let f = |j: int| (br * b + j / b, bc * b + j % b);
        assert forall|j: int| 0 <= j < n implies on_board(b, #[trigger] f(j).0, f(j).1) && at(
            g,
            b,
            f(j).0,
            f(j).1,
        ) != 0 by {
            lemma_block_cell(b, br, bc, j);
        }
        assert forall|j1: int, j2: int| 0 <= j1 < n && 0 <= j2 < n && j1 != j2 implies #[trigger] f(j1)
            != #[trigger] f(j2) && same_unit(b, f(j1).0, f(j1).1, f(j2).0, f(j2).1) by {
            lemma_block_cell(b, br, bc, j1);
            lemma_block_cell(b, br, bc, j2);
        }
        lemma_unit_covers(g, b, f, v);
        let j = choose|j: int| 0 <= j < n && at(g, b, #[trigger] f(j).0, f(j).1) == v;
        lemma_block_cell(b, br, bc, j);
        assert(at(g, b, br * b + j / b, bc * b + j % b) == v);
    }
    let dom = set_int_range(0, n).remove(k0);
    let cod = set_int_range(0, n).remove(r);
    let pos = |k: int|
        choose|ij: (int, int)|
            0 <= ij.0 < b && 0 <= ij.1 < b && #[trigger] at(
                g,
                b,
                (k / b) * b + ij.0,
                (k % b) * b + ij.1,
            ) == v;
    let h = |k: int| (k / b) * b + pos(k).0;
    lemma_range_but(n, k0);
    lemma_range_but(n, r);
    assert forall|k: int| dom.contains(k) implies {
        &&& 0 <= #[trigger] pos(k).0 < b
        &&& 0 <= pos(k).1 < b
        &&& at(g, b, (k / b) * b + pos(k).0, (k % b) * b + pos(k).1) == v
        &&& 0 <= k / b < b
        &&& 0 <= k % b < b
        &&& k == b * (k / b) + k % b
    } by {
        assert(block_k_has(g, b, k, v));
        let (i, j) = choose|i: int, j: int|
            0 <= i < b && 0 <= j < b && #[trigger] at(g, b, (k / b) * b + i, (k % b) * b + j) == v;
        assert(at(g, b, (k / b) * b + (i, j).0, (k % b) * b + (i, j).1) == v);
        lemma_block_cell(b, 0, 0, k);
    }
    assert forall|k: int| dom.contains(k) implies cod.contains(#[trigger] h(k)) by {
        assert(0 <= pos(k).0 < b);
        assert(0 <= (k / b) * b + pos(k).0 < n && 0 <= (k % b) * b + pos(k).1 < n) by (nonlinear_arith)
            requires
                0 <= k / b < b,
                0 <= k % b < b,
                0 <= pos(k).0 < b,
                0 <= pos(k).1 < b,
                n == b * b,
        ;
    }
    assert forall|k1: int, k2: int|
        dom.contains(k1) && dom.contains(k2) && #[trigger] h(k1) == #[trigger] h(k2) implies k1
        == k2 by {
        assert(0 <= pos(k1).0 < b);
        assert(0 <= pos(k2).0 < b);
        let row = h(k1);
        let ca = (k1 % b) * b + pos(k1).1;
        let cb = (k2 % b) * b + pos(k2).1;
        assert(0 <= row < n && 0 <= ca < n && 0 <= cb < n) by (nonlinear_arith)
            requires
                0 <= k1 / b < b,
                0 <= k1 % b < b,
                0 <= k2 % b < b,
                0 <= pos(k1).0 < b,
                0 <= pos(k1).1 < b,
                0 <= pos(k2).1 < b,
                row == (k1 / b) * b + pos(k1).0,
                ca == (k1 % b) * b + pos(k1).1,
                cb == (k2 % b) * b + pos(k2).1,
                n == b * b,
        ;
        if ca != cb {
            assert(at(g, b, row, ca) != at(g, b, row, cb));
        }
        lemma_fundamental_div_mod_converse(row, b, k1 / b, pos(k1).0);
        lemma_fundamental_div_mod_converse(row, b, k2 / b, pos(k2).0);
        lemma_fundamental_div_mod_converse(ca, b, k1 % b, pos(k1).1);
        lemma_fundamental_div_mod_converse(cb, b, k2 % b, pos(k2).1);
    }
    assert forall|r2: int, c2: int|
        on_board(b, r2, c2) && r2 / b == r / b && c2 / b == c / b implies #[trigger] at(g, b, r2, c2)
        != v by {
        if r2 != r && at(g, b, r2, c2) == v {
            lemma_injection_onto(dom, cod, h, r2);
            let k = choose|k: int| dom.contains(k) && #[trigger] h(k) == r2;
            assert(0 <= pos(k).0 < b);
            let cb = (k % b) * b + pos(k).1;
            assert(0 <= cb < n) by (nonlinear_arith)
                requires
                    0 <= k % b < b,
                    0 <= pos(k).1 < b,
                    cb == (k % b) * b + pos(k).1,
                    n == b * b,
            ;
            lemma_fundamental_div_mod_converse(r2, b, k / b, pos(k).0);
            lemma_fundamental_div_mod_converse(cb, b, k % b, pos(k).1);
            assert(at(g, b, r2, cb) == v);
            if cb == c2 {
                assert(k / b == k0 / b && k % b == k0 % b);
                lemma_block_cell(b, 0, 0, k0);
            }
            assert(at(g, b, r2, cb) != at(g, b, r2, c2));
        }
    }
}

/// A consistent board with a single empty cell can be completed: the value
/// missing from that cell's row is legal there.
pub proof fn lemma_single_blank_solvable(g: Seq<u8>, b: int, r: int, c: int)
    requires
        grid_ok(g, b),
        side(b) < 256,
        consistent(g, b),
        on_board(b, r, c),
        at(g, b, r, c) == 0,
        forall|r2: int, c2: int|
            on_board(b, r2, c2) && (r2 != r || c2 != c) ==> #[trigger] at(g, b, r2, c2) != 0,
    ensures
        solvable(g, b),
{
    let n = side(b);
    let v = lemma_row_misses(g, b, r, c);
    lemma_col_misses(g, b, r, c, v);
    lemma_block_misses(g, b, r, c, v);
    assert forall|r2: int, c2: int|
        on_board(b, r2, c2) && same_unit(b, r, c, r2, c2) implies #[trigger] at(g, b, r2, c2) != v as u8 by {
        if r2 == r {
            assert(at(g, b, r, c2) != v);
        } else if c2 == c {
            assert(at(g, b, r2, c) != v);
        } else {
            assert(at(g, b, r2, c2) != v);
        }
    }
    assert(legal(g, b, r, c, v as u8));
    lemma_place_legal(g, b, r, c, v as u8);
    lemma_index(n, r, c);
    let h = g.update(cell_index(b, r, c), v as u8);
    assert forall|r2: int, c2: int| on_board(b, r2, c2) implies #[trigger] at(h, b, r2, c2) != 0 by {
        lemma_index(n, r2, c2);
        if r2 != r || c2 != c {
            if r2 * n + c2 == r * n + c {
                lemma_index_inj(n, r2, c2, r, c);
            }
            assert(at(g, b, r2, c2) != 0);
        }
    }
    lemma_complete_cells(h, b);
    assert(solved(h, b) && extends(h, g));
}

} // verus!
