//! Reading a board from text: a header line, then `N` lines of `N` decimal
//! digits each (`0` for an empty cell), the last newline optional. Lines end
//! with a bare `\n`: a `\r` before it is not a digit, so text with CRLF line
//! endings is refused as [`InvalidInput::WrongDimensions`].
use vstd::prelude::*;
use vstd::arithmetic::div_mod::lemma_fundamental_div_mod_converse;
use crate::grid::{input_error, InvalidInput, SudokuSolver, MAX_BLOCK};
use crate::model::{consistent, side};

verus! {

/// Position of the first newline at or after `i`, or `-1` when there is none.
pub open spec fn first_newline(t: Seq<u8>, i: int) -> int
    decreases t.len() - i,
{
    if i < 0 || i >= t.len() {
        -1
    } else if t[i] == 10 {
        i
    } else {
        first_newline(t, i + 1)
    }
}

/// What follows the header line.
pub open spec fn body_of(t: Seq<u8>) -> Seq<u8> {
    t.subrange(first_newline(t, 0) + 1, t.len() as int)
}

pub open spec fn is_digit(c: u8) -> bool {
    48 <= c <= 57
}

/// Position in the body of column `c` of line `r`; column `n` is the newline.
pub open spec fn digit_pos(n: int, r: int, c: int) -> int {
    r * (n + 1) + c
}

/// What is wrong with the layout of a body of `n` lines of `n` digits.
pub open spec fn layout_error(body: Seq<u8>, n: int) -> Option<InvalidInput> {
    if body.len() != n * (n + 1) && body.len() != n * (n + 1) - 1 {
        Some(InvalidInput::WrongDimensions)
    } else if exists|r: int|
        0 <= r < n && digit_pos(n, r, n) < body.len() && #[trigger] body[digit_pos(n, r, n)] != 10 {
        Some(InvalidInput::WrongDimensions)
    } else if exists|r: int, c: int|
        0 <= r < n && 0 <= c < n && !is_digit(#[trigger] body[digit_pos(n, r, c)]) {
        Some(InvalidInput::BadSymbol)
    } else {
        None
    }
}

/// The cell values that a well laid out body spells, row by row.
pub open spec fn digits_of(body: Seq<u8>, n: int) -> Seq<u8> {
    Seq::new((n * n) as nat, |k: int| (body[digit_pos(n, k / n, k % n)] - 48) as u8)
}

/// What is wrong with the text of a board of block size `block`, if anything.
pub open spec fn text_error(block: int, t: Seq<u8>) -> Option<InvalidInput> {
    if !(1 <= block <= MAX_BLOCK) {
        Some(InvalidInput::BadBlockSize)
    } else if first_newline(t, 0) < 0 {
        Some(InvalidInput::WrongDimensions)
    } else if layout_error(body_of(t), side(block)) is Some {
        layout_error(body_of(t), side(block))
    } else {
        input_error(block, digits_of(body_of(t), side(block)))
    }
}

proof fn lemma_first_newline(t: Seq<u8>, i: int, j: int)
    requires
        0 <= i <= j <= t.len(),
        forall|k: int| i <= k < j ==> t[k] != 10,
    ensures
        first_newline(t, i) == first_newline(t, j),
    decreases j - i,
{
    if i < j {
        lemma_first_newline(t, i + 1, j);
    }
}

impl SudokuSolver {
    /// Reads a board of block size `block` from text: a header line that is
    /// skipped, then one line of `N` digits per row, each ended by `\n`
    /// (CRLF line endings are refused).
    pub fn read_grid(block: usize, text: &Vec<u8>) -> (r: Result<SudokuSolver, InvalidInput>)
        ensures
            text_error(block as int, text@) matches Some(e) ==> (r matches Err(e2) && e2 == e),
            text_error(block as int, text@) is None ==> (r matches Ok(s) && s.wf()
                && s.block_spec() == block && s.cells() == digits_of(
                body_of(text@),
                side(block as int),
            ) && s.calls() == 0 && consistent(s.cells(), s.block_spec()) && s.candidates()
                == Seq::new((s.n() * s.n() * s.n()) as nat, |i: int| false)),
    {
        if block < 1 || block > MAX_BLOCK {
            return Err(InvalidInput::BadBlockSize);
        }
        let ghost t = text@;
        let tl: usize = text.len();
        assert(t.len() == tl);
        let mut h: usize = 0;
        while h < text.len() && text[h] != 10
            invariant
                h <= t.len(),
                t == text@,
                forall|k: int| 0 <= k < h ==> t[k] != 10,
            decreases t.len() - h,
        {
            h += 1;
        }
        proof {
            lemma_first_newline(t, 0, h as int);
        }
        if h == text.len() {
            return Err(InvalidInput::WrongDimensions);
        }
        let start = h + 1;
        let ghost body = body_of(t);
        assert(body.len() == t.len() - start);
        assert(1 <= block * block <= 225) by (nonlinear_arith)
            requires
                1 <= block <= 15,
        ;
        let n: usize = block * block;
        assert(n * (n + 1) <= 50850) by (nonlinear_arith)
            requires
                n <= 225,
        ;
        let full: usize = n * (n + 1);
        let blen: usize = text.len() - start;
        if blen != full && blen + 1 != full {
            return Err(InvalidInput::WrongDimensions);
        }
        let mut r: usize = 0;
        while r < n
            invariant
                t == text@,
                body == body_of(t),
                body.len() == blen,
                start + blen == t.len(),
                t.len() <= usize::MAX,
                start as int == first_newline(t, 0) + 1,
                first_newline(t, 0) >= 0,
                1 <= block <= MAX_BLOCK,
                1 <= n <= 225,
                n as int == side(block as int),
                full == n * (n + 1),
                blen == full || blen + 1 == full,
                r <= n,
                forall|q: int|
                    0 <= q < r && digit_pos(n as int, q, n as int) < blen
                        ==> #[trigger] body[digit_pos(n as int, q, n as int)] == 10,
            decreases n - r,
        {
            assert(r * (n + 1) + n <= full) by (nonlinear_arith)
                requires
                    r < n,
                    full == n * (n + 1),
            ;
            let pos = r * (n + 1) + n;
            if pos < blen && text[start + pos] != 10 {
                assert(body[digit_pos(n as int, r as int, n as int)] != 10);
                return Err(InvalidInput::WrongDimensions);
            }
            r += 1;
        }
        let mut values: Vec<u8> = Vec::new();
        let mut r: usize = 0;
        while r < n
            invariant
                t == text@,
                body == body_of(t),
                body.len() == blen,
                start + blen == t.len(),
                t.len() <= usize::MAX,
                start as int == first_newline(t, 0) + 1,
                first_newline(t, 0) >= 0,
                1 <= block <= MAX_BLOCK,
                1 <= n <= 225,
                n as int == side(block as int),
                full == n * (n + 1),
                blen == full || blen + 1 == full,
                forall|q: int|
                    0 <= q < n && digit_pos(n as int, q, n as int) < blen
                        ==> #[trigger] body[digit_pos(n as int, q, n as int)] == 10,
                r <= n,
                values@.len() == r * n,
                forall|k: int|
                    0 <= k < r * n ==> #[trigger] values@[k] == (body[digit_pos(
                        n as int,
                        k / n as int,
                        k % n as int,
                    )] - 48) as u8,
                forall|q: int, c: int|
                    0 <= q < r && 0 <= c < n ==> is_digit(
                        #[trigger] body[digit_pos(n as int, q, c)],
                    ),
            decreases n - r,
        {
            let mut c: usize = 0;
            while c < n
                invariant
                    t == text@,
                    body == body_of(t),
                    body.len() == blen,
                    start + blen == t.len(),
                    t.len() <= usize::MAX,
                    start as int == first_newline(t, 0) + 1,
                    first_newline(t, 0) >= 0,
                    1 <= block <= MAX_BLOCK,
                    1 <= n <= 225,
                    n as int == side(block as int),
                    full == n * (n + 1),
                    blen == full || blen + 1 == full,
                    forall|q: int|
                        0 <= q < n && digit_pos(n as int, q, n as int) < blen
                            ==> #[trigger] body[digit_pos(n as int, q, n as int)] == 10,
                    r < n,
                    c <= n,
                    values@.len() == r * n + c,
                    forall|k: int|
                        0 <= k < r * n + c ==> #[trigger] values@[k] == (body[digit_pos(
                            n as int,
                            k / n as int,
                            k % n as int,
                        )] - 48) as u8,
                    forall|q: int, c2: int|
                        0 <= q < r && 0 <= c2 < n ==> is_digit(
                            #[trigger] body[digit_pos(n as int, q, c2)],
                        ),
                    forall|c2: int|
                        0 <= c2 < c ==> is_digit(#[trigger] body[digit_pos(n as int, r as int, c2)]),
                decreases n - c,
            {
                assert(r * (n + 1) + c < full - 1 && r * n + c < n * n) by (nonlinear_arith)
                    requires
                        r < n,
                        c < n,
                        full == n * (n + 1),
                ;
                let d = text[start + r * (n + 1) + c];
                if d < 48 || d > 57 {
                    assert(!is_digit(body[digit_pos(n as int, r as int, c as int)]));
                    return Err(InvalidInput::BadSymbol);
                }
                proof {
                    lemma_fundamental_div_mod_converse((r * n + c) as int, n as int, r as int, c as int);
                }
                values.push(d - 48);
                c += 1;
            }
            assert(r * n + n == (r + 1) * n) by (nonlinear_arith);
            r += 1;
        }
        assert(layout_error(body, n as int) is None);
        assert(values@ =~= digits_of(body, n as int)) by {
            assert(n * n == r * n);
        }
        SudokuSolver::from_values(block, values)
    }
}

} // verus!
