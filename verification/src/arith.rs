//! Ceiling division and row-major index arithmetic shared by the layout,
//! geometry and kernel modules.

use vstd::prelude::*;
use vstd::arithmetic::div_mod::lemma_fundamental_div_mod;
use vstd::arithmetic::div_mod::lemma_fundamental_div_mod_converse;
use vstd::arithmetic::div_mod::lemma_mod_division_less_than_divisor;

verus! {

/// Ceiling of `a / b`, the number of blocks of size `b` needed to cover `a`.
pub open spec fn ceil_div(a: int, b: int) -> int {
    (a + b - 1) / b
}

/// Linear offset of logical coordinate `(i, j)` in a row-major array with
/// `cols` columns.
pub open spec fn lin(cols: int, i: int, j: int) -> int {
    i * cols + j
}

/// For `a >= 1` the ceiling can be computed as `1 + (a - 1) / b`, a form whose
/// executable counterpart cannot overflow.
pub proof fn lemma_ceil_div_alt(a: int, b: int)
    requires
        a >= 1,
        b >= 1,
    ensures
        ceil_div(a, b) == 1 + (a - 1) / b,
{
    let q: int = (a - 1) / b;
    let r: int = (a - 1) % b;
    lemma_fundamental_div_mod(a - 1, b);
    lemma_mod_division_less_than_divisor(a - 1, b);
    assert(a + b - 1 == (q + 1) * b + r) by (nonlinear_arith)
        requires a - 1 == b * q + r,
    ;
    lemma_fundamental_div_mod_converse(a + b - 1, b, q + 1, r);
}

/// `x / d == q` exactly when `x` lies in the block `[q*d, (q+1)*d)`.
pub proof fn lemma_div_range(x: int, d: int, q: int)
    requires
        d >= 1,
        0 <= x,
        0 <= q,
    ensures
        (q * d <= x < (q + 1) * d) <==> (x / d == q),
{
    if q * d <= x < (q + 1) * d {
        assert(x == q * d + (x - q * d)) by (nonlinear_arith);
        assert((q + 1) * d == q * d + d) by (nonlinear_arith);
        lemma_fundamental_div_mod_converse(x, d, q, x - q * d);
    }
    if x / d == q {
        lemma_fundamental_div_mod(x, d);
        lemma_mod_division_less_than_divisor(x, d);
        assert(q * d <= x < (q + 1) * d) by (nonlinear_arith)
            requires x == d * q + x % d, 0 <= x % d < d,
        ;
    }
}

/// Blocks of size `b` numbered `0 .. ceil_div(a, b)` cover `[0, a)`: every
/// block index below the count starts strictly inside `[0, a)`, and every
/// coordinate below `a` falls in a block below the count.
pub proof fn lemma_ceil_div_covers(a: int, b: int)
    requires
        a >= 0,
        b >= 1,
    ensures
        ceil_div(a, b) >= 0,
        b * ceil_div(a, b) >= a,
        ceil_div(a, b) * b >= a,
        a == 0 ==> ceil_div(a, b) == 0,
        a >= 1 ==> ceil_div(a, b) >= 1 && (ceil_div(a, b) - 1) * b < a,
        forall|x: int| 0 <= x < a ==> #[trigger] (x / b) < ceil_div(a, b),
{
    assert(b * ceil_div(a, b) == ceil_div(a, b) * b) by (nonlinear_arith);
    if a == 0 {
        assert(ceil_div(0, b) == (b - 1) / b);
        assert(0 <= (b - 1) / b < 1) by {
            lemma_div_range(b - 1, b, 0);
        }
    } else {
        lemma_ceil_div_alt(a, b);
        let q: int = (a - 1) / b;
        lemma_fundamental_div_mod(a - 1, b);
        lemma_mod_division_less_than_divisor(a - 1, b);
        assert(q >= 0 && q * b <= a - 1 && b * (q + 1) >= a) by (nonlinear_arith)
            requires a - 1 == b * q + (a - 1) % b, 0 <= (a - 1) % b < b, a >= 1, b >= 1,
        ;
        assert forall|x: int| 0 <= x < a implies #[trigger] (x / b) < ceil_div(a, b) by {
            let qx: int = x / b;
            lemma_fundamental_div_mod(x, b);
            lemma_mod_division_less_than_divisor(x, b);
            if qx >= q + 1 {
                assert(x >= b * qx >= b * (q + 1) >= a) by (nonlinear_arith)
                    requires x == b * qx + x % b, 0 <= x % b, qx >= q + 1, b >= 1, b * (q + 1) >= a,
                ;
            }
        }
    }
}

/// Incrementing a value that does not cross the next multiple of `d` keeps
/// its quotient and increments its remainder.
pub proof fn lemma_unit_step(x: int, d: int)
    requires
        d >= 1,
        0 <= x,
        x % d + 1 < d,
    ensures
        (x + 1) / d == x / d,
        (x + 1) % d == x % d + 1,
{
    lemma_fundamental_div_mod(x, d);
    lemma_mod_division_less_than_divisor(x, d);
    assert(x + 1 == (x / d) * d + (x % d + 1)) by (nonlinear_arith)
        requires x == d * (x / d) + x % d,
    ;
    lemma_fundamental_div_mod_converse(x + 1, d, x / d, x % d + 1);
}

/// A row-major offset of an in-range coordinate is in range.
pub proof fn lemma_lin_range(rows: int, cols: int, i: int, j: int)
    by (nonlinear_arith)
    requires
        0 <= i < rows,
        0 <= j < cols,
    ensures
        0 <= lin(cols, i, j) < rows * cols,
        lin(cols, i, j) >= i * cols,
{
}

/// The row-major offset determines the coordinate: dividing it by the column
/// count recovers the row, the remainder recovers the column.
pub proof fn lemma_lin_inverse(cols: int, i: int, j: int)
    requires
        cols >= 1,
        0 <= i,
        0 <= j < cols,
    ensures
        lin(cols, i, j) / cols == i,
        lin(cols, i, j) % cols == j,
{
    assert(lin(cols, i, j) == i * cols + j);
    lemma_fundamental_div_mod_converse(i * cols + j, cols, i, j);
}

/// Distinct in-range coordinates have distinct row-major offsets.
pub proof fn lemma_lin_injective(cols: int, i1: int, j1: int, i2: int, j2: int)
    requires
        cols >= 1,
        0 <= i1,
        0 <= j1 < cols,
        0 <= i2,
        0 <= j2 < cols,
        lin(cols, i1, j1) == lin(cols, i2, j2),
    ensures
        i1 == i2,
        j1 == j2,
{
    lemma_lin_inverse(cols, i1, j1);
    lemma_lin_inverse(cols, i2, j2);
}

/// Every linear index below `rows * cols` is the row-major offset of exactly
/// one in-range coordinate, namely `(idx / cols, idx % cols)`.
pub proof fn lemma_lin_decompose(rows: int, cols: int, idx: int)
    requires
        cols >= 0,
        rows >= 0,
        0 <= idx < rows * cols,
    ensures
        idx == lin(cols, idx / cols, idx % cols),
        0 <= idx / cols < rows,
        0 <= idx % cols < cols,
{
    assert(cols >= 1) by (nonlinear_arith)
        requires rows >= 0, cols >= 0, rows * cols > 0,
    ;
    lemma_fundamental_div_mod(idx, cols);
    lemma_mod_division_less_than_divisor(idx, cols);
    assert((idx / cols) * cols + idx % cols == idx) by (nonlinear_arith)
        requires idx == cols * (idx / cols) + idx % cols,
    ;
    assert(idx / cols >= 0) by (nonlinear_arith)
        requires idx == cols * (idx / cols) + idx % cols, 0 <= idx % cols < cols, idx >= 0,
    ;
    assert(idx / cols < rows) by (nonlinear_arith)
        requires
            idx == cols * (idx / cols) + idx % cols,
            0 <= idx % cols < cols,
            idx < rows * cols,
            idx / cols >= 0,
    ;
}

/// Executable ceiling division, written so that it cannot overflow.
pub fn exec_ceil_div(a: usize, b: usize) -> (r: usize)
    requires
        b >= 1,
    ensures
        r == ceil_div(a as int, b as int),
        r <= a,
{
    if a == 0 {
        proof {
            lemma_ceil_div_covers(0, b as int);
            lemma_div_range(b as int - 1, b as int, 0);
        }
        0
    } else {
        proof {
            lemma_ceil_div_alt(a as int, b as int);
            lemma_div_range(a as int - 1, b as int, (a - 1) as int / (b as int));
            lemma_fundamental_div_mod(a as int - 1, b as int);
            lemma_mod_division_less_than_divisor(a as int - 1, b as int);
            assert((a - 1) as int / (b as int) <= a - 1) by (nonlinear_arith)
                requires
                    a >= 1,
                    b >= 1,
                    a as int - 1 == b as int * ((a as int - 1) / (b as int)) + (a as int - 1) % (b as int),
                    0 <= (a as int - 1) % (b as int) < b as int,
            ;
        }
        1 + (a - 1) / b
    }
}

} // verus!
