//! The sequential reference oracle and the host-side verification entry
//! points that compare a computed C against it.

use vstd::prelude::*;
use crate::arith::lin;
use crate::arith::lemma_lin_decompose;
use crate::arith::lemma_lin_range;
use crate::gemm_spec::ent;
use crate::gemm_spec::gemm_entry;
use crate::gemm_spec::gemm_fits;
use crate::gemm_spec::gemm_result;
use crate::gemm_spec::partial_dot;
use crate::gemm_spec::lemma_partial_dot_step;

verus! {

/// The computed `c_result` at (i, j) differs by at most `tol` from the
/// oracle value built over the pre-run contents `c_prev`.
pub open spec fn result_within_tol(
    c_result: Seq<i64>,
    a: Seq<i64>,
    b: Seq<i64>,
    c_prev: Seq<i64>,
    n: int,
    k: int,
    alpha: int,
    beta: int,
    tol: int,
    i: int,
    j: int,
) -> bool {
    -tol <= ent(c_result, n, i, j) - gemm_entry(a, b, c_prev, n, k, alpha, beta, i, j) <= tol
}

/// The C produced at (i, j) differs by at most `tol` from the oracle whose
/// beta term reads that same C. Meaningful when beta is zero, where the term
/// vanishes; for a nonzero beta see `result_within_tol` and the
/// `..._with_prior` entry points, which keep the pre-run C apart.
pub open spec fn within_tol(
    c: Seq<i64>,
    a: Seq<i64>,
    b: Seq<i64>,
    n: int,
    k: int,
    alpha: int,
    beta: int,
    tol: int,
    i: int,
    j: int,
) -> bool {
    result_within_tol(c, a, b, c, n, k, alpha, beta, tol, i, j)
}

/// Reference oracle: the triple nested sum, computed sequentially in
/// row-major order with left-to-right accumulation. It defines the correct
/// value every kernel model is compared against.
#[verifier::loop_isolation(false)]
pub fn reference_gemm(
    m: usize,
    n: usize,
    k: usize,
    alpha: i64,
    a: &Vec<i64>,
    b: &Vec<i64>,
    beta: i64,
    c: &Vec<i64>,
) -> (out: Vec<i64>)
    requires
        gemm_fits(a@, b@, c@, m as int, n as int, k as int, alpha as int, beta as int),
    ensures
        gemm_result(out@, a@, b@, c@, m as int, n as int, k as int, alpha as int, beta as int),
{
    let a_len: usize = a.len();
    let b_len: usize = b.len();
    let c_len: usize = c.len();
    proof {
        assert(a_len == m * k && b_len == k * n && c_len == m * n);
        assert(0 * (n as int) == 0) by (nonlinear_arith);
    }
    let mut out: Vec<i64> = Vec::new();
    for i in 0..m
        invariant
            out@.len() == i * n,
            forall|i2: int, j2: int|
                0 <= i2 < i && 0 <= j2 < n ==> out@[lin(n as int, i2, j2)] == #[trigger] gemm_entry(
                    a@, b@, c@, n as int, k as int, alpha as int, beta as int, i2, j2,
                ),
    {
        for j in 0..n
            invariant
                out@.len() == i * n + j,
                forall|i2: int, j2: int|
                    0 <= i2 < i && 0 <= j2 < n ==> out@[lin(n as int, i2, j2)]
                        == #[trigger] gemm_entry(
                        a@, b@, c@, n as int, k as int, alpha as int, beta as int, i2, j2,
                    ),
                forall|j2: int|
                    0 <= j2 < j ==> out@[lin(n as int, i as int, j2)] == #[trigger] gemm_entry(
                        a@, b@, c@, n as int, k as int, alpha as int, beta as int, i as int, j2,
                    ),
        {
            let mut sum: i64 = 0;
            for p in 0..k
                invariant
                    sum == partial_dot(a@, b@, k as int, n as int, i as int, j as int, p as int),
            {
                proof {
                    lemma_lin_range(m as int, k as int, i as int, p as int);
                    lemma_lin_range(k as int, n as int, p as int, j as int);
                    lemma_partial_dot_step(a@, b@, k as int, n as int, i as int, j as int, p as int);
                    assert(i64::MIN <= partial_dot(
                        a@, b@, k as int, n as int, i as int, j as int, p as int + 1,
                    ) <= i64::MAX);
                }
                sum = sum + a[i * k + p] * b[p * n + j];
            }
            proof {
                lemma_lin_range(m as int, n as int, i as int, j as int);
                assert(i64::MIN <= gemm_entry(
                    a@, b@, c@, n as int, k as int, alpha as int, beta as int, i as int, j as int,
                ) <= i64::MAX);
            }
            out.push(alpha * sum + beta * c[i * n + j]);
            proof {
                assert forall|i2: int, j2: int| 0 <= i2 < i && 0 <= j2 < n implies out@[lin(
                    n as int, i2, j2,
                )] == #[trigger] gemm_entry(
                    a@, b@, c@, n as int, k as int, alpha as int, beta as int, i2, j2,
                ) by {
                    lemma_lin_range(i as int, n as int, i2, j2);
                }
                assert forall|j2: int| 0 <= j2 < j + 1 implies out@[lin(n as int, i as int, j2)]
                    == #[trigger] gemm_entry(
                    a@, b@, c@, n as int, k as int, alpha as int, beta as int, i as int, j2,
                ) by {
                    assert(lin(n as int, i as int, j2) <= i * n + j);
                }
            }
        }
        proof {
            assert((i as int + 1) * n == i as int * n + n) by (nonlinear_arith);
        }
    }
    out
}

/// First index at which `got` differs from `want` by more than `tolerance`,
/// with both compared values, or `None` when every entry is within tolerance.
#[verifier::loop_isolation(false)]
pub fn first_mismatch(got: &Vec<i64>, want: &Vec<i64>, tolerance: i64) -> (r: Option<
    (usize, i64, i64),
>)
    requires
        got@.len() == want@.len(),
        tolerance >= 0,
        forall|idx: int|
            0 <= idx < got@.len() ==> i64::MIN <= #[trigger] (got@[idx] - want@[idx]) <= i64::MAX,
    ensures
        match r {
            None => forall|idx: int|
                0 <= idx < got@.len() ==> -tolerance <= #[trigger] (got@[idx] - want@[idx])
                    <= tolerance,
            Some(t) => {
                &&& (t.0 as int) < got@.len()
                &&& t.1 == got@[t.0 as int]
                &&& t.2 == want@[t.0 as int]
                &&& !(-tolerance <= t.1 - t.2 <= tolerance)
                &&& forall|idx: int|
                    0 <= idx < t.0 ==> -tolerance <= #[trigger] (got@[idx] - want@[idx])
                        <= tolerance
            },
        },
{
    let len: usize = got.len();
    for idx in 0..len
        invariant
            forall|idx2: int|
                0 <= idx2 < idx ==> -tolerance <= #[trigger] (got@[idx2] - want@[idx2])
                    <= tolerance,
    {
        let diff: i64 = got[idx] - want[idx];
        if diff > tolerance || diff < -tolerance {
            return Some((idx, got[idx], want[idx]));
        }
    }
    None
}

/// Verification entry point with diagnostics, for runs whose pre-kernel C
/// is at hand: compares the computed `c_result` against the oracle
/// `alpha * A * B + beta * c_prev` and returns the first offending linear
/// index together with the computed and reference values, or `None` when
/// every entry is within `tolerance`.
#[verifier::loop_isolation(false)]
pub fn gemm_mismatch_with_prior(
    m: usize,
    n: usize,
    k: usize,
    alpha: i64,
    a: &Vec<i64>,
    b: &Vec<i64>,
    beta: i64,
    c_prev: &Vec<i64>,
    c_result: &Vec<i64>,
    tolerance: i64,
) -> (r: Option<(usize, i64, i64)>)
    requires
        gemm_fits(a@, b@, c_prev@, m as int, n as int, k as int, alpha as int, beta as int),
        c_result@.len() == m * n,
        tolerance >= 0,
        forall|i: int, j: int|
            0 <= i < m && 0 <= j < n ==> i64::MIN <= ent(c_result@, n as int, i, j)
                - #[trigger] gemm_entry(
                a@, b@, c_prev@, n as int, k as int, alpha as int, beta as int, i, j,
            ) <= i64::MAX,
    ensures
        match r {
            None => forall|i: int, j: int|
                0 <= i < m && 0 <= j < n ==> #[trigger] result_within_tol(
                    c_result@, a@, b@, c_prev@, n as int, k as int, alpha as int, beta as int,
                    tolerance as int, i, j,
                ),
            Some(t) => {
                &&& (t.0 as int) < m * n
                &&& t.1 == c_result@[t.0 as int]
                &&& t.2 as int == gemm_entry(
                    a@, b@, c_prev@, n as int, k as int, alpha as int, beta as int,
                    (t.0 as int) / (n as int), (t.0 as int) % (n as int),
                )
                &&& !result_within_tol(
                    c_result@, a@, b@, c_prev@, n as int, k as int, alpha as int, beta as int,
                    tolerance as int, (t.0 as int) / (n as int), (t.0 as int) % (n as int),
                )
                &&& forall|idx: int|
                    0 <= idx < t.0 ==> #[trigger] result_within_tol(
                        c_result@, a@, b@, c_prev@, n as int, k as int, alpha as int,
                        beta as int, tolerance as int, idx / (n as int), idx % (n as int),
                    )
            },
        },
{
    let c_ref: Vec<i64> = reference_gemm(m, n, k, alpha, a, b, beta, c_prev);
    proof {
        assert forall|idx: int| 0 <= idx < c_result@.len() implies i64::MIN <= #[trigger] (
        c_result@[idx] - c_ref@[idx]) <= i64::MAX by {
            lemma_lin_decompose(m as int, n as int, idx);
            let i: int = idx / (n as int);
            let j: int = idx % (n as int);
            assert(c_ref@[lin(n as int, i, j)] == gemm_entry(
                a@, b@, c_prev@, n as int, k as int, alpha as int, beta as int, i, j,
            ));
        }
    }
    let r: Option<(usize, i64, i64)> = first_mismatch(c_result, &c_ref, tolerance);
    proof {
        match r {
            None => {
                assert forall|i: int, j: int| 0 <= i < m && 0 <= j < n implies #[trigger] result_within_tol(
                    c_result@, a@, b@, c_prev@, n as int, k as int, alpha as int, beta as int,
                    tolerance as int, i, j,
                ) by {
                    lemma_lin_range(m as int, n as int, i, j);
                    assert(c_ref@[lin(n as int, i, j)] == gemm_entry(
                        a@, b@, c_prev@, n as int, k as int, alpha as int, beta as int, i, j,
                    ));
                    assert(-tolerance <= c_result@[lin(n as int, i, j)] - c_ref@[lin(n as int,
                        i, j)] <= tolerance);
                }
            },
            Some(t) => {
                lemma_lin_decompose(m as int, n as int, t.0 as int);
                let i: int = (t.0 as int) / (n as int);
                let j: int = (t.0 as int) % (n as int);
                assert(c_ref@[lin(n as int, i, j)] == gemm_entry(
                    a@, b@, c_prev@, n as int, k as int, alpha as int, beta as int, i, j,
                ));
                assert forall|idx: int| 0 <= idx < t.0 implies #[trigger] result_within_tol(
                    c_result@, a@, b@, c_prev@, n as int, k as int, alpha as int, beta as int,
                    tolerance as int, idx / (n as int), idx % (n as int),
                ) by {
                    lemma_lin_decompose(m as int, n as int, idx);
                    assert(c_ref@[lin(n as int, idx / (n as int), idx % (n as int))]
                        == gemm_entry(
                        a@, b@, c_prev@, n as int, k as int, alpha as int, beta as int,
                        idx / (n as int), idx % (n as int),
                    ));
                    assert(-tolerance <= c_result@[idx] - c_ref@[idx] <= tolerance);
                }
            },
        }
    }
    r
}

/// Whether the computed `c_result` agrees, entry for entry and within
/// `tolerance`, with the oracle built over the pre-kernel `c_prev`.
pub fn verify_gemm_with_prior(
    m: usize,
    n: usize,
    k: usize,
    alpha: i64,
    a: &Vec<i64>,
    b: &Vec<i64>,
    beta: i64,
    c_prev: &Vec<i64>,
    c_result: &Vec<i64>,
    tolerance: i64,
) -> (r: bool)
    requires
        gemm_fits(a@, b@, c_prev@, m as int, n as int, k as int, alpha as int, beta as int),
        c_result@.len() == m * n,
        tolerance >= 0,
        forall|i: int, j: int|
            0 <= i < m && 0 <= j < n ==> i64::MIN <= ent(c_result@, n as int, i, j)
                - #[trigger] gemm_entry(
                a@, b@, c_prev@, n as int, k as int, alpha as int, beta as int, i, j,
            ) <= i64::MAX,
    ensures
        r ==> forall|i: int, j: int|
            0 <= i < m && 0 <= j < n ==> #[trigger] result_within_tol(
                c_result@, a@, b@, c_prev@, n as int, k as int, alpha as int, beta as int,
                tolerance as int, i, j,
            ),
        !r ==> exists|i: int, j: int|
            0 <= i < m && 0 <= j < n && !#[trigger] result_within_tol(
                c_result@, a@, b@, c_prev@, n as int, k as int, alpha as int, beta as int,
                tolerance as int, i, j,
            ),
{
    let r: Option<(usize, i64, i64)> = gemm_mismatch_with_prior(m, n, k, alpha, a, b, beta,
        c_prev, c_result, tolerance);
    proof {
        if r is Some {
            let t = r->Some_0;
            lemma_lin_decompose(m as int, n as int, t.0 as int);
        }
    }
    r.is_none()
}

/// Verification entry point with diagnostics for beta-zero runs, whose
/// oracle ignores the prior C: computes the oracle result and returns the
/// first offending linear index together with the computed and reference
/// values, or `None` when C matches the oracle within `tolerance`. The
/// oracle's beta term reads the same C being checked, so for a nonzero beta
/// use `gemm_mismatch_with_prior`, which keeps the pre-run C apart.
pub fn gemm_mismatch(
    m: usize,
    n: usize,
    k: usize,
    alpha: i64,
    a: &Vec<i64>,
    b: &Vec<i64>,
    beta: i64,
    c: &Vec<i64>,
    tolerance: i64,
) -> (r: Option<(usize, i64, i64)>)
    requires
        gemm_fits(a@, b@, c@, m as int, n as int, k as int, alpha as int, beta as int),
        tolerance >= 0,
        forall|i: int, j: int|
            0 <= i < m && 0 <= j < n ==> i64::MIN <= ent(c@, n as int, i, j)
                - #[trigger] gemm_entry(
                a@, b@, c@, n as int, k as int, alpha as int, beta as int, i, j,
            ) <= i64::MAX,
    ensures
        match r {
            None => forall|i: int, j: int|
                0 <= i < m && 0 <= j < n ==> #[trigger] within_tol(
                    c@, a@, b@, n as int, k as int, alpha as int, beta as int, tolerance as int,
                    i, j,
                ),
            Some(t) => {
                &&& (t.0 as int) < m * n
                &&& t.1 == c@[t.0 as int]
                &&& t.2 as int == gemm_entry(
                    a@, b@, c@, n as int, k as int, alpha as int, beta as int,
                    (t.0 as int) / (n as int), (t.0 as int) % (n as int),
                )
                &&& !within_tol(
                    c@, a@, b@, n as int, k as int, alpha as int, beta as int, tolerance as int,
                    (t.0 as int) / (n as int), (t.0 as int) % (n as int),
                )
                &&& forall|idx: int|
                    0 <= idx < t.0 ==> #[trigger] within_tol(
                        c@, a@, b@, n as int, k as int, alpha as int, beta as int,
                        tolerance as int, idx / (n as int), idx % (n as int),
                    )
            },
        },
{
    let r: Option<(usize, i64, i64)> = gemm_mismatch_with_prior(m, n, k, alpha, a, b, beta, c,
        c, tolerance);
    proof {
        match r {
            None => {
                assert forall|i: int, j: int| 0 <= i < m && 0 <= j < n implies #[trigger] within_tol(
                    c@, a@, b@, n as int, k as int, alpha as int, beta as int, tolerance as int,
                    i, j,
                ) by {
                    assert(result_within_tol(c@, a@, b@, c@, n as int, k as int, alpha as int,
                        beta as int, tolerance as int, i, j));
                }
            },
            Some(t) => {
                assert forall|idx: int| 0 <= idx < t.0 implies #[trigger] within_tol(
                    c@, a@, b@, n as int, k as int, alpha as int, beta as int, tolerance as int,
                    idx / (n as int), idx % (n as int),
                ) by {
                    assert(result_within_tol(c@, a@, b@, c@, n as int, k as int, alpha as int,
                        beta as int, tolerance as int, idx / (n as int), idx % (n as int)));
                }
            },
        }
    }
    r
}

/// Whether the computed C agrees with the oracle within `tolerance` at every
/// entry, for beta-zero runs whose oracle ignores the prior C. The oracle's
/// beta term reads the same C being checked, so for a nonzero beta use
/// `verify_gemm_with_prior`, which keeps the pre-run C apart.
pub fn verify_gemm(
    m: usize,
    n: usize,
    k: usize,
    alpha: i64,
    a: &Vec<i64>,
    b: &Vec<i64>,
    beta: i64,
    c: &Vec<i64>,
    tolerance: i64,
) -> (r: bool)
    requires
        gemm_fits(a@, b@, c@, m as int, n as int, k as int, alpha as int, beta as int),
        tolerance >= 0,
        forall|i: int, j: int|
            0 <= i < m && 0 <= j < n ==> i64::MIN <= ent(c@, n as int, i, j)
                - #[trigger] gemm_entry(
                a@, b@, c@, n as int, k as int, alpha as int, beta as int, i, j,
            ) <= i64::MAX,
    ensures
        r ==> forall|i: int, j: int|
            0 <= i < m && 0 <= j < n ==> #[trigger] within_tol(
                c@, a@, b@, n as int, k as int, alpha as int, beta as int, tolerance as int, i, j,
            ),
        !r ==> exists|i: int, j: int|
            0 <= i < m && 0 <= j < n && !#[trigger] within_tol(
                c@, a@, b@, n as int, k as int, alpha as int, beta as int, tolerance as int, i, j,
            ),
{
    let r: Option<(usize, i64, i64)> = gemm_mismatch(m, n, k, alpha, a, b, beta, c, tolerance);
    proof {
        if r is Some {
            let t = r->Some_0;
            lemma_lin_decompose(m as int, n as int, t.0 as int);
        }
    }
    r.is_none()
}

} // verus!
