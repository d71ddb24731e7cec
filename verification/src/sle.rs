//! Gaussian elimination with partial pivoting over exact rational scalars:
//! a zero-row scan, forward elimination with row swaps, backward
//! substitution, and an exact residual confirmation of the candidate. The
//! whole run is mirrored by spec functions (`sgauss` and its parts), and
//! the solver's contract pins its result to that mirror, so when each kind
//! of answer comes is fixed, and two runs on equal inputs agree.

use vstd::prelude::*;
use crate::rat::{Rat, Q, qeq, qadd, qsub, qmul, qdiv, qzero, qabs, qabs_lt, qlt_abs, qgt_abs, sadd, smul, ssub, sdiv};
use crate::ops::{MathError, MatMul, VecElementwiseArithmetic};

verus! {

/// Numeric failure of the solver.
#[derive(Debug, Clone, Copy, PartialEq, Eq, Structural)]
pub enum SolveError {
    /// A diagonal pivot was below tolerance or exactly zero: the system is
    /// singular or ill-conditioned for the given threshold.
    Invalid,
    /// An intermediate value left the machine range of the scalars.
    Overflow,
}

/// Every entry of the vector is well-formed.
pub open spec fn vec_wf(v: Seq<Rat>) -> bool {
    forall|i: int| 0 <= i < v.len() ==> (#[trigger] v[i]).wf()
}

/// The matrix is `n` by `n` and every entry is well-formed.
pub open spec fn mat_sq_wf(a: Seq<Vec<Rat>>, n: int) -> bool {
    &&& a.len() == n
    &&& forall|r: int| 0 <= r < n ==> (#[trigger] a[r])@.len() == n && vec_wf(a[r]@)
}

/// Every entry of the row denotes zero.
pub open spec fn row_zero(v: Seq<Rat>) -> bool {
    forall|k: int| 0 <= k < v.len() ==> (#[trigger] v[k]).q().n == 0
}

/// Some row among the first `m` rows of the matrix is entirely zero.
pub open spec fn zero_row_below(a: Seq<Vec<Rat>>, m: int) -> bool {
    exists|p: int| 0 <= p < m && row_zero((#[trigger] a[p])@)
}

/// Some row of the matrix is entirely zero.
pub open spec fn has_zero_row(a: Seq<Vec<Rat>>) -> bool {
    zero_row_below(a, a.len() as int)
}

/// The diagonal entry is numerically singular for the threshold `eps`:
/// below tolerance in magnitude, or exactly zero.
pub open spec fn negligible(v: Rat, eps: Rat) -> bool {
    qlt_abs(v.q(), eps.q()) || v.q().n == 0
}

/// Every diagonal entry of the matrix is regular for the threshold `eps`.
pub open spec fn diag_regular(a: Seq<Vec<Rat>>, eps: Rat) -> bool {
    forall|i: int| 0 <= i < a.len() ==> !negligible((#[trigger] a[i])@[i], eps)
}

/// The pivot of column `c` was strong enough to eliminate with: its
/// magnitude exceeds `eps` and it is not zero.
pub open spec fn pivot_strong(a: Seq<Vec<Rat>>, c: int, eps: Rat) -> bool {
    qgt_abs(a[c]@[c].q(), eps.q()) && a[c]@[c].q().n != 0
}

/// In each of the first `m` columns whose pivot was strong, every entry
/// below the diagonal denotes zero: the eliminated part is upper
/// triangular.
pub open spec fn upper_triangular_below(a: Seq<Vec<Rat>>, eps: Rat, m: int) -> bool {
    forall|c: int, j: int|
        0 <= c < m && c < j < a.len() && pivot_strong(a, c, eps) ==> (#[trigger] a[j]@[c]).q().n
            == 0
}

/// A fraction that denotes the quotient `x / y`, multiplied back by `y`,
/// denotes `x` again.
proof fn lemma_qdiv_qmul(f: Q, x: Q, y: Q)
    requires
        x.d >= 1,
        y.d >= 1,
        y.n != 0,
        qeq(f, qdiv(x, y)),
    ensures
        qeq(qmul(f, y), x),
{
    if y.n < 0 {
        assert((f.n * y.n) * x.d == x.n * (f.d * y.d)) by (nonlinear_arith)
            requires
                f.n * (x.d * -y.n) == -(x.n * y.d) * f.d,
        ;
    } else {
        assert((f.n * y.n) * x.d == x.n * (f.d * y.d)) by (nonlinear_arith)
            requires
                f.n * (x.d * y.n) == (x.n * y.d) * f.d,
        ;
    }
}

/// A fraction denoting the same rational as a zero fraction has numerator
/// zero.
proof fn lemma_qeq_zero(f: Q, g: Q)
    requires
        qeq(f, g),
        g.n == 0,
        g.d != 0,
    ensures
        f.n == 0,
{
    assert(f.n == 0) by (nonlinear_arith)
        requires
            f.n * g.d == g.n * f.d,
            g.n == 0,
            g.d != 0,
    ;
}

/// Cross-multiplied comparisons over nonnegative numerators carry across a
/// chain: `|x| >= |y|` and `|x| < |z|` give `|z| >= |y|`.
proof fn lemma_cross_trans(xn: int, xd: int, yn: int, yd: int, zn: int, zd: int)
    by (nonlinear_arith)
    requires
        xd >= 1,
        yd >= 1,
        zd >= 1,
        xn >= 0,
        yn >= 0,
        zn >= 0,
        xn * yd >= yn * xd,
        xn * zd < zn * xd,
    ensures
        zn * yd >= yn * zd,
{
}

/// A fresh copy of a vector of scalars.
fn copy_row(v: &Vec<Rat>) -> (c: Vec<Rat>)
    ensures
        c@ == v@,
{
    let mut c: Vec<Rat> = Vec::new();
    let mut k: usize = 0;
    while k < v.len()
        invariant
            0 <= k <= v@.len(),
            c@.len() == k,
            forall|i: int| 0 <= i < k ==> c@[i] == v@[i],
        decreases v@.len() - k,
    {
        c.push(v[k]);
        k = k + 1;
    }
    assert(c@ =~= v@);
    c
}

/// A fresh copy of a matrix, row by row.
fn copy_mat(a: &Vec<Vec<Rat>>) -> (c: Vec<Vec<Rat>>)
    ensures
        c@.len() == a@.len(),
        forall|i: int| 0 <= i < a@.len() ==> (#[trigger] c@[i])@ == a@[i]@,
{
    let mut c: Vec<Vec<Rat>> = Vec::new();
    let mut k: usize = 0;
    while k < a.len()
        invariant
            0 <= k <= a@.len(),
            c@.len() == k,
            forall|i: int| 0 <= i < k ==> (#[trigger] c@[i])@ == a@[i]@,
        decreases a@.len() - k,
    {
        c.push(copy_row(&a[k]));
        k = k + 1;
    }
    c
}

/// The rows of a matrix, each as a sequence of scalars.
pub open spec fn mview(a: Seq<Vec<Rat>>) -> Seq<Seq<Rat>> {
    a.map_values(|r: Vec<Rat>| r@)
}

/// Replacing one row commutes with taking the matrix view.
proof fn lemma_mview_update(s: Seq<Vec<Rat>>, j: int, v: Vec<Rat>)
    requires
        0 <= j < s.len(),
    ensures
        mview(s.update(j, v)) == mview(s).update(j, v@),
{
    assert(mview(s.update(j, v)) =~= mview(s).update(j, v@));
}

/// The index that the pivot scan settles on, starting from candidate
/// `best` at position `j`.
pub open spec fn spivot(a: Seq<Seq<Rat>>, col: int, j: int, best: int) -> int
    decreases a.len() - j,
{
    if j < 0 || j >= a.len() {
        best
    } else {
        spivot(
            a,
            col,
            j + 1,
            if qabs_lt(a[best][col].q(), a[j][col].q()) {
                j
            } else {
                best
            },
        )
    }
}

/// The row that one elimination step produces from row `aj`: entries
/// before column `i` are kept, and from column `i` on, `f` times the pivot
/// row `ai` is subtracted; `None` as soon as a scalar leaves the machine
/// range.
pub open spec fn srow(aj: Seq<Rat>, ai: Seq<Rat>, f: Rat, i: int, k: int) -> Option<Seq<Rat>>
    decreases k,
{
    if k <= 0 {
        Some(Seq::empty())
    } else {
        match srow(aj, ai, f, i, k - 1) {
            None => None,
            Some(pre) => if k - 1 < i {
                Some(pre.push(aj[k - 1]))
            } else {
                match smul(f, ai[k - 1]) {
                    None => None,
                    Some(d) => match ssub(aj[k - 1], d) {
                        None => None,
                        Some(v) => Some(pre.push(v)),
                    },
                }
            },
        }
    }
}

/// Once the row update has overflowed it stays overflowed.
proof fn lemma_srow_none(aj: Seq<Rat>, ai: Seq<Rat>, f: Rat, i: int, k: int, m: int)
    requires
        0 <= k <= m,
        srow(aj, ai, f, i, k) is None,
    ensures
        srow(aj, ai, f, i, m) is None,
    decreases m,
{
    if m > k {
        lemma_srow_none(aj, ai, f, i, k, m - 1);
    }
}

/// The row at or below `col` whose entry in column `col` has the largest
/// magnitude (partial pivoting).
fn find_pivot(a: &Vec<Vec<Rat>>, col: usize) -> (p: usize)
    requires
        mat_sq_wf(a@, a@.len() as int),
        col < a@.len(),
    ensures
        col <= p < a@.len(),
        p as int == spivot(mview(a@), col as int, col as int + 1, col as int),
        forall|j: int|
            col <= j < a@.len() ==> !qabs_lt(
                a@[p as int]@[col as int].q(),
                #[trigger] a@[j]@[col as int].q(),
            ),
{
    let n = a.len();
    let mut best: usize = col;
    let mut j: usize = col + 1;
    while j < n
        invariant
            mat_sq_wf(a@, a@.len() as int),
            col < n,
            n == a@.len(),
            col <= best < n,
            col < j <= n,
            spivot(mview(a@), col as int, j as int, best as int) == spivot(
                mview(a@),
                col as int,
                col as int + 1,
                col as int,
            ),
            forall|k: int|
                col <= k < j ==> !qabs_lt(
                    a@[best as int]@[col as int].q(),
                    #[trigger] a@[k]@[col as int].q(),
                ),
        decreases n - j,
    {
        let cur = a[best][col];
        let cand = a[j][col];
        if cur.abs_lt(cand) {
            proof {
                let bq = a@[best as int]@[col as int].q();
                let cq = a@[j as int]@[col as int].q();
                assert forall|k: int|
                    col <= k < j implies !qabs_lt(cq, #[trigger] a@[k]@[col as int].q()) by {
                    let kq = a@[k]@[col as int].q();
                    lemma_cross_trans(qabs(bq.n), bq.d, qabs(kq.n), kq.d, qabs(cq.n), cq.d);
                }
            }
            best = j;
        }
        j = j + 1;
    }
    best
}

/// The pivot scan stays within the matrix.
proof fn lemma_spivot_range(a: Seq<Seq<Rat>>, col: int, j: int, best: int)
    requires
        0 <= best < a.len(),
    ensures
        0 <= spivot(a, col, j, best) < a.len(),
    decreases a.len() - j,
{
    if 0 <= j && j < a.len() {
        lemma_spivot_range(
            a,
            col,
            j + 1,
            if qabs_lt(a[best][col].q(), a[j][col].q()) {
                j
            } else {
                best
            },
        );
    }
}

/// The inner sweep of forward elimination for column `i`: rows from `j`
/// down get `f` times the pivot row subtracted, with the right-hand side
/// updated alongside; `None` as soon as a scalar leaves the machine range.
pub open spec fn sfwd_j(m: Seq<Seq<Rat>>, b: Seq<Rat>, i: int, piv: Rat, j: int) -> Option<
    (Seq<Seq<Rat>>, Seq<Rat>),
>
    decreases m.len() - j,
    via sfwd_j_dec
{
    if j < 0 || j >= m.len() {
        Some((m, b))
    } else {
        match sdiv(m[j][i], piv) {
            None => None,
            Some(f) => match srow(m[j], m[i], f, i, m.len() as int) {
                None => None,
                Some(nr) => match smul(f, b[i]) {
                    None => None,
                    Some(db) => match ssub(b[j], db) {
                        None => None,
                        Some(nbj) => sfwd_j(m.update(j, nr), b.update(j, nbj), i, piv, j + 1),
                    },
                },
            },
        }
    }
}

#[via_fn]
proof fn sfwd_j_dec(m: Seq<Seq<Rat>>, b: Seq<Rat>, i: int, piv: Rat, j: int) {
    broadcast use vstd::seq::group_seq_axioms;

}

/// The inner sweep leaves the matrix and vector lengths unchanged.
proof fn lemma_sfwd_j_len(m: Seq<Seq<Rat>>, b: Seq<Rat>, i: int, piv: Rat, j: int)
    ensures
        sfwd_j(m, b, i, piv, j) matches Some(r2) ==> r2.0.len() == m.len(),
    decreases m.len() - j,
{
    broadcast use vstd::seq::group_seq_axioms;

    if 0 <= j && j < m.len() {
        match sdiv(m[j][i], piv) {
            None => {},
            Some(f) => match srow(m[j], m[i], f, i, m.len() as int) {
                None => {},
                Some(nr) => match smul(f, b[i]) {
                    None => {},
                    Some(db) => match ssub(b[j], db) {
                        None => {},
                        Some(nbj) => {
                            assert(m.update(j, nr).len() == m.len());
                            lemma_sfwd_j_len(m.update(j, nr), b.update(j, nbj), i, piv, j + 1);
                        },
                    },
                },
            },
        }
    }
}

/// Forward elimination from column `i` on: the pivot scan's choice is
/// swapped into place, and the column is swept whenever the pivot is
/// strong; `None` as soon as a scalar leaves the machine range.
pub open spec fn sfwd(m: Seq<Seq<Rat>>, b: Seq<Rat>, eps: Rat, i: int) -> Option<
    (Seq<Seq<Rat>>, Seq<Rat>),
>
    decreases m.len() - i,
    via sfwd_dec
{
    if i < 0 || i >= m.len() {
        Some((m, b))
    } else {
        let p = spivot(m, i, i + 1, i);
        let m1 = if p == i {
            m
        } else {
            m.update(i, m[p]).update(p, m[i])
        };
        let b1 = if p == i {
            b
        } else {
            b.update(i, b[p]).update(p, b[i])
        };
        let piv = m1[i][i];
        if qgt_abs(piv.q(), eps.q()) && piv.q().n != 0 {
            match sfwd_j(m1, b1, i, piv, i + 1) {
                None => None,
                Some((m2, b2)) => sfwd(m2, b2, eps, i + 1),
            }
        } else {
            sfwd(m1, b1, eps, i + 1)
        }
    }
}

#[via_fn]
proof fn sfwd_dec(m: Seq<Seq<Rat>>, b: Seq<Rat>, eps: Rat, i: int) {
    broadcast use vstd::seq::group_seq_axioms;

    if 0 <= i && i < m.len() {
        lemma_spivot_range(m, i, i + 1, i);
        let p = spivot(m, i, i + 1, i);
        let m1 = if p == i {
            m
        } else {
            m.update(i, m[p]).update(p, m[i])
        };
        let b1 = if p == i {
            b
        } else {
            b.update(i, b[p]).update(p, b[i])
        };
        assert(m1.len() == m.len());
        lemma_sfwd_j_len(m1, b1, i, m1[i][i], i + 1);
    }
}

/// Forward elimination: for each column, swap the partial-pivoting choice
/// into place, then clear the entries below the diagonal whenever the pivot
/// magnitude exceeds `eps`. Shapes and well-formedness are preserved;
/// failure means an intermediate value left the machine range.
fn forward_elimination(a: &mut Vec<Vec<Rat>>, b: &mut Vec<Rat>, eps: &Rat) -> (r: Result<
    (),
    SolveError,
>)
    requires
        mat_sq_wf(old(a)@, old(a)@.len() as int),
        old(b)@.len() == old(a)@.len(),
        vec_wf(old(b)@),
        eps.wf(),
    ensures
        mat_sq_wf(final(a)@, old(a)@.len() as int),
        final(b)@.len() == old(b)@.len(),
        vec_wf(final(b)@),
        r matches Err(e) ==> e == SolveError::Overflow,
        has_zero_row(old(a)@) ==> has_zero_row(final(a)@),
        r is Ok ==> upper_triangular_below(final(a)@, *eps, old(a)@.len() as int),
        r is Ok ==> sfwd(mview(old(a)@), old(b)@, *eps, 0) == Some(
            (mview(final(a)@), final(b)@),
        ),
        !(r is Ok) ==> sfwd(mview(old(a)@), old(b)@, *eps, 0) is None,
{
    let n = a.len();
    let mut i: usize = 0;
    while i < n
        invariant
            n == old(a)@.len(),
            n == old(b)@.len(),
            mat_sq_wf(a@, n as int),
            b@.len() == n,
            vec_wf(b@),
            eps.wf(),
            0 <= i <= n,
            has_zero_row(old(a)@) ==> has_zero_row(a@),
            upper_triangular_below(a@, *eps, i as int),
            sfwd(mview(old(a)@), old(b)@, *eps, 0) == sfwd(mview(a@), b@, *eps, i as int),
        decreases n - i,
    {
        let ghost m_pre = mview(a@);
        let ghost b_pre = b@;
        let p = find_pivot(a, i);
        if p != i {
            let ghost pre_a = a@;
            let row_i = copy_row(&a[i]);
            let row_p = copy_row(&a[p]);
            a[i] = row_p;
            a[p] = row_i;
            proof {
                if has_zero_row(pre_a) {
                    let p0 = choose|p0: int| 0 <= p0 < pre_a.len() && row_zero(
                        (#[trigger] pre_a[p0])@,
                    );
                    if p0 == i as int {
                        assert(a@[p as int]@ == pre_a[p0]@);
                        assert(row_zero((a@[p as int])@));
                    } else if p0 == p as int {
                        assert(a@[i as int]@ == pre_a[p0]@);
                        assert(row_zero((a@[i as int])@));
                    } else {
                        assert(a@[p0]@ == pre_a[p0]@);
                        assert(row_zero((a@[p0])@));
                    }
                    assert(has_zero_row(a@));
                }
                assert forall|c: int, j2: int|
                    0 <= c < i as int && c < j2 < a@.len() && pivot_strong(a@, c, *eps) implies (
                #[trigger] a@[j2]@[c]).q().n == 0 by {
                    assert(a@[c] == pre_a[c]);
                    assert(pivot_strong(pre_a, c, *eps));
                    if j2 == i as int {
                        assert(a@[j2]@[c] == pre_a[p as int]@[c]);
                    } else if j2 == p as int {
                        assert(a@[j2]@[c] == pre_a[i as int]@[c]);
                    } else {
                        assert(a@[j2]@[c] == pre_a[j2]@[c]);
                    }
                }
            }
            let bi = b[i];
            let bp = b[p];
            b[i] = bp;
            b[p] = bi;
            proof {
                assert(mview(a@) =~= m_pre.update(i as int, m_pre[p as int]).update(
                    p as int,
                    m_pre[i as int],
                ));
                assert(b@ =~= b_pre.update(i as int, b_pre[p as int]).update(
                    p as int,
                    b_pre[i as int],
                ));
            }
        }
        let ghost m1v = mview(a@);
        let ghost b1v = b@;
        let pivot = a[i][i];
        let do_elim = pivot.abs_gt(*eps) && !pivot.is_zero();
        proof {
            assert(do_elim == pivot_strong(a@, i as int, *eps));
            assert(pivot == m1v[i as int][i as int]);
            assert(sfwd(m_pre, b_pre, *eps, i as int) == (if do_elim {
                match sfwd_j(m1v, b1v, i as int, pivot, i as int + 1) {
                    None => None,
                    Some(st) => sfwd(st.0, st.1, *eps, i as int + 1),
                }
            } else {
                sfwd(m1v, b1v, *eps, i as int + 1)
            }));
        }
        if do_elim {
            let mut j: usize = i + 1;
            while j < n
                invariant
                    n == old(a)@.len(),
                    n == old(b)@.len(),
                    mat_sq_wf(a@, n as int),
                    b@.len() == n,
                    vec_wf(b@),
                    eps.wf(),
                    0 <= i < n,
                    i < j <= n,
                    pivot.wf(),
                    pivot.num != 0,
                    a@[i as int]@.len() == n,
                    has_zero_row(old(a)@) ==> has_zero_row(a@),
                    a@[i as int]@[i as int] == pivot,
                    pivot_strong(a@, i as int, *eps),
                    upper_triangular_below(a@, *eps, i as int),
                    forall|t: int| i < t < j ==> (#[trigger] a@[t])@[i as int].q().n == 0,
                    sfwd_j(m1v, b1v, i as int, pivot, i as int + 1) == sfwd_j(
                        mview(a@),
                        b@,
                        i as int,
                        pivot,
                        j as int,
                    ),
                    sfwd(mview(old(a)@), old(b)@, *eps, 0) == (match sfwd_j(
                        m1v,
                        b1v,
                        i as int,
                        pivot,
                        i as int + 1,
                    ) {
                        None => None,
                        Some(st) => sfwd(st.0, st.1, *eps, i as int + 1),
                    }),
                decreases n - j,
            {
                let ghost mj_pre = mview(a@);
                let ghost bj_pre = b@;
                let factor = match a[j][i].checked_div(pivot) {
                    Some(f) => f,
                    None => {
                        proof {
                            assert(mj_pre[j as int] == a@[j as int]@);
                            assert(sfwd_j(mj_pre, bj_pre, i as int, pivot, j as int) is None);
                        }
                        return Err(SolveError::Overflow);
                    },
                };
                proof {
                    assert(mj_pre[j as int] == a@[j as int]@);
                    assert(mj_pre[i as int] == a@[i as int]@);
                    assert(sdiv(mj_pre[j as int][i as int], pivot) == Some(factor));
                }
                proof {
                    if row_zero(a@[j as int]@) {
                        let aq = a@[j as int]@[i as int].q();
                        let pq = pivot.q();
                        let dq = qdiv(aq, pq);
                        assert(aq.n == 0);
                        assert(dq.n == 0) by (nonlinear_arith)
                            requires
                                aq.n == 0,
                                dq.n == aq.n * pq.d || dq.n == -(aq.n * pq.d),
                        ;
                        assert(dq.d != 0) by (nonlinear_arith)
                            requires
                                aq.d >= 1,
                                pq.n != 0,
                                dq.d == aq.d * pq.n || dq.d == aq.d * -pq.n,
                        ;
                        lemma_qeq_zero(factor.q(), dq);
                    }
                }
                let mut new_row: Vec<Rat> = Vec::new();
                let mut k: usize = 0;
                while k < n
                    invariant
                        n == old(a)@.len(),
                        n == old(b)@.len(),
                        mat_sq_wf(a@, n as int),
                        b@.len() == n,
                        vec_wf(b@),
                        0 <= i < n,
                        i < j < n,
                        0 <= k <= n,
                        factor.wf(),
                        new_row@.len() == k,
                        vec_wf(new_row@),
                        has_zero_row(old(a)@) ==> has_zero_row(a@),
                        row_zero(a@[j as int]@) ==> factor.q().n == 0,
                        row_zero(a@[j as int]@) ==> forall|t: int|
                            0 <= t < k ==> (#[trigger] new_row@[t]).q().n == 0,
                        pivot.wf(),
                        pivot.num != 0,
                        a@[i as int]@[i as int] == pivot,
                        pivot_strong(a@, i as int, *eps),
                        upper_triangular_below(a@, *eps, i as int),
                        forall|t: int| i < t < j ==> (#[trigger] a@[t])@[i as int].q().n == 0,
                        qeq(factor.q(), qdiv(a@[j as int]@[i as int].q(), pivot.q())),
                        forall|t: int|
                            0 <= t < k && t < i ==> new_row@[t] == (#[trigger] a@[j as int]@[t]),
                        k > i ==> new_row@[i as int].q().n == 0,
                        mview(a@) == mj_pre,
                        b@ == bj_pre,
                        sdiv(mj_pre[j as int][i as int], pivot) == Some(factor),
                        srow(
                            mj_pre[j as int],
                            mj_pre[i as int],
                            factor,
                            i as int,
                            k as int,
                        ) == Some(new_row@),
                        sfwd_j(m1v, b1v, i as int, pivot, i as int + 1) == sfwd_j(
                            mj_pre,
                            bj_pre,
                            i as int,
                            pivot,
                            j as int,
                        ),
                        sfwd(mview(old(a)@), old(b)@, *eps, 0) == (match sfwd_j(
                            m1v,
                            b1v,
                            i as int,
                            pivot,
                            i as int + 1,
                        ) {
                            None => None,
                            Some(st) => sfwd(st.0, st.1, *eps, i as int + 1),
                        }),
                    decreases n - k,
                {
                    if k < i {
                        new_row.push(a[j][k]);
                        proof {
                            assert(srow(
                                mj_pre[j as int],
                                mj_pre[i as int],
                                factor,
                                i as int,
                                k as int + 1,
                            ) == Some(new_row@));
                        }
                    } else {
                        let diff = match factor.checked_mul(a[i][k]) {
                            Some(t) => t,
                            None => {
                                proof {
                                    assert(mj_pre[i as int] == a@[i as int]@);
                                    assert(srow(
                                        mj_pre[j as int],
                                        mj_pre[i as int],
                                        factor,
                                        i as int,
                                        k as int + 1,
                                    ) is None);
                                    lemma_srow_none(
                                        mj_pre[j as int],
                                        mj_pre[i as int],
                                        factor,
                                        i as int,
                                        k as int + 1,
                                        n as int,
                                    );
                                    assert(sfwd_j(
                                        mj_pre,
                                        bj_pre,
                                        i as int,
                                        pivot,
                                        j as int,
                                    ) is None);
                                }
                                return Err(SolveError::Overflow);
                            },
                        };
                        let v = match a[j][k].checked_sub(diff) {
                            Some(v) => v,
                            None => {
                                proof {
                                    assert(mj_pre[i as int] == a@[i as int]@);
                                    assert(mj_pre[j as int] == a@[j as int]@);
                                    assert(srow(
                                        mj_pre[j as int],
                                        mj_pre[i as int],
                                        factor,
                                        i as int,
                                        k as int + 1,
                                    ) is None);
                                    lemma_srow_none(
                                        mj_pre[j as int],
                                        mj_pre[i as int],
                                        factor,
                                        i as int,
                                        k as int + 1,
                                        n as int,
                                    );
                                    assert(sfwd_j(
                                        mj_pre,
                                        bj_pre,
                                        i as int,
                                        pivot,
                                        j as int,
                                    ) is None);
                                }
                                return Err(SolveError::Overflow);
                            },
                        };
                        proof {
                            if k == i {
                                let aji = a@[j as int]@[i as int].q();
                                let pq = pivot.q();
                                let fq = factor.q();
                                lemma_qdiv_qmul(fq, aji, pq);
                                let mq = qmul(fq, pq);
                                assert(a@[i as int]@[k as int] == pivot);
                                assert(mq.d >= 1) by (nonlinear_arith)
                                    requires
                                        mq.d == fq.d * pq.d,
                                        fq.d >= 1,
                                        pq.d >= 1,
                                ;
                                lemma_qeq_trans(diff.q(), mq, aji);
                                let sq = qsub(aji, diff.q());
                                assert(sq.n == 0);
                                assert(sq.d != 0) by (nonlinear_arith)
                                    requires
                                        sq.d == aji.d * diff.q().d,
                                        aji.d >= 1,
                                        diff.q().d >= 1,
                                ;
                                lemma_qeq_zero(v.q(), sq);
                            }
                            if row_zero(a@[j as int]@) {
                                let fq = factor.q();
                                let iq = a@[i as int]@[k as int].q();
                                let mq = qmul(fq, iq);
                                assert(mq.n == 0) by (nonlinear_arith)
                                    requires
                                        fq.n == 0,
                                        mq.n == fq.n * iq.n,
                                ;
                                assert(mq.d != 0) by (nonlinear_arith)
                                    requires
                                        fq.d >= 1,
                                        iq.d >= 1,
                                        mq.d == fq.d * iq.d,
                                ;
                                lemma_qeq_zero(diff.q(), mq);
                                let jq = a@[j as int]@[k as int].q();
                                let sq = qsub(jq, diff.q());
                                assert(jq.n == 0);
                                assert(sq.n == 0) by (nonlinear_arith)
                                    requires
                                        jq.n == 0,
                                        diff.q().n == 0,
                                        sq.n == jq.n * diff.q().d - diff.q().n * jq.d,
                                ;
                                assert(sq.d != 0) by (nonlinear_arith)
                                    requires
                                        jq.d >= 1,
                                        diff.q().d >= 1,
                                        sq.d == jq.d * diff.q().d,
                                ;
                                lemma_qeq_zero(v.q(), sq);
                            }
                        }
                        new_row.push(v);
                        proof {
                            assert(mj_pre[i as int] == a@[i as int]@);
                            assert(mj_pre[j as int] == a@[j as int]@);
                            assert(srow(
                                mj_pre[j as int],
                                mj_pre[i as int],
                                factor,
                                i as int,
                                k as int + 1,
                            ) == Some(new_row@));
                        }
                    }
                    k = k + 1;
                }
                let ghost pre_a = a@;
                let ghost new_row_view = new_row@;
                a[j] = new_row;
                proof {
                    assert(mview(a@) =~= mj_pre.update(j as int, new_row_view));
                    assert(a@[i as int]@ == pre_a[i as int]@);
                    assert forall|c: int, j2: int|
                        0 <= c < i as int && c < j2 < a@.len() && pivot_strong(
                            a@,
                            c,
                            *eps,
                        ) implies (#[trigger] a@[j2]@[c]).q().n == 0 by {
                        assert(a@[c] == pre_a[c]);
                        assert(pivot_strong(pre_a, c, *eps));
                        if j2 == j as int {
                            assert(a@[j2]@[c] == new_row_view[c]);
                            assert(new_row_view[c] == pre_a[j as int]@[c]);
                        } else {
                            assert(a@[j2]@[c] == pre_a[j2]@[c]);
                        }
                    }
                    assert(a@[j as int]@[i as int].q().n == 0);
                    assert forall|t: int| i < t < j as int + 1 implies (#[trigger] a@[t])@[i
                        as int].q().n == 0 by {
                        if t != j as int {
                            assert(a@[t]@ == pre_a[t]@);
                        }
                    }
                    if has_zero_row(old(a)@) {
                        let p0 = choose|p0: int| 0 <= p0 < pre_a.len() && row_zero(
                            (#[trigger] pre_a[p0])@,
                        );
                        if p0 == j as int {
                            assert(row_zero(pre_a[j as int]@));
                            assert(row_zero(a@[j as int]@));
                        } else {
                            assert(a@[p0]@ == pre_a[p0]@);
                            assert(row_zero((a@[p0])@));
                        }
                        assert(has_zero_row(a@));
                    }
                }
                let diff_b = match factor.checked_mul(b[i]) {
                    Some(t) => t,
                    None => {
                        proof {
                            assert(smul(factor, bj_pre[i as int]) is None);
                            assert(sfwd_j(mj_pre, bj_pre, i as int, pivot, j as int) is None);
                        }
                        return Err(SolveError::Overflow);
                    },
                };
                let new_bj = match b[j].checked_sub(diff_b) {
                    Some(v) => v,
                    None => {
                        proof {
                            assert(ssub(bj_pre[j as int], diff_b) is None);
                            assert(sfwd_j(mj_pre, bj_pre, i as int, pivot, j as int) is None);
                        }
                        return Err(SolveError::Overflow);
                    },
                };
                b[j] = new_bj;
                proof {
                    assert(b@ =~= bj_pre.update(j as int, new_bj));
                    assert(sfwd_j(mj_pre, bj_pre, i as int, pivot, j as int) == sfwd_j(
                        mview(a@),
                        b@,
                        i as int,
                        pivot,
                        j as int + 1,
                    ));
                }
                j = j + 1;
            }
            proof {
                assert(mview(a@).len() == n as int);
                assert(sfwd_j(mview(a@), b@, i as int, pivot, n as int) == Some((mview(a@), b@)));
                assert(sfwd(mview(old(a)@), old(b)@, *eps, 0) == sfwd(
                    mview(a@),
                    b@,
                    *eps,
                    i as int + 1,
                ));
            }
        } else {
            proof {
                assert(sfwd(mview(old(a)@), old(b)@, *eps, 0) == sfwd(
                    mview(a@),
                    b@,
                    *eps,
                    i as int + 1,
                ));
            }
        }
        i = i + 1;
    }
    proof {
        assert(sfwd(mview(a@), b@, *eps, n as int) == Some((mview(a@), b@)));
    }
    Ok(())
}

/// The upward sweep of backward substitution for row `i`: each row above
/// gets the solved entry's multiple subtracted from its right-hand side
/// and its column entry cleared; `None` as soon as a scalar leaves the
/// machine range.
pub open spec fn sbwd_j(m: Seq<Seq<Rat>>, b: Seq<Rat>, i: int, j: int) -> Option<
    (Seq<Seq<Rat>>, Seq<Rat>),
>
    decreases i - j,
{
    if j < 0 || j >= i {
        Some((m, b))
    } else {
        match smul(b[i], m[j][i]) {
            None => None,
            Some(f) => match ssub(b[j], f) {
                None => None,
                Some(nbj) => sbwd_j(
                    m.update(j, m[j].update(i, Rat { num: 0, den: 1 })),
                    b.update(j, nbj),
                    i,
                    j + 1,
                ),
            },
        }
    }
}

/// Backward substitution from row `ii - 1` upward: report `Invalid` at a
/// pivot below tolerance or exactly zero, otherwise divide the right-hand
/// side through, set the diagonal to one, and sweep the rows above.
pub open spec fn sbwd(m: Seq<Seq<Rat>>, b: Seq<Rat>, eps: Rat, ii: int) -> Result<
    (Seq<Seq<Rat>>, Seq<Rat>),
    SolveError,
>
    decreases ii,
{
    if ii <= 0 {
        Ok((m, b))
    } else {
        let i = ii - 1;
        let piv = m[i][i];
        if qlt_abs(piv.q(), eps.q()) || piv.q().n == 0 {
            Err(SolveError::Invalid)
        } else {
            match sdiv(b[i], piv) {
                None => Err(SolveError::Overflow),
                Some(nbi) => {
                    let m1 = m.update(i, m[i].update(i, Rat { num: 1, den: 1 }));
                    let b1 = b.update(i, nbi);
                    match sbwd_j(m1, b1, i, 0) {
                        None => Err(SolveError::Overflow),
                        Some(st) => sbwd(st.0, st.1, eps, i),
                    }
                },
            }
        }
    }
}

/// Backward substitution: walk the diagonal from the last row upward,
/// report `Invalid` as soon as a pivot is below tolerance or exactly zero,
/// otherwise divide the right-hand side through and clear the entries above
/// the diagonal. On success `b` holds the solution.
fn backward_elimination(a: &mut Vec<Vec<Rat>>, b: &mut Vec<Rat>, eps: &Rat) -> (r: Result<
    (),
    SolveError,
>)
    requires
        mat_sq_wf(old(a)@, old(a)@.len() as int),
        old(b)@.len() == old(a)@.len(),
        vec_wf(old(b)@),
        eps.wf(),
    ensures
        mat_sq_wf(final(a)@, old(a)@.len() as int),
        final(b)@.len() == old(b)@.len(),
        vec_wf(final(b)@),
        r matches Err(e) ==> e == SolveError::Invalid || e == SolveError::Overflow,
        has_zero_row(old(a)@) ==> !(r is Ok),
        r is Ok ==> diag_regular(old(a)@, *eps),
        r == Err::<(), SolveError>(SolveError::Invalid) ==> !diag_regular(old(a)@, *eps),
        r is Ok ==> sbwd(mview(old(a)@), old(b)@, *eps, old(a)@.len() as int) == Ok::<
            (Seq<Seq<Rat>>, Seq<Rat>),
            SolveError,
        >((mview(final(a)@), final(b)@)),
        r matches Err(e) ==> sbwd(mview(old(a)@), old(b)@, *eps, old(a)@.len() as int) == Err::<
            (Seq<Seq<Rat>>, Seq<Rat>),
            SolveError,
        >(e),
{
    let n = a.len();
    let mut ii: usize = n;
    while ii > 0
        invariant
            n == old(a)@.len(),
            n == old(b)@.len(),
            mat_sq_wf(a@, n as int),
            b@.len() == n,
            vec_wf(b@),
            eps.wf(),
            0 <= ii <= n,
            has_zero_row(old(a)@) ==> zero_row_below(a@, ii as int),
            forall|t: int| 0 <= t < ii ==> (#[trigger] a@[t])@[t] == old(a)@[t]@[t],
            forall|t: int|
                ii <= t < n ==> !negligible((#[trigger] old(a)@[t])@[t], *eps),
            sbwd(mview(old(a)@), old(b)@, *eps, n as int) == sbwd(
                mview(a@),
                b@,
                *eps,
                ii as int,
            ),
        decreases ii,
    {
        let ghost mi_pre = mview(a@);
        let ghost bi_pre = b@;
        let i = ii - 1;
        let pivot = a[i][i];
        if pivot.lt_abs(*eps) || pivot.is_zero() {
            proof {
                assert(pivot == old(a)@[i as int]@[i as int]);
                assert(negligible(old(a)@[i as int]@[i as int], *eps));
                assert(pivot == mi_pre[i as int][i as int]);
                assert(sbwd(mi_pre, bi_pre, *eps, ii as int) == Err::<
                    (Seq<Seq<Rat>>, Seq<Rat>),
                    SolveError,
                >(SolveError::Invalid));
            }
            return Err(SolveError::Invalid);
        }
        proof {
            assert(pivot == mi_pre[i as int][i as int]);
        }
        proof {
            if has_zero_row(old(a)@) {
                let p0 = choose|p0: int| 0 <= p0 < ii as int && row_zero((#[trigger] a@[p0])@);
                if p0 == i as int {
                    assert(a@[i as int]@[i as int].q().n == 0);
                    assert(false);
                }
                assert(zero_row_below(a@, i as int));
            }
        }
        let new_bi = match b[i].checked_div(pivot) {
            Some(v) => v,
            None => {
                proof {
                    assert(sdiv(bi_pre[i as int], pivot) is None);
                    assert(sbwd(mi_pre, bi_pre, *eps, ii as int) == Err::<
                        (Seq<Seq<Rat>>, Seq<Rat>),
                        SolveError,
                    >(SolveError::Overflow));
                }
                return Err(SolveError::Overflow);
            },
        };
        b[i] = new_bi;
        let mut row_i = copy_row(&a[i]);
        row_i[i] = Rat { num: 1, den: 1 };
        let ghost pre_a = a@;
        let ghost row_i_view = row_i@;
        a[i] = row_i;
        proof {
            assert(b@ =~= bi_pre.update(i as int, new_bi));
            assert(row_i_view =~= mi_pre[i as int].update(i as int, Rat { num: 1, den: 1 }));
            assert(mview(a@) =~= mi_pre.update(i as int, row_i_view));
            if has_zero_row(old(a)@) {
                let p0 = choose|p0: int| 0 <= p0 < i as int && row_zero((#[trigger] pre_a[p0])@);
                assert(a@[p0]@ == pre_a[p0]@);
                assert(row_zero((a@[p0])@));
                assert(zero_row_below(a@, i as int));
            }
        }
        let ghost m1v = mview(a@);
        let ghost b1v = b@;
        proof {
            assert(sbwd(mi_pre, bi_pre, *eps, ii as int) == (match sbwd_j(
                m1v,
                b1v,
                i as int,
                0,
            ) {
                None => Err(SolveError::Overflow),
                Some(st) => sbwd(st.0, st.1, *eps, i as int),
            }));
        }
        let mut j: usize = 0;
        while j < i
            invariant
                n == old(a)@.len(),
                n == old(b)@.len(),
                mat_sq_wf(a@, n as int),
                b@.len() == n,
                vec_wf(b@),
                0 <= i < n,
                0 <= j <= i,
                has_zero_row(old(a)@) ==> zero_row_below(a@, i as int),
                forall|t: int| 0 <= t < i ==> (#[trigger] a@[t])@[t] == old(a)@[t]@[t],
                sbwd_j(m1v, b1v, i as int, 0) == sbwd_j(mview(a@), b@, i as int, j as int),
                sbwd(mview(old(a)@), old(b)@, *eps, n as int) == (match sbwd_j(
                    m1v,
                    b1v,
                    i as int,
                    0,
                ) {
                    None => Err(SolveError::Overflow),
                    Some(st) => sbwd(st.0, st.1, *eps, i as int),
                }),
            decreases i - j,
        {
            let ghost mjq = mview(a@);
            let ghost bjq = b@;
            let factor = match b[i].checked_mul(a[j][i]) {
                Some(t) => t,
                None => {
                    proof {
                        assert(mjq[j as int] == a@[j as int]@);
                        assert(smul(bjq[i as int], mjq[j as int][i as int]) is None);
                        assert(sbwd_j(mjq, bjq, i as int, j as int) is None);
                    }
                    return Err(SolveError::Overflow);
                },
            };
            let new_bj = match b[j].checked_sub(factor) {
                Some(v) => v,
                None => {
                    proof {
                        assert(mjq[j as int] == a@[j as int]@);
                        assert(smul(bjq[i as int], mjq[j as int][i as int]) == Some(factor));
                        assert(ssub(bjq[j as int], factor) is None);
                        assert(sbwd_j(mjq, bjq, i as int, j as int) is None);
                    }
                    return Err(SolveError::Overflow);
                },
            };
            b[j] = new_bj;
            let mut row_j = copy_row(&a[j]);
            row_j[i] = Rat { num: 0, den: 1 };
            let ghost pre_a = a@;
            let ghost row_j_view = row_j@;
            a[j] = row_j;
            proof {
                assert(b@ =~= bjq.update(j as int, new_bj));
                assert(row_j_view =~= mjq[j as int].update(i as int, Rat { num: 0, den: 1 }));
                assert(mview(a@) =~= mjq.update(j as int, row_j_view));
                assert(sbwd_j(mjq, bjq, i as int, j as int) == sbwd_j(
                    mview(a@),
                    b@,
                    i as int,
                    j as int + 1,
                ));
                assert(row_j_view[j as int] == pre_a[j as int]@[j as int]);
                assert forall|t: int| 0 <= t < i implies (#[trigger] a@[t])@[t] == old(
                    a,
                )@[t]@[t] by {
                    if t != j as int {
                        assert(a@[t]@ == pre_a[t]@);
                    }
                }
                if has_zero_row(old(a)@) {
                    let p0 = choose|p0: int| 0 <= p0 < i as int && row_zero(
                        (#[trigger] pre_a[p0])@,
                    );
                    if p0 == j as int {
                        assert(row_zero(pre_a[j as int]@));
                        assert forall|t: int| 0 <= t < row_j_view.len() implies (#[trigger]
                        row_j_view[t]).q().n == 0 by {
                            if t != i as int {
                                assert(row_j_view[t] == pre_a[j as int]@[t]);
                            }
                        }
                        assert(row_zero((a@[p0])@));
                    } else {
                        assert(a@[p0]@ == pre_a[p0]@);
                        assert(row_zero((a@[p0])@));
                    }
                    assert(zero_row_below(a@, i as int));
                }
            }
            j = j + 1;
        }
        proof {
            assert(sbwd_j(mview(a@), b@, i as int, i as int) == Some((mview(a@), b@)));
            assert(sbwd(mview(old(a)@), old(b)@, *eps, n as int) == sbwd(
                mview(a@),
                b@,
                *eps,
                i as int,
            ));
        }
        ii = ii - 1;
    }
    proof {
        assert(sbwd(mview(a@), b@, *eps, 0) == Ok::<(Seq<Seq<Rat>>, Seq<Rat>), SolveError>(
            (mview(a@), b@),
        ));
    }
    Ok(())
}

/// The threshold a call uses: the given one, or the smallest positive
/// representable scalar when none is given.
pub open spec fn effective_eps(eps: Option<Rat>) -> Rat {
    match eps {
        Some(e) => e,
        None => Rat { num: 1, den: i64::MAX },
    }
}

/// The whole run of the solver: a zero-row matrix is singular outright;
/// otherwise forward elimination, then backward substitution, and finally
/// the exact residual confirmation of the candidate against the original
/// system.
pub open spec fn sgauss(a: Seq<Vec<Rat>>, b: Seq<Rat>, eps: Rat) -> Result<Seq<Rat>, SolveError> {
    if has_zero_row(a) {
        Err(SolveError::Invalid)
    } else {
        match sfwd(mview(a), b, eps, 0) {
            None => Err(SolveError::Overflow),
            Some(st) => match sbwd(st.0, st.1, eps, a.len() as int) {
                Err(e) => Err(e),
                Ok(st2) => match sresidual_from(a, b, st2.1, 0) {
                    None => Err(SolveError::Overflow),
                    Some(true) => Ok(st2.1),
                    Some(false) => Err(SolveError::Invalid),
                },
            },
        }
    }
}

/// An absent threshold and the smallest positive representable scalar
/// given explicitly run the solver identically.
pub proof fn lemma_default_eps_call(a: Seq<Vec<Rat>>, b: Seq<Rat>)
    ensures
        sgauss(a, b, effective_eps(None)) == sgauss(
            a,
            b,
            effective_eps(Some(Rat { num: 1, den: i64::MAX })),
        ),
{
}

/// Decide exactly whether some row of the matrix is entirely zero.
fn find_zero_row(a: &Vec<Vec<Rat>>) -> (r: bool)
    requires
        mat_sq_wf(a@, a@.len() as int),
    ensures
        r == has_zero_row(a@),
{
    let n = a.len();
    let mut i: usize = 0;
    while i < n
        invariant
            n == a@.len(),
            mat_sq_wf(a@, n as int),
            0 <= i <= n,
            !zero_row_below(a@, i as int),
        decreases n - i,
    {
        let mut all0 = true;
        let mut k: usize = 0;
        while k < n
            invariant
                n == a@.len(),
                mat_sq_wf(a@, n as int),
                0 <= i < n,
                0 <= k <= n,
                all0 == (forall|t: int| 0 <= t < k ==> (#[trigger] a@[i as int]@[t]).q().n == 0),
            decreases n - k,
        {
            all0 = all0 && a[i][k].num == 0;
            k = k + 1;
        }
        if all0 {
            proof {
                assert(row_zero(a@[i as int]@));
                assert(has_zero_row(a@));
            }
            return true;
        }
        proof {
            assert(!row_zero(a@[i as int]@));
            if zero_row_below(a@, i as int + 1) {
                let p0 = choose|p0: int| 0 <= p0 < i as int + 1 && row_zero((#[trigger] a@[p0])@);
                assert(false);
            }
        }
        i = i + 1;
    }
    false
}

/// With the default threshold, the smallest positive representable scalar,
/// a well-formed scalar is below tolerance exactly when it denotes zero:
/// the default never rejects a regular pivot.
pub proof fn lemma_default_eps_is_exact(v: Rat)
    requires
        v.wf(),
    ensures
        qlt_abs(v.q(), Q { n: 1, d: i64::MAX as int }) <==> v.q().n == 0,
{
    let m = qabs(v.q().n);
    if v.q().n != 0 {
        assert(m * (i64::MAX as int) >= 1 * v.q().d) by (nonlinear_arith)
            requires
                m >= 1,
                1 <= v.q().d <= i64::MAX as int,
        ;
    }
}

impl MatMul<Vec<Rat>> for Vec<Vec<Rat>> {
    type Output = Vec<Rat>;

    /// Rows all of one length, entries well-formed, and every dot-product
    /// accumulation staying in the machine range whenever the shapes agree.
    open spec fn mm_fits(&self, rhs: &Vec<Rat>) -> bool {
        &&& forall|i: int|
            0 <= i < self@.len() ==> (#[trigger] self@[i])@.len() == self@[0]@.len() && vec_wf(
                self@[i]@,
            )
        &&& vec_wf(rhs@)
        &&& (self@.len() > 0 && rhs@.len() > 0 && self@[0]@.len() == rhs@.len()) ==> forall|i: int|
            0 <= i < self@.len() ==> sdot((#[trigger] self@[i])@, rhs@, rhs@.len() as int) is Some
    }

    open spec fn mm_err(&self, rhs: &Vec<Rat>) -> Option<MathError> {
        if self@.len() == 0 || rhs@.len() == 0 {
            Some(MathError::EmptyInput)
        } else if self@[0]@.len() != rhs@.len() {
            Some(MathError::DimensionMismatch)
        } else {
            None
        }
    }

    /// One entry per row: exactly the machine's reduced dot product.
    open spec fn mm_ok(&self, rhs: &Vec<Rat>, out: &Vec<Rat>) -> bool {
        &&& out@.len() == self@.len()
        &&& forall|i: int|
            0 <= i < out@.len() ==> Some(#[trigger] out@[i]) == sdot(
                self@[i]@,
                rhs@,
                rhs@.len() as int,
            )
    }

    fn matmul(&self, rhs: &Vec<Rat>) -> (r: Result<Vec<Rat>, MathError>) {
        if self.len() == 0 || rhs.len() == 0 {
            return Err(MathError::EmptyInput);
        }
        if self[0].len() != rhs.len() {
            return Err(MathError::DimensionMismatch);
        }
        let rows = self.len();
        let mut result: Vec<Rat> = Vec::new();
        let mut i: usize = 0;
        while i < rows
            invariant
                rows == self@.len(),
                self.mm_fits(rhs),
                self@.len() > 0,
                rhs@.len() > 0,
                self@[0]@.len() == rhs@.len(),
                0 <= i <= rows,
                result@.len() == i,
                forall|p: int|
                    0 <= p < i ==> Some(#[trigger] result@[p]) == sdot(
                        self@[p]@,
                        rhs@,
                        rhs@.len() as int,
                    ),
            decreases rows - i,
        {
            let s = match rat_dot(&self[i], rhs) {
                Some(t) => t,
                None => {
                    proof {
                        assert(false);
                    }
                    return Err(MathError::EmptyInput);
                },
            };
            result.push(s);
            i = i + 1;
        }
        Ok(result)
    }
}

impl VecElementwiseArithmetic<Rat> for Vec<Rat> {
    open spec fn ew_elems(&self) -> Seq<Rat> {
        self@
    }

    /// Entries well-formed and, when the lengths agree, every sum staying
    /// in the machine range.
    open spec fn add_fits(&self, rhs: &Self) -> bool {
        &&& vec_wf(self@)
        &&& vec_wf(rhs@)
        &&& self@.len() == rhs@.len() ==> forall|i: int|
            0 <= i < self@.len() ==> sadd(#[trigger] self@[i], rhs@[i]) is Some
    }

    /// Entries well-formed and, when the lengths agree, every difference
    /// staying in the machine range.
    open spec fn sub_fits(&self, rhs: &Self) -> bool {
        &&& vec_wf(self@)
        &&& vec_wf(rhs@)
        &&& self@.len() == rhs@.len() ==> forall|i: int|
            0 <= i < self@.len() ==> ssub(#[trigger] self@[i], rhs@[i]) is Some
    }

    /// Exactly the machine's reduced sums, pairwise.
    open spec fn add_result(&self, rhs: &Self) -> Seq<Rat> {
        Seq::new(self@.len(), |i: int| sadd(self@[i], rhs@[i])->Some_0)
    }

    /// Exactly the machine's reduced differences, pairwise.
    open spec fn sub_result(&self, rhs: &Self) -> Seq<Rat> {
        Seq::new(self@.len(), |i: int| ssub(self@[i], rhs@[i])->Some_0)
    }

    fn elementwise_add(&self, rhs: &Self) -> (r: Result<Vec<Rat>, MathError>) {
        if self.len() != rhs.len() {
            return Err(MathError::DimensionMismatch);
        }
        let n = self.len();
        let mut out: Vec<Rat> = Vec::new();
        let mut j: usize = 0;
        while j < n
            invariant
                n == self@.len(),
                n == rhs@.len(),
                self.add_fits(rhs),
                0 <= j <= n,
                out@.len() == j,
                forall|i: int| 0 <= i < j ==> Some(#[trigger] out@[i]) == sadd(self@[i], rhs@[i]),
            decreases n - j,
        {
            let v = match self[j].checked_add(rhs[j]) {
                Some(t) => t,
                None => {
                    proof {
                        assert(false);
                    }
                    return Err(MathError::DimensionMismatch);
                },
            };
            out.push(v);
            j = j + 1;
        }
        assert(out@ =~= self.add_result(rhs));
        Ok(out)
    }

    fn elementwise_sub(&self, rhs: &Self) -> (r: Result<Vec<Rat>, MathError>) {
        if self.len() != rhs.len() {
            return Err(MathError::DimensionMismatch);
        }
        let n = self.len();
        let mut out: Vec<Rat> = Vec::new();
        let mut j: usize = 0;
        while j < n
            invariant
                n == self@.len(),
                n == rhs@.len(),
                self.sub_fits(rhs),
                0 <= j <= n,
                out@.len() == j,
                forall|i: int| 0 <= i < j ==> Some(#[trigger] out@[i]) == ssub(self@[i], rhs@[i]),
            decreases n - j,
        {
            let v = match self[j].checked_sub(rhs[j]) {
                Some(t) => t,
                None => {
                    proof {
                        assert(false);
                    }
                    return Err(MathError::DimensionMismatch);
                },
            };
            out.push(v);
            j = j + 1;
        }
        assert(out@ =~= self.sub_result(rhs));
        Ok(out)
    }
}

/// Solve `A x = b` for square `A` (at least 2 by 2) by Gaussian elimination
/// with partial pivoting. The callers' matrix and vector are never changed:
/// the elimination runs on private working copies. `eps` is the singularity
/// threshold; when absent, the smallest positive representable scalar is
/// used, so that only an exactly zero pivot counts as singular. Before a
/// solution is returned its residual against the original system is checked
/// in exact arithmetic, so a returned vector provably solves the system; a
/// candidate that fails that check (possible only when a pivot's magnitude
/// sits exactly on the threshold, so that forward elimination skipped a
/// column that backward substitution accepted) is reported as `Invalid`.
pub fn solve_gauss(a_mat: &Vec<Vec<Rat>>, b: &Vec<Rat>, eps: &Option<Rat>) -> (r: Result<
    Vec<Rat>,
    SolveError,
>)
    requires
        a_mat@.len() >= 2,
        mat_sq_wf(a_mat@, a_mat@.len() as int),
        b@.len() == a_mat@.len(),
        vec_wf(b@),
        eps matches Some(e) ==> e.wf(),
    ensures
        match r {
            Ok(x) => x@.len() == b@.len() && vec_wf(x@) && qsolves(a_mat@, b@, x@),
            Err(e) => e == SolveError::Invalid || e == SolveError::Overflow,
        },
        has_zero_row(a_mat@) ==> r == Err::<Vec<Rat>, SolveError>(SolveError::Invalid),
        r matches Ok(x) ==> sgauss(a_mat@, b@, effective_eps(*eps)) == Ok::<
            Seq<Rat>,
            SolveError,
        >(x@),
        r matches Err(e) ==> sgauss(a_mat@, b@, effective_eps(*eps)) == Err::<
            Seq<Rat>,
            SolveError,
        >(e),
{
    if find_zero_row(a_mat) {
        return Err(SolveError::Invalid);
    }
    let actual_eps: Rat = match eps {
        Some(e) => *e,
        None => Rat { num: 1, den: i64::MAX },
    };
    let mut eliminated_mat = copy_mat(a_mat);
    let mut eliminated_b = copy_row(b);
    proof {
        assert(mat_sq_wf(eliminated_mat@, a_mat@.len() as int));
        assert(mview(eliminated_mat@) =~= mview(a_mat@));
        assert(eliminated_b@ =~= b@);
        assert(actual_eps == effective_eps(*eps));
    }
    match forward_elimination(&mut eliminated_mat, &mut eliminated_b, &actual_eps) {
        Ok(()) => {},
        Err(e) => {
            proof {
                assert(sgauss(a_mat@, b@, actual_eps) == Err::<Seq<Rat>, SolveError>(e));
            }
            return Err(e);
        },
    }
    proof {
        assert(sfwd(mview(a_mat@), b@, actual_eps, 0) == Some(
            (mview(eliminated_mat@), eliminated_b@),
        ));
    }
    match backward_elimination(&mut eliminated_mat, &mut eliminated_b, &actual_eps) {
        Ok(()) => match residual_is_zero(a_mat, b, &eliminated_b) {
            Some(true) => {
                proof {
                    assert(sgauss(a_mat@, b@, actual_eps) == Ok::<Seq<Rat>, SolveError>(
                        eliminated_b@,
                    ));
                }
                Ok(eliminated_b)
            },
            Some(false) => {
                proof {
                    assert(sgauss(a_mat@, b@, actual_eps) == Err::<Seq<Rat>, SolveError>(
                        SolveError::Invalid,
                    ));
                }
                Err(SolveError::Invalid)
            },
            None => {
                proof {
                    assert(sgauss(a_mat@, b@, actual_eps) == Err::<Seq<Rat>, SolveError>(
                        SolveError::Overflow,
                    ));
                }
                Err(SolveError::Overflow)
            },
        },
        Err(e) => {
            proof {
                assert(sgauss(a_mat@, b@, actual_eps) == Err::<Seq<Rat>, SolveError>(e));
            }
            Err(e)
        },
    }
}

/// The exact rational dot product of the first `k` entries of `row` and `x`.
pub open spec fn qdot(row: Seq<Rat>, x: Seq<Rat>, k: int) -> Q
    decreases k,
{
    if k <= 0 {
        qzero()
    } else {
        qadd(qdot(row, x, k - 1), qmul(row[k - 1].q(), x[k - 1].q()))
    }
}

/// The dot-product accumulation over the first `k` entries as the machine
/// performs it: reduced after every step, `None` from the first product or
/// partial sum that leaves the machine range.
pub open spec fn sdot(row: Seq<Rat>, x: Seq<Rat>, k: int) -> Option<Rat>
    decreases k,
{
    if k <= 0 {
        Some(Rat { num: 0, den: 1 })
    } else {
        match sdot(row, x, k - 1) {
            None => None,
            Some(acc) => match smul(row[k - 1], x[k - 1]) {
                None => None,
                Some(p) => sadd(acc, p),
            },
        }
    }
}

/// Once the accumulation has overflowed it stays overflowed.
proof fn lemma_sdot_none(row: Seq<Rat>, x: Seq<Rat>, k: int, m: int)
    requires
        0 <= k <= m,
        sdot(row, x, k) is None,
    ensures
        sdot(row, x, m) is None,
    decreases m,
{
    if m > k {
        lemma_sdot_none(row, x, k, m - 1);
    }
}

/// The verdict of the residual scan from row `i` on, rows before `i`
/// having matched: `None` from an overflowing row, `Some(false)` from the
/// first row whose dot product differs from the right-hand side.
pub open spec fn sresidual_from(a: Seq<Vec<Rat>>, b: Seq<Rat>, x: Seq<Rat>, i: int) -> Option<
    bool,
>
    decreases a.len() - i,
{
    if i < 0 || i >= a.len() {
        Some(true)
    } else {
        match sdot(a[i]@, x, x.len() as int) {
            None => None,
            Some(s) => if !qeq(s.q(), b[i].q()) {
                Some(false)
            } else {
                sresidual_from(a, b, x, i + 1)
            },
        }
    }
}

/// `x` solves the system exactly: every row's dot product with `x` equals
/// the corresponding right-hand side.
pub open spec fn qsolves(a: Seq<Vec<Rat>>, b: Seq<Rat>, x: Seq<Rat>) -> bool {
    forall|i: int|
        0 <= i < a.len() ==> qeq(qdot((#[trigger] a[i])@, x, x.len() as int), b[i].q())
}

/// Denoting the same rational carries across a middle fraction with a
/// positive denominator.
proof fn lemma_qeq_trans(a: Q, b: Q, c: Q)
    requires
        b.d >= 1,
        qeq(a, b),
        qeq(b, c),
    ensures
        qeq(a, c),
{
    assert(a.n * c.d == c.n * a.d) by (nonlinear_arith)
        requires
            a.n * b.d == b.n * a.d,
            b.n * c.d == c.n * b.d,
            b.d >= 1,
    ;
}

/// Replacing both summands by fractions denoting the same rationals leaves
/// the sum denoting the same rational.
proof fn lemma_qadd_congr(a: Q, a2: Q, b: Q, b2: Q)
    requires
        qeq(a, a2),
        qeq(b, b2),
    ensures
        qeq(qadd(a, b), qadd(a2, b2)),
{
    assert(a.n * b.d * (a2.d * b2.d) == a2.n * b2.d * (a.d * b.d)) by (nonlinear_arith)
        requires
            a.n * a2.d == a2.n * a.d,
    ;
    assert(b.n * a.d * (a2.d * b2.d) == b2.n * a2.d * (a.d * b.d)) by (nonlinear_arith)
        requires
            b.n * b2.d == b2.n * b.d,
    ;
    assert((a.n * b.d + b.n * a.d) * (a2.d * b2.d) == a.n * b.d * (a2.d * b2.d) + b.n * a.d * (
    a2.d * b2.d)) by (nonlinear_arith);
    assert((a2.n * b2.d + b2.n * a2.d) * (a.d * b.d) == a2.n * b2.d * (a.d * b.d) + b2.n * a2.d * (
    a.d * b.d)) by (nonlinear_arith);
}

/// The dot product of well-formed scalars has a positive denominator.
proof fn lemma_qdot_d_pos(row: Seq<Rat>, x: Seq<Rat>, k: int)
    requires
        0 <= k <= x.len(),
        k <= row.len(),
        vec_wf(row),
        vec_wf(x),
    ensures
        qdot(row, x, k).d >= 1,
    decreases k,
{
    if k > 0 {
        lemma_qdot_d_pos(row, x, k - 1);
        let pd = qdot(row, x, k - 1).d;
        let rd = row[k - 1].q().d;
        let xd = x[k - 1].q().d;
        assert(qdot(row, x, k).d == pd * (rd * xd));
        assert(pd * (rd * xd) >= 1) by (nonlinear_arith)
            requires
                pd >= 1,
                rd >= 1,
                xd >= 1,
        ;
    }
}

/// The exact dot product of two equal-length vectors of scalars; `None`
/// when an intermediate value leaves the machine range.
pub fn rat_dot(row: &Vec<Rat>, x: &Vec<Rat>) -> (r: Option<Rat>)
    requires
        row@.len() == x@.len(),
        vec_wf(row@),
        vec_wf(x@),
    ensures
        r == sdot(row@, x@, x@.len() as int),
        r matches Some(s) ==> s.wf() && qeq(s.q(), qdot(row@, x@, x@.len() as int)),
{
    let n = x.len();
    let mut acc = Rat::zero();
    let mut k: usize = 0;
    while k < n
        invariant
            n == x@.len(),
            row@.len() == n,
            vec_wf(row@),
            vec_wf(x@),
            0 <= k <= n,
            acc.wf(),
            qeq(acc.q(), qdot(row@, x@, k as int)),
            sdot(row@, x@, k as int) == Some(acc),
        decreases n - k,
    {
        let prod = match row[k].checked_mul(x[k]) {
            Some(t) => t,
            None => {
                proof {
                    assert(sdot(row@, x@, k as int + 1) is None);
                    lemma_sdot_none(row@, x@, k as int + 1, x@.len() as int);
                }
                return None;
            },
        };
        let next = match acc.checked_add(prod) {
            Some(t) => t,
            None => {
                proof {
                    assert(sdot(row@, x@, k as int + 1) is None);
                    lemma_sdot_none(row@, x@, k as int + 1, x@.len() as int);
                }
                return None;
            },
        };
        proof {
            let accq = acc.q();
            let prodq = prod.q();
            let dk = qdot(row@, x@, k as int);
            let mk = qmul(row@[k as int].q(), x@[k as int].q());
            lemma_qdot_d_pos(row@, x@, k as int);
            lemma_qadd_congr(accq, dk, prodq, mk);
            assert(qadd(accq, prodq).d >= 1) by (nonlinear_arith)
                requires
                    qadd(accq, prodq).d == accq.d * prodq.d,
                    accq.d >= 1,
                    prodq.d >= 1,
            ;
            lemma_qeq_trans(next.q(), qadd(accq, prodq), qadd(dk, mk));
            assert(qadd(dk, mk) == qdot(row@, x@, k as int + 1));
            assert(sdot(row@, x@, k as int + 1) == Some(next));
        }
        acc = next;
        k = k + 1;
    }
    Some(acc)
}

/// Decide exactly whether `x` solves `A x = b`: the residual of every row
/// is compared with zero in exact arithmetic. `None` when an intermediate
/// value leaves the machine range.
pub fn residual_is_zero(a_mat: &Vec<Vec<Rat>>, b: &Vec<Rat>, x: &Vec<Rat>) -> (r: Option<bool>)
    requires
        mat_sq_wf(a_mat@, a_mat@.len() as int),
        b@.len() == a_mat@.len(),
        x@.len() == a_mat@.len(),
        vec_wf(b@),
        vec_wf(x@),
    ensures
        r == sresidual_from(a_mat@, b@, x@, 0),
        r matches Some(t) ==> (t <==> qsolves(a_mat@, b@, x@)),
{
    let n = a_mat.len();
    let mut i: usize = 0;
    while i < n
        invariant
            n == a_mat@.len(),
            mat_sq_wf(a_mat@, n as int),
            b@.len() == n,
            x@.len() == n,
            vec_wf(b@),
            vec_wf(x@),
            0 <= i <= n,
            forall|p: int|
                0 <= p < i ==> qeq(
                    qdot((#[trigger] a_mat@[p])@, x@, x@.len() as int),
                    b@[p].q(),
                ),
            sresidual_from(a_mat@, b@, x@, 0) == sresidual_from(a_mat@, b@, x@, i as int),
        decreases n - i,
    {
        let s = match rat_dot(&a_mat[i], x) {
            Some(t) => t,
            None => {
                proof {
                    assert(sresidual_from(a_mat@, b@, x@, i as int) is None);
                }
                return None;
            },
        };
        if !s.eq_value(b[i]) {
            proof {
                let dq = qdot(a_mat@[i as int]@, x@, x@.len() as int);
                lemma_qdot_d_pos(a_mat@[i as int]@, x@, x@.len() as int);
                if qeq(dq, b@[i as int].q()) {
                    lemma_qeq_trans(s.q(), dq, b@[i as int].q());
                }
                assert(sresidual_from(a_mat@, b@, x@, i as int) == Some(false));
            }
            return Some(false);
        }
        proof {
            let dq = qdot(a_mat@[i as int]@, x@, x@.len() as int);
            lemma_qeq_trans(dq, s.q(), b@[i as int].q());
            assert(sresidual_from(a_mat@, b@, x@, i as int) == sresidual_from(
                a_mat@,
                b@,
                x@,
                i as int + 1,
            ));
        }
        i = i + 1;
    }
    Some(true)
}

/// Solve, with the failure signal folded away: a `Some` result carries a
/// proved-exact solution of the callers' original `A x = b`, and a matrix
/// with a zero row is never solved.
pub fn solve_gauss_checked(a_mat: &Vec<Vec<Rat>>, b: &Vec<Rat>, eps: &Option<Rat>) -> (r: Option<
    Vec<Rat>,
>)
    requires
        a_mat@.len() >= 2,
        mat_sq_wf(a_mat@, a_mat@.len() as int),
        b@.len() == a_mat@.len(),
        vec_wf(b@),
        eps matches Some(e) ==> e.wf(),
    ensures
        r matches Some(x) ==> x@.len() == b@.len() && vec_wf(x@) && qsolves(a_mat@, b@, x@),
        has_zero_row(a_mat@) ==> r is None,
        r is Some <==> sgauss(a_mat@, b@, effective_eps(*eps)) is Ok,
        r matches Some(x) ==> sgauss(a_mat@, b@, effective_eps(*eps)) == Ok::<
            Seq<Rat>,
            SolveError,
        >(x@),
{
    match solve_gauss(a_mat, b, eps) {
        Ok(x) => Some(x),
        Err(_) => None,
    }
}

} // verus!
