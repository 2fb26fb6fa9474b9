//! Binomial coefficients.
use crate::float::{Float, FloatAssignOps, FloatOps, MulDivAssign};
use crate::rational::{
    eqv, lemma_add_ints, lemma_eqv_int, lemma_eqv_trans, lemma_mul_div_ints, lemma_sub_ints,
    pos_frac, pow_int, rint, rle,
};
use vstd::prelude::*;

verus! {

/// The binomial coefficient `C(n, k)` by Pascal's rule; zero for `k < 0` or `k > n`.
pub open spec fn binom_spec(n: int, k: int) -> nat
    decreases n,
{
    if k < 0 || k > n {
        0
    } else if k == 0 || k == n {
        1
    } else {
        binom_spec(n - 1, k - 1) + binom_spec(n - 1, k)
    }
}

/// `Σ_{j=0}^{m-1} C(n, j)`.
pub open spec fn binom_prefix_sum(n: int, m: int) -> int
    decreases m,
{
    if m <= 0 {
        0
    } else {
        binom_prefix_sum(n, m - 1) + binom_spec(n, m - 1)
    }
}

/// Pascal's rule holds for every `k` once `n >= 1`.
pub proof fn lemma_pascal(n: int, k: int)
    requires
        n >= 1,
    ensures
        binom_spec(n, k) == binom_spec(n - 1, k - 1) + binom_spec(n - 1, k),
{
}

/// Binomial coefficients are symmetric, and vanish outside `0 <= k <= n`.
pub proof fn lemma_binom_symmetric(n: int, k: int)
    ensures
        binom_spec(n, k) == binom_spec(n, n - k),
        (k < 0 || k > n) ==> binom_spec(n, k) == 0,
    decreases n,
{
    if n >= 1 {
        lemma_binom_symmetric(n - 1, k - 1);
        lemma_binom_symmetric(n - 1, k);
        lemma_pascal(n, k);
        lemma_pascal(n, n - k);
    }
}

/// `C(n, k)` is positive for `0 <= k <= n`.
pub proof fn lemma_binom_pos(n: int, k: int)
    requires
        0 <= k <= n,
    ensures
        binom_spec(n, k) > 0,
    decreases n,
{
    if 0 < k < n {
        lemma_binom_pos(n - 1, k);
    }
}

/// `k C(n, k) == n C(n-1, k-1)`.
proof fn lemma_absorb(n: int, k: int)
    requires
        1 <= k <= n,
    ensures
        k * binom_spec(n, k) == n * binom_spec(n - 1, k - 1),
    decreases n,
{
    if k < n {
        lemma_pascal(n, k);
        lemma_pascal(n - 1, k - 1);
        lemma_absorb(n - 1, k);
        if k >= 2 {
            lemma_absorb(n - 1, k - 1);
        } else {
            assert(binom_spec(n - 2, k - 2) == 0);
            assert((k - 1) * binom_spec(n - 1, k - 1) == (n - 1) * binom_spec(n - 2, k - 2))
                by (nonlinear_arith)
                requires
                    k == 1,
                    binom_spec(n - 2, k - 2) == 0,
            ;
        }
        assert(k * binom_spec(n, k) == n * binom_spec(n - 1, k - 1)) by (nonlinear_arith)
            requires
                binom_spec(n, k) == binom_spec(n - 1, k - 1) + binom_spec(n - 1, k),
                binom_spec(n - 1, k - 1) == binom_spec(n - 2, k - 2) + binom_spec(n - 2, k - 1),
                k * binom_spec(n - 1, k) == (n - 1) * binom_spec(n - 2, k - 1),
                (k - 1) * binom_spec(n - 1, k - 1) == (n - 1) * binom_spec(n - 2, k - 2),
        ;
    }
}

/// The step of the multiplicative recurrence: `C(n, i) i == C(n, i-1) (n - i + 1)`.
proof fn lemma_binom_step(n: int, i: int)
    requires
        1 <= i <= n,
    ensures
        binom_spec(n, i) * i == binom_spec(n, i - 1) * (n - i + 1),
{
    lemma_absorb(n, i);
    lemma_binom_symmetric(n, i - 1);
    lemma_binom_symmetric(n - 1, i - 1);
    lemma_absorb(n, n - i + 1);
    assert(binom_spec(n, i) * i == i * binom_spec(n, i)) by (nonlinear_arith);
    assert(binom_spec(n, i - 1) * (n - i + 1) == (n - i + 1) * binom_spec(n, n - i + 1))
        by (nonlinear_arith)
        requires
            binom_spec(n, i - 1) == binom_spec(n, n - i + 1),
    ;
}

/// Each row of Pascal's triangle sums to a power of two.
pub proof fn lemma_binom_row_sum(n: int)
    requires
        n >= 0,
    ensures
        binom_prefix_sum(n, n + 1) == pow_int(2, n as nat),
    decreases n,
{
    if n >= 1 {
        lemma_binom_row_sum(n - 1);
        lemma_prefix_pascal(n, n + 1);
        assert(binom_prefix_sum(n - 1, n + 1) == binom_prefix_sum(n - 1, n) + binom_spec(n - 1, n));
    } else {
        assert(binom_prefix_sum(0, 1) == binom_prefix_sum(0, 0) + binom_spec(0, 0));
    }
}

proof fn lemma_prefix_pascal(n: int, m: int)
    requires
        n >= 1,
        m >= 0,
    ensures
        binom_prefix_sum(n, m) == binom_prefix_sum(n - 1, m - 1) + binom_prefix_sum(n - 1, m),
    decreases m,
{
    if m >= 1 {
        lemma_prefix_pascal(n, m - 1);
        lemma_pascal(n, m - 1);
    }
}

/// `C(n, k)`, computed as a product of descending factors of `n` divided by
/// ascending factors of `k` (with `k` first reduced to `min(k, n - k)`).
/// Zero for `k < 0` or `k > n`.
pub fn binom<T: Float>(n: i64, k: i64) -> (r: T)
    ensures
        pos_frac(r.frac()),
        eqv(r.frac(), rint(binom_spec(n as int, k as int) as int)),
{
    if k < 0 || k > n {
        let r = T::zero();
        proof {
            lemma_binom_symmetric(n as int, k as int);
        }
        return r;
    }
    let kk: i64 = if k < n - k { k } else { n - k };
    proof {
        lemma_binom_symmetric(n as int, k as int);
    }
    let mut r = T::one();
    let mut d = T::one();
    let mut m = T::from_i64(n);
    let one = T::one();
    let mut i: i64 = 1;
    while i <= kk
        invariant
            0 <= kk <= n,
            kk <= n - kk,
            1 <= i <= kk + 1,
            binom_spec(n as int, k as int) == binom_spec(n as int, kk as int),
            pos_frac(r.frac()),
            pos_frac(d.frac()),
            pos_frac(m.frac()),
            pos_frac(one.frac()),
            eqv(one.frac(), rint(1)),
            eqv(r.frac(), rint(binom_spec(n as int, i - 1) as int)),
            eqv(m.frac(), rint(n - i + 1)),
            eqv(d.frac(), rint(i as int)),
        decreases kk + 1 - i,
    {
        let ghost r0 = r.frac();
        let ghost m0 = m.frac();
        let ghost d0 = d.frac();
        proof {
            lemma_eqv_int(d0, i as int);
            lemma_eqv_int(m0, n - i + 1);
            lemma_eqv_int(one.frac(), 1);
            assert(d0.0 > 0) by (nonlinear_arith)
                requires
                    d0.0 == i * d0.1,
                    i >= 1,
                    d0.1 > 0,
            ;
            assert(rle(one.frac(), m0)) by (nonlinear_arith)
                requires
                    m0.0 == (n - i + 1) * m0.1,
                    n - i + 1 >= 1,
                    m0.1 > 0,
                    one.frac().1 > 0,
                    one.frac().0 == one.frac().1,
            ;
        }
        r.mul_div_assign(&m, &d);
        m.sub_assign(&one);
        d.add_assign(&one);
        proof {
            let b = binom_spec(n as int, i - 1) as int;
            lemma_mul_div_ints(r0, m0, d0, r.frac(), b, n - i + 1, i as int);
            lemma_binom_step(n as int, i as int);
            let c = binom_spec(n as int, i as int) as int;
            assert(eqv((b * (n - i + 1), i as int), rint(c))) by (nonlinear_arith)
                requires
                    c * i == b * (n - i + 1),
            ;
            lemma_eqv_trans(r.frac(), (b * (n - i + 1), i as int), rint(binom_spec(n as int, i as int) as int));
            lemma_sub_ints(m0, one.frac(), m.frac(), n - i + 1, 1);
            lemma_add_ints(d0, one.frac(), d.frac(), i as int, 1);
        }
        i = i + 1;
    }
    r
}

} // verus!

verus! {

/// `rows[n][k]` holds `C(n, k)` for `0 <= k <= n <= m`.
pub open spec fn is_pascal_rows<T: Float>(rows: Seq<Vec<T>>, m: int) -> bool {
    &&& rows.len() == m + 1
    &&& forall|n: int| 0 <= n <= m ==> #[trigger] rows[n].len() == n + 1
    &&& forall|n: int, k: int|
        0 <= k <= n <= m ==> pos_frac(#[trigger] rows[n]@[k].frac()) && eqv(
            rows[n]@[k].frac(),
            rint(binom_spec(n, k) as int),
        )
}

/// The rows `0..=m` of Pascal's triangle, each entry the sum of the two above.
pub fn pascal_rows<T: Float>(m: i64) -> (r: Vec<Vec<T>>)
    requires
        0 <= m <= u32::MAX,
    ensures
        is_pascal_rows(r@, m as int),
{
    let mut rows: Vec<Vec<T>> = Vec::new();
    let mut n: i64 = 0;
    while n <= m
        invariant
            0 <= n <= m + 1,
            m <= u32::MAX,
            rows.len() == n,
            forall|i: int| 0 <= i < n ==> #[trigger] rows@[i].len() == i + 1,
            forall|i: int, k: int|
                0 <= k <= i < n ==> pos_frac(#[trigger] rows@[i]@[k].frac()) && eqv(
                    rows@[i]@[k].frac(),
                    rint(binom_spec(i, k) as int),
                ),
        decreases m + 1 - n,
    {
        let mut row: Vec<T> = Vec::new();
        let mut k: i64 = 0;
        while k <= n
            invariant
                0 <= k <= n + 1,
                n <= m,
                m <= u32::MAX,
                rows.len() == n,
                row.len() == k,
                forall|i: int| 0 <= i < n ==> #[trigger] rows@[i].len() == i + 1,
                forall|i: int, kk: int|
                    0 <= kk <= i < n ==> pos_frac(#[trigger] rows@[i]@[kk].frac()) && eqv(
                        rows@[i]@[kk].frac(),
                        rint(binom_spec(i, kk) as int),
                    ),
                forall|kk: int|
                    0 <= kk < k ==> pos_frac(#[trigger] row@[kk].frac()) && eqv(
                        row@[kk].frac(),
                        rint(binom_spec(n as int, kk) as int),
                    ),
            decreases n + 1 - k,
        {
            let v = if k == 0 || k == n {
                T::one()
            } else {
                proof {
                    assert(rows@[n - 1].len() == n);
                }
                let above = &rows[(n - 1) as usize];
                let a = &above[(k - 1) as usize];
                let b = &above[k as usize];
                let s = a.add(b);
                proof {
                    assert(pos_frac(rows@[n - 1]@[k - 1].frac()));
                    assert(pos_frac(rows@[n - 1]@[k as int].frac()));
                    lemma_add_ints(
                        a.frac(),
                        b.frac(),
                        s.frac(),
                        binom_spec(n - 1, k - 1) as int,
                        binom_spec(n - 1, k as int) as int,
                    );
                }
                s
            };
            let ghost before = row@;
            row.push(v);
            proof {
                assert(row@ == before.push(v));
                assert forall|kk: int| 0 <= kk < k implies row@[kk] == before[kk] by {}
            }
            k = k + 1;
        }
        let ghost before_rows = rows@;
        rows.push(row);
        proof {
            assert(rows@ == before_rows.push(row));
            assert forall|i: int| 0 <= i < n implies rows@[i] == before_rows[i] by {}
        }
        n = n + 1;
    }
    rows
}

/// `C(n, k)` read from the rows of Pascal's triangle; `zero` outside `0 <= k <= n`.
pub fn table_binom<'a, T: Float>(rows: &'a Vec<Vec<T>>, m: i64, zero: &'a T, n: i64, k: i64) -> (r:
    &'a T)
    requires
        is_pascal_rows(rows@, m as int),
        0 <= n <= m,
        pos_frac(zero.frac()),
        zero.frac().0 == 0,
    ensures
        pos_frac(r.frac()),
        eqv(r.frac(), rint(binom_spec(n as int, k as int) as int)),
{
    if k < 0 || k > n {
        proof {
            lemma_binom_symmetric(n as int, k as int);
        }
        zero
    } else {
        proof {
            assert(rows@[n as int].len() == n + 1);
            assert(pos_frac(rows@[n as int]@[k as int].frac()));
        }
        let row = &rows[n as usize];
        &row[k as usize]
    }
}

} // verus!
