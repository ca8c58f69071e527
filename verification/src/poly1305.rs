//! Poly1305 one-time authentication, with the accumulator held in seventeen 8-bit limbs.
use vstd::prelude::*;
use vstd::arithmetic::power::pow;
use vstd::arithmetic::power2::{pow2, lemma_pow2_adds, lemma2_to64, lemma_pow2_pos};
use vstd::arithmetic::div_mod::{lemma_fundamental_div_mod_converse, lemma_fundamental_div_mod,
    lemma_mod_multiples_vanish, lemma_mul_mod_noop, lemma_add_mod_noop, lemma_small_mod};
use vstd::arithmetic::mul::{lemma_mul_is_distributive_add, lemma_mul_is_associative,
    lemma_mul_is_commutative, lemma_mul_inequality, lemma_mul_nonnegative, lemma_mul_upper_bound};
use crate::bytes::{b8, bytes_val, le_value, lemma_b8_step, lemma_b8_adds, lemma_bytes_bound,
    lemma_le_value_injective};

verus! {

/// The Poly1305 prime 2^130 - 5.
pub open spec fn p1305() -> int {
    pow2(130) - 5
}

/// The number whose base-256 digits are `s[0..n]`, least significant first; the digits
/// may exceed 255.
pub open spec fn limbs_val(s: Seq<u32>, n: int) -> int
    decreases n,
{
    if n <= 0 {
        0
    } else {
        limbs_val(s, n - 1) + s[n - 1] * b8(n - 1)
    }
}

/// The 16 bytes of `r` taken from the key, with the Poly1305 clamping applied.
pub open spec fn clamped_r(k: Seq<u8>) -> Seq<u8> {
    Seq::new(
        16,
        |i: int|
            if i == 3 || i == 7 || i == 11 || i == 15 {
                k[i] & 15u8
            } else if i == 4 || i == 8 || i == 12 {
                k[i] & 252u8
            } else {
                k[i]
            },
    )
}

/// The Poly1305 accumulator after the blocks of `m`, starting from `acc`: each block of up
/// to 16 bytes, with a 1 appended above its last byte, is added and the sum multiplied by `r`
/// modulo 2^130 - 5.
pub open spec fn poly_blocks(m: Seq<u8>, r: int, acc: int) -> int
    decreases m.len(),
{
    if m.len() == 0 {
        acc
    } else {
        let n = if m.len() < 16 { m.len() as int } else { 16 };
        poly_blocks(
            m.subrange(n, m.len() as int),
            r,
            ((acc + le_value(m.subrange(0, n)) + b8(n)) * r) % p1305(),
        )
    }
}

/// The Poly1305 tag of message `m` under the 32-byte key `k`, as a number below 2^128.
pub open spec fn poly1305_tag_value(m: Seq<u8>, k: Seq<u8>) -> int {
    (poly_blocks(m, le_value(clamped_r(k)), 0) + le_value(k.subrange(16, 32))) % b8(16)
}

pub proof fn lemma_b8_values()
    ensures
        b8(0) == 1,
        b8(16) == pow2(128),
        b8(17) == 256 * pow2(128),
        pow2(130) == 4 * pow2(128),
        pow2(128) >= 0x1_0000_0000,
        p1305() == 4 * b8(16) - 5,
{
    lemma2_to64();
    vstd::arithmetic::power2::lemma2_to64_rest();
    lemma_pow2_adds(128, 8);
    lemma_pow2_adds(128, 2);
    lemma_pow2_adds(32, 96);
    lemma_pow2_pos(96);
    lemma_mul_inequality(1, pow2(96) as int, pow2(32) as int);
    lemma_mul_is_commutative(pow2(96) as int, pow2(32) as int);
    assert((8 * 16int) as nat == 128);
    assert((8 * 17int) as nat == 136);
}

/// `limbs_val` reads only the first `n` digits.
pub proof fn lemma_limbs_frame(s1: Seq<u32>, s2: Seq<u32>, n: int)
    requires
        0 <= n <= s1.len(),
        n <= s2.len(),
        forall|k: int| 0 <= k < n ==> s1[k] == s2[k],
    ensures
        limbs_val(s1, n) == limbs_val(s2, n),
    decreases n,
{
    if n > 0 {
        lemma_limbs_frame(s1, s2, n - 1);
    }
}

/// Digits below 256 give a number below 256^n.
pub proof fn lemma_limbs_bound(s: Seq<u32>, n: int)
    requires
        0 <= n <= s.len(),
        forall|k: int| 0 <= k < n ==> s[k] < 256,
    ensures
        0 <= limbs_val(s, n) < b8(n),
    decreases n,
{
    lemma_b8_values();
    if n > 0 {
        lemma_limbs_bound(s, n - 1);
        lemma_b8_step(n - 1);
        lemma_mul_inequality(s[n - 1] as int, 255, b8(n - 1));
        lemma_mul_nonnegative(s[n - 1] as int, b8(n - 1));
    }
}

/// One step of a carry chain: `u` plus a digit, split into the low byte and the carry.
proof fn lemma_carry_step(v: int, u: int, j: int)
    requires
        j >= 0,
        v >= 0,
    ensures
        (v % 256) * b8(j) + (v / 256) * b8(j + 1) == v * b8(j),
{
    lemma_b8_step(j);
    lemma_fundamental_div_mod(v, 256);
    lemma_mul_is_associative(v / 256, 256, b8(j));
    lemma_mul_is_distributive_add(b8(j), 256 * (v / 256), v % 256);
    lemma_mul_is_commutative(b8(j), 256 * (v / 256));
    lemma_mul_is_commutative(b8(j), v % 256);
    lemma_mul_is_commutative(b8(j), v);
    lemma_mul_is_commutative(v / 256, 256);
}

/// `h = (h + c) mod 2^136`, with the result in normalized 8-bit limbs.
fn add1305(h: &mut [u32; 17], c: &[u32; 17])
    requires
        forall|j: int| 0 <= j < 17 ==> old(h)@[j] < 0x10000,
        forall|j: int| 0 <= j < 17 ==> c@[j] < 0x10000,
    ensures
        forall|j: int| 0 <= j < 17 ==> final(h)@[j] < 256,
        limbs_val(final(h)@, 17) == (limbs_val(old(h)@, 17) + limbs_val(c@, 17)) % b8(17),
{
    let ghost h0 = old(h)@;
    let mut u = 0u32;
    let mut j: usize = 0;
    while j < 17
        invariant
            j <= 17,
            u < 0x400,
            h0.len() == 17,
            forall|k: int| 0 <= k < 17 ==> h0[k] < 0x10000,
            forall|k: int| 0 <= k < 17 ==> c@[k] < 0x10000,
            forall|k: int| j <= k < 17 ==> h@[k] == h0[k],
            forall|k: int| 0 <= k < j ==> h@[k] < 256,
            limbs_val(h@, j as int) + u * b8(j as int) == limbs_val(h0, j as int) + limbs_val(
                c@,
                j as int,
            ),
        decreases 17 - j,
    {
        let ghost hp = h@;
        let ghost u0 = u;
        assert(h@[j as int] == h0[j as int] && h0[j as int] < 0x10000 && c@[j as int] < 0x10000);
        let v = u + h[j] + c[j];
        h[j] = v & 255;
        u = v >> 8;
        assert(v & 255 == v % 256 && v >> 8 == v / 256) by (bit_vector);
        proof {
            let jj = j as int;
            let b = b8(jj);
            lemma_carry_step(v as int, 0, jj);
            lemma_limbs_frame(h@, hp, jj);
            assert(limbs_val(h@, jj + 1) == limbs_val(hp, jj) + (v % 256) * b);
            assert(limbs_val(h0, jj + 1) == limbs_val(h0, jj) + h0[jj] * b);
            assert(limbs_val(c@, jj + 1) == limbs_val(c@, jj) + c@[jj] * b);
            assert(v * b == u0 * b + h0[jj] * b + c@[jj] * b) by {
                lemma_mul_is_distributive_add(b, u0 + h0[jj], c@[jj] as int);
                lemma_mul_is_distributive_add(b, u0 as int, h0[jj] as int);
                lemma_mul_is_commutative(b, u0 as int);
                lemma_mul_is_commutative(b, h0[jj] as int);
                lemma_mul_is_commutative(b, c@[jj] as int);
                lemma_mul_is_commutative(b, v as int);
            }
        }
        j += 1;
    }
    proof {
        lemma_limbs_bound(h@, 17);
        lemma_b8_values();
        lemma_fundamental_div_mod_converse(
            limbs_val(h0, 17) + limbs_val(c@, 17),
            b8(17),
            u as int,
            limbs_val(h@, 17),
        );
        lemma_mul_is_commutative(u as int, b8(17));
    }
}

/// The factor applied to `r[.]` when digit `j` of `h` meets row `i` of the product; digits
/// that pass 2^136 come back multiplied by 320, since 2^136 = 320 modulo 2^130 - 5.
pub open spec fn coef(r: Seq<u32>, i: int, j: int) -> int {
    if j <= i {
        r[i - j] as int
    } else {
        320 * r[i + 17 - j]
    }
}

/// Row `i` of the product of `h` and `r`, over the digits `h[0..n]`.
pub open spec fn rowp(h: Seq<u32>, r: Seq<u32>, i: int, n: int) -> int
    decreases n,
{
    if n <= 0 {
        0
    } else {
        rowp(h, r, i, n - 1) + h[n - 1] * coef(r, i, n - 1)
    }
}

/// The sum over `j < m` of `f(i, j)`.
pub open spec fn sum_j(f: spec_fn(int, int) -> int, i: int, m: int) -> int
    decreases m,
{
    if m <= 0 {
        0
    } else {
        sum_j(f, i, m - 1) + f(i, m - 1)
    }
}

/// The sum over `i < n` of `f(i, j)`.
pub open spec fn sum_i(f: spec_fn(int, int) -> int, n: int, j: int) -> int
    decreases n,
{
    if n <= 0 {
        0
    } else {
        sum_i(f, n - 1, j) + f(n - 1, j)
    }
}

/// The sum by rows of `f` over `i < n`, `j < m`.
pub open spec fn rows(f: spec_fn(int, int) -> int, n: int, m: int) -> int
    decreases n,
{
    if n <= 0 {
        0
    } else {
        rows(f, n - 1, m) + sum_j(f, n - 1, m)
    }
}

/// The sum by columns of `f` over `i < n`, `j < m`.
pub open spec fn cols(f: spec_fn(int, int) -> int, n: int, m: int) -> int
    decreases m,
{
    if m <= 0 {
        0
    } else {
        cols(f, n, m - 1) + sum_i(f, n, m - 1)
    }
}

proof fn lemma_cols_step(f: spec_fn(int, int) -> int, n: int, m: int)
    requires
        n >= 0,
        m >= 0,
    ensures
        cols(f, n + 1, m) == cols(f, n, m) + sum_j(f, n, m),
    decreases m,
{
    if m > 0 {
        lemma_cols_step(f, n, m - 1);
    }
}

proof fn lemma_rows_cols(f: spec_fn(int, int) -> int, n: int, m: int)
    requires
        n >= 0,
        m >= 0,
    ensures
        rows(f, n, m) == cols(f, n, m),
    decreases n,
{
    if n == 0 {
        lemma_cols_zero(f, m);
    } else {
        lemma_rows_cols(f, n - 1, m);
        lemma_cols_step(f, n - 1, m);
    }
}

proof fn lemma_cols_zero(f: spec_fn(int, int) -> int, m: int)
    requires
        m >= 0,
    ensures
        cols(f, 0, m) == 0,
    decreases m,
{
    if m > 0 {
        lemma_cols_zero(f, m - 1);
    }
}

/// Row `i` of the product, weighted by its place value.
proof fn lemma_sum_j_row(h: Seq<u32>, r: Seq<u32>, i: int, m: int)
    requires
        m >= 0,
    ensures
        sum_j(|a: int, b: int| h[b] * coef(r, a, b) * b8(a), i, m) == rowp(h, r, i, m) * b8(i),
    decreases m,
{
    if m > 0 {
        lemma_sum_j_row(h, r, i, m - 1);
        lemma_mul_is_distributive_add(b8(i), rowp(h, r, i, m - 1), h[m - 1] * coef(r, i, m - 1));
        lemma_mul_is_commutative(b8(i), rowp(h, r, i, m - 1));
        lemma_mul_is_commutative(b8(i), rowp(h, r, i, m));
        lemma_mul_is_commutative(b8(i), h[m - 1] * coef(r, i, m - 1));
    }
}

/// The place-weighted sum of column `j`'s factors over rows `i < n`.
pub open spec fn colsum(r: Seq<u32>, j: int, n: int) -> int
    decreases n,
{
    if n <= 0 {
        0
    } else {
        colsum(r, j, n - 1) + coef(r, n - 1, j) * b8(n - 1)
    }
}

/// The digits of `r` that column `j` wraps around, `r[17 - j..17 - j + n]`, as a number.
pub open spec fn wrapped(r: Seq<u32>, j: int, n: int) -> int
    decreases n,
{
    if n <= 0 {
        0
    } else {
        wrapped(r, j, n - 1) + r[n - 1 + 17 - j] * b8(n - 1)
    }
}

proof fn lemma_sum_i_col(h: Seq<u32>, r: Seq<u32>, n: int, j: int)
    requires
        n >= 0,
    ensures
        sum_i(|a: int, b: int| h[b] * coef(r, a, b) * b8(a), n, j) == h[j] * colsum(r, j, n),
    decreases n,
{
    if n > 0 {
        lemma_sum_i_col(h, r, n - 1, j);
        lemma_mul_is_associative(h[j] as int, coef(r, n - 1, j), b8(n - 1));
        lemma_mul_is_distributive_add(h[j] as int, colsum(r, j, n - 1), coef(r, n - 1, j) * b8(n - 1));
    }
}


proof fn lemma_colsum_low(r: Seq<u32>, j: int, n: int)
    requires
        0 <= n <= j,
    ensures
        colsum(r, j, n) == 320 * wrapped(r, j, n),
    decreases n,
{
    if n > 0 {
        lemma_colsum_low(r, j, n - 1);
        lemma_mul_is_associative(320, r[n - 1 + 17 - j] as int, b8(n - 1));
    }
}

proof fn lemma_colsum_high(r: Seq<u32>, j: int, n: int)
    requires
        0 <= j <= n,
    ensures
        colsum(r, j, n) == 320 * wrapped(r, j, j) + b8(j) * limbs_val(r, n - j),
    decreases n,
{
    if n == j {
        lemma_colsum_low(r, j, j);
    } else {
        lemma_colsum_high(r, j, n - 1);
        lemma_b8_adds(j, n - 1 - j);
        lemma_mul_is_associative(b8(j), b8(n - 1 - j), r[n - 1 - j] as int);
        lemma_mul_is_commutative(b8(n - 1 - j), r[n - 1 - j] as int);
        lemma_mul_is_commutative(b8(n - 1), r[n - 1 - j] as int);
        lemma_mul_is_distributive_add(b8(j), limbs_val(r, n - 1 - j), r[n - 1 - j] * b8(n - 1 - j));
    }
}

proof fn lemma_limbs_split(r: Seq<u32>, j: int, m: int)
    requires
        0 <= j <= 17,
        0 <= m <= j,
    ensures
        limbs_val(r, 17 - j + m) == limbs_val(r, 17 - j) + b8(17 - j) * wrapped(r, j, m),
    decreases m,
{
    if m > 0 {
        lemma_limbs_split(r, j, m - 1);
        lemma_b8_adds(17 - j, m - 1);
        lemma_mul_is_associative(b8(17 - j), b8(m - 1), r[m - 1 + 17 - j] as int);
        lemma_mul_is_commutative(b8(m - 1), r[m - 1 + 17 - j] as int);
        lemma_mul_is_commutative(b8(17 - j + m - 1), r[m - 1 + 17 - j] as int);
        lemma_mul_is_distributive_add(b8(17 - j), wrapped(r, j, m - 1), r[m - 1 + 17 - j] * b8(m - 1));
    }
}

/// Column `j` of the product contributes `256^j * r`, less a multiple of `64 p`.
proof fn lemma_colsum_full(r: Seq<u32>, j: int)
    requires
        0 <= j < 17,
    ensures
        colsum(r, j, 17) == b8(j) * limbs_val(r, 17) - 64 * p1305() * wrapped(r, j, j),
{
    lemma_colsum_high(r, j, 17);
    lemma_limbs_split(r, j, j);
    lemma_b8_adds(j, 17 - j);
    lemma_b8_values();
    let t = wrapped(r, j, j);
    lemma_mul_is_distributive_add(b8(j), limbs_val(r, 17 - j), b8(17 - j) * t);
    lemma_mul_is_associative(b8(j), b8(17 - j), t);
    assert(b8(17) * t - 320 * t == 64 * p1305() * t) by (nonlinear_arith)
        requires
            b8(17) == 256 * pow2(128),
            p1305() == 4 * pow2(128) - 5,
    ;
}

/// The weighted sum `sum_{j < m} h[j] * colsum(r, j, 17)`.
pub open spec fn colsums(h: Seq<u32>, r: Seq<u32>, m: int) -> int
    decreases m,
{
    if m <= 0 {
        0
    } else {
        colsums(h, r, m - 1) + h[m - 1] * colsum(r, m - 1, 17)
    }
}

pub open spec fn wraps(h: Seq<u32>, r: Seq<u32>, m: int) -> int
    decreases m,
{
    if m <= 0 {
        0
    } else {
        wraps(h, r, m - 1) + h[m - 1] * wrapped(r, m - 1, m - 1)
    }
}

proof fn lemma_colsums(h: Seq<u32>, r: Seq<u32>, m: int)
    requires
        0 <= m <= 17,
    ensures
        colsums(h, r, m) == limbs_val(h, m) * limbs_val(r, 17) - 64 * p1305() * wraps(h, r, m),
    decreases m,
{
    if m > 0 {
        lemma_colsums(h, r, m - 1);
        lemma_colsum_full(r, m - 1);
        let a = h[m - 1] as int;
        let bj = b8(m - 1);
        let vr = limbs_val(r, 17);
        let t = wrapped(r, m - 1, m - 1);
        let q = 64 * p1305();
        assert(a * (bj * vr - q * t) == (a * bj) * vr - q * (a * t)) by (nonlinear_arith);
        assert(limbs_val(h, m - 1) * vr + (a * bj) * vr == limbs_val(h, m) * vr) by (nonlinear_arith)
            requires
                limbs_val(h, m) == limbs_val(h, m - 1) + a * bj,
        ;
        assert(q * wraps(h, r, m - 1) + q * (a * t) == q * wraps(h, r, m)) by (nonlinear_arith)
            requires
                wraps(h, r, m) == wraps(h, r, m - 1) + a * t,
        ;
    }
}

/// The product rows of `h` and `r`, weighted by place value, agree with `h * r` modulo
/// 2^130 - 5.
proof fn lemma_product_rows(h: Seq<u32>, r: Seq<u32>, x: Seq<u32>)
    requires
        h.len() == 17,
        r.len() == 17,
        x.len() == 17,
        forall|i: int| 0 <= i < 17 ==> x[i] == #[trigger] rowp(h, r, i, 17),
    ensures
        limbs_val(x, 17) % p1305() == (limbs_val(h, 17) * limbs_val(r, 17)) % p1305(),
{
    let f = |a: int, b: int| h[b] * coef(r, a, b) * b8(a);
    lemma_rows_cols(f, 17, 17);
    lemma_rows_are_limbs(h, r, x, 17);
    lemma_cols_are_colsums(h, r, 17);
    lemma_colsums(h, r, 17);
    lemma_b8_values();
    lemma_mod_multiples_vanish(
        -64 * wraps(h, r, 17),
        limbs_val(h, 17) * limbs_val(r, 17),
        p1305(),
    );
    assert(p1305() * (-64 * wraps(h, r, 17)) == -(64 * p1305() * wraps(h, r, 17))) by (nonlinear_arith);
}

proof fn lemma_rows_are_limbs(h: Seq<u32>, r: Seq<u32>, x: Seq<u32>, n: int)
    requires
        0 <= n <= 17,
        x.len() == 17,
        forall|i: int| 0 <= i < 17 ==> x[i] == #[trigger] rowp(h, r, i, 17),
    ensures
        rows(|a: int, b: int| h[b] * coef(r, a, b) * b8(a), n, 17) == limbs_val(x, n),
    decreases n,
{
    if n > 0 {
        lemma_rows_are_limbs(h, r, x, n - 1);
        lemma_sum_j_row(h, r, n - 1, 17);
        assert(x[n - 1] == rowp(h, r, n - 1, 17));
    }
}

proof fn lemma_cols_are_colsums(h: Seq<u32>, r: Seq<u32>, m: int)
    requires
        0 <= m <= 17,
    ensures
        cols(|a: int, b: int| h[b] * coef(r, a, b) * b8(a), 17, m) == colsums(h, r, m),
    decreases m,
{
    if m > 0 {
        lemma_cols_are_colsums(h, r, m - 1);
        lemma_sum_i_col(h, r, 17, m - 1);
    }
}

proof fn lemma_rowp_bound(h: Seq<u32>, r: Seq<u32>, i: int, n: int)
    requires
        0 <= i < 17,
        0 <= n <= 17,
        h.len() == 17,
        r.len() == 17,
        forall|k: int| 0 <= k < 17 ==> h[k] < 256,
        forall|k: int| 0 <= k < 17 ==> r[k] < 256,
    ensures
        0 <= rowp(h, r, i, n) <= n * 20_808_000,
    decreases n,
{
    if n > 0 {
        lemma_rowp_bound(h, r, i, n - 1);
        let a = h[n - 1] as int;
        let c = coef(r, i, n - 1);
        assert(0 <= c <= 81600);
        lemma_mul_upper_bound(a, 255, c, 81600);
        lemma_mul_nonnegative(a, c);
    }
}

/// The seventeen rows of the product of `h` and `r`, before any carrying.
fn mul1305(h: &[u32; 17], r: &[u32; 17]) -> (x: [u32; 17])
    requires
        forall|k: int| 0 <= k < 17 ==> h@[k] < 256,
        forall|k: int| 0 <= k < 17 ==> r@[k] < 256,
    ensures
        forall|i: int| 0 <= i < 17 ==> x@[i] == #[trigger] rowp(h@, r@, i, 17),
        forall|i: int| 0 <= i < 17 ==> x@[i] < 0x2000_0000,
{
    let mut x = [0u32; 17];
    let mut i: usize = 0;
    while i < 17
        invariant
            i <= 17,
            forall|k: int| 0 <= k < 17 ==> h@[k] < 256,
            forall|k: int| 0 <= k < 17 ==> r@[k] < 256,
            forall|a: int| 0 <= a < i ==> x@[a] == #[trigger] rowp(h@, r@, a, 17),
            forall|a: int| 0 <= a < i ==> x@[a] < 0x2000_0000,
            forall|a: int| i <= a < 17 ==> x@[a] == 0,
        decreases 17 - i,
    {
        let mut j: usize = 0;
        while j < 17
            invariant
                i < 17,
                j <= 17,
                forall|k: int| 0 <= k < 17 ==> h@[k] < 256,
                forall|k: int| 0 <= k < 17 ==> r@[k] < 256,
                forall|a: int| 0 <= a < i ==> x@[a] == #[trigger] rowp(h@, r@, a, 17),
                forall|a: int| 0 <= a < i ==> x@[a] < 0x2000_0000,
                forall|a: int| i < a < 17 ==> x@[a] == 0,
                x@[i as int] == rowp(h@, r@, i as int, j as int),
            decreases 17 - j,
        {
            proof {
                lemma_rowp_bound(h@, r@, i as int, j as int + 1);
            }
            let f = if j <= i { r[i - j] } else { 320 * r[i + 17 - j] };
            proof {
                lemma_mul_upper_bound(h@[j as int] as int, 255, f as int, 81600);
            }
            x[i] = x[i] + h[j] * f;
            j += 1;
        }
        proof {
            lemma_rowp_bound(h@, r@, i as int, 17);
        }
        i += 1;
    }
    x
}

/// Carries the digits `h[0..16]` into bytes, starting from `u_in`; returns the carry out.
fn carry16(h: &mut [u32; 17], u_in: u32) -> (u_out: u32)
    requires
        forall|k: int| 0 <= k < 16 ==> old(h)@[k] < 0x4000_0000,
        u_in < 0x8000_0000,
    ensures
        forall|k: int| 0 <= k < 16 ==> final(h)@[k] < 256,
        final(h)@[16] == old(h)@[16],
        limbs_val(final(h)@, 16) + u_out * b8(16) == limbs_val(old(h)@, 16) + u_in,
        u_out < 0x100_0000,
{
    let ghost h0 = old(h)@;
    let mut u = u_in;
    let mut j: usize = 0;
    proof {
        lemma_b8_values();
    }
    while j < 16
        invariant
            j <= 16,
            u < 0x8000_0000,
            h0.len() == 17,
            j > 0 ==> u < 0x100_0000,
            forall|k: int| 0 <= k < 16 ==> h0[k] < 0x4000_0000,
            forall|k: int| j <= k < 17 ==> h@[k] == h0[k],
            forall|k: int| 0 <= k < j ==> h@[k] < 256,
            limbs_val(h@, j as int) + u * b8(j as int) == limbs_val(h0, j as int) + u_in,
        decreases 16 - j,
    {
        let ghost hp = h@;
        let ghost u0 = u;
        assert(h@[j as int] == h0[j as int] && h0[j as int] < 0x4000_0000);
        let v = u + h[j];
        h[j] = v & 255;
        u = v >> 8;
        assert(v & 255 == v % 256 && v >> 8 == v / 256) by (bit_vector);
        proof {
            let jj = j as int;
            let b = b8(jj);
            lemma_carry_step(v as int, 0, jj);
            lemma_limbs_frame(h@, hp, jj);
            assert(limbs_val(h@, jj + 1) == limbs_val(hp, jj) + (v % 256) * b);
            assert(limbs_val(h0, jj + 1) == limbs_val(h0, jj) + h0[jj] * b);
            assert(v * b == u0 * b + h0[jj] * b) by {
                lemma_mul_is_distributive_add(b, u0 as int, h0[jj] as int);
                lemma_mul_is_commutative(b, u0 as int);
                lemma_mul_is_commutative(b, h0[jj] as int);
                lemma_mul_is_commutative(b, v as int);
            }
        }
        j += 1;
    }
    u
}

/// Reduces the product rows to digits below 256 (below 5 for the top one), keeping the value
/// modulo 2^130 - 5.
fn reduce1305(x: &[u32; 17]) -> (h: [u32; 17])
    requires
        forall|i: int| 0 <= i < 17 ==> x@[i] < 0x2000_0000,
    ensures
        forall|k: int| 0 <= k < 16 ==> h@[k] < 256,
        h@[16] <= 4,
        limbs_val(h@, 17) % p1305() == limbs_val(x@, 17) % p1305(),
{
    let mut h = [0u32; 17];
    let mut i: usize = 0;
    while i < 17
        invariant
            i <= 17,
            forall|k: int| 0 <= k < i ==> h@[k] == x@[k],
        decreases 17 - i,
    {
        h[i] = x[i];
        i += 1;
    }
    assert(h@ =~= x@);
    let ghost hx = h@;
    let u = carry16(&mut h, 0);
    let ghost ha = h@;
    let u2 = u + h[16];
    h[16] = u2 & 3;
    let q = u2 >> 2;
    assert(u2 & 3 == u2 % 4 && u2 >> 2 == u2 / 4) by (bit_vector);
    let ghost hb = h@;
    proof {
        lemma_limbs_frame(hb, ha, 16);
    }
    let u3 = carry16(&mut h, 5 * q);
    let ghost hc = h@;
    proof {
        lemma_limbs_bound(ha, 16);
        lemma_limbs_bound(hc, 16);
        lemma_b8_values();
        assert(u3 <= 1) by (nonlinear_arith)
            requires
                limbs_val(hc, 16) + u3 * b8(16) == limbs_val(hb, 16) + 5 * q,
                limbs_val(hb, 16) == limbs_val(ha, 16),
                0 <= limbs_val(ha, 16) < b8(16),
                0 <= limbs_val(hc, 16),
                b8(16) >= 0x1_0000_0000,
                q < 0x1000_0000,
        ;
    }
    h[16] = h[16] + u3;
    proof {
        let p = p1305();
        lemma_limbs_frame(h@, hc, 16);
        let vx = limbs_val(x@, 17);
        assert(vx == limbs_val(x@, 16) + x@[16] * b8(16));
        assert(limbs_val(h@, 17) == limbs_val(hc, 16) + h@[16] * b8(16));
        assert(limbs_val(h@, 17) == vx - q * p) by (nonlinear_arith)
            requires
                limbs_val(h@, 17) == limbs_val(hc, 16) + h@[16] * b8(16),
                h@[16] == u2 % 4 + u3,
                limbs_val(hc, 16) + u3 * b8(16) == limbs_val(ha, 16) + 5 * q,
                limbs_val(ha, 16) + u * b8(16) == limbs_val(x@, 16),
                vx == limbs_val(x@, 16) + x@[16] * b8(16),
                u2 == u + x@[16],
                u2 == 4 * q + u2 % 4,
                p == 4 * b8(16) - 5,
        ;
        lemma_mod_multiples_vanish(-q, vx, p);
        assert(p * (-q) + vx == vx - q * p) by (nonlinear_arith);
    }
    h
}

proof fn lemma_limbs_bytes(c: Seq<u32>, b: Seq<u8>, n: int)
    requires
        0 <= n <= c.len(),
        n <= b.len(),
        forall|k: int| 0 <= k < n ==> c[k] == b[k] as u32,
    ensures
        limbs_val(c, n) == bytes_val(b, n),
    decreases n,
{
    if n > 0 {
        lemma_limbs_bytes(c, b, n - 1);
    }
}

/// Zero digits above `a` add nothing.
proof fn lemma_limbs_zeros(c: Seq<u32>, a: int, n: int)
    requires
        0 <= a <= n <= c.len(),
        forall|k: int| a <= k < n ==> c[k] == 0,
    ensures
        limbs_val(c, n) == limbs_val(c, a),
    decreases n,
{
    if n > a {
        lemma_limbs_zeros(c, a, n - 1);
    }
}

proof fn lemma_limbs_top(c: Seq<u32>)
    requires
        c.len() == 17,
        forall|k: int| 0 <= k < 16 ==> c[k] < 256,
    ensures
        limbs_val(c, 17) == limbs_val(c, 16) + c[16] * b8(16),
        0 <= limbs_val(c, 16) < b8(16),
{
    lemma_limbs_bound(c, 16);
}

/// The 17 digits of a message block: its bytes, then a 1 just above them.
fn load_block(m: &[u8], pos: usize, j_end: usize) -> (c: [u32; 17])
    requires
        pos + j_end <= m.len(),
        j_end <= 16,
    ensures
        forall|k: int| 0 <= k < 17 ==> c@[k] <= 256,
        limbs_val(c@, 17) == le_value(m@.subrange(pos as int, pos + j_end)) + b8(j_end as int),
{
    let mut c = [0u32; 17];
    let mut j: usize = 0;
    while j < j_end
        invariant
            j <= j_end <= 16,
            pos + j_end <= m.len(),
            forall|k: int| 0 <= k < j ==> c@[k] == m@[pos + k] as u32,
            forall|k: int| j <= k < 17 ==> c@[k] == 0,
        decreases j_end - j,
    {
        c[j] = m[pos + j] as u32;
        j += 1;
    }
    c[j_end] = 1;
    proof {
        let chunk = m@.subrange(pos as int, pos + j_end);
        let n = j_end as int;
        assert forall|k: int| 0 <= k < n implies c@[k] == chunk[k] as u32 by {
            assert(chunk[k] == m@[pos + k]);
        }
        lemma_limbs_bytes(c@, chunk, n);
        assert(forall|k: int| n + 1 <= k < 17 ==> c@[k] == 0);
        lemma_limbs_zeros(c@, n + 1, 17);
        assert(c@[n] == 1);
        assert(limbs_val(c@, n + 1) == limbs_val(c@, n) + c@[n] * b8(n));
        assert(chunk.len() == n);
        assert(le_value(chunk) == bytes_val(chunk, n));
    }
    c
}

/// `((a mod p + l) * r) mod p == ((a + l) * r) mod p`.
proof fn lemma_acc_step(a: int, l: int, r: int)
    ensures
        (((a % p1305()) + l) * r) % p1305() == ((a + l) * r) % p1305(),
{
    let p = p1305();
    lemma_b8_values();
    lemma_add_mod_noop(a, l, p);
    lemma_add_mod_noop(a % p, l, p);
    vstd::arithmetic::div_mod::lemma_mod_twice(a, p);
    vstd::arithmetic::div_mod::lemma_mul_mod_noop_left((a % p) + l, r, p);
    vstd::arithmetic::div_mod::lemma_mul_mod_noop_left(a + l, r, p);
}

/// The constant 2^136 - (2^130 - 5), in 8-bit digits.
const MINUSP: [u32; 17] = [5, 0, 0, 0, 0, 0, 0, 0, 0, 0, 0, 0, 0, 0, 0, 0, 252];

/// Reduces `h` (below 5 * 2^128) fully modulo 2^130 - 5, in constant time.
fn freeze1305(h: &mut [u32; 17])
    requires
        forall|k: int| 0 <= k < 16 ==> old(h)@[k] < 256,
        old(h)@[16] <= 4,
    ensures
        forall|k: int| 0 <= k < 17 ==> final(h)@[k] < 256,
        limbs_val(final(h)@, 17) == limbs_val(old(h)@, 17) % p1305(),
{
    let g = *h;
    let ghost a = limbs_val(g@, 17);
    let ghost p = p1305();
    proof {
        lemma_limbs_top(g@);
        lemma_b8_values();
        assert(MINUSP@[0] == 5 && MINUSP@[16] == 252);
        lemma_limbs_zeros(MINUSP@, 1, 16);
        lemma_limbs_top(MINUSP@);
        assert(limbs_val(MINUSP@, 0) == 0);
        assert(limbs_val(MINUSP@, 1) == 5);
        assert(0 <= a < 5 * b8(16)) by (nonlinear_arith)
            requires
                a == limbs_val(g@, 16) + g@[16] * b8(16),
                0 <= limbs_val(g@, 16) < b8(16),
                g@[16] <= 4,
                b8(16) > 0,
        ;
    }
    add1305(h, &MINUSP);
    let ghost hm = h@;
    proof {
        let mv = limbs_val(MINUSP@, 17);
        assert(mv == 5 + 252 * b8(16));
        lemma_limbs_top(hm);
        if a >= p {
            lemma_fundamental_div_mod_converse(a + mv, b8(17), 1, a - p);
            assert(hm[16] < 128) by (nonlinear_arith)
                requires
                    limbs_val(hm, 17) == limbs_val(hm, 16) + hm[16] * b8(16),
                    limbs_val(hm, 17) == a - p,
                    a < 5 * b8(16),
                    p == 4 * b8(16) - 5,
                    0 <= limbs_val(hm, 16),
                    b8(16) >= 0x1_0000_0000,
            ;
            lemma_small_mod((a - p) as nat, p as nat);
            lemma_mod_multiples_vanish(1, a - p, p);
        } else {
            lemma_fundamental_div_mod_converse(a + mv, b8(17), 0, a + mv);
            assert(hm[16] >= 128) by (nonlinear_arith)
                requires
                    limbs_val(hm, 17) == limbs_val(hm, 16) + hm[16] * b8(16),
                    limbs_val(hm, 17) == a + mv,
                    mv == 5 + 252 * b8(16),
                    a >= 0,
                    limbs_val(hm, 16) < b8(16),
                    b8(16) >= 0x1_0000_0000,
            ;
            lemma_small_mod(a as nat, p as nat);
        }
    }
    let h16 = h[16];
    let t = h16 >> 7;
    let s: u32 = (-(t as i32)) as u32;
    assert((h16 < 128 ==> s == 0) && (128 <= h16 < 256 ==> s == 0xffff_ffff)) by (bit_vector)
        requires
            t == h16 >> 7u32,
            s == (-(t as i32)) as u32,
    ;
    let mut j: usize = 0;
    while j < 17
        invariant
            j <= 17,
            s == 0 || s == 0xffff_ffff,
            forall|k: int| 0 <= k < j ==> h@[k] == (if s == 0 { hm[k] } else { g@[k] }),
            forall|k: int| j <= k < 17 ==> h@[k] == hm[k],
        decreases 17 - j,
    {
        let gj = g[j];
        let hj = h[j];
        let v = hj ^ (s & (gj ^ hj));
        assert((s == 0 ==> v == hj) && (s == 0xffff_ffff ==> v == gj)) by (bit_vector)
            requires
                v == hj ^ (s & (gj ^ hj)),
        ;
        h[j] = v;
        j += 1;
    }
    proof {
        if s == 0 {
            assert(h@ =~= hm);
        } else {
            assert(h@ =~= g@);
        }
    }
}

pub const ONETIMEAUTH_KEY_LEN: usize = 32;
pub const ONETIMEAUTH_HASH_LEN: usize = 16;
pub type OnetimeauthKey = [u8; ONETIMEAUTH_KEY_LEN];
pub type OnetimeauthHash = [u8; ONETIMEAUTH_HASH_LEN];

/// Authenticates the message `m` under the secret one-time key `k`: `out` receives the
/// Poly1305 tag, the little-endian encoding of `(poly(m, r) + s) mod 2^128`, where `r` is the
/// clamped first half of the key and `s` its second half.
pub fn onetimeauth(out: &mut OnetimeauthHash, m: &[u8], k: &OnetimeauthKey)
    ensures
        le_value(final(out)@) == poly1305_tag_value(m@, k@),
{
    let mut r = [0u32; 17];
    let mut h = [0u32; 17];
    let mut j: usize = 0;
    while j < 16
        invariant
            j <= 16,
            forall|i: int| 0 <= i < j ==> r@[i] == k@[i] as u32,
            forall|i: int| j <= i < 17 ==> r@[i] == 0,
        decreases 16 - j,
    {
        r[j] = k[j] as u32;
        j += 1;
    }
    r[3] &= 15;
    r[4] &= 252;
    r[7] &= 15;
    r[8] &= 252;
    r[11] &= 15;
    r[12] &= 252;
    r[15] &= 15;
    let ghost cl = clamped_r(k@);
    let ghost rv = le_value(cl);
    proof {
        assert forall|i: int| 0 <= i < 16 implies r@[i] == cl[i] as u32 && r@[i] < 256 by {
            let b = k@[i];
            assert(((b as u32) & 15u32) == ((b & 15u8) as u32)) by (bit_vector);
            assert(((b as u32) & 252u32) == ((b & 252u8) as u32)) by (bit_vector);
        }
        lemma_limbs_bytes(r@, cl, 16);
        lemma_limbs_top(r@);
        assert(limbs_val(r@, 17) == rv);
        lemma_limbs_zeros(h@, 0, 17);
        assert(limbs_val(h@, 0) == 0);
        lemma_b8_values();
        assert(0int % p1305() == 0);
        assert(m@.subrange(0, m@.len() as int) =~= m@);
    }
    let len = m.len();
    let mut pos: usize = 0;
    while pos < len
        invariant
            len == m@.len(),
            pos <= len,
            forall|i: int| 0 <= i < 16 ==> h@[i] < 256,
            h@[16] <= 4,
            forall|i: int| 0 <= i < 17 ==> r@[i] < 256,
            limbs_val(r@, 17) == rv,
            poly_blocks(m@, rv, 0) == poly_blocks(
                m@.subrange(pos as int, len as int),
                rv,
                limbs_val(h@, 17) % p1305(),
            ),
        decreases len - pos,
    {
        let j_end = if len - pos < 16 { len - pos } else { 16 };
        let c = load_block(m, pos, j_end);
        let ghost hv = limbs_val(h@, 17);
        let ghost chunk = m@.subrange(pos as int, pos + j_end);
        proof {
            let msub = m@.subrange(pos as int, len as int);
            assert(msub.subrange(0, j_end as int) =~= chunk);
            assert(msub.subrange(j_end as int, msub.len() as int) =~= m@.subrange(
                pos + j_end,
                len as int,
            ));
            lemma_limbs_top(h@);
            lemma_bytes_bound(chunk, j_end as int);
            lemma_b8_values();
            assert(b8(j_end as int) <= b8(16)) by {
                if j_end < 16 {
                    vstd::arithmetic::power2::lemma_pow2_strictly_increases((8 * j_end) as nat, 128);
                }
            }
            assert(0 <= hv < 5 * b8(16)) by (nonlinear_arith)
                requires
                    hv == limbs_val(h@, 16) + h@[16] * b8(16),
                    0 <= limbs_val(h@, 16) < b8(16),
                    h@[16] <= 4,
                    b8(16) > 0,
            ;
        }
        pos = pos + j_end;
        add1305(&mut h, &c);
        proof {
            lemma_small_mod((hv + limbs_val(c@, 17)) as nat, b8(17) as nat);
        }
        let x = mul1305(&h, &r);
        proof {
            lemma_product_rows(h@, r@, x@);
            lemma_acc_step(hv, le_value(chunk) + b8(j_end as int), rv);
        }
        h = reduce1305(&x);
    }
    proof {
        assert(m@.subrange(pos as int, len as int).len() == 0);
    }
    freeze1305(&mut h);
    let mut c = [0u32; 17];
    let mut j: usize = 0;
    while j < 16
        invariant
            j <= 16,
            forall|i: int| 0 <= i < j ==> c@[i] == k@[i + 16] as u32,
            forall|i: int| j <= i < 17 ==> c@[i] == 0,
        decreases 16 - j,
    {
        c[j] = k[j + 16] as u32;
        j += 1;
    }
    c[16] = 0;
    let ghost hf = h@;
    proof {
        let sk = k@.subrange(16, 32);
        lemma_limbs_bytes(c@, sk, 16);
        lemma_limbs_top(c@);
    }
    add1305(&mut h, &c);
    let mut j: usize = 0;
    while j < 16
        invariant
            j <= 16,
            forall|i: int| 0 <= i < 17 ==> h@[i] < 256,
            forall|i: int| 0 <= i < j ==> h@[i] == out@[i] as u32,
        decreases 16 - j,
    {
        out[j] = h[j] as u8;
        j += 1;
    }
    proof {
        let t = limbs_val(hf, 17) + limbs_val(c@, 17);
        lemma_limbs_bytes(h@, out@, 16);
        lemma_limbs_top(h@);
        lemma_b8_values();
        lemma_limbs_bound(hf, 17);
        lemma_fundamental_div_mod_converse(
            limbs_val(h@, 17),
            b8(16),
            h@[16] as int,
            limbs_val(h@, 16),
        );
        lemma_mul_is_commutative(h@[16] as int, b8(16));
        vstd::arithmetic::div_mod::lemma_mod_mod(t, b8(16), 256);
        lemma_mul_is_commutative(b8(16), 256);
    }
}

/// Checks that `h` is the Poly1305 tag of message `m` under key `k`.
pub fn onetimeauth_verify(h: &OnetimeauthHash, m: &[u8], k: &OnetimeauthKey) -> (res: Result<(), ()>)
    ensures
        res is Ok <==> le_value(h@) == poly1305_tag_value(m@, k@),
{
    let mut x = [0u8; 16];
    onetimeauth(&mut x, m, k);
    proof {
        lemma_le_value_injective(h@, x@);
    }
    match crate::bytes::verify_16(h, &x) {
        0 => Ok(()),
        _ => Err(()),
    }
}

/// `onetimeauth_verify` accepts exactly the tag that `onetimeauth` writes: two 16-byte tags
/// that both pass for the same message and key are the same bytes.
pub proof fn lemma_onetimeauth_tag_unique(h1: Seq<u8>, h2: Seq<u8>, m: Seq<u8>, k: Seq<u8>)
    requires
        h1.len() == 16,
        h2.len() == 16,
        le_value(h1) == poly1305_tag_value(m, k),
        le_value(h2) == poly1305_tag_value(m, k),
    ensures
        h1 == h2,
{
    lemma_le_value_injective(h1, h2);
}

/// The number of 16-byte blocks that `m` is cut into, the last one possibly shorter.
pub open spec fn poly_block_count(m: Seq<u8>) -> int {
    (m.len() + 15) as int / 16
}

/// Block `i` of `m`, as the number the Poly1305 polynomial takes: its bytes read
/// little-endian, plus 2^(8 len) for a 1 byte just above them. Block `i` is
/// `m[16 i .. min(16 i + 16, |m|)]`.
pub open spec fn poly_coef(m: Seq<u8>, i: int) -> int {
    let lo = 16 * i;
    let hi = if 16 * i + 16 <= m.len() { 16 * i + 16 } else { m.len() as int };
    le_value(m.subrange(lo, hi)) + pow2((8 * (hi - lo)) as nat)
}

/// `sum_{i < j} c_i r^(q - i)`, for the blocks `c_i` of `m` and their count `q`.
pub open spec fn poly_sum(m: Seq<u8>, r: int, j: int) -> int
    decreases j,
{
    if j <= 0 {
        0
    } else {
        poly_sum(m, r, j - 1) + poly_coef(m, j - 1) * pow(r, (poly_block_count(m) - (j - 1)) as nat)
    }
}

/// Dropping the first block of `m` drops its term from the polynomial.
proof fn lemma_poly_sum_shift(m: Seq<u8>, r: int, j: int)
    requires
        m.len() > 0,
        1 <= j <= poly_block_count(m),
    ensures
        poly_sum(m, r, j) == poly_coef(m, 0) * pow(r, poly_block_count(m) as nat) + poly_sum(
            m.subrange(if m.len() < 16 { m.len() as int } else { 16 }, m.len() as int),
            r,
            j - 1,
        ),
    decreases j,
{
    let n0 = if m.len() < 16 { m.len() as int } else { 16 };
    let t = m.subrange(n0, m.len() as int);
    if j > 1 {
        lemma_poly_sum_shift(m, r, j - 1);
        assert(m.len() >= 16);
        assert(poly_block_count(t) == poly_block_count(m) - 1);
        let i = j - 1;
        let lo = 16 * i;
        let hi = if 16 * i + 16 <= m.len() { 16 * i + 16 } else { m.len() as int };
        assert(m.subrange(lo, hi) =~= t.subrange(lo - 16, hi - 16));
        assert(poly_coef(m, i) == poly_coef(t, i - 1));
        assert(poly_block_count(m) - i == poly_block_count(t) - (i - 1));
        assert(pow(r, (poly_block_count(m) - i) as nat) == pow(r, (poly_block_count(t) - (i - 1))
            as nat));
        assert(poly_sum(t, r, i) == poly_sum(t, r, i - 1) + poly_coef(t, i - 1) * pow(
            r,
            (poly_block_count(t) - (i - 1)) as nat,
        ));
        assert(poly_sum(m, r, j) == poly_sum(m, r, i) + poly_coef(m, i) * pow(
            r,
            (poly_block_count(m) - i) as nat,
        ));
    } else {
        assert(poly_sum(m, r, 1) == poly_sum(m, r, 0) + poly_coef(m, 0) * pow(
            r,
            (poly_block_count(m) - 0) as nat,
        ));
        assert(poly_sum(t, r, 0) == 0);
        assert(poly_sum(m, r, 0) == 0);
    }
}

/// Horner evaluation of the blocks, reducing modulo p at each step, is the polynomial
/// `a r^q + sum_i c_i r^(q - i)` modulo p.
proof fn lemma_poly_blocks_sum(m: Seq<u8>, r: int, a: int)
    requires
        0 <= a < p1305(),
    ensures
        poly_blocks(m, r, a) == (a * pow(r, poly_block_count(m) as nat) + poly_sum(
            m,
            r,
            poly_block_count(m),
        )) % p1305(),
    decreases m.len(),
{
    let p = p1305();
    lemma_b8_values();
    lemma_pow2_pos(130);
    lemma2_to64();
    assert(p > 0);
    if m.len() == 0 {
        vstd::arithmetic::power::lemma_pow0(r);
        lemma_small_mod(a as nat, p as nat);
    } else {
        let n0 = if m.len() < 16 { m.len() as int } else { 16 };
        let t = m.subrange(n0, m.len() as int);
        let q = poly_block_count(m);
        let qt = poly_block_count(t);
        assert(qt == q - 1);
        let c0 = le_value(m.subrange(0, n0)) + b8(n0);
        assert(poly_coef(m, 0) == c0);
        let x = (a + c0) * r;
        let a1 = x % p;
        lemma_poly_blocks_sum(t, r, a1);
        lemma_poly_sum_shift(m, r, q);
        let rt = pow(r, qt as nat);
        let st = poly_sum(t, r, qt);
        vstd::arithmetic::power::lemma_pow_adds(r, 1, qt as nat);
        vstd::arithmetic::power::lemma_pow1(r);
        assert(pow(r, q as nat) == r * rt);
        lemma_fundamental_div_mod(x, p);
        let e2 = x * rt + st;
        assert(a1 * rt + st == p * (-(x / p) * rt) + e2) by (nonlinear_arith)
            requires
                a1 == x - p * (x / p),
                e2 == x * rt + st,
        ;
        lemma_mod_multiples_vanish(-(x / p) * rt, e2, p);
        assert(e2 == a * (r * rt) + (c0 * (r * rt) + st)) by (nonlinear_arith)
            requires
                e2 == x * rt + st,
                x == (a + c0) * r,
        ;
    }
}

/// `onetimeauth` computes the Poly1305 tag: the message cut into 16-byte blocks (the last
/// one possibly shorter), each block `c_i` read little-endian with a 1 byte above it, the
/// polynomial `sum_i c_i r^(q - i + 1)` (blocks counted from 1) taken modulo 2^130 - 5 for the
/// clamped `r` of the key, plus the key's second half `s`, modulo 2^128.
pub proof fn lemma_poly1305_tag_is_polynomial(m: Seq<u8>, k: Seq<u8>)
    ensures
        poly1305_tag_value(m, k) == (poly_sum(m, le_value(clamped_r(k)), poly_block_count(m))
            % p1305() + le_value(k.subrange(16, 32))) % (pow2(128) as int),
{
    let r = le_value(clamped_r(k));
    lemma_b8_values();
    lemma_pow2_pos(130);
    lemma2_to64();
    assert(p1305() > 0);
    lemma_poly_blocks_sum(m, r, 0);
    assert(0 * pow(r, poly_block_count(m) as nat) == 0) by (nonlinear_arith);
    assert(b8(16) == pow2(128));
}

} // verus!
