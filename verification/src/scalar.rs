//! Arithmetic modulo the order L of the Ed25519 base point, on little-endian radix-256 limbs.
use vstd::prelude::*;
use vstd::arithmetic::power2::{pow2, lemma_pow2_adds, lemma2_to64, lemma_pow2_pos};
use vstd::arithmetic::div_mod::{lemma_fundamental_div_mod_converse, lemma_small_mod};
use crate::bytes::{b8, bytes_val, le_value, le_bytes, lemma_b8_step, lemma_b8_adds,
    lemma_bytes_bound, lemma_bytes_val_frame, lemma_bytes_val_zeros, lemma_le_bytes_of_value,
    copy_into};

verus! {

/// The group order L = 2^252 + 27742317777372353535851937790883648493, as little-endian bytes.
pub const L: [i64; 32] = [0xed, 0xd3, 0xf5, 0x5c, 0x1a, 0x63, 0x12, 0x58, 0xd6, 0x9c, 0xf7, 0xa2,
    0xde, 0xf9, 0xde, 0x14, 0, 0, 0, 0, 0, 0, 0, 0, 0, 0, 0, 0, 0, 0, 0, 0x10];

/// The integer that the signed limbs `a[0..n]` stand for, limb `k` weighing 256^k.
pub open spec fn lval(a: Seq<i64>, n: int) -> int
    decreases n,
{
    if n <= 0 {
        0
    } else {
        lval(a, n - 1) + a[n - 1] * b8(n - 1)
    }
}

/// The order of the Ed25519 base point.
pub open spec fn group_order() -> int {
    lval(L@, 32)
}

/// Changing limb `k` changes the value by the difference times 256^k.
pub proof fn lemma_lval_update(a: Seq<i64>, k: int, v: i64, n: int)
    requires
        0 <= k < a.len(),
        0 <= n <= a.len(),
    ensures
        lval(a.update(k, v), n) == lval(a, n) + (if k < n { (v - a[k]) * b8(k) } else { 0 }),
    decreases n,
{
    if n > 0 {
        lemma_lval_update(a, k, v, n - 1);
        if k == n - 1 {
            assert(v * b8(k) == a[k] * b8(k) + (v - a[k]) * b8(k)) by (nonlinear_arith);
        }
    }
}

/// `lval` reads only the first `n` limbs.
pub proof fn lemma_lval_frame(a: Seq<i64>, b: Seq<i64>, n: int)
    requires
        0 <= n <= a.len(),
        n <= b.len(),
        forall|k: int| 0 <= k < n ==> a[k] == b[k],
    ensures
        lval(a, n) == lval(b, n),
    decreases n,
{
    if n > 0 {
        lemma_lval_frame(a, b, n - 1);
    }
}

/// Limbs that are zero from `lo` on add nothing.
pub proof fn lemma_lval_zeros(a: Seq<i64>, lo: int, n: int)
    requires
        0 <= lo <= n <= a.len(),
        forall|k: int| lo <= k < n ==> a[k] == 0,
    ensures
        lval(a, n) == lval(a, lo),
    decreases n,
{
    if n > lo {
        lemma_lval_zeros(a, lo, n - 1);
    }
}

/// Limbs in `[lo, hi]` (with `lo <= 0 <= hi`) give a value in
/// `[lo (256^n - 1) / 255, hi (256^n - 1) / 255]`.
pub proof fn lemma_lval_range(a: Seq<i64>, lo: int, hi: int, n: int)
    requires
        0 <= n <= a.len(),
        lo <= 0 <= hi,
        forall|k: int| 0 <= k < n ==> lo <= #[trigger] a[k] <= hi,
    ensures
        lo * (b8(n) - 1) <= 255 * lval(a, n) <= hi * (b8(n) - 1),
    decreases n,
{
    lemma2_to64();
    if n == 0 {
        assert(b8(0) == 1);
    } else {
        lemma_lval_range(a, lo, hi, n - 1);
        lemma_b8_step(n - 1);
        let x = a[n - 1];
        let w = b8(n - 1);
        let v = lval(a, n - 1);
        assert(lo * w <= x * w <= hi * w) by (nonlinear_arith)
            requires
                lo <= x <= hi,
                w > 0,
        ;
        assert(lo * (256 * w - 1) == lo * (w - 1) + 255 * (lo * w)) by (nonlinear_arith);
        assert(hi * (256 * w - 1) == hi * (w - 1) + 255 * (hi * w)) by (nonlinear_arith);
    }
}

/// Limbs equal to the bytes of `s` stand for the same number.
pub proof fn lemma_lval_bytes(a: Seq<i64>, s: Seq<u8>, n: int)
    requires
        0 <= n <= a.len(),
        n <= s.len(),
        forall|k: int| 0 <= k < n ==> a[k] == s[k] as i64,
    ensures
        lval(a, n) == bytes_val(s, n),
    decreases n,
{
    if n > 0 {
        lemma_lval_bytes(a, s, n - 1);
    }
}

/// The shape of L: its low sixteen bytes, then 2^252.
pub proof fn lemma_order()
    ensures
        forall|k: int| 0 <= k < 32 ==> 0 <= #[trigger] L@[k] < 256,
        lval(L@, 20) == lval(L@, 16),
        0 <= lval(L@, 16) < pow2(128),
        group_order() == lval(L@, 20) + pow2(252),
        16 * b8(31) == pow2(252),
        b8(32) == 256 * b8(31),
        b8(31) == pow2(248),
        b8(16) == pow2(128),
        pow2(252) <= group_order() < pow2(252) + pow2(128),
        group_order() > 0,
{
    lemma_pow2_pos(252);
    lemma_lval_zeros(L@, 16, 20);
    lemma_lval_zeros(L@, 16, 31);
    lemma_lval_range(L@, 0, 255, 16);
    lemma_b8_step(31);
    lemma_pow2_adds(248, 4);
    lemma2_to64();
    assert(lval(L@, 32) == lval(L@, 31) + 16 * b8(31));
    assert(b8(16) == pow2(128));
    assert(b8(31) == pow2(248));
}

/// Arithmetic shift right by 8 rounds down.
proof fn lemma_shr8(y: i64)
    by (bit_vector)
    requires
        -0x1000_0000_0000i64 <= y <= 0x1000_0000_0000i64,
    ensures
        (y >> 8i64) * 256 <= y,
        y < (y >> 8i64) * 256 + 256,
        ((y >> 8i64) << 8i64) == (y >> 8i64) * 256,
        y == (y >> 8i64) * 256 + (y & 255i64),
        0 <= (y & 255i64) < 256,
{
}

/// Arithmetic shift right by 4 rounds down.
proof fn lemma_shr4(y: i64)
    by (bit_vector)
    requires
        -0x1000_0000i64 <= y <= 0x1000_0000i64,
    ensures
        (y >> 4i64) * 16 <= y,
        y < (y >> 4i64) * 16 + 16,
{
}

proof fn lemma_fold_step(
    a: int,
    c: int,
    c1: int,
    xj: int,
    nx: int,
    v: int,
    lk: int,
    lv: int,
    bj: int,
    bi: int,
    bk: int,
    s: int,
)
    requires
        nx == xj + c - 16 * v * lk - 256 * c1,
        a + c * bj == s - 16 * v * lv * bi,
        bj == bi * bk,
    ensures
        a + (nx - xj) * bj + c1 * (256 * bj) == s - 16 * v * (lv + lk * bk) * bi,
{
    let w = 16 * v;
    assert((nx - xj) * bj == c * bj - (w * lk) * bj - c1 * (256 * bj)) by (nonlinear_arith)
        requires
            nx - xj == c - w * lk - 256 * c1,
    ;
    assert((w * lk) * bj == w * (lk * bk) * bi) by (nonlinear_arith)
        requires
            bj == bi * bk,
    ;
    assert(w * (lv + lk * bk) * bi == w * lv * bi + w * (lk * bk) * bi) by (nonlinear_arith);
}

proof fn lemma_fold_done(
    t: int,
    s: int,
    v: int,
    lv20: int,
    bi: int,
    b32: int,
    b_top: int,
    p252: int,
    ord: int,
    m: int,
    s0: int,
)
    by (nonlinear_arith)
    requires
        t == s - 16 * v * lv20 * bi - v * b_top,
        b_top == bi * b32,
        b32 == 16 * p252,
        ord == lv20 + p252,
        s == s0 - m * ord,
    ensures
        t == s0 - (m + 16 * v * bi) * ord,
{
}

/// Folds limbs 63 down to 32 into the limbs below them: limb `i` times 256^i is replaced by
/// what it leaves modulo L, `16 L 256^(i - 32)` being 256^i plus a number that spans limbs
/// `i - 32` to `i - 13`. `x` ends with limbs 32 to 63 zero, limbs 0 to 19 in `[-128, 128)`
/// and limbs 20 to 31 in `[-129, 128]`, congruent to what it was modulo L.
fn fold_high(x: &mut [i64; 64])
    requires
        forall|k: int| 0 <= k < 64 ==> 0 <= #[trigger] old(x)@[k] < 0x20_0000,
    ensures
        (lval(old(x)@, 64) - lval(final(x)@, 64)) % group_order() == 0,
        forall|k: int| 32 <= k < 64 ==> #[trigger] final(x)@[k] == 0,
        forall|k: int| 0 <= k < 20 ==> -128 <= #[trigger] final(x)@[k] < 128,
        forall|k: int| 20 <= k < 32 ==> -129 <= #[trigger] final(x)@[k] <= 128,
{
    let ghost x0 = x@;
    proof {
        lemma_order();
    }
    let ghost mut m: int = 0;
    let mut i: usize = 64;
    while i > 32
        invariant
            32 <= i <= 64,
            forall|k: int| 0 <= k < 32 ==> 0 <= #[trigger] L@[k] < 256,
            forall|k: int| 16 <= k < 31 ==> #[trigger] L@[k] == 0,
            lval(x@, 64) == lval(x0, 64) - m * group_order(),
            forall|k: int| i <= k < 64 ==> #[trigger] x@[k] == 0,
            forall|k: int| 0 <= k < i - 32 ==> 0 <= #[trigger] x@[k] < 0x20_0000,
            forall|k: int| 0 <= k < i ==> -0x21_0000 <= #[trigger] x@[k] <= 0x21_0000,
            i == 64 ==> forall|k: int| 0 <= k < 64 ==> 0 <= #[trigger] x@[k] < 0x20_0000,
            i <= 63 ==> forall|k: int| i - 32 <= k < i - 12 ==> -128 <= #[trigger] x@[k] < 128,
            forall|k: int| i - 12 <= k < i && k <= 50 ==> -129 <= #[trigger] x@[k] <= 128,
        decreases i,
    {
        i -= 1;
        let ghost xs = x@;
        let v = x[i];
        let mut carry: i64 = 0;
        let mut j: usize = i - 32;
        assert(b8(0) == 1) by {
            lemma2_to64();
        }
        proof {
            lemma_b8_adds(i - 32, 0);
        }
        while j < i - 12
            invariant
                32 <= i < 64,
                i - 32 <= j <= i - 12,
                xs.len() == 64,
                v == xs[i as int],
                -0x21_0000 <= v <= 0x21_0000,
                forall|k: int| 0 <= k < 32 ==> 0 <= #[trigger] L@[k] < 256,
                forall|k: int| 16 <= k < 31 ==> #[trigger] L@[k] == 0,
                lval(x@, 64) + carry * b8(j as int) == lval(xs, 64) - 16 * v * lval(
                    L@,
                    j - (i - 32),
                ) * b8(i - 32),
                forall|k: int| j <= k < 64 ==> #[trigger] x@[k] == xs[k],
                forall|k: int| 0 <= k < i - 32 ==> #[trigger] x@[k] == xs[k],
                forall|k: int| i - 32 <= k < j ==> -128 <= #[trigger] x@[k] < 128,
                0 <= xs[i - 32] < 0x20_0000,
                i <= 62 ==> forall|k: int| i - 31 <= k < i - 12 ==> -128 <= #[trigger] xs[k] < 128,
                i == 63 ==> forall|k: int| 0 <= k < 64 ==> 0 <= #[trigger] xs[k] < 0x20_0000,
                -0x400_0000 <= carry <= 0x400_0000,
                j - (i - 32) >= 17 ==> -0x8_0000 <= carry <= 0x8_0000,
                j - (i - 32) >= 18 ==> (if i <= 62 {
                    -0x800 <= carry <= 0x800
                } else {
                    -0x4000 <= carry <= 0x4000
                }),
                j - (i - 32) >= 19 ==> (if i <= 62 {
                    -8 <= carry <= 8
                } else {
                    -0x4000 <= carry <= 0x4000
                }),
                j - (i - 32) >= 20 ==> (if i <= 62 {
                    -1 <= carry <= 1
                } else {
                    -0x4000 <= carry <= 0x4000
                }),
            decreases i - 12 - j,
        {
            let k: usize = j - (i - 32);
            let lk = L[k];
            let xj = x[j];
            assert(-0x2_1000_0000 <= 16 * v * lk <= 0x2_1000_0000) by (nonlinear_arith)
                requires
                    -0x21_0000 <= v <= 0x21_0000,
                    0 <= lk < 256,
            ;
            if k >= 16 {
                assert(lk == 0);
                assert(16 * v * lk == 0) by (nonlinear_arith)
                    requires
                        lk == 0,
                ;
            }
            let y = xj + carry - 16 * v * lk;
            let z = y + 128;
            proof {
                lemma_shr8(z);
            }
            let c1 = z >> 8;
            let nx = y - (c1 << 8);
            proof {
                let a = lval(x@, 64);
                lemma_lval_update(x@, j as int, nx, 64);
                lemma_b8_step(j as int);
                lemma_b8_adds(i - 32, k as int);
                lemma_fold_step(
                    a,
                    carry as int,
                    c1 as int,
                    xj as int,
                    nx as int,
                    v as int,
                    lk as int,
                    lval(L@, k as int),
                    b8(j as int),
                    b8(i - 32),
                    b8(k as int),
                    lval(xs, 64),
                );
                assert(lval(L@, k + 1) == lval(L@, k as int) + lk * b8(k as int));
            }
            x[j] = nx;
            carry = c1;
            j += 1;
        }
        assert(lval(L@, j - (i - 32)) == lval(L@, 20));
        assert(x@[i as int] == v);
        let top = x[i - 12];
        proof {
            lemma_lval_update(x@, (i - 12) as int, (top + carry) as i64, 64);
        }
        let ghost xl = x@;
        x[i - 12] = top + carry;
        assert(x@ =~= xl.update((i - 12) as int, (top + carry) as i64));
        let ghost xm = x@;
        x[i] = 0;
        assert(x@ =~= xm.update(i as int, 0));
        proof {
            lemma_lval_update(xm, i as int, 0, 64);
            assert(lval(xm, 64) == lval(xs, 64) - 16 * v * lval(L@, 20) * b8(i - 32));
            assert(xm[i as int] == v);
            assert((0 - v) * b8(i as int) == -(v * b8(i as int))) by (nonlinear_arith);
            assert(lval(x@, 64) == lval(xm, 64) - v * b8(i as int));
            lemma_order();
            assert(b8(32) == 256 * b8(31));
            assert(16 * b8(31) == pow2(252));
            assert(b8(32) == 16 * pow2(252));
            lemma_b8_adds(i - 32, 32);
            assert(i - 32 + 32 == i);
            lemma_fold_done(
                lval(x@, 64),
                lval(xs, 64),
                v as int,
                lval(L@, 20),
                b8(i - 32),
                b8(32),
                b8(i as int),
                pow2(252) as int,
                group_order(),
                m,
                lval(x0, 64),
            );
            m = m + 16 * v * b8(i - 32);
        }
    }
    proof {
        assert(lval(x0, 64) - lval(x@, 64) == m * group_order());
        vstd::arithmetic::div_mod::lemma_mod_multiples_basic(m, group_order());
        assert(m * group_order() == group_order() * m) by (nonlinear_arith);
    }
}

proof fn lemma_norm_step(a: int, c: int, c1: int, xj: int, nx: int, q: int, lk: int, lv: int, bj: int, v1: int)
    requires
        nx == xj + c - q * lk - 256 * c1,
        a + c * bj == v1 - q * lv,
    ensures
        a + (nx - xj) * bj + c1 * (256 * bj) == v1 - q * (lv + lk * bj),
{
    assert((nx - xj) * bj == c * bj - (q * lk) * bj - c1 * (256 * bj)) by (nonlinear_arith)
        requires
            nx - xj == c - q * lk - 256 * c1,
    ;
    assert(q * (lv + lk * bj) == q * lv + (q * lk) * bj) by (nonlinear_arith);
}

/// After the folding, the value less `q L` (with `q` the top limb over 16) lies in
/// `(-2^248, 2^252)`.
proof fn lemma_top_range(low: int, t: int, q: int, lv16: int, w: int, p128: int, v2: int)
    requires
        -129 * (w - 1) <= 255 * low <= 129 * (w - 1),
        16 * q <= t < 16 * q + 16,
        -9 <= q <= 8,
        0 <= lv16 < p128,
        1024 * p128 <= w,
        v2 == low + t * w - q * (lv16 + 16 * w),
    ensures
        -w < v2 < 16 * w,
{
    let e = t - 16 * q;
    assert(v2 == low + e * w - q * lv16) by (nonlinear_arith)
        requires
            v2 == low + t * w - q * (lv16 + 16 * w),
            e == t - 16 * q,
    ;
    assert(0 <= e * w <= 15 * w) by (nonlinear_arith)
        requires
            0 <= e <= 15,
            w > 0,
    ;
    assert(-9 * p128 <= q * lv16 <= 9 * p128) by (nonlinear_arith)
        requires
            -9 <= q <= 8,
            0 <= lv16 < p128,
    ;
}

/// A carry out of 32 limbs in `[0, 256)` that leaves a value in `(-2^248, 2^252)` is 0 or -1.
proof fn lemma_carry_sign(s: int, c: int, w: int, v2: int)
    requires
        w > 0,
        s + c * (256 * w) == v2,
        0 <= s < 256 * w,
        -w < v2 < 16 * w,
    ensures
        c == 0 || c == -1,
{
    if c >= 1 {
        assert(c * (256 * w) >= 256 * w) by (nonlinear_arith)
            requires
                c >= 1,
                w > 0,
        ;
    }
    if c <= -2 {
        assert(c * (256 * w) <= -512 * w) by (nonlinear_arith)
            requires
                c <= -2,
                w > 0,
        ;
    }
}

/// Splitting a limb into its low byte and what carries up keeps the total.
proof fn lemma_out_step(bv: int, xi: int, lo: int, hi: int, bi: int, top: int, below: int)
    requires
        xi == hi * 256 + lo,
    ensures
        (bv + lo * bi) + (top + hi * (256 * bi)) - (below + xi * bi) == bv + top - below,
{
    assert(xi * bi == hi * (256 * bi) + lo * bi) by (nonlinear_arith)
        requires
            xi == hi * 256 + lo,
    ;
}

proof fn lemma_byte_split(y: i64)
    by (bit_vector)
    requires
        0 <= y < 0x1000,
    ensures
        y == (y >> 8i64) * 256 + ((y as u8) as i64),
        0 <= (y >> 8i64) < 16,
{
}

/// Writes to `r[off..off + 32]` the residue modulo L of the number that the 64 limbs `x`
/// stand for; `x` is left as scratch.
pub(crate) fn mod_l(r: &mut [u8], off: usize, x: &mut [i64; 64])
    requires
        off + 32 <= old(r).len(),
        forall|k: int| 0 <= k < 64 ==> 0 <= #[trigger] old(x)@[k] < 0x20_0000,
    ensures
        final(r)@.len() == old(r)@.len(),
        final(r)@.subrange(off as int, off + 32) == le_bytes(lval(old(x)@, 64) % group_order(), 32),
        le_value(final(r)@.subrange(off as int, off + 32)) == lval(old(x)@, 64) % group_order(),
        forall|k: int|
            0 <= k < old(r)@.len() && !(off <= k < off + 32) ==> #[trigger] final(r)@[k] == old(r)@[k],
{
    let ghost x0 = x@;
    fold_high(x);
    let ghost x1 = x@;
    let ghost v1 = lval(x1, 32);
    proof {
        lemma_order();
        lemma_lval_zeros(x1, 32, 64);
        assert(b8(0) == 1) by {
            lemma2_to64();
        }
    }
    let t = x[31];
    proof {
        lemma_shr4(t);
    }
    let q = t >> 4;
    let mut carry: i64 = 0;
    let mut j: usize = 0;
    while j < 32
        invariant
            j <= 32,
            -9 <= q <= 8,
            forall|k: int| 0 <= k < 32 ==> 0 <= #[trigger] L@[k] < 256,
            lval(x@, 32) + carry * b8(j as int) == v1 - q * lval(L@, j as int),
            forall|k: int| 0 <= k < j ==> 0 <= #[trigger] x@[k] < 256,
            forall|k: int| j <= k < 64 ==> #[trigger] x@[k] == x1[k],
            forall|k: int| 0 <= k < 32 ==> -129 <= #[trigger] x1[k] <= 128,
            forall|k: int| 32 <= k < 64 ==> #[trigger] x1[k] == 0,
            -16 <= carry <= 16,
        decreases 32 - j,
    {
        let xj = x[j];
        let lj = L[j];
        assert(-9 * 255 <= q * lj <= 9 * 255) by (nonlinear_arith)
            requires
                -9 <= q <= 8,
                0 <= lj < 256,
        ;
        let y = xj + carry - q * lj;
        proof {
            lemma_shr8(y);
            lemma_lval_update(x@, j as int, y & 255, 32);
            lemma_b8_step(j as int);
            lemma_norm_step(
                lval(x@, 32),
                carry as int,
                (y >> 8) as int,
                xj as int,
                (y & 255) as int,
                q as int,
                lj as int,
                lval(L@, j as int),
                b8(j as int),
                v1,
            );
            assert(lval(L@, j + 1) == lval(L@, j as int) + lj * b8(j as int));
        }
        carry = y >> 8;
        x[j] = y & 255;
        j += 1;
    }
    let ghost s_val = lval(x@, 32);
    let ghost w = b8(31);
    proof {
        lemma_order();
        lemma_lval_range(x@, 0, 255, 32);
        lemma_lval_range(x1, -129, 129, 31);
        lemma_pow2_adds(128, 120);
        vstd::arithmetic::power2::lemma_pow2_strictly_increases(10, 120);
        lemma2_to64();
        assert(lval(L@, 32) == lval(L@, 16) + 16 * w);
        assert(v1 == lval(x1, 31) + t * w);
        assert(1024 * pow2(128) <= pow2(128) * pow2(120)) by (nonlinear_arith)
            requires
                1024 < pow2(120),
        ;
        assert(1024 * pow2(128) <= w);
        lemma_top_range(lval(x1, 31), t as int, q as int, lval(L@, 16), w, pow2(128) as int,
            v1 - q * group_order());
        lemma_carry_sign(s_val, carry as int, w, v1 - q * group_order());
    }
    let c = carry;
    let ghost x2 = x@;
    let mut j: usize = 0;
    while j < 32
        invariant
            j <= 32,
            c == 0 || c == -1,
            forall|k: int| 0 <= k < 32 ==> 0 <= #[trigger] L@[k] < 256,
            lval(x@, 32) == s_val - c * lval(L@, j as int),
            forall|k: int| 0 <= k < j ==> 0 <= #[trigger] x@[k] < 511,
            forall|k: int| j <= k < 64 ==> #[trigger] x@[k] == x2[k],
            forall|k: int| 0 <= k < 32 ==> 0 <= #[trigger] x2[k] < 256,
            x2[32] == 0,
        decreases 32 - j,
    {
        let lj = L[j];
        let xj = x[j];
        let nx = xj - c * lj;
        proof {
            lemma_lval_update(x@, j as int, nx, 32);
            assert(lval(L@, j + 1) == lval(L@, j as int) + lj * b8(j as int));
            assert((nx - xj) * b8(j as int) == -(c * (lj * b8(j as int)))) by (nonlinear_arith)
                requires
                    nx == xj - c * lj,
            ;
            assert(c * lval(L@, j + 1) == c * lval(L@, j as int) + c * (lj * b8(j as int)))
                by (nonlinear_arith)
                requires
                    lval(L@, j + 1) == lval(L@, j as int) + lj * b8(j as int),
            ;
        }
        x[j] = nx;
        j += 1;
    }
    let ghost big = lval(x@, 32);
    proof {
        lemma_lval_zeros(x@, 32, 33);
        assert(lval(x@, 33) == big);
    }
    let mut out = [0u8; 32];
    let mut i: usize = 0;
    while i < 32
        invariant
            i <= 32,
            bytes_val(out@, i as int) + (lval(x@, 33) - lval(x@, i as int)) == big,
            forall|k: int| i < k < 32 ==> 0 <= #[trigger] x@[k] < 511,
            i < 32 ==> 0 <= x@[i as int] < 527,
            i < 32 ==> x@[32] == 0,
            i == 32 ==> 0 <= x@[32] < 16,
        decreases 32 - i,
    {
        let xi = x[i];
        proof {
            lemma_byte_split(xi);
        }
        let hi = xi >> 8;
        let lo = xi as u8;
        let nxt = x[i + 1];
        proof {
            lemma_lval_update(x@, i + 1, (nxt + hi) as i64, 33);
            lemma_lval_update(x@, i + 1, (nxt + hi) as i64, i as int + 1);
            lemma_b8_step(i as int);
            lemma_bytes_val_frame(out@.update(i as int, lo), out@, i as int);
            lemma_out_step(
                bytes_val(out@, i as int),
                xi as int,
                lo as int,
                hi as int,
                b8(i as int),
                lval(x@, 33),
                lval(x@, i as int),
            );
        }
        x[i + 1] = nxt + hi;
        out[i] = lo;
        i += 1;
    }
    let ghost res = le_value(out@);
    proof {
        lemma_bytes_bound(out@, 32);
        lemma_order();
        let b32 = b8(32);
        let ord = group_order();
        let xv = lval(x0, 64);
        let v2 = v1 - q * ord;
        assert(s_val + c * b32 == v2);
        assert(1024 * pow2(128) <= b8(31)) by {
            lemma_pow2_adds(128, 120);
            vstd::arithmetic::power2::lemma_pow2_strictly_increases(10, 120);
            lemma2_to64();
            assert(1024 * pow2(128) <= pow2(128) * pow2(120)) by (nonlinear_arith)
                requires
                    1024 < pow2(120),
            ;
        }
        assert(c * b32 == (if c == 0 { 0 } else { -b32 })) by (nonlinear_arith)
            requires
                c == 0 || c == -1,
        ;
        assert(res + x@[32] * b32 == big);
        if c == 0 {
            assert(big == s_val);
            lemma_fundamental_div_mod_converse(big, b32, x@[32] as int, res);
            lemma_fundamental_div_mod_converse(big, b32, 0, big);
            assert(res == v2);
        } else {
            assert(c * lval(L@, 32) == -lval(L@, 32)) by (nonlinear_arith)
                requires
                    c == -1,
            ;
            assert(big == s_val + ord);
            lemma_fundamental_div_mod_converse(big, b32, x@[32] as int, res);
            assert(-b8(31) < v2 < 0);
            assert(ord < pow2(252) + pow2(128));
            assert(pow2(252) == 16 * b8(31));
            assert(pow2(128) * 1024 <= b8(31));
            assert(ord < 17 * b8(31));
            assert(b32 == 256 * b8(31));
            assert(v2 + ord < b32);
            assert(0 <= v2 + ord);
            assert(big == 1 * b32 + (v2 + ord));
            lemma_fundamental_div_mod_converse(big, b32, 1, v2 + ord);
            assert(res == v2 + ord);
        }
        assert(0 <= res < ord);
        vstd::arithmetic::div_mod::lemma_fundamental_div_mod(xv - v1, ord);
        let k0 = (xv - v1) / ord;
        assert(xv == v1 + ord * k0);
        let kq = if c == 0 { k0 + q } else { k0 + q - 1 };
        assert(xv == kq * ord + res) by (nonlinear_arith)
            requires
                xv == v1 + ord * k0,
                res == v1 - q * ord + (if c == 0 { 0 } else { ord }),
                kq == (if c == 0 { k0 + q } else { k0 + q - 1 }),
        ;
        lemma_fundamental_div_mod_converse(xv, ord, kq, res);
    }
    copy_into(r, off, &out);
    proof {
        lemma_le_bytes_of_value(out@);
        assert(final(r)@.subrange(off as int, off + 32) =~= out@);
    }
}

/// Reduces the 64-byte little-endian number `r` modulo the group order L, in place: the
/// residue fills the low 32 bytes and the high 32 become zero.
pub fn reduce(r: &mut [u8; 64])
    ensures
        le_value(final(r)@) == le_value(old(r)@) % group_order(),
        final(r)@ == le_bytes(le_value(old(r)@) % group_order(), 64),
        forall|k: int| 32 <= k < 64 ==> #[trigger] final(r)@[k] == 0,
{
    let ghost r0 = r@;
    let mut x = [0i64; 64];
    let mut i: usize = 0;
    while i < 64
        invariant
            i <= 64,
            r@ == r0,
            forall|k: int| 0 <= k < i ==> #[trigger] x@[k] == r0[k] as i64,
        decreases 64 - i,
    {
        x[i] = r[i] as i64;
        i += 1;
    }
    let mut i: usize = 0;
    while i < 64
        invariant
            i <= 64,
            r@.len() == 64,
            forall|k: int| 0 <= k < i ==> #[trigger] r@[k] == 0,
        decreases 64 - i,
    {
        r[i] = 0;
        i += 1;
    }
    proof {
        lemma_lval_bytes(x@, r0, 64);
    }
    mod_l(r, 0, &mut x);
    proof {
        let v = le_value(r0) % group_order();
        lemma_bytes_val_zeros(r@, 32, 64);
        lemma_bytes_val_frame(r@, r@.subrange(0, 32), 32);
        assert(le_value(r@) == v);
        lemma_le_bytes_of_value(r@);
    }
}

/// Reducing twice is reducing once: when `r1` is what `reduce` leaves of `r0` and `r2` what it
/// leaves of `r1`, then `r2` is `r1`.
pub proof fn lemma_reduce_twice(r0: Seq<u8>, r1: Seq<u8>, r2: Seq<u8>)
    requires
        r1.len() == 64,
        r2.len() == 64,
        le_value(r1) == le_value(r0) % group_order(),
        le_value(r2) == le_value(r1) % group_order(),
    ensures
        r2 == r1,
{
    lemma_order();
    lemma_bytes_bound(r0, r0.len() as int);
    lemma_small_mod(le_value(r1) as nat, group_order() as nat);
    crate::bytes::lemma_le_value_injective(r1, r2);
}

proof fn lemma_lval_step_const(a: Seq<i64>, k: int, prev: int, limb: int, w: int)
    requires
        0 <= k,
        lval(a, k) == prev,
        a[k] == limb,
        b8(k) == w,
    ensures
        lval(a, k + 1) == prev + limb * w,
{
}

/// The group order is the prime `2^252 + 27742317777372353535851937790883648493`.
pub proof fn lemma_group_order_value()
    ensures
        group_order() == 7237005577332262213973186563042994240829374041602535252466099000494570602496int + 27742317777372353535851937790883648493int,
{
    lemma_order();
    lemma2_to64();
    assert(b8(0) == 1);
    lemma_b8_step(0);
    lemma_b8_step(1);
    lemma_b8_step(2);
    lemma_b8_step(3);
    lemma_b8_step(4);
    lemma_b8_step(5);
    lemma_b8_step(6);
    lemma_b8_step(7);
    lemma_b8_step(8);
    lemma_b8_step(9);
    lemma_b8_step(10);
    lemma_b8_step(11);
    lemma_b8_step(12);
    lemma_b8_step(13);
    lemma_b8_step(14);
    lemma_b8_step(15);
    lemma_b8_step(16);
    lemma_b8_step(17);
    lemma_b8_step(18);
    lemma_b8_step(19);
    lemma_b8_step(20);
    lemma_b8_step(21);
    lemma_b8_step(22);
    lemma_b8_step(23);
    lemma_b8_step(24);
    lemma_b8_step(25);
    lemma_b8_step(26);
    lemma_b8_step(27);
    lemma_b8_step(28);
    lemma_b8_step(29);
    lemma_b8_step(30);
    lemma_lval_step_const(L@, 0, 0int, 237, 1int);
    lemma_lval_step_const(L@, 1, 237int, 211, 256int);
    lemma_lval_step_const(L@, 2, 54253int, 245, 65536int);
    lemma_lval_step_const(L@, 3, 16110573int, 92, 16777216int);
    lemma_lval_step_const(L@, 4, 1559614445int, 26, 4294967296int);
    lemma_lval_step_const(L@, 5, 113228764141int, 99, 1099511627776int);
    lemma_lval_step_const(L@, 6, 108964879913965int, 18, 281474976710656int);
    lemma_lval_step_const(L@, 7, 5175514460705773int, 88, 72057594037927936int);
    lemma_lval_step_const(L@, 8, 6346243789798364141int, 214, 18446744073709551616int);
    lemma_lval_step_const(L@, 9, 3953949475563642409965int, 156, 4722366482869645213696int);
    lemma_lval_step_const(L@, 10, 740643120803228295746541int, 247, 1208925819614629174706176int);
    lemma_lval_step_const(L@, 11, 299345320565616634448172013int, 162, 309485009821345068724781056int);
    lemma_lval_step_const(L@, 12, 50435916911623517767862703085int, 222, 79228162514264337593543950336int);
    lemma_lval_step_const(L@, 13, 17639087995078306463534619677677int, 249, 20282409603651670423947251286016int);
    lemma_lval_step_const(L@, 14, 5067959079304344242026400189895661int, 222, 5192296858534827628530496329220096int);
    lemma_lval_step_const(L@, 15, 1157757861674036077775796585276756973int, 20, 1329227995784915872903807060280344576int);
    assert(pow2(252) == 16 * b8(31));
}

} // verus!
