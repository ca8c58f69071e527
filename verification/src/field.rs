//! Arithmetic modulo p = 2^255 - 19 on sixteen signed 16-bit limbs.
use vstd::prelude::*;
use vstd::arithmetic::power::pow;
use vstd::arithmetic::power2::{pow2, lemma_pow2_adds, lemma2_to64, lemma2_to64_rest, lemma_pow2_pos};
use vstd::arithmetic::div_mod::{lemma_fundamental_div_mod_converse, lemma_mod_multiples_vanish,
    lemma_mul_mod_noop, lemma_small_mod};
use vstd::arithmetic::mul::{lemma_mul_is_distributive_add, lemma_mul_is_associative,
    lemma_mul_is_commutative, lemma_mul_inequality, lemma_mul_nonnegative, lemma_mul_upper_bound};

verus! {

/// A field element: sixteen signed limbs, limb `i` weighing 2^(16 i).
pub type Gf = [i64; 16];

/// The prime 2^255 - 19.
pub open spec fn p25519() -> int {
    pow2(255) - 19
}

/// 2^(16 i).
pub open spec fn w16(i: int) -> int {
    pow2((16 * i) as nat) as int
}

/// The integer that the limbs `a[0..n]` stand for.
pub open spec fn gval(a: Seq<i64>, n: int) -> int
    decreases n,
{
    if n <= 0 {
        0
    } else {
        gval(a, n - 1) + a[n - 1] * w16(n - 1)
    }
}

/// The residue modulo p that a field element stands for.
pub open spec fn fe(a: Seq<i64>) -> int {
    gval(a, 16) % p25519()
}

/// Addition modulo p.
pub open spec fn fadd(a: int, b: int) -> int {
    (a + b) % p25519()
}

/// Subtraction modulo p.
pub open spec fn fsub(a: int, b: int) -> int {
    (a - b) % p25519()
}

/// Multiplication modulo p.
pub open spec fn fmul(a: int, b: int) -> int {
    (a * b) % p25519()
}

/// Every limb lies in `[-b, b]`.
pub open spec fn bounded(a: Seq<i64>, b: int) -> bool {
    &&& a.len() == 16
    &&& forall|i: int| 0 <= i < 16 ==> -b <= #[trigger] a[i] <= b
}

/// The limbs left by two carry passes: limbs 1 to 15 in `[0, 2^16)`, limb 0 within 38 of
/// that range.
pub open spec fn reduced(a: Seq<i64>) -> bool {
    &&& a.len() == 16
    &&& -38 <= a[0] < 65536 + 38
    &&& forall|i: int| 1 <= i < 16 ==> 0 <= #[trigger] a[i] < 65536
}

/// Every limb lies in `[0, 2^16)`.
pub open spec fn normalized(a: Seq<i64>) -> bool {
    &&& a.len() == 16
    &&& forall|i: int| 0 <= i < 16 ==> 0 <= #[trigger] a[i] < 65536
}

pub proof fn lemma_reduced_bounded(a: Seq<i64>)
    requires
        reduced(a),
    ensures
        bounded(a, 0x20000),
{
}

pub proof fn lemma_w16_step(i: int)
    requires
        i >= 0,
    ensures
        w16(i + 1) == 65536 * w16(i),
        w16(i) > 0,
{
    lemma_pow2_adds((16 * i) as nat, 16);
    lemma2_to64();
    lemma_pow2_pos((16 * i) as nat);
    assert((16 * i) as nat + 16 == (16 * (i + 1)) as nat);
}

pub proof fn lemma_w16_adds(a: int, b: int)
    requires
        a >= 0,
        b >= 0,
    ensures
        w16(a + b) == w16(a) * w16(b),
{
    lemma_pow2_adds((16 * a) as nat, (16 * b) as nat);
    assert((16 * a) as nat + (16 * b) as nat == (16 * (a + b)) as nat);
}

pub proof fn lemma_field_consts()
    ensures
        w16(0) == 1,
        w16(16) == pow2(256),
        w16(16) == 2 * pow2(255),
        w16(15) == pow2(240),
        pow2(240) >= 0x1_0000_0000_0000_0000,
        p25519() > 0x1_0000_0000_0000_0000,
        w16(16) - 38 == 2 * p25519(),
{
    lemma2_to64();
    lemma2_to64_rest();
    lemma_pow2_adds(255, 1);
    lemma_pow2_adds(64, 176);
    lemma_pow2_pos(176);
    lemma_mul_inequality(1, pow2(176) as int, pow2(64) as int);
    lemma_mul_is_commutative(pow2(176) as int, pow2(64) as int);
    lemma_pow2_adds(240, 15);
    lemma_pow2_pos(15);
    lemma_mul_inequality(1, pow2(15) as int, pow2(240) as int);
    lemma_mul_is_commutative(pow2(15) as int, pow2(240) as int);
    lemma_mul_inequality(2, pow2(15) as int, pow2(240) as int);
    assert((16 * 16int) as nat == 256);
    assert((16 * 15int) as nat == 240);
    assert((16 * 0int) as nat == 0);
}

/// `gval` reads only the first `n` limbs.
pub proof fn lemma_gval_frame(a: Seq<i64>, b: Seq<i64>, n: int)
    requires
        0 <= n <= a.len(),
        n <= b.len(),
        forall|k: int| 0 <= k < n ==> a[k] == b[k],
    ensures
        gval(a, n) == gval(b, n),
    decreases n,
{
    if n > 0 {
        lemma_gval_frame(a, b, n - 1);
    }
}

/// Changing limb `k` to `v` changes the value by `(v - a[k]) * 2^(16 k)`.
pub proof fn lemma_gval_update(a: Seq<i64>, k: int, v: i64, n: int)
    requires
        0 <= k < n <= a.len(),
    ensures
        gval(a.update(k, v), n) == gval(a, n) + (v - a[k]) * w16(k),
    decreases n,
{
    if n - 1 == k {
        lemma_gval_frame(a.update(k, v), a, k);
        lemma_mul_is_distributive_add(w16(k), v as int, -a[k]);
        lemma_mul_is_commutative(w16(k), v as int);
        lemma_mul_is_commutative(w16(k), a[k] as int);
        lemma_mul_is_commutative(w16(k), v - a[k]);
        assert(w16(k) * (-a[k]) == -(w16(k) * a[k])) by (nonlinear_arith);
    } else {
        lemma_gval_update(a, k, v, n - 1);
    }
}

/// Limbwise sums and differences add and subtract the values.
pub proof fn lemma_gval_linear(o: Seq<i64>, a: Seq<i64>, b: Seq<i64>, s: int, n: int)
    requires
        0 <= n <= o.len(),
        n <= a.len(),
        n <= b.len(),
        s == 1 || s == -1,
        forall|k: int| 0 <= k < n ==> o[k] == a[k] + s * b[k],
    ensures
        gval(o, n) == gval(a, n) + s * gval(b, n),
    decreases n,
{
    if n > 0 {
        lemma_gval_linear(o, a, b, s, n - 1);
        let w = w16(n - 1);
        assert(o[n - 1] * w == a[n - 1] * w + s * (b[n - 1] * w)) by (nonlinear_arith)
            requires
                o[n - 1] == a[n - 1] + s * b[n - 1],
        ;
        assert(s * gval(b, n - 1) + s * (b[n - 1] * w) == s * gval(b, n)) by (nonlinear_arith)
            requires
                gval(b, n) == gval(b, n - 1) + b[n - 1] * w,
        ;
    }
}

/// Limbs in `[0, 2^16)` stand for a number in `[0, 2^(16 n))`.
pub proof fn lemma_gval_normalized(a: Seq<i64>, n: int)
    requires
        0 <= n <= a.len(),
        forall|k: int| 0 <= k < n ==> 0 <= #[trigger] a[k] < 65536,
    ensures
        0 <= gval(a, n) < w16(n),
    decreases n,
{
    lemma_field_consts();
    if n > 0 {
        lemma_gval_normalized(a, n - 1);
        lemma_w16_step(n - 1);
        lemma_mul_inequality(a[n - 1] as int, 65535, w16(n - 1));
        lemma_mul_nonnegative(a[n - 1] as int, w16(n - 1));
    }
}

/// Limbs in `[-b, b]` stand for a number of size at most `2 b 2^(16 (n - 1))`.
pub proof fn lemma_gval_bound(a: Seq<i64>, b: int, n: int)
    requires
        1 <= n <= a.len(),
        b >= 0,
        forall|k: int| 0 <= k < n ==> -b <= #[trigger] a[k] <= b,
    ensures
        -2 * b * w16(n - 1) <= gval(a, n) <= 2 * b * w16(n - 1),
    decreases n,
{
    lemma_field_consts();
    if n == 1 {
        assert(gval(a, 0) == 0);
        assert(gval(a, 1) == a[0] * w16(0));
        assert(-2 * b * w16(0) <= gval(a, 1) <= 2 * b * w16(0)) by (nonlinear_arith)
            requires
                w16(0) == 1,
                gval(a, 1) == a[0] * w16(0),
                -b <= a[0] <= b,
                b >= 0,
        ;
    } else {
        lemma_gval_bound(a, b, n - 1);
        lemma_w16_step(n - 2);
        let w = w16(n - 1);
        let x = a[n - 1] as int;
        let g = gval(a, n - 1);
        assert(-2 * b * w <= gval(a, n) <= 2 * b * w) by (nonlinear_arith)
            requires
                gval(a, n) == g + x * w,
                -2 * b * w16(n - 2) <= g <= 2 * b * w16(n - 2),
                -b <= x <= b,
                w == 65536 * w16(n - 2),
                b >= 0,
                w16(n - 2) > 0,
        ;
    }
}

/// `r = a`.
pub(crate) fn set25519(r: &mut Gf, a: Gf)
    ensures
        *final(r) == a,
{
    let mut i: usize = 0;
    while i < 16
        invariant
            i <= 16,
            forall|k: int| 0 <= k < i ==> r@[k] == a@[k],
        decreases 16 - i,
    {
        r[i] = a[i];
        i += 1;
    }
    assert(r@ =~= a@);
}

/// Swaps `p` and `q` when `b` is 1 and leaves them when `b` is 0, in constant time.
pub(crate) fn sel25519(p: &mut Gf, q: &mut Gf, b: isize)
    requires
        b == 0 || b == 1,
    ensures
        b == 1 ==> *final(p) == *old(q) && *final(q) == *old(p),
        b == 0 ==> *final(p) == *old(p) && *final(q) == *old(q),
{
    let c: i64 = !(b - 1) as i64;
    assert((b == 1 ==> c == -1) && (b == 0 ==> c == 0)) by (bit_vector)
        requires
            c == (!((b - 1) as isize)) as i64,
    ;
    let ghost p0 = *p;
    let ghost q0 = *q;
    let mut i: usize = 0;
    while i < 16
        invariant
            i <= 16,
            c == 0 || c == -1,
            b == 1 ==> c == -1,
            b == 0 ==> c == 0,
            forall|k: int| 0 <= k < i ==> p@[k] == (if c == -1 { q0@[k] } else { p0@[k] }),
            forall|k: int| 0 <= k < i ==> q@[k] == (if c == -1 { p0@[k] } else { q0@[k] }),
            forall|k: int| i <= k < 16 ==> p@[k] == p0@[k] && q@[k] == q0@[k],
        decreases 16 - i,
    {
        let pi = p[i];
        let qi = q[i];
        let t = c & (pi ^ qi);
        let np = pi ^ t;
        let nq = qi ^ t;
        assert((c == -1 ==> np == qi && nq == pi) && (c == 0 ==> np == pi && nq == qi))
            by (bit_vector)
            requires
                t == c & (pi ^ qi),
                np == pi ^ t,
                nq == qi ^ t,
        ;
        p[i] = np;
        q[i] = nq;
        i += 1;
    }
    proof {
        if b == 1 {
            assert(p@ =~= q0@);
            assert(q@ =~= p0@);
        } else {
            assert(p@ =~= p0@);
            assert(q@ =~= q0@);
        }
    }
}

/// `o = a + b`, limb by limb.
pub(crate) fn gf_add(o: &mut Gf, a: Gf, b: Gf)
    requires
        forall|i: int| 0 <= i < 16 ==> i64::MIN <= #[trigger] a@[i] + b@[i] <= i64::MAX,
    ensures
        forall|i: int| 0 <= i < 16 ==> #[trigger] final(o)@[i] == a@[i] + b@[i],
        gval(final(o)@, 16) == gval(a@, 16) + gval(b@, 16),
        fe(final(o)@) == fadd(fe(a@), fe(b@)),
{
    let mut i: usize = 0;
    while i < 16
        invariant
            i <= 16,
            forall|k: int| 0 <= k < 16 ==> i64::MIN <= #[trigger] a@[k] + b@[k] <= i64::MAX,
            forall|k: int| 0 <= k < i ==> #[trigger] o@[k] == a@[k] + b@[k],
        decreases 16 - i,
    {
        o[i] = a[i] + b[i];
        i += 1;
    }
    proof {
        lemma_gval_linear(o@, a@, b@, 1, 16);
        lemma_field_consts();
        vstd::arithmetic::div_mod::lemma_add_mod_noop(gval(a@, 16), gval(b@, 16), p25519());
    }
}

/// `o = a - b`, limb by limb.
pub(crate) fn gf_sub(o: &mut Gf, a: Gf, b: Gf)
    requires
        forall|i: int| 0 <= i < 16 ==> i64::MIN <= #[trigger] a@[i] - b@[i] <= i64::MAX,
    ensures
        forall|i: int| 0 <= i < 16 ==> #[trigger] final(o)@[i] == a@[i] - b@[i],
        gval(final(o)@, 16) == gval(a@, 16) - gval(b@, 16),
        fe(final(o)@) == fsub(fe(a@), fe(b@)),
{
    let mut i: usize = 0;
    while i < 16
        invariant
            i <= 16,
            forall|k: int| 0 <= k < 16 ==> i64::MIN <= #[trigger] a@[k] - b@[k] <= i64::MAX,
            forall|k: int| 0 <= k < i ==> #[trigger] o@[k] == a@[k] - b@[k],
        decreases 16 - i,
    {
        o[i] = a[i] - b[i];
        i += 1;
    }
    proof {
        lemma_gval_linear(o@, a@, b@, -1, 16);
        lemma_field_consts();
        vstd::arithmetic::div_mod::lemma_sub_mod_noop(gval(a@, 16), gval(b@, 16), p25519());
    }
}

proof fn lemma_shr16(y: i64)
    by (bit_vector)
    requires
        -0x4001_0000_0000_0000i64 <= y <= 0x4001_0000_0000_0000i64,
    ensures
        (y >> 16u64) * 65536 <= y,
        y < (y >> 16u64) * 65536 + 65536,
        ((y >> 16u64) << 16u64) == (y >> 16u64) * 65536,
{
}

/// One carry pass: limb `i` keeps its value modulo 2^16 and passes the rest up; what passes
/// out of the top limb comes back into limb 0 times 38, since 2^256 = 38 modulo p.
pub(crate) fn car25519(o: &mut Gf)
    requires
        forall|i: int| 0 <= i < 16 ==> -0x4000_0000_0000_0000 <= #[trigger] old(o)@[i]
            <= 0x4000_0000_0000_0000,
    ensures
        gval(final(o)@, 16) == gval(old(o)@, 16) - (gval(old(o)@, 16) / w16(16)) * (w16(16) - 38),
        forall|i: int| 1 <= i < 16 ==> 0 <= #[trigger] final(o)@[i] < 65536,
        0 <= final(o)@[0] - 38 * (gval(old(o)@, 16) / w16(16)) < 65536,
{
    let ghost o0 = old(o)@;
    let ghost v = gval(o0, 16);
    let mut i: usize = 0;
    while i < 15
        invariant
            i <= 15,
            o0.len() == 16,
            gval(o@, 16) == v,
            forall|k: int| 0 <= k < 16 ==> -0x4000_0000_0000_0000 <= #[trigger] o0[k]
                <= 0x4000_0000_0000_0000,
            forall|k: int| 0 <= k < i ==> 0 <= #[trigger] o@[k] < 65536,
            forall|k: int| i < k < 16 ==> #[trigger] o@[k] == o0[k],
            -0x4000_8000_0000_0000 <= o@[i as int] <= 0x4000_8000_0000_0000,
        decreases 15 - i,
    {
        let ghost oa = o@;
        let x = o[i];
        o[i] += 65536;
        let y = o[i];
        let c = y >> 16;
        proof {
            lemma_shr16(y);
        }
        let ghost ob = o@;
        assert(o@[i + 1] == o0[i + 1]);
        o[i + 1] += c - 1;
        let ghost oc = o@;
        o[i] -= c << 16;
        proof {
            let k = i as int;
            lemma_gval_update(oa, k, y, 16);
            lemma_gval_update(ob, k + 1, oc[k + 1], 16);
            lemma_gval_update(oc, k, o@[k], 16);
            lemma_w16_step(k);
            assert(oa.update(k, y) == ob);
            assert(ob.update(k + 1, oc[k + 1]) == oc);
            assert(oc.update(k, o@[k]) == o@);
            assert((y - x) * w16(k) + (c - 1) * w16(k + 1) + (o@[k] - y) * w16(k) == 0)
                by (nonlinear_arith)
                requires
                    y == x + 65536,
                    o@[k] == y - c * 65536,
                    w16(k + 1) == 65536 * w16(k),
            ;
        }
        i += 1;
    }
    let ghost oa = o@;
    let x = o[15];
    o[15] += 65536;
    let y = o[15];
    let c = y >> 16;
    proof {
        lemma_shr16(y);
    }
    let ghost ob = o@;
    o[0] += c - 1 + 37 * (c - 1);
    let ghost oc = o@;
    o[15] -= c << 16;
    proof {
        lemma_field_consts();
        lemma_w16_step(15);
        lemma_gval_update(oa, 15, y, 16);
        lemma_gval_update(ob, 0, oc[0], 16);
        lemma_gval_update(oc, 15, o@[15], 16);
        assert(oa.update(15, y) == ob);
        assert(ob.update(0, oc[0]) == oc);
        assert(oc.update(15, o@[15]) == o@);
        let q = c - 1;
        // The positional value before folding the top carry back in.
        let low = oa.update(15, o@[15]);
        assert forall|k: int| 0 <= k < 16 implies 0 <= #[trigger] low[k] < 65536 by {}
        lemma_gval_normalized(low, 16);
        lemma_gval_update(oa, 15, o@[15], 16);
        assert(v == gval(low, 16) + q * w16(16)) by (nonlinear_arith)
            requires
                gval(low, 16) == v + (o@[15] - x) * w16(15),
                o@[15] == y - c * 65536,
                y == x + 65536,
                q == c - 1,
                w16(16) == 65536 * w16(15),
        ;
        lemma_fundamental_div_mod_converse(v, w16(16), q as int, gval(low, 16));
        assert((y - x) * w16(15) + (o@[15] - y) * w16(15) == -q * w16(16)) by (nonlinear_arith)
            requires
                y == x + 65536,
                o@[15] == y - c * 65536,
                q == c - 1,
                w16(16) == 65536 * w16(15),
        ;
        assert(o@[0] == low[0] + 38 * q);
        assert(oc[0] - ob[0] == 38 * q);
        assert((oc[0] - ob[0]) * w16(0) == 38 * q);
        assert(gval(o@, 16) == v - q * (w16(16) - 38)) by (nonlinear_arith)
            requires
                gval(ob, 16) == v + (y - x) * w16(15),
                gval(oc, 16) == gval(ob, 16) + (oc[0] - ob[0]) * w16(0),
                gval(o@, 16) == gval(oc, 16) + (o@[15] - y) * w16(15),
                (y - x) * w16(15) + (o@[15] - y) * w16(15) == -q * w16(16),
                (oc[0] - ob[0]) * w16(0) == 38 * q,
        ;
    }
}

/// `sum_{k < n} t[k + 16] 2^(16 k)`: the limbs of a double-width product above 2^256.
pub open spec fn high(t: Seq<i64>, n: int) -> int
    decreases n,
{
    if n <= 0 {
        0
    } else {
        high(t, n - 1) + t[n - 1 + 16] * w16(n - 1)
    }
}

proof fn lemma_high_split(t: Seq<i64>, n: int)
    requires
        0 <= n <= 15,
        t.len() == 31,
    ensures
        gval(t, 16 + n) == gval(t, 16) + w16(16) * high(t, n),
    decreases n,
{
    if n > 0 {
        lemma_high_split(t, n - 1);
        lemma_w16_adds(16, n - 1);
        let w = w16(16);
        assert(gval(t, 16 + n) == gval(t, 15 + n) + t[15 + n] * w16(15 + n));
        assert(t[15 + n] * (w * w16(n - 1)) + w * high(t, n - 1) == w * high(t, n)) by (nonlinear_arith)
            requires
                high(t, n) == high(t, n - 1) + t[n - 1 + 16] * w16(n - 1),
        ;
    }
}

/// Reduction modulo p of the two carry passes that end a multiplication.
proof fn lemma_two_carries(v0: int, v1: int, v2: int, q1: int, q2: int)
    requires
        v1 == v0 - q1 * (w16(16) - 38),
        v2 == v1 - q2 * (w16(16) - 38),
    ensures
        v2 % p25519() == v0 % p25519(),
{
    lemma_field_consts();
    lemma_mod_multiples_vanish(-2 * (q1 + q2), v0, p25519());
    assert(v2 == p25519() * (-2 * (q1 + q2)) + v0) by (nonlinear_arith)
        requires
            v1 == v0 - q1 * (w16(16) - 38),
            v2 == v1 - q2 * (w16(16) - 38),
            w16(16) - 38 == 2 * p25519(),
    ;
}

/// Two carry passes over limbs within 10 * 2^58: the result is `reduced` and equal modulo p.
fn carry_twice(o: &mut Gf)
    requires
        bounded(old(o)@, 0x2800_0000_0000_0000),
    ensures
        reduced(final(o)@),
        gval(final(o)@, 16) % p25519() == gval(old(o)@, 16) % p25519(),
{
    let ghost v0 = gval(o@, 16);
    proof {
        lemma_field_consts();
        lemma_w16_step(15);
        lemma_gval_bound(o@, 0x2800_0000_0000_0000, 16);
        assert(w16(16) >= 0x1_0000_0000_0000_0000) by (nonlinear_arith)
            requires
                w16(16) == 65536 * w16(15),
                w16(15) >= 0x1_0000_0000_0000_0000,
        ;
    }
    car25519(o);
    let ghost q1 = v0 / w16(16);
    let ghost v1 = gval(o@, 16);
    proof {
        let w = w16(16);
        vstd::arithmetic::div_mod::lemma_fundamental_div_mod(v0, w);
        assert(-0x5000_0000_0000 - 1 <= q1 <= 0x5000_0000_0000) by (nonlinear_arith)
            requires
                -2 * 0x2800_0000_0000_0000 * w16(15) <= v0 <= 2 * 0x2800_0000_0000_0000 * w16(15),
                w == 65536 * w16(15),
                w16(15) > 0,
                v0 == w * q1 + v0 % w,
                0 <= v0 % w < w,
        ;
        let r0 = o@[0] - 38 * q1;
        let low = o@.update(0, r0 as i64);
        assert forall|k: int| 0 <= k < 16 implies 0 <= #[trigger] low[k] < 65536 by {}
        lemma_gval_normalized(low, 16);
        lemma_gval_update(o@, 0, r0 as i64, 16);
        assert(v1 == gval(low, 16) + 38 * q1);
    }
    car25519(o);
    proof {
        let w = w16(16);
        let q2 = v1 / w;
        vstd::arithmetic::div_mod::lemma_fundamental_div_mod(v1, w);
        assert(-1 <= q2 <= 1) by (nonlinear_arith)
            requires
                -0x8000_0000_0000_0 <= v1 - 38 * q1 < w + 0x8000_0000_0000_0,
                -0x5000_0000_0000 - 1 <= q1 <= 0x5000_0000_0000,
                w >= 0x1_0000_0000_0000_0000,
                v1 == w * q2 + v1 % w,
                0 <= v1 % w < w,
        ;
        lemma_two_carries(v0, v1, gval(o@, 16), q1, q2);
    }
}

/// `o = a * b` modulo p, with the limbs carried back into `reduced` form.
pub(crate) fn gf_mult(o: &mut Gf, a: Gf, b: Gf)
    requires
        bounded(a@, 0x400_0000),
        bounded(b@, 0x400_0000),
    ensures
        reduced(final(o)@),
        gval(final(o)@, 16) % p25519() == (gval(a@, 16) * gval(b@, 16)) % p25519(),
        fe(final(o)@) == fmul(fe(a@), fe(b@)),
{
    proof {
        lemma_field_consts();
        lemma_mul_mod_noop(gval(a@, 16), gval(b@, 16), p25519());
    }
    let mut t = [0i64; 31];
    let ghost vb = gval(b@, 16);
    proof {
        lemma_gval_frame(t@, seq![0i64; 0], 0);
        assert forall|k: int| 0 <= k < 31 implies #[trigger] t@[k] == 0 by {}
        lemma_zero_gval(t@, 31);
    }
    let mut i: usize = 0;
    while i < 16
        invariant
            i <= 16,
            bounded(a@, 0x400_0000),
            bounded(b@, 0x400_0000),
            vb == gval(b@, 16),
            gval(t@, 31) == gval(a@, i as int) * vb,
            forall|k: int| 0 <= k < 31 ==> -(i * 0x10_0000_0000_0000) <= #[trigger] t@[k] <= i
                * 0x10_0000_0000_0000,
        decreases 16 - i,
    {
        let mut j: usize = 0;
        proof {
            assert(gval(b@, 0) == 0);
            let x = a@[i as int] as int;
            let y = w16(i as int);
            assert(x * 0 * y == 0) by (nonlinear_arith);
        }
        while j < 16
            invariant
                i < 16,
                j <= 16,
                bounded(a@, 0x400_0000),
                bounded(b@, 0x400_0000),
                vb == gval(b@, 16),
                gval(t@, 31) == gval(a@, i as int) * vb + a@[i as int] * gval(b@, j as int) * w16(
                    i as int,
                ),
                forall|k: int|
                    0 <= k < 31 ==> -((i + 1) * 0x10_0000_0000_0000) <= #[trigger] t@[k] <= (i + 1)
                        * 0x10_0000_0000_0000,
                forall|k: int|
                    0 <= k < 31 && !(i <= k < i + j) ==> -(i * 0x10_0000_0000_0000) <= #[trigger] t@[k]
                        <= i * 0x10_0000_0000_0000,
            decreases 16 - j,
        {
            let ai = a[i];
            let bj = b[j];
            assert(-0x10_0000_0000_0000 <= ai * bj <= 0x10_0000_0000_0000) by (nonlinear_arith)
                requires
                    -0x400_0000 <= ai <= 0x400_0000,
                    -0x400_0000 <= bj <= 0x400_0000,
            ;
            let ghost tp = t@;
            t[i + j] += ai * bj;
            proof {
                let ii = i as int;
                let jj = j as int;
                lemma_gval_update(tp, ii + jj, t@[ii + jj], 31);
                assert(tp.update(ii + jj, t@[ii + jj]) == t@);
                lemma_w16_adds(ii, jj);
                let ga = gval(a@, ii);
                assert(gval(b@, jj + 1) == gval(b@, jj) + bj * w16(jj));
                assert(ga * vb + ai * gval(b@, jj) * w16(ii) + (ai * bj) * (w16(ii) * w16(jj)) == ga
                    * vb + ai * gval(b@, jj + 1) * w16(ii)) by (nonlinear_arith)
                    requires
                        gval(b@, jj + 1) == gval(b@, jj) + bj * w16(jj),
                ;
            }
            j += 1;
        }
        proof {
            let ii = i as int;
            assert(gval(a@, ii + 1) == gval(a@, ii) + a@[ii] * w16(ii));
            assert(gval(a@, ii) * vb + a@[ii] * vb * w16(ii) == gval(a@, ii + 1) * vb)
                by (nonlinear_arith)
                requires
                    gval(a@, ii + 1) == gval(a@, ii) + a@[ii] * w16(ii),
            ;
        }
        i += 1;
    }
    let ghost t0 = t@;
    proof {
        lemma_high_split(t0, 15);
    }
    let mut i: usize = 0;
    while i < 15
        invariant
            i <= 15,
            t0.len() == 31,
            forall|k: int| 0 <= k < 31 ==> -0x100_0000_0000_0000 <= #[trigger] t0[k] <= 0x100_0000_0000_0000,
            forall|k: int| i <= k < 31 ==> #[trigger] t@[k] == t0[k],
            forall|k: int| 0 <= k < i ==> #[trigger] t@[k] == t0[k] + 38 * t0[k + 16],
            gval(t@, 16) == gval(t0, 16) + 38 * high(t0, i as int),
        decreases 15 - i,
    {
        let ghost tp = t@;
        assert(t@[i + 16] == t0[i + 16] && t@[i as int] == t0[i as int]);
        t[i] += 38 * t[i + 16];
        proof {
            let ii = i as int;
            lemma_gval_update(tp, ii, t@[ii], 16);
            assert(tp.update(ii, t@[ii]) == t@);
            assert(38 * high(t0, ii) + (38 * t0[ii + 16]) * w16(ii) == 38 * high(t0, ii + 1))
                by (nonlinear_arith)
                requires
                    high(t0, ii + 1) == high(t0, ii) + t0[ii + 16] * w16(ii),
            ;
        }
        i += 1;
    }
    let mut i: usize = 0;
    while i < 16
        invariant
            i <= 16,
            forall|k: int| 0 <= k < i ==> #[trigger] o@[k] == t@[k],
        decreases 16 - i,
    {
        o[i] = t[i];
        i += 1;
    }
    proof {
        lemma_gval_frame(o@, t@, 16);
        assert forall|k: int| 0 <= k < 16 implies -0x2800_0000_0000_0000 <= #[trigger] o@[k]
            <= 0x2800_0000_0000_0000 by {
            assert(o@[k] == t@[k]);
            if k < 15 {
                assert(t@[k] == t0[k] + 38 * t0[k + 16]);
            }
        }
        lemma_field_consts();
        let g = gval(t0, 31);
        lemma_mod_multiples_vanish(-2 * high(t0, 15), g, p25519());
        assert(gval(o@, 16) == p25519() * (-2 * high(t0, 15)) + g) by (nonlinear_arith)
            requires
                gval(o@, 16) == gval(t0, 16) + 38 * high(t0, 15),
                g == gval(t0, 16) + w16(16) * high(t0, 15),
                w16(16) - 38 == 2 * p25519(),
        ;
    }
    carry_twice(o);
}

proof fn lemma_zero_gval(t: Seq<i64>, n: int)
    requires
        0 <= n <= t.len(),
        forall|k: int| 0 <= k < n ==> #[trigger] t[k] == 0,
    ensures
        gval(t, n) == 0,
    decreases n,
{
    if n > 0 {
        lemma_zero_gval(t, n - 1);
    }
}

/// `o = a^2` modulo p.
pub(crate) fn gf_square(o: &mut Gf, a: Gf)
    requires
        bounded(a@, 0x400_0000),
    ensures
        reduced(final(o)@),
        gval(final(o)@, 16) % p25519() == (gval(a@, 16) * gval(a@, 16)) % p25519(),
        fe(final(o)@) == fmul(fe(a@), fe(a@)),
{
    gf_mult(o, a, a);
}

/// The exponent built up by `inv25519` once the bits from 253 down to `a` are done: each
/// step squares, and multiplies in the base except at bits 2 and 4.
pub open spec fn inv_exp(a: int) -> nat
    decreases 254 - a,
{
    if a >= 254 {
        1
    } else {
        2 * inv_exp(a + 1) + (if a != 2 && a != 4 { 1nat } else { 0nat })
    }
}

/// The exponent built up by `pow2523` once the bits from 250 down to `a` are done: each step
/// squares, and multiplies in the base except at bit 1.
pub open spec fn pow2523_exp(a: int) -> nat
    decreases 251 - a,
{
    if a >= 251 {
        1
    } else {
        2 * pow2523_exp(a + 1) + (if a != 1 { 1nat } else { 0nat })
    }
}

proof fn lemma_inv_exp_run(a: int)
    requires
        5 <= a <= 254,
    ensures
        inv_exp(a) == pow2((255 - a) as nat) - 1,
    decreases 254 - a,
{
    if a == 254 {
        lemma2_to64();
    } else {
        lemma_inv_exp_run(a + 1);
        vstd::arithmetic::power2::lemma_pow2_unfold((255 - a) as nat);
    }
}

proof fn lemma_inv_exp_value()
    ensures
        inv_exp(0) == p25519() - 2,
{
    lemma_inv_exp_run(5);
    vstd::arithmetic::power2::lemma_pow2_unfold(251);
    vstd::arithmetic::power2::lemma_pow2_unfold(252);
    vstd::arithmetic::power2::lemma_pow2_unfold(253);
    vstd::arithmetic::power2::lemma_pow2_unfold(254);
    vstd::arithmetic::power2::lemma_pow2_unfold(255);
    assert(inv_exp(4) == 2 * inv_exp(5));
    assert(inv_exp(3) == 2 * inv_exp(4) + 1);
    assert(inv_exp(2) == 2 * inv_exp(3));
    assert(inv_exp(1) == 2 * inv_exp(2) + 1);
    assert(inv_exp(0) == 2 * inv_exp(1) + 1);
}

proof fn lemma_pow2523_exp_run(a: int)
    requires
        2 <= a <= 251,
    ensures
        pow2523_exp(a) == pow2((252 - a) as nat) - 1,
    decreases 251 - a,
{
    if a == 251 {
        lemma2_to64();
    } else {
        lemma_pow2523_exp_run(a + 1);
        vstd::arithmetic::power2::lemma_pow2_unfold((252 - a) as nat);
    }
}

proof fn lemma_pow2523_exp_value()
    ensures
        pow2523_exp(0) == (p25519() - 5) / 8,
{
    lemma_pow2523_exp_run(2);
    vstd::arithmetic::power2::lemma_pow2_unfold(251);
    vstd::arithmetic::power2::lemma_pow2_unfold(252);
    assert(pow2523_exp(1) == 2 * pow2523_exp(2));
    assert(pow2523_exp(0) == 2 * pow2523_exp(1) + 1);
    lemma_pow2_adds(252, 3);
    lemma2_to64();
}

/// Squaring doubles the exponent, modulo p.
proof fn lemma_pow_square_step(c: int, t: int, x: int, e: nat)
    requires
        c % p25519() == pow(x, e) % p25519(),
        t % p25519() == (c * c) % p25519(),
    ensures
        t % p25519() == pow(x, 2 * e) % p25519(),
{
    let p = p25519();
    lemma_field_consts();
    lemma_mul_mod_noop(c, c, p);
    lemma_mul_mod_noop(pow(x, e), pow(x, e), p);
    vstd::arithmetic::power::lemma_pow_adds(x, e, e);
}

/// Multiplying by the base adds one to the exponent, modulo p.
proof fn lemma_pow_mul_step(t: int, c: int, x: int, e: nat)
    requires
        t % p25519() == pow(x, e) % p25519(),
        c % p25519() == (t * x) % p25519(),
    ensures
        c % p25519() == pow(x, e + 1) % p25519(),
{
    let p = p25519();
    lemma_field_consts();
    vstd::arithmetic::div_mod::lemma_mul_mod_noop_left(t, x, p);
    vstd::arithmetic::div_mod::lemma_mul_mod_noop_left(pow(x, e), x, p);
    vstd::arithmetic::power::lemma_pow_adds(x, e, 1);
    vstd::arithmetic::power::lemma_pow1(x);
}

/// `o = i^(p - 2)`, the inverse of `i` modulo p when `i` is not 0 modulo p.
pub(crate) fn inv25519(o: &mut Gf, i: Gf)
    requires
        bounded(i@, 0x400_0000),
    ensures
        reduced(final(o)@),
        gval(final(o)@, 16) % p25519() == pow(gval(i@, 16), (p25519() - 2) as nat) % p25519(),
{
    let ghost x = gval(i@, 16);
    let mut c = [0i64; 16];
    let mut a: usize = 0;
    while a < 16
        invariant
            a <= 16,
            forall|k: int| 0 <= k < a ==> #[trigger] c@[k] == i@[k],
        decreases 16 - a,
    {
        c[a] = i[a];
        a += 1;
    }
    assert(c@ =~= i@);
    proof {
        vstd::arithmetic::power::lemma_pow1(x);
    }
    let mut a: usize = 254;
    while a > 0
        invariant
            a <= 254,
            bounded(i@, 0x400_0000),
            x == gval(i@, 16),
            bounded(c@, 0x400_0000),
            a < 254 ==> reduced(c@),
            gval(c@, 16) % p25519() == pow(x, inv_exp(a as int)) % p25519(),
        decreases a,
    {
        a -= 1;
        let mut tmp = [0i64; 16];
        gf_square(&mut tmp, c);
        proof {
            lemma_pow_square_step(gval(c@, 16), gval(tmp@, 16), x, inv_exp(a + 1));
            lemma_reduced_bounded(tmp@);
        }
        if a != 2 && a != 4 {
            gf_mult(&mut c, tmp, i);
            proof {
                lemma_pow_mul_step(gval(tmp@, 16), gval(c@, 16), x, 2 * inv_exp(a + 1));
            }
        } else {
            c = tmp;
        }
        proof {
            lemma_reduced_bounded(c@);
        }
    }
    proof {
        lemma_inv_exp_value();
    }
    let mut a: usize = 0;
    while a < 16
        invariant
            a <= 16,
            forall|k: int| 0 <= k < a ==> #[trigger] o@[k] == c@[k],
        decreases 16 - a,
    {
        o[a] = c[a];
        a += 1;
    }
    assert(o@ =~= c@);
}

/// `o = i^((p - 5) / 8)`, the power that square roots modulo p are built from.
pub(crate) fn pow2523(o: &mut Gf, i: Gf)
    requires
        bounded(i@, 0x400_0000),
    ensures
        reduced(final(o)@),
        gval(final(o)@, 16) % p25519() == pow(gval(i@, 16), ((p25519() - 5) / 8) as nat) % p25519(),
{
    let ghost x = gval(i@, 16);
    let mut c = [0i64; 16];
    let mut a: usize = 0;
    while a < 16
        invariant
            a <= 16,
            forall|k: int| 0 <= k < a ==> #[trigger] c@[k] == i@[k],
        decreases 16 - a,
    {
        c[a] = i[a];
        a += 1;
    }
    assert(c@ =~= i@);
    proof {
        vstd::arithmetic::power::lemma_pow1(x);
    }
    let mut a: usize = 251;
    while a > 0
        invariant
            a <= 251,
            bounded(i@, 0x400_0000),
            x == gval(i@, 16),
            bounded(c@, 0x400_0000),
            a < 251 ==> reduced(c@),
            gval(c@, 16) % p25519() == pow(x, pow2523_exp(a as int)) % p25519(),
        decreases a,
    {
        a -= 1;
        let mut tmp = [0i64; 16];
        gf_square(&mut tmp, c);
        proof {
            lemma_pow_square_step(gval(c@, 16), gval(tmp@, 16), x, pow2523_exp(a + 1));
            lemma_reduced_bounded(tmp@);
        }
        if a != 1 {
            gf_mult(&mut c, tmp, i);
            proof {
                lemma_pow_mul_step(gval(tmp@, 16), gval(c@, 16), x, 2 * pow2523_exp(a + 1));
            }
        } else {
            c = tmp;
        }
        proof {
            lemma_reduced_bounded(c@);
        }
    }
    proof {
        lemma_pow2523_exp_value();
    }
    let mut a: usize = 0;
    while a < 16
        invariant
            a <= 16,
            forall|k: int| 0 <= k < a ==> #[trigger] o@[k] == c@[k],
        decreases 16 - a,
    {
        o[a] = c[a];
        a += 1;
    }
    assert(o@ =~= c@);
}

/// `sum_{1 <= k < n} a[k] 2^(16 (k - 1))`: the value of the limbs above limb 0, shifted down.
pub open spec fn gtail(a: Seq<i64>, n: int) -> int
    decreases n,
{
    if n <= 1 {
        0
    } else {
        gtail(a, n - 1) + a[n - 1] * w16(n - 2)
    }
}

proof fn lemma_gval_head(a: Seq<i64>, n: int)
    requires
        1 <= n <= a.len(),
    ensures
        gval(a, n) == a[0] + 65536 * gtail(a, n),
    decreases n,
{
    lemma_field_consts();
    if n == 1 {
        assert(gval(a, 1) == gval(a, 0) + a[0] * w16(0));
    } else {
        lemma_gval_head(a, n - 1);
        lemma_w16_step(n - 2);
        assert(a[n - 1] * w16(n - 1) == 65536 * (a[n - 1] * w16(n - 2))) by (nonlinear_arith)
            requires
                w16(n - 1) == 65536 * w16(n - 2),
        ;
    }
}

proof fn lemma_gtail_bound(a: Seq<i64>, n: int)
    requires
        1 <= n <= a.len(),
        forall|k: int| 1 <= k < n ==> 0 <= #[trigger] a[k] < 65536,
    ensures
        0 <= gtail(a, n) < w16(n - 1),
    decreases n,
{
    lemma_field_consts();
    if n > 1 {
        lemma_gtail_bound(a, n - 1);
        lemma_w16_step(n - 2);
        lemma_mul_inequality(a[n - 1] as int, 65535, w16(n - 2));
        lemma_mul_nonnegative(a[n - 1] as int, w16(n - 2));
    }
}

/// Three carry passes over limbs within 2^62 leave every limb in `[0, 2^16)`.
fn carry_thrice(t: &mut Gf)
    requires
        bounded(old(t)@, 0x4000_0000_0000_0000),
    ensures
        normalized(final(t)@),
        gval(final(t)@, 16) % p25519() == gval(old(t)@, 16) % p25519(),
{
    let ghost v0 = gval(t@, 16);
    let ghost w = w16(16);
    proof {
        lemma_field_consts();
        lemma_w16_step(15);
        lemma_gval_bound(t@, 0x4000_0000_0000_0000, 16);
        assert(w >= 0x1_0000_0000_0000_0000) by (nonlinear_arith)
            requires
                w == 65536 * w16(15),
                w16(15) >= 0x1_0000_0000_0000_0000,
        ;
    }
    car25519(t);
    let ghost q1 = v0 / w;
    let ghost v1 = gval(t@, 16);
    proof {
        vstd::arithmetic::div_mod::lemma_fundamental_div_mod(v0, w);
        assert(-0x8000_0000_0001 <= q1 <= 0x8000_0000_0000) by (nonlinear_arith)
            requires
                -2 * 0x4000_0000_0000_0000 * w16(15) <= v0 <= 2 * 0x4000_0000_0000_0000 * w16(15),
                w == 65536 * w16(15),
                w16(15) > 0,
                v0 == w * q1 + v0 % w,
                0 <= v0 % w < w,
        ;
        lemma_low_limb(t@, q1);
    }
    car25519(t);
    let ghost q2 = v1 / w;
    let ghost v2 = gval(t@, 16);
    proof {
        vstd::arithmetic::div_mod::lemma_fundamental_div_mod(v1, w);
        assert(-1 <= q2 <= 1) by (nonlinear_arith)
            requires
                -0x14_0000_0000_0000 <= v1 < w + 0x14_0000_0000_0000,
                w >= 0x1_0000_0000_0000_0000,
                v1 == w * q2 + v1 % w,
                0 <= v1 % w < w,
        ;
        lemma_low_limb(t@, q2);
    }
    car25519(t);
    proof {
        let q3 = v2 / w;
        vstd::arithmetic::div_mod::lemma_fundamental_div_mod(v2, w);
        assert(-1 <= q3 <= 1) by (nonlinear_arith)
            requires
                -38 <= v2 < w + 38,
                w >= 0x1_0000_0000_0000_0000,
                v2 == w * q3 + v2 % w,
                0 <= v2 % w < w,
        ;
        let r0 = t@[0] - 38 * q3;
        let low = t@.update(0, r0 as i64);
        lemma_gval_update(t@, 0, r0 as i64, 16);
        lemma_gval_head(low, 16);
        lemma_gtail_bound(low, 16);
        let r3 = gval(low, 16);
        assert(low[0] == r0);
        assert(gval(low, 16) == gval(t@, 16) + (r0 - t@[0]) * w16(0));
        assert(r3 == v2 - q3 * w) by (nonlinear_arith)
            requires
                r3 == gval(t@, 16) + (r0 - t@[0]) * w16(0),
                w16(0) == 1,
                r0 == t@[0] - 38 * q3,
                gval(t@, 16) == v2 - q3 * (w - 38),
        ;
        if q3 == 1 {
            assert(q3 * w == w) by (nonlinear_arith)
                requires
                    q3 == 1,
            ;
        }
        if q3 == -1 {
            assert(q3 * w == -w) by (nonlinear_arith)
                requires
                    q3 == -1,
            ;
        }
        assert(0 <= t@[0] < 65536) by (nonlinear_arith)
            requires
                t@[0] == r0 + 38 * q3,
                0 <= r0 < 65536,
                r3 == r0 + 65536 * gtail(low, 16),
                0 <= gtail(low, 16) < w16(15),
                w == 65536 * w16(15),
                -1 <= q3 <= 1,
                q3 == 1 ==> r3 < 38,
                q3 == -1 ==> r3 >= w - 38,
        ;
        lemma_two_carries(v0, v1, v2, q1, q2);
        lemma_two_carries(v2, gval(t@, 16), gval(t@, 16), q3, 0);
    }
}

/// After a carry pass with top carry `q`, the value lies within `38 |q|` of `[0, 2^256)`.
proof fn lemma_low_limb(t: Seq<i64>, q: int)
    requires
        t.len() == 16,
        forall|i: int| 1 <= i < 16 ==> 0 <= #[trigger] t[i] < 65536,
        0 <= t[0] - 38 * q < 65536,
    ensures
        38 * q <= gval(t, 16) < w16(16) + 38 * q,
{
    let r0 = t[0] - 38 * q;
    let low = t.update(0, r0 as i64);
    assert forall|k: int| 0 <= k < 16 implies 0 <= #[trigger] low[k] < 65536 by {}
    lemma_gval_normalized(low, 16);
    lemma_gval_update(t, 0, r0 as i64, 16);
    lemma_field_consts();
}

/// The limbs of p: 0xffed, fourteen times 0xffff, then 0x7fff.
pub open spec fn p_limb(k: int) -> i64 {
    if k == 0 {
        0xffed
    } else if k == 15 {
        0x7fff
    } else {
        0xffff
    }
}

pub open spec fn p_limbs() -> Seq<i64> {
    Seq::new(16, |k: int| p_limb(k))
}

pub open spec fn ones_limbs() -> Seq<i64> {
    Seq::new(16, |k: int| 0xffffi64)
}

proof fn lemma_ones(n: int)
    requires
        0 <= n <= 16,
    ensures
        gval(ones_limbs(), n) == w16(n) - 1,
    decreases n,
{
    lemma_field_consts();
    if n > 0 {
        lemma_ones(n - 1);
        lemma_w16_step(n - 1);
        assert(ones_limbs()[n - 1] == 0xffff);
    }
}

proof fn lemma_p_limbs()
    ensures
        gval(p_limbs(), 16) == p25519(),
{
    let ones = ones_limbs();
    lemma_ones(16);
    let s1 = ones.update(0, 0xffedi64);
    lemma_gval_update(ones, 0, 0xffedi64, 16);
    lemma_gval_update(s1, 15, 0x7fffi64, 16);
    assert(s1.update(15, 0x7fffi64) =~= p_limbs());
    lemma_field_consts();
    lemma_w16_step(15);
    lemma_pow2_adds(240, 15);
    lemma2_to64();
    assert(ones[0] == 0xffff && s1[15] == 0xffff);
    assert((0x7fffi64 - 0xffff) * w16(15) == -pow2(255)) by (nonlinear_arith)
        requires
            pow2(255) == w16(15) * 32768,
    ;
}

proof fn lemma_borrow(x: i64)
    by (bit_vector)
    requires
        -65536 <= x < 65536,
    ensures
        ((x >> 16u64) & 1) == (if x < 0 { 1i64 } else { 0i64 }),
        (x & 0xffff) == x + 65536 * (if x < 0 { 1i64 } else { 0i64 }),
{
}

/// Subtracts p from `t` when `t` is at least p, in constant time.
fn sub_p_once(t: &mut Gf)
    requires
        normalized(old(t)@),
    ensures
        normalized(final(t)@),
        gval(final(t)@, 16) == (if gval(old(t)@, 16) >= p25519() {
            gval(old(t)@, 16) - p25519()
        } else {
            gval(old(t)@, 16)
        }),
{
    let ghost t0 = *t;
    let ghost pl = p_limbs();
    let mut m = [0i64; 16];
    m[0] = t[0] - 0xffed;
    proof {
        lemma_field_consts();
        assert(gval(m@, 1) == gval(m@, 0) + m@[0] * w16(0));
        assert(gval(t@, 1) == gval(t@, 0) + t@[0] * w16(0));
        assert(gval(pl, 1) == gval(pl, 0) + pl[0] * w16(0));
    }
    let mut i: usize = 1;
    while i < 15
        invariant
            1 <= i <= 15,
            *t == t0,
            normalized(t@),
            pl == p_limbs(),
            forall|k: int| 0 <= k < i - 1 ==> 0 <= #[trigger] m@[k] < 65536,
            -65536 <= m@[i - 1] < 65536,
            gval(m@, i as int) == gval(t@, i as int) - gval(pl, i as int),
        decreases 15 - i,
    {
        let x = m[i - 1];
        proof {
            lemma_borrow(x);
        }
        let ghost mp = m@;
        m[i] = t[i] - 0xffff - ((x >> 16) & 1);
        m[i - 1] &= 0xffff;
        proof {
            let ii = i as int;
            let bor: int = if x < 0 { 1 } else { 0 };
            lemma_gval_frame(m@, mp.update(ii - 1, m@[ii - 1]), ii);
            lemma_gval_update(mp, ii - 1, m@[ii - 1], ii);
            assert(gval(m@, ii) == gval(mp, ii) + (m@[ii - 1] - x) * w16(ii - 1));
            lemma_w16_step(ii - 1);
            assert(gval(m@, ii + 1) == gval(m@, ii) + m@[ii] * w16(ii));
            assert(gval(t@, ii + 1) == gval(t@, ii) + t@[ii] * w16(ii));
            assert(gval(pl, ii + 1) == gval(pl, ii) + pl[ii] * w16(ii));
            assert(pl[ii] == 0xffff);
            assert(m@[ii - 1] == x + 65536 * bor);
            assert(m@[ii] == t@[ii] - pl[ii] - bor);
            assert((m@[ii - 1] - x) * w16(ii - 1) + m@[ii] * w16(ii) == (t@[ii] - pl[ii]) * w16(ii))
                by (nonlinear_arith)
                requires
                    m@[ii - 1] == x + 65536 * bor,
                    m@[ii] == t@[ii] - pl[ii] - bor,
                    w16(ii) == 65536 * w16(ii - 1),
            ;
            assert(gval(mp, ii) == gval(t@, ii) - gval(pl, ii));
            assert(gval(m@, ii + 1) == gval(t@, ii + 1) - gval(pl, ii + 1)) by (nonlinear_arith)
                requires
                    gval(m@, ii + 1) == gval(m@, ii) + m@[ii] * w16(ii),
                    gval(t@, ii + 1) == gval(t@, ii) + t@[ii] * w16(ii),
                    gval(pl, ii + 1) == gval(pl, ii) + pl[ii] * w16(ii),
                    gval(m@, ii) == gval(mp, ii) + (m@[ii - 1] - x) * w16(ii - 1),
                    (m@[ii - 1] - x) * w16(ii - 1) + m@[ii] * w16(ii) == (t@[ii] - pl[ii]) * w16(ii),
                    gval(mp, ii) == gval(t@, ii) - gval(pl, ii),
            ;
        }
        i += 1;
    }
    let x = m[14];
    proof {
        lemma_borrow(x);
    }
    let ghost mp = m@;
    m[15] = t[15] - 0x7fff - ((x >> 16) & 1);
    let y = m[15];
    let b: isize = ((y >> 16) & 1) as isize;
    proof {
        lemma_borrow(y);
    }
    m[14] &= 0xffff;
    proof {
        let bor: int = if x < 0 { 1 } else { 0 };
        lemma_gval_frame(m@, mp.update(14, m@[14]), 14);
        lemma_gval_update(mp, 14, m@[14], 15);
        lemma_w16_step(14);
        assert(gval(m@, 16) == gval(m@, 15) + m@[15] * w16(15));
        assert(gval(m@, 15) == gval(m@, 14) + m@[14] * w16(14));
        assert(gval(mp, 15) == gval(mp, 14) + mp[14] * w16(14));
        assert(gval(t@, 16) == gval(t@, 15) + t@[15] * w16(15));
        assert(gval(pl, 16) == gval(pl, 15) + pl[15] * w16(15));
        assert(pl[15] == 0x7fff);
        lemma_gval_frame(m@, mp, 14);
        assert(gval(m@, 16) == gval(t@, 16) - gval(pl, 16)) by (nonlinear_arith)
            requires
                gval(m@, 16) == gval(m@, 14) + m@[14] * w16(14) + m@[15] * w16(15),
                gval(mp, 15) == gval(m@, 14) + x * w16(14),
                gval(mp, 15) == gval(t@, 15) - gval(pl, 15),
                m@[14] == x + 65536 * bor,
                m@[15] == t@[15] - pl[15] - bor,
                w16(15) == 65536 * w16(14),
                gval(t@, 16) == gval(t@, 15) + t@[15] * w16(15),
                gval(pl, 16) == gval(pl, 15) + pl[15] * w16(15),
        ;
        lemma_p_limbs();
        assert forall|k: int| 0 <= k < 15 implies 0 <= #[trigger] m@[k] < 65536 by {}
        lemma_gval_normalized(m@, 15);
        assert((gval(m@, 16) >= 0) == (y >= 0)) by (nonlinear_arith)
            requires
                gval(m@, 16) == gval(m@, 15) + y * w16(15),
                0 <= gval(m@, 15) < w16(15),
        ;
    }
    sel25519(t, &mut m, 1 - b);
}

/// The two bytes of a 16-bit limb.
proof fn lemma_limb_bytes(x: i64)
    by (bit_vector)
    requires
        0 <= x < 65536,
    ensures
        (x as u8) as int + 256 * (((x >> 8u64) as u8) as int) == x,
{
}

proof fn lemma_gval_bytes(t: Seq<i64>, o: Seq<u8>, n: int)
    requires
        0 <= n <= 16,
        t.len() == 16,
        o.len() == 32,
        forall|k: int| 0 <= k < n ==> #[trigger] t[k] == o[2 * k] + 256 * o[2 * k + 1],
    ensures
        gval(t, n) == crate::bytes::bytes_val(o, 2 * n),
    decreases n,
{
    if n > 0 {
        lemma_gval_bytes(t, o, n - 1);
        let k = n - 1;
        crate::bytes::lemma_b8_step(2 * k);
        assert(crate::bytes::b8(2 * k) == w16(k)) by {
            assert((8 * (2 * k)) as nat == (16 * k) as nat);
        }
        assert(crate::bytes::bytes_val(o, 2 * k + 1) == crate::bytes::bytes_val(o, 2 * k) + o[2 * k]
            * crate::bytes::b8(2 * k));
        assert(crate::bytes::bytes_val(o, 2 * k + 2) == crate::bytes::bytes_val(o, 2 * k + 1) + o[2
            * k + 1] * crate::bytes::b8(2 * k + 1));
        assert(t[k] * w16(k) == o[2 * k] * w16(k) + o[2 * k + 1] * (256 * w16(k))) by (nonlinear_arith)
            requires
                t[k] == o[2 * k] + 256 * o[2 * k + 1],
        ;
    }
}

/// Writes the canonical little-endian encoding of `n`, the residue modulo p in `[0, p)`.
pub(crate) fn pack25519(o: &mut [u8; 32], n: Gf)
    requires
        bounded(n@, 0x4000_0000_0000_0000),
    ensures
        crate::bytes::le_value(final(o)@) == gval(n@, 16) % p25519(),
{
    let mut t: Gf = n;
    let mut i: usize = 0;
    while i < 16
        invariant
            i <= 16,
            t == n,
        decreases 16 - i,
    {
        t[i] = n[i];
        i += 1;
    }
    carry_thrice(&mut t);
    let ghost v = gval(t@, 16);
    proof {
        lemma_gval_normalized(t@, 16);
        lemma_field_consts();
    }
    sub_p_once(&mut t);
    sub_p_once(&mut t);
    proof {
        let pp = p25519();
        if v >= pp {
            if v - pp >= pp {
                lemma_fundamental_div_mod_converse(v, pp, 2, v - 2 * pp);
            } else {
                lemma_fundamental_div_mod_converse(v, pp, 1, v - pp);
            }
        } else {
            lemma_fundamental_div_mod_converse(v, pp, 0, v);
        }
    }
    let mut i: usize = 0;
    while i < 16
        invariant
            i <= 16,
            normalized(t@),
            forall|k: int| 0 <= k < i ==> #[trigger] t@[k] == o@[2 * k] + 256 * o@[2 * k + 1],
        decreases 16 - i,
    {
        let x = t[i];
        o[2 * i] = x as u8;
        o[2 * i + 1] = (x >> 8) as u8;
        proof {
            lemma_limb_bytes(x);
        }
        i += 1;
    }
    proof {
        lemma_gval_bytes(t@, o@, 16);
    }
}

proof fn lemma_pair(lo: u8, hi: u8)
    by (bit_vector)
    ensures
        (lo as i64) + ((hi as i64) << 8u64) == (lo as int) + 256 * (hi as int),
        0 <= (lo as i64) + ((hi as i64) << 8u64) < 65536,
{
}

proof fn lemma_mask15(x: i64)
    by (bit_vector)
    requires
        0 <= x < 65536,
    ensures
        (x & 0x7fff) == x % 32768,
{
}

/// Reads a field element from 32 little-endian bytes, ignoring the top bit.
pub(crate) fn unpack25519(o: &mut Gf, n: &[u8; 32])
    ensures
        normalized(final(o)@),
        gval(final(o)@, 16) == crate::bytes::le_value(n@) % (pow2(255) as int),
{
    let mut i: usize = 0;
    while i < 16
        invariant
            i <= 16,
            forall|k: int| 0 <= k < i ==> #[trigger] o@[k] == n@[2 * k] + 256 * n@[2 * k + 1],
            forall|k: int| 0 <= k < i ==> 0 <= #[trigger] o@[k] < 65536,
        decreases 16 - i,
    {
        let lo = n[2 * i];
        let hi = n[2 * i + 1];
        proof {
            lemma_pair(lo, hi);
        }
        o[i] = lo as i64 + ((hi as i64) << 8);
        i += 1;
    }
    let ghost t = o@;
    proof {
        lemma_gval_bytes(t, n@, 16);
    }
    let x = o[15];
    proof {
        lemma_mask15(x);
    }
    o[15] &= 0x7fff;
    proof {
        lemma_gval_update(t, 15, o@[15], 16);
        assert(t.update(15, o@[15]) == o@);
        lemma_field_consts();
        lemma_gval_normalized(o@, 15);
        lemma_pow2_adds(240, 15);
        lemma2_to64();
        let le = crate::bytes::le_value(n@);
        let q = x / 32768;
        assert(gval(o@, 16) == gval(o@, 15) + o@[15] * w16(15));
        assert(le == q * pow2(255) + gval(o@, 16)) by (nonlinear_arith)
            requires
                le == gval(t, 16),
                gval(o@, 16) == gval(t, 16) + (o@[15] - x) * w16(15),
                o@[15] == x % 32768,
                x == 32768 * q + x % 32768,
                pow2(255) == w16(15) * 32768,
        ;
        assert(gval(o@, 16) < pow2(255)) by (nonlinear_arith)
            requires
                gval(o@, 16) == gval(o@, 15) + o@[15] * w16(15),
                gval(o@, 15) < w16(15),
                0 <= o@[15] < 32768,
                pow2(255) == w16(15) * 32768,
        ;
        lemma_fundamental_div_mod_converse(le, pow2(255) as int, q, gval(o@, 16));
    }
}

/// Whether `a` and `b` stand for different residues modulo p.
pub(crate) fn neq25519(a: Gf, b: Gf) -> (r: bool)
    requires
        bounded(a@, 0x4000_0000_0000_0000),
        bounded(b@, 0x4000_0000_0000_0000),
    ensures
        r == (fe(a@) != fe(b@)),
{
    let mut c = [0u8; 32];
    let mut d = [0u8; 32];
    pack25519(&mut c, a);
    pack25519(&mut d, b);
    proof {
        crate::bytes::lemma_le_value_injective(c@, d@);
    }
    crate::bytes::verify_32(&c, &d) != 0
}

/// The parity of the residue of `a` modulo p, in `[0, p)`.
pub(crate) fn par25519(a: Gf) -> (r: u8)
    requires
        bounded(a@, 0x4000_0000_0000_0000),
    ensures
        r == fe(a@) % 2,
{
    let mut d = [0u8; 32];
    pack25519(&mut d, a);
    let r = d[0] & 1;
    proof {
        let b = d@[0];
        assert(b & 1 == b % 2) by (bit_vector);
        crate::bytes::lemma_bytes_parity(d@, 32);
    }
    r
}

/// Zero limbs above `a` add nothing.
pub proof fn lemma_zeros_above(t: Seq<i64>, a: int, n: int)
    requires
        0 <= a <= n <= t.len(),
        forall|k: int| a <= k < n ==> t[k] == 0,
    ensures
        gval(t, n) == gval(t, a),
    decreases n,
{
    if n > a {
        lemma_zeros_above(t, a, n - 1);
    }
}

/// Multiplication modulo p commutes, and a difference negated squares to the same value.
pub proof fn lemma_fmul_comm_all()
    ensures
        forall|a: int, b: int| #[trigger] fmul(a, b) == fmul(b, a),
        forall|a: int, b: int| #[trigger] fmul(fsub(a, b), fsub(a, b)) == fmul(fsub(b, a), fsub(b, a)),
{
    assert forall|a: int, b: int| #[trigger] fmul(a, b) == fmul(b, a) by {
        lemma_mul_is_commutative(a, b);
    }
    assert forall|a: int, b: int| #[trigger] fmul(fsub(a, b), fsub(a, b)) == fmul(fsub(b, a), fsub(b, a)) by {
        let p = p25519();
        lemma_field_consts();
        lemma_mul_mod_noop(a - b, a - b, p);
        lemma_mul_mod_noop(b - a, b - a, p);
        assert((a - b) * (a - b) == (b - a) * (b - a)) by (nonlinear_arith);
    }
}

/// Multiplication modulo p is associative.
pub proof fn lemma_fmul_assoc(a: int, b: int, c: int)
    ensures
        fmul(fmul(a, b), c) == fmul(a, fmul(b, c)),
{
    let p = p25519();
    lemma_field_consts();
    vstd::arithmetic::div_mod::lemma_mul_mod_noop_left(a * b, c, p);
    vstd::arithmetic::div_mod::lemma_mul_mod_noop_right(a, b * c, p);
    lemma_mul_is_associative(a, b, c);
}

/// The product of two powers of `v`, modulo p.
pub proof fn lemma_fmul_pow(v: int, i: nat, j: nat)
    ensures
        fmul(pow(v, i) % p25519(), pow(v, j) % p25519()) == pow(v, i + j) % p25519(),
{
    lemma_field_consts();
    lemma_mul_mod_noop(pow(v, i), pow(v, j), p25519());
    vstd::arithmetic::power::lemma_pow_adds(v, i, j);
}

/// Reducing the factors first gives the same product modulo p.
pub proof fn lemma_mul_mod_noop_pub(a: int, b: int)
    ensures
        ((a % p25519()) * (b % p25519())) % p25519() == (a * b) % p25519(),
{
    lemma_field_consts();
    lemma_mul_mod_noop(a, b, p25519());
}

/// Congruent factors give congruent products modulo p.
pub proof fn lemma_cong_mul(a: int, b: int, a0: int, b0: int)
    requires
        a % p25519() == a0 % p25519(),
        b % p25519() == b0 % p25519(),
    ensures
        (a * b) % p25519() == (a0 * b0) % p25519(),
{
    lemma_field_consts();
    lemma_mul_mod_noop_pub(a, b);
    lemma_mul_mod_noop_pub(a0, b0);
}

/// Congruent terms give congruent sums and differences modulo p.
pub proof fn lemma_cong_add(a: int, b: int, a0: int, b0: int)
    requires
        a % p25519() == a0 % p25519(),
        b % p25519() == b0 % p25519(),
    ensures
        (a + b) % p25519() == (a0 + b0) % p25519(),
        (a - b) % p25519() == (a0 - b0) % p25519(),
{
    lemma_field_consts();
    vstd::arithmetic::div_mod::lemma_add_mod_noop(a, b, p25519());
    vstd::arithmetic::div_mod::lemma_add_mod_noop(a0, b0, p25519());
    vstd::arithmetic::div_mod::lemma_sub_mod_noop(a, b, p25519());
    vstd::arithmetic::div_mod::lemma_sub_mod_noop(a0, b0, p25519());
}

/// Reducing modulo p twice is reducing once.
pub proof fn lemma_mod_idem(a: int)
    ensures
        (a % p25519()) % p25519() == a % p25519(),
{
    lemma_field_consts();
    vstd::arithmetic::div_mod::lemma_mod_twice(a, p25519());
}

} // verus!
