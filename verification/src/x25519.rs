//! X25519: scalar multiplication on Curve25519 by the Montgomery ladder.
use vstd::prelude::*;
use vstd::arithmetic::power::pow;
use vstd::arithmetic::power2::pow2;
use crate::bytes::{le_value, le_bytes, lemma_le_bytes_of_value, bytes_val, b8};
use crate::field::{lemma_cong_mul, lemma_cong_add, lemma_mod_idem, Gf, p25519, gval, fe, fadd,
    fsub, fmul, reduced, bounded, normalized,
    lemma_reduced_bounded, lemma_field_consts, lemma_gval_update, sel25519, gf_add, gf_sub, gf_mult,
    gf_square, inv25519, pack25519, unpack25519};

verus! {

/// The scalar `n` with the Curve25519 clamping: the low three bits cleared, bit 255
/// cleared and bit 254 set.
pub open spec fn clamp(n: Seq<u8>) -> Seq<u8> {
    n.update(0, n[0] & 248u8).update(31, (n[31] & 127u8) | 64u8)
}

/// Bit `t` of the little-endian scalar `k`.
pub open spec fn scalar_bit(k: Seq<u8>, t: int) -> u8 {
    (k[t / 8] >> ((t % 8) as u8)) & 1u8
}

/// One step of the Montgomery ladder on `(x2, z2, x3, z3)`, with the differential addition-and-doubling formulas.
pub open spec fn ladder_step(x1: int, s: (int, int, int, int)) -> (int, int, int, int) {
    let (x2, z2, x3, z3) = s;
    let a = fadd(x2, z2);
    let aa = fmul(a, a);
    let b = fsub(x2, z2);
    let bb = fmul(b, b);
    let e = fsub(aa, bb);
    let c = fadd(x3, z3);
    let d = fsub(x3, z3);
    let da = fmul(d, a);
    let cb = fmul(c, b);
    (
        fmul(aa, bb),
        fmul(e, fadd(aa, fmul(121665, e))),
        fmul(fadd(da, cb), fadd(da, cb)),
        fmul(x1, fmul(fsub(da, cb), fsub(da, cb))),
    )
}

pub open spec fn swap_pairs(s: (int, int, int, int)) -> (int, int, int, int) {
    (s.2, s.3, s.0, s.1)
}

/// The ladder state once the bits of `k` from 254 down to `t` are done, starting from
/// `(1, 0, x1, 1)`: at a set bit the two points trade places around the step.
pub open spec fn ladder(x1: int, k: Seq<u8>, t: int) -> (int, int, int, int)
    decreases 255 - t,
{
    if t >= 255 {
        (1, 0, x1, 1)
    } else {
        let s = ladder(x1, k, t + 1);
        if scalar_bit(k, t) == 1 {
            swap_pairs(ladder_step(x1, swap_pairs(s)))
        } else {
            ladder_step(x1, s)
        }
    }
}

/// The u-coordinate that 32 bytes encode: the top bit dropped, then reduced modulo p.
pub open spec fn decode_u(p: Seq<u8>) -> int {
    (le_value(p) % (pow2(255) as int)) % p25519()
}

/// X25519 of the scalar `n` and the u-coordinate `p`, as a residue in `[0, p)`.
pub open spec fn x25519(n: Seq<u8>, p: Seq<u8>) -> int {
    let s = ladder(decode_u(p), clamp(n), 0);
    fmul(s.0, pow(s.1, (p25519() - 2) as nat) % p25519())
}

/// The u-coordinate 9 of the Curve25519 base point, as 32 bytes.
pub const C_9: [u8; 32] = [9, 0, 0, 0, 0, 0, 0, 0, 0, 0, 0, 0, 0, 0, 0, 0, 0, 0, 0, 0, 0, 0, 0, 0, 0,
    0, 0, 0, 0, 0, 0, 0];

/// 121665 = (486662 - 2) / 4, as a field element.
const C_121665: Gf = [0xDB41, 1, 0, 0, 0, 0, 0, 0, 0, 0, 0, 0, 0, 0, 0, 0];

/// A field element whose limbs above the second are zero.
pub(crate) proof fn lemma_gval_two_limbs(a: Seq<i64>)
    requires
        a.len() == 16,
        forall|k: int| 2 <= k < 16 ==> a[k] == 0,
    ensures
        gval(a, 16) == a[0] + 65536 * a[1],
{
    crate::field::lemma_zeros_above(a, 2, 16);
    lemma_field_consts();
    crate::field::lemma_w16_step(0);
    assert(gval(a, 0) == 0);
    assert(gval(a, 2) == gval(a, 1) + a[1] * crate::field::w16(1));
    assert(gval(a, 1) == gval(a, 0) + a[0] * crate::field::w16(0));
    assert(crate::field::w16(1) == 65536);
    assert(gval(a, 2) == a[0] + 65536 * a[1]) by (nonlinear_arith)
        requires
            gval(a, 2) == gval(a, 1) + a[1] * crate::field::w16(1),
            gval(a, 1) == 0 + a[0] * crate::field::w16(0),
            crate::field::w16(1) == 65536,
            crate::field::w16(0) == 1,
    ;
}

/// Writes `X25519(n, p)` into `q`: the scalar `n`, clamped, times the point with
/// u-coordinate `p`, encoded as 32 little-endian bytes.
pub fn scalarmult(q: &mut [u8; 32], n: &[u8; 32], p: &[u8; 32])
    ensures
        le_value(final(q)@) == x25519(n@, p@),
        final(q)@ == le_bytes(x25519(n@, p@), 32),
{
    let mut z = *n;
    z[31] = (n[31] & 127) | 64;
    z[0] &= 248;
    assert(z@ =~= clamp(n@));
    let mut x: Gf = [0; 16];
    unpack25519(&mut x, p);
    let ghost x1 = fe(x@);
    proof {
        lemma_field_consts();
        assert(x1 == decode_u(p@));
    }
    let mut b: Gf = x;
    let mut a: Gf = [0; 16];
    let mut c: Gf = [0; 16];
    let mut d: Gf = [0; 16];
    let mut e: Gf = [0; 16];
    let mut f: Gf = [0; 16];
    a[0] = 1;
    d[0] = 1;
    proof {
        lemma_gval_two_limbs(a@);
        lemma_gval_two_limbs(c@);
        lemma_gval_two_limbs(d@);
        vstd::arithmetic::div_mod::lemma_small_mod(1, p25519() as nat);
        vstd::arithmetic::div_mod::lemma_small_mod(0, p25519() as nat);
        vstd::arithmetic::div_mod::lemma_mod_twice(gval(x@, 16), p25519());
    }
    let mut i: usize = 255;
    while i > 0
        invariant
            i <= 255,
            z@ == clamp(n@),
            normalized(x@),
            x1 == fe(x@),
            reduced(a@),
            reduced(b@),
            reduced(c@),
            reduced(d@),
            (fe(a@), fe(c@), fe(b@), fe(d@)) == ladder(x1, z@, i as int),
        decreases i,
    {
        i -= 1;
        let zb = z[i / 8];
        let sh = (i % 8) as u8;
        let r: u8 = (zb >> sh) & 1;
        assert(r == 0 || r == 1) by (bit_vector)
            requires
                r == (zb >> sh) & 1u8,
        ;
        let ghost s0 = ladder(x1, z@, i + 1);
        sel25519(&mut a, &mut b, r as isize);
        sel25519(&mut c, &mut d, r as isize);
        let ghost s = (fe(a@), fe(c@), fe(b@), fe(d@));
        assert(s == (if r == 1 { swap_pairs(s0) } else { s0 }));
        ladder_round(&mut a, &mut b, &mut c, &mut d, &mut e, &mut f, &x);
        assert((fe(a@), fe(c@), fe(b@), fe(d@)) == ladder_step(x1, s));
        sel25519(&mut a, &mut b, r as isize);
        sel25519(&mut c, &mut d, r as isize);
        assert(scalar_bit(z@, i as int) == r);
    }
    let mut cinv: Gf = [0; 16];
    proof {
        lemma_reduced_bounded(c@);
        lemma_reduced_bounded(a@);
    }
    inv25519(&mut cinv, c);
    let mut res: Gf = [0; 16];
    proof {
        lemma_reduced_bounded(cinv@);
    }
    gf_mult(&mut res, a, cinv);
    proof {
        lemma_reduced_bounded(res@);
        vstd::arithmetic::power::lemma_pow_mod_noop(gval(c@, 16), (p25519() - 2) as nat, p25519());
    }
    pack25519(q, res);
    proof {
        lemma_le_bytes_of_value(q@);
    }
}

/// One ladder step on the limbs, leaving `(a, c, b, d)` at `ladder_step` of their residues.
fn ladder_round(a: &mut Gf, b: &mut Gf, c: &mut Gf, d: &mut Gf, e: &mut Gf, f: &mut Gf, x: &Gf)
    requires
        reduced(old(a)@),
        reduced(old(b)@),
        reduced(old(c)@),
        reduced(old(d)@),
        normalized(x@),
    ensures
        reduced(final(a)@),
        reduced(final(b)@),
        reduced(final(c)@),
        reduced(final(d)@),
        (fe(final(a)@), fe(final(c)@), fe(final(b)@), fe(final(d)@)) == ladder_step(
            fe(x@),
            (fe(old(a)@), fe(old(c)@), fe(old(b)@), fe(old(d)@)),
        ),
{
    let ghost x1 = fe(x@);
    let ghost st = (fe(a@), fe(c@), fe(b@), fe(d@));
    let ghost sp = ladder_step(x1, st);
    let mut tmp: Gf = [0; 16];
    gf_add(e, *a, *c);
    let ghost va = fe(e@);
    gf_sub(&mut tmp, *a, *c);
    *a = tmp;
    let ghost vb = fe(a@);
    gf_add(c, *b, *d);
    let ghost vc = fe(c@);
    gf_sub(&mut tmp, *b, *d);
    *b = tmp;
    let ghost vd = fe(b@);
    assert(bounded(e@, 0x40000) && bounded(a@, 0x40000) && bounded(b@, 0x40000) && bounded(
        c@,
        0x40000,
    ));
    gf_square(d, *e);
    let ghost aa = fe(d@);
    gf_square(f, *a);
    let ghost bb = fe(f@);
    gf_mult(&mut tmp, *c, *a);
    *a = tmp;
    let ghost cb = fe(a@);
    gf_mult(c, *b, *e);
    let ghost da = fe(c@);
    gf_add(e, *a, *c);
    gf_sub(&mut tmp, *a, *c);
    *a = tmp;
    assert(bounded(e@, 0x40000) && bounded(a@, 0x40000));
    gf_square(b, *a);
    gf_sub(c, *d, *f);
    let ghost ee = fe(c@);
    assert(bounded(c@, 0x40000));
    proof {
        lemma_gval_two_limbs(C_121665@);
        lemma_field_consts();
        vstd::arithmetic::div_mod::lemma_small_mod(121665, p25519() as nat);
        assert(fe(C_121665@) == 121665);
    }
    gf_mult(&mut tmp, *c, C_121665);
    *a = tmp;
    gf_add(&mut tmp, *a, *d);
    *a = tmp;
    assert(bounded(a@, 0x40000));
    gf_mult(&mut tmp, *c, *a);
    *c = tmp;
    gf_mult(a, *d, *f);
    gf_mult(d, *b, *x);
    gf_square(b, *e);
    proof {
        crate::field::lemma_fmul_comm_all();
        assert(va == fadd(st.0, st.1));
        assert(vb == fsub(st.0, st.1));
        assert(vc == fadd(st.2, st.3));
        assert(vd == fsub(st.2, st.3));
        assert(aa == fmul(va, va));
        assert(bb == fmul(vb, vb));
        assert(cb == fmul(vc, vb));
        assert(da == fmul(vd, va));
        assert(ee == fsub(aa, bb));
        assert(fe(a@) == sp.0);
        assert(fe(c@) == fmul(ee, fadd(fmul(ee, 121665), aa)));
        assert(fmul(ee, 121665) == fmul(121665, ee));
        assert(fe(c@) == sp.1);
        assert(fe(b@) == fmul(fadd(cb, da), fadd(cb, da)));
        assert(fe(b@) == sp.2);
        assert(fe(d@) == fmul(fmul(fsub(cb, da), fsub(cb, da)), x1));
        assert(fmul(fsub(cb, da), fsub(cb, da)) == fmul(fsub(da, cb), fsub(da, cb)));
        assert(fe(d@) == sp.3);
    }
}

/// Writes the scalar multiple of the Curve25519 base point (u = 9) by the clamped scalar `n`.
pub fn scalarmult_base(q: &mut [u8; 32], n: &[u8; 32])
    ensures
        le_value(final(q)@) == x25519(n@, C_9@),
        final(q)@ == le_bytes(x25519(n@, C_9@), 32),
{
    scalarmult(q, n, &C_9)
}

/// x-only doubling on the Montgomery curve `v^2 = u^3 + 486662 u^2 + u`, in projective
/// `(X : Z)`: `((X^2 - Z^2)^2 : 4 X Z (X^2 + 486662 X Z + Z^2))`.
pub open spec fn mont_double(x: int, z: int) -> (int, int) {
    let xx = fmul(x, x);
    let zz = fmul(z, z);
    let xz = fmul(x, z);
    (
        fmul(fsub(xx, zz), fsub(xx, zz)),
        fmul(fmul(4, xz), fadd(fadd(xx, fmul(486662, xz)), zz)),
    )
}

/// x-only differential addition on the same curve: the sum of the points `(X2 : Z2)` and
/// `(X3 : Z3)` whose difference has u-coordinate `x1`:
/// `(4 (X2 X3 - Z2 Z3)^2 : 4 x1 (X2 Z3 - Z2 X3)^2)`.
pub open spec fn mont_diff_add(x1: int, x2: int, z2: int, x3: int, z3: int) -> (int, int) {
    let n = fsub(fmul(x2, x3), fmul(z2, z3));
    let m = fsub(fmul(x2, z3), fmul(z2, x3));
    (fmul(4, fmul(n, n)), fmul(fmul(4, x1), fmul(m, m)))
}

/// One ladder step doubles the first point and adds the two: `ladder_step` on
/// `(X2, Z2, X3, Z3)` is `mont_double(X2, Z2)` followed by
/// `mont_diff_add(x1, X2, Z2, X3, Z3)`.
pub proof fn lemma_ladder_step_is_double_and_add(x1: int, s: (int, int, int, int))
    ensures
        ladder_step(x1, s) == (
            mont_double(s.0, s.1).0,
            mont_double(s.0, s.1).1,
            mont_diff_add(x1, s.0, s.1, s.2, s.3).0,
            mont_diff_add(x1, s.0, s.1, s.2, s.3).1,
        ),
{
    let pr = p25519();
    lemma_field_consts();
    let (x2, z2, x3, z3) = s;
    let a = fadd(x2, z2);
    let aa = fmul(a, a);
    let b = fsub(x2, z2);
    let bb = fmul(b, b);
    let e = fsub(aa, bb);
    let c = fadd(x3, z3);
    let d = fsub(x3, z3);
    let da = fmul(d, a);
    let cb = fmul(c, b);
    let r = ladder_step(x1, s);
    let a0 = x2 + z2;
    let b0 = x2 - z2;
    let c0 = x3 + z3;
    let d0 = x3 - z3;
    // The left side, as integers modulo p.
    lemma_mod_idem(a0);
    lemma_mod_idem(b0);
    lemma_mod_idem(c0);
    lemma_mod_idem(d0);
    lemma_cong_mul(a, a, a0, a0);
    lemma_cong_mul(b, b, b0, b0);
    lemma_mod_idem(a * a);
    lemma_mod_idem(b * b);
    lemma_cong_add(aa, bb, a0 * a0, b0 * b0);
    lemma_mod_idem(aa - bb);
    lemma_cong_mul(aa, bb, a0 * a0, b0 * b0);
    lemma_mod_idem(121665int);
    lemma_cong_mul(121665, e, 121665, a0 * a0 - b0 * b0);
    lemma_mod_idem(121665 * e);
    lemma_cong_add(aa, fmul(121665, e), a0 * a0, 121665 * (a0 * a0 - b0 * b0));
    lemma_mod_idem(aa + fmul(121665, e));
    lemma_cong_mul(e, fadd(aa, fmul(121665, e)), a0 * a0 - b0 * b0, a0 * a0 + 121665 * (a0 * a0
        - b0 * b0));
    lemma_cong_mul(d, a, d0, a0);
    lemma_cong_mul(c, b, c0, b0);
    lemma_mod_idem(d * a);
    lemma_mod_idem(c * b);
    lemma_cong_add(da, cb, d0 * a0, c0 * b0);
    lemma_mod_idem(da + cb);
    lemma_mod_idem(da - cb);
    lemma_cong_mul(fadd(da, cb), fadd(da, cb), d0 * a0 + c0 * b0, d0 * a0 + c0 * b0);
    lemma_cong_mul(fsub(da, cb), fsub(da, cb), d0 * a0 - c0 * b0, d0 * a0 - c0 * b0);
    lemma_mod_idem(fsub(da, cb) * fsub(da, cb));
    lemma_mod_idem(x1);
    lemma_cong_mul(
        x1,
        fmul(fsub(da, cb), fsub(da, cb)),
        x1,
        (d0 * a0 - c0 * b0) * (d0 * a0 - c0 * b0),
    );
    // The right side, as integers modulo p.
    let md = mont_double(x2, z2);
    let ma = mont_diff_add(x1, x2, z2, x3, z3);
    let xx = fmul(x2, x2);
    let zz = fmul(z2, z2);
    let xz = fmul(x2, z2);
    lemma_mod_idem(x2 * x2);
    lemma_mod_idem(z2 * z2);
    lemma_mod_idem(x2 * z2);
    lemma_cong_add(xx, zz, x2 * x2, z2 * z2);
    lemma_mod_idem(xx - zz);
    lemma_cong_mul(fsub(xx, zz), fsub(xx, zz), x2 * x2 - z2 * z2, x2 * x2 - z2 * z2);
    lemma_mod_idem(4int);
    lemma_cong_mul(4, xz, 4, x2 * z2);
    lemma_mod_idem(486662int);
    lemma_cong_mul(486662, xz, 486662, x2 * z2);
    lemma_mod_idem(486662 * xz);
    lemma_cong_add(xx, fmul(486662, xz), x2 * x2, 486662 * (x2 * z2));
    lemma_mod_idem(xx + fmul(486662, xz));
    lemma_cong_add(fadd(xx, fmul(486662, xz)), zz, x2 * x2 + 486662 * (x2 * z2), z2 * z2);
    lemma_mod_idem(fadd(xx, fmul(486662, xz)) + zz);
    lemma_mod_idem(4 * xz);
    lemma_cong_mul(
        fmul(4, xz),
        fadd(fadd(xx, fmul(486662, xz)), zz),
        4 * (x2 * z2),
        x2 * x2 + 486662 * (x2 * z2) + z2 * z2,
    );
    let n = fsub(fmul(x2, x3), fmul(z2, z3));
    let m = fsub(fmul(x2, z3), fmul(z2, x3));
    lemma_mod_idem(x2 * x3);
    lemma_mod_idem(z2 * z3);
    lemma_mod_idem(x2 * z3);
    lemma_mod_idem(z2 * x3);
    lemma_cong_add(fmul(x2, x3), fmul(z2, z3), x2 * x3, z2 * z3);
    lemma_cong_add(fmul(x2, z3), fmul(z2, x3), x2 * z3, z2 * x3);
    lemma_mod_idem(fmul(x2, x3) - fmul(z2, z3));
    lemma_mod_idem(fmul(x2, z3) - fmul(z2, x3));
    lemma_cong_mul(n, n, x2 * x3 - z2 * z3, x2 * x3 - z2 * z3);
    lemma_mod_idem(n * n);
    lemma_cong_mul(4, fmul(n, n), 4, (x2 * x3 - z2 * z3) * (x2 * x3 - z2 * z3));
    lemma_cong_mul(4, x1, 4, x1);
    lemma_mod_idem(4 * x1);
    lemma_cong_mul(m, m, x2 * z3 - z2 * x3, x2 * z3 - z2 * x3);
    lemma_mod_idem(m * m);
    lemma_cong_mul(fmul(4, x1), fmul(m, m), 4 * x1, (x2 * z3 - z2 * x3) * (x2 * z3 - z2 * x3));
    // The polynomial identities.
    assert((a0 * a0) * (b0 * b0) == (x2 * x2 - z2 * z2) * (x2 * x2 - z2 * z2)) by (nonlinear_arith)
        requires
            a0 == x2 + z2,
            b0 == x2 - z2,
    ;
    assert((a0 * a0 - b0 * b0) * (a0 * a0 + 121665 * (a0 * a0 - b0 * b0)) == (4 * (x2 * z2)) * (x2
        * x2 + 486662 * (x2 * z2) + z2 * z2)) by (nonlinear_arith)
        requires
            a0 == x2 + z2,
            b0 == x2 - z2,
    ;
    assert((d0 * a0 + c0 * b0) * (d0 * a0 + c0 * b0) == 4 * ((x2 * x3 - z2 * z3) * (x2 * x3 - z2
        * z3))) by (nonlinear_arith)
        requires
            a0 == x2 + z2,
            b0 == x2 - z2,
            c0 == x3 + z3,
            d0 == x3 - z3,
    ;
    assert(x1 * ((d0 * a0 - c0 * b0) * (d0 * a0 - c0 * b0)) == (4 * x1) * ((x2 * z3 - z2 * x3) * (
    x2 * z3 - z2 * x3))) by (nonlinear_arith)
        requires
            a0 == x2 + z2,
            b0 == x2 - z2,
            c0 == x3 + z3,
            d0 == x3 - z3,
    ;
    assert(r.0 == md.0);
    assert(r.1 == md.1);
    assert(r.2 == ma.0);
    assert(r.3 == ma.1);
}

proof fn lemma_clamp_bytes(b0: u8, b31: u8)
    by (bit_vector)
    ensures
        (b0 & 248u8) == b0 - b0 % 8,
        ((b31 & 127u8) | 64u8) == 64 + b31 % 64,
{
}

proof fn lemma_bytes_val_update0(s: Seq<u8>, v: u8, k: int)
    requires
        1 <= k <= s.len(),
    ensures
        crate::bytes::bytes_val(s.update(0, v), k) == crate::bytes::bytes_val(s, k) + (v - s[0]),
    decreases k,
{
    let t = s.update(0, v);
    if k > 1 {
        lemma_bytes_val_update0(s, v, k - 1);
        assert(t[k - 1] == s[k - 1]);
        assert(bytes_val(t, k) == bytes_val(t, k - 1) + t[k - 1] * b8(k - 1));
        assert(bytes_val(s, k) == bytes_val(s, k - 1) + s[k - 1] * b8(k - 1));
    } else {
        vstd::arithmetic::power2::lemma2_to64();
        assert(b8(0) == 1);
        assert(bytes_val(t, 0) == 0 && bytes_val(s, 0) == 0);
        assert(bytes_val(t, 1) == bytes_val(t, 0) + t[0] * b8(0));
        assert(bytes_val(s, 1) == bytes_val(s, 0) + s[0] * b8(0));
    }
}

/// Clamping makes the scalar a multiple of 8 in `[2^254, 2^255)`: the clamped scalar is
/// `2^254` plus the input, taken modulo `2^254`, rounded down to a multiple of 8.
pub proof fn lemma_clamp_value(n: Seq<u8>)
    requires
        n.len() == 32,
    ensures
        le_value(clamp(n)) == pow2(254) + 8 * ((le_value(n) % (pow2(254) as int)) / 8),
{
    let c = clamp(n);
    let n0 = n[0];
    let n31 = n[31];
    lemma_clamp_bytes(n0, n31);
    let w = b8(31);
    let low = bytes_val(n, 31);
    vstd::arithmetic::power2::lemma2_to64();
    vstd::arithmetic::power2::lemma_pow2_adds(248, 6);
    vstd::arithmetic::power2::lemma_pow2_adds(3, 245);
    assert(w == pow2(248));
    assert(pow2(254) == 64 * w);
    assert(w == 8 * pow2(245));
    crate::bytes::lemma_bytes_bound(n, 31);
    lemma_bytes_val_update0(n, (n0 & 248u8), 31);
    let c1 = n.update(0, n0 & 248u8);
    assert(c == c1.update(31, (n31 & 127u8) | 64u8));
    crate::bytes::lemma_bytes_val_frame(c, c1, 31);
    assert(bytes_val(c, 32) == bytes_val(c, 31) + c[31] * w);
    assert(bytes_val(n, 32) == low + n31 * w);
    assert(le_value(c) == low - n0 % 8 + (64 + n31 % 64) * w);
    let x = low + (n31 % 64) * w;
    assert(0 <= (n31 % 64) * w <= 63 * w) by (nonlinear_arith)
        requires
            0 <= n31 % 64 <= 63,
            w > 0,
    ;
    assert(le_value(n) == (n31 / 64) * (64 * w) + x) by (nonlinear_arith)
        requires
            le_value(n) == low + n31 * w,
            x == low + (n31 % 64) * w,
            n31 == 64 * (n31 / 64) + n31 % 64,
    ;
    vstd::arithmetic::div_mod::lemma_fundamental_div_mod_converse(
        le_value(n),
        64 * w,
        (n31 / 64) as int,
        x,
    );
    crate::bytes::lemma_bytes_split(n, 1, 31);
    assert(b8(0) == 1);
    assert(bytes_val(n, 0) == 0);
    assert(bytes_val(n, 1) == bytes_val(n, 0) + n[0] * b8(0));
    assert(bytes_val(n, 1) == n0 as int);
    let h = crate::bytes::bytes_hi(n, 1, 31);
    assert(b8(1) == 256);
    let t = n0 / 8 + 32 * h + (n31 % 64) * pow2(245);
    assert(x == 8 * t + n0 % 8) by (nonlinear_arith)
        requires
            x == low + (n31 % 64) * w,
            low == n0 + 256 * h,
            w == 8 * pow2(245),
            t == n0 / 8 + 32 * h + (n31 % 64) * pow2(245),
            n0 == 8 * (n0 / 8) + n0 % 8,
    ;
    vstd::arithmetic::div_mod::lemma_fundamental_div_mod_converse(x, 8, t, (n0 % 8) as int);
    assert((64 + n31 % 64) * w == 64 * w + (n31 % 64) * w) by (nonlinear_arith);
    assert(le_value(n) % (pow2(254) as int) == x);
    assert((le_value(n) % (pow2(254) as int)) / 8 == t);
}

} // verus!
