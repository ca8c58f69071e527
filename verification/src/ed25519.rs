//! Ed25519 signatures: points in extended coordinates over the field modulo 2^255 - 19.
use vstd::prelude::*;
use vstd::arithmetic::power::pow;
use vstd::arithmetic::power2::pow2;
use crate::bytes::{le_value, le_bytes, lemma_le_bytes_of_value, bytes_val, b8, sub_array,
    copy_into, verify_32};
use crate::x25519::clamp;
use crate::sha512::{sha512, hash};
use crate::scalar::{group_order, lval, reduce, mod_l};
use crate::boxes::randombytes;
use crate::field::{lemma_cong_mul, lemma_cong_add, lemma_mod_idem, Gf, p25519, gval, w16, fe, fadd, fsub, fmul, reduced, bounded, normalized,
    lemma_reduced_bounded, lemma_field_consts, lemma_fmul_assoc, lemma_fmul_pow,
    lemma_fmul_comm_all, set25519, sel25519, gf_add, gf_sub, gf_mult, gf_square, inv25519,
    pow2523, pack25519, unpack25519, neq25519, par25519};

verus! {

/// A point in extended coordinates `(X, Y, Z, T)`, each a residue modulo p.
pub type Pt = (int, int, int, int);

/// The curve constant d = -121665/121666, as limbs.
pub const D: Gf = [0x78a3, 0x1359, 0x4dca, 0x75eb, 0xd8ab, 0x4141, 0x0a4d, 0x0070, 0xe898, 0x7779, 0x4079,
    0x8cc7, 0xfe73, 0x2b6f, 0x6cee, 0x5203];

/// 2 d, as limbs.
pub const D2: Gf = [0xf159, 0x26b2, 0x9b94, 0xebd6, 0xb156, 0x8283, 0x149a, 0x00e0, 0xd130, 0xeef3, 0x80f2,
    0x198e, 0xfce7, 0x56df, 0xd9dc, 0x2406];

/// The x-coordinate of the base point, as limbs.
pub const X: Gf = [0xd51a, 0x8f25, 0x2d60, 0xc956, 0xa7b2, 0x9525, 0xc760, 0x692c, 0xdc5c, 0xfdd6, 0xe231,
    0xc0a4, 0x53fe, 0xcd6e, 0x36d3, 0x2169];

/// The y-coordinate 4/5 of the base point, as limbs.
pub const Y: Gf = [0x6658, 0x6666, 0x6666, 0x6666, 0x6666, 0x6666, 0x6666, 0x6666, 0x6666, 0x6666, 0x6666,
    0x6666, 0x6666, 0x6666, 0x6666, 0x6666];

/// A square root of -1 modulo p, as limbs.
pub const I: Gf = [0xa0b0, 0x4a0e, 0x1b27, 0xc4ee, 0xe478, 0xad2f, 0x1806, 0x2f43, 0xd7a7, 0x3dfb, 0x0099,
    0x2b4d, 0xdf0b, 0x4fc1, 0x2480, 0x2b83];

pub const GF0: Gf = [0, 0, 0, 0, 0, 0, 0, 0, 0, 0, 0, 0, 0, 0, 0, 0];

pub const GF1: Gf = [1, 0, 0, 0, 0, 0, 0, 0, 0, 0, 0, 0, 0, 0, 0, 0];

pub open spec fn ed_d() -> int {
    fe(D@)
}

pub open spec fn ed_d2() -> int {
    fe(D2@)
}

pub open spec fn sqrt_m1() -> int {
    fe(I@)
}

/// The residues of the four coordinates of a point held as limbs.
pub open spec fn pt(p: [Gf; 4]) -> Pt {
    (fe(p[0]@), fe(p[1]@), fe(p[2]@), fe(p[3]@))
}

pub open spec fn pt_reduced(p: [Gf; 4]) -> bool {
    reduced(p[0]@) && reduced(p[1]@) && reduced(p[2]@) && reduced(p[3]@)
}

/// Every limb of the four coordinates lies in `[-2^17, 2^17]`.
pub open spec fn pt_bounded(p: [Gf; 4]) -> bool {
    bounded(p[0]@, 0x20000) && bounded(p[1]@, 0x20000) && bounded(p[2]@, 0x20000) && bounded(
        p[3]@,
        0x20000,
    )
}

/// The neutral point (0, 1, 1, 0).
pub open spec fn neutral() -> Pt {
    (0, 1, 1, 0)
}

/// The base point (x, 4/5) in extended coordinates.
pub open spec fn base_pt() -> Pt {
    (fe(X@), fe(Y@), 1, fmul(fe(X@), fe(Y@)))
}

/// Point addition in extended coordinates, with the twisted Edwards formulas:
/// A = (Y1 - X1)(Y2 - X2), B = (Y1 + X1)(Y2 + X2), C = T1 T2 2d, D = 2 Z1 Z2,
/// E = B - A, F = D - C, G = D + C, H = B + A, and the sum (E F, G H, F G, E H).
pub open spec fn point_add(p: Pt, q: Pt) -> Pt {
    let a = fmul(fsub(p.1, p.0), fsub(q.1, q.0));
    let b = fmul(fadd(p.0, p.1), fadd(q.0, q.1));
    let c = fmul(fmul(p.3, q.3), ed_d2());
    let d0 = fmul(p.2, q.2);
    let d = fadd(d0, d0);
    let e = fsub(b, a);
    let f = fsub(d, c);
    let g = fadd(d, c);
    let h = fadd(b, a);
    (fmul(e, f), fmul(h, g), fmul(g, f), fmul(e, h))
}

/// Bit `t` of the little-endian scalar `s`.
pub open spec fn sbit(s: Seq<u8>, t: int) -> u8 {
    (s[t / 8] >> ((t % 8) as u8)) & 1u8
}

/// The pair `(P, Q)` of the Montgomery-style ladder for `[s] q0` once bits 255 down to `t`
/// are done: `P` starts at the neutral point, `Q` at `q0`; at each bit the pair trades
/// places when the bit is set, `Q` becomes `Q + P` and `P` becomes `P + P`.
pub open spec fn ed_ladder(q0: Pt, s: Seq<u8>, t: int) -> (Pt, Pt)
    decreases 256 - t,
{
    if t >= 256 {
        (neutral(), q0)
    } else {
        let (p, q) = ed_ladder(q0, s, t + 1);
        if sbit(s, t) == 1 {
            let q1 = point_add(p, q);
            let p1 = point_add(q, q);
            (q1, p1)
        } else {
            let q1 = point_add(q, p);
            let p1 = point_add(p, p);
            (p1, q1)
        }
    }
}

/// The affine x-coordinate `X / Z` of a point in extended coordinates.
pub open spec fn affine_x(p: Pt) -> int {
    fmul(p.0, pow(p.2, (p25519() - 2) as nat) % p25519())
}

/// The affine y-coordinate `Y / Z` of a point in extended coordinates.
pub open spec fn affine_y(p: Pt) -> int {
    fmul(p.1, pow(p.2, (p25519() - 2) as nat) % p25519())
}

/// The encoding of a point: its affine y-coordinate, with the parity of its affine
/// x-coordinate in bit 255.
pub open spec fn encode_point(p: Pt) -> int {
    affine_y(p) + pow2(255) * (affine_x(p) % 2)
}

proof fn lemma_const_bounds()
    ensures
        normalized(D@),
        normalized(D2@),
        normalized(X@),
        normalized(Y@),
        normalized(I@),
        normalized(GF0@),
        normalized(GF1@),
{
}

/// `p = p + q`.
fn add_point(p: &mut [Gf; 4], q: &[Gf; 4])
    requires
        pt_bounded(*old(p)),
        pt_bounded(*q),
    ensures
        pt_reduced(*final(p)),
        pt(*final(p)) == point_add(pt(*old(p)), pt(*q)),
{
    proof {
        lemma_const_bounds();
    }
    let mut a: Gf = [0; 16];
    let mut b: Gf = [0; 16];
    let mut c: Gf = [0; 16];
    let mut d: Gf = [0; 16];
    let mut t: Gf = [0; 16];
    let mut e: Gf = [0; 16];
    let mut f: Gf = [0; 16];
    let mut g: Gf = [0; 16];
    let mut h: Gf = [0; 16];
    let mut tmp: Gf = [0; 16];
    gf_sub(&mut a, p[1], p[0]);
    gf_sub(&mut t, q[1], q[0]);
    assert(bounded(a@, 0x40000) && bounded(t@, 0x40000));
    gf_mult(&mut tmp, a, t);
    a = tmp;
    gf_add(&mut b, p[0], p[1]);
    gf_add(&mut t, q[0], q[1]);
    assert(bounded(b@, 0x40000) && bounded(t@, 0x40000));
    gf_mult(&mut tmp, b, t);
    b = tmp;
    gf_mult(&mut c, p[3], q[3]);
    proof {
        lemma_reduced_bounded(c@);
    }
    gf_mult(&mut tmp, c, D2);
    c = tmp;
    gf_mult(&mut d, p[2], q[2]);
    gf_add(&mut tmp, d, d);
    d = tmp;
    gf_sub(&mut e, b, a);
    gf_sub(&mut f, d, c);
    gf_add(&mut g, d, c);
    gf_add(&mut h, b, a);
    assert(bounded(e@, 0x80000) && bounded(f@, 0x80000) && bounded(g@, 0x80000) && bounded(
        h@,
        0x80000,
    ));
    let mut r0: Gf = [0; 16];
    let mut r1: Gf = [0; 16];
    let mut r2: Gf = [0; 16];
    let mut r3: Gf = [0; 16];
    gf_mult(&mut r0, e, f);
    gf_mult(&mut r1, h, g);
    gf_mult(&mut r2, g, f);
    gf_mult(&mut r3, e, h);
    p[0] = r0;
    p[1] = r1;
    p[2] = r2;
    p[3] = r3;
}

/// Swaps the points `p` and `q` when `b` is 1, in constant time.
fn cswap(p: &mut [Gf; 4], q: &mut [Gf; 4], b: u8)
    requires
        b == 0 || b == 1,
    ensures
        b == 1 ==> *final(p) == *old(q) && *final(q) == *old(p),
        b == 0 ==> *final(p) == *old(p) && *final(q) == *old(q),
{
    let ghost p0 = *p;
    let ghost q0 = *q;
    let mut i: usize = 0;
    while i < 4
        invariant
            i <= 4,
            b == 0 || b == 1,
            forall|k: int| 0 <= k < i ==> #[trigger] p@[k] == (if b == 1 { q0@[k] } else { p0@[k] }),
            forall|k: int| 0 <= k < i ==> #[trigger] q@[k] == (if b == 1 { p0@[k] } else { q0@[k] }),
            forall|k: int| i <= k < 4 ==> #[trigger] p@[k] == p0@[k],
            forall|k: int| i <= k < 4 ==> #[trigger] q@[k] == q0@[k],
        decreases 4 - i,
    {
        let mut pi = p[i];
        let mut qi = q[i];
        sel25519(&mut pi, &mut qi, b as isize);
        p[i] = pi;
        q[i] = qi;
        i += 1;
    }
    proof {
        if b == 1 {
            assert(p@ =~= q0@);
            assert(q@ =~= p0@);
        } else {
            assert(p@ =~= p0@);
            assert(q@ =~= q0@);
        }
    }
}

/// `[s] q0`: the first point of the ladder once every bit is done.
pub open spec fn ed_scalarmult(q0: Pt, s: Seq<u8>) -> Pt {
    ed_ladder(q0, s, 0).0
}

proof fn lemma_small_consts()
    ensures
        fe(GF0@) == 0,
        fe(GF1@) == 1,
{
    crate::x25519::lemma_gval_two_limbs(GF0@);
    crate::x25519::lemma_gval_two_limbs(GF1@);
    lemma_field_consts();
    vstd::arithmetic::div_mod::lemma_small_mod(1, p25519() as nat);
    vstd::arithmetic::div_mod::lemma_small_mod(0, p25519() as nat);
}

/// Runs the ladder over the 256 bits of `s`, from the top one down: `p` ends at `[s] q`.
fn inner_scalarmult(p: &mut [Gf; 4], q: &mut [Gf; 4], s: &[u8; 32])
    requires
        pt_bounded(*old(q)),
    ensures
        pt_reduced(*final(p)),
        pt_reduced(*final(q)),
        (pt(*final(p)), pt(*final(q))) == ed_ladder(pt(*old(q)), s@, 0),
        pt(*final(p)) == ed_scalarmult(pt(*old(q)), s@),
{
    let ghost q0 = pt(*q);
    proof {
        lemma_const_bounds();
        lemma_small_consts();
    }
    *p = [GF0, GF1, GF1, GF0];
    assert(pt(*p) == neutral());
    let mut i: usize = 256;
    while i > 0
        invariant
            i <= 256,
            pt_reduced(*p),
            pt_bounded(*q),
            i < 256 ==> pt_reduced(*q),
            (pt(*p), pt(*q)) == ed_ladder(q0, s@, i as int),
        decreases i,
    {
        i -= 1;
        let byte = s[i / 8];
        let sh = (i % 8) as u8;
        let b: u8 = (byte >> sh) & 1;
        assert(b == 0 || b == 1) by (bit_vector)
            requires
                b == (byte >> sh) & 1u8,
        ;
        assert(b == sbit(s@, i as int));
        proof {
            lemma_reduced_bounded(p[0]@);
            lemma_reduced_bounded(p[1]@);
            lemma_reduced_bounded(p[2]@);
            lemma_reduced_bounded(p[3]@);
        }
        cswap(p, q, b);
        add_point(q, p);
        let mut tmp = *p;
        add_point(&mut tmp, p);
        *p = tmp;
        cswap(p, q, b);
    }
}

/// `[s] B` for the base point `B`.
fn scalarbase(p: &mut [Gf; 4], s: &[u8; 32])
    ensures
        pt_reduced(*final(p)),
        pt(*final(p)) == ed_scalarmult(base_pt(), s@),
{
    proof {
        lemma_const_bounds();
        lemma_small_consts();
    }
    let mut xy: Gf = [0; 16];
    gf_mult(&mut xy, X, Y);
    let mut q: [Gf; 4] = [X, Y, GF1, xy];
    assert(pt(q) == base_pt());
    proof {
        lemma_reduced_bounded(xy@);
    }
    inner_scalarmult(p, &mut q, s);
}

/// Writes the encoding of the point `p`: 32 bytes of `encode_point`.
fn pack(r: &mut [u8; 32], p: &[Gf; 4])
    requires
        pt_reduced(*p),
    ensures
        le_value(final(r)@) == encode_point(pt(*p)),
        final(r)@ == le_bytes(encode_point(pt(*p)), 32),
{
    let mut tx: Gf = [0; 16];
    let mut ty: Gf = [0; 16];
    let mut zi: Gf = [0; 16];
    proof {
        lemma_reduced_bounded(p[0]@);
        lemma_reduced_bounded(p[1]@);
        lemma_reduced_bounded(p[2]@);
    }
    inv25519(&mut zi, p[2]);
    proof {
        lemma_reduced_bounded(zi@);
        lemma_field_consts();
        vstd::arithmetic::power::lemma_pow_mod_noop(
            gval(p[2]@, 16),
            (p25519() - 2) as nat,
            p25519(),
        );
    }
    gf_mult(&mut tx, p[0], zi);
    gf_mult(&mut ty, p[1], zi);
    proof {
        lemma_reduced_bounded(tx@);
        lemma_reduced_bounded(ty@);
    }
    pack25519(r, ty);
    let par = par25519(tx);
    let ghost r0 = r@;
    let ghost y = fe(ty@);
    let ghost v = encode_point(pt(*p));
    assert(le_value(r0) == y);
    assert(v == y + pow2(255) * par);
    let top = r[31];
    proof {
        lemma_field_consts();
        crate::bytes::lemma_bytes_bound(r0, 31);
        vstd::arithmetic::power2::lemma_pow2_adds(248, 7);
        vstd::arithmetic::power2::lemma2_to64();
        assert(b8(31) == pow2(248));
        assert(le_value(r0) == bytes_val(r0, 31) + top * b8(31));
        assert(y < pow2(255));
        assert(pow2(255) == 128 * pow2(248));
        assert(top < 128) by (nonlinear_arith)
            requires
                bytes_val(r0, 31) >= 0,
                bytes_val(r0, 31) + top * pow2(248) < 128 * pow2(248),
                pow2(248) > 0,
        ;
    }
    let nt = top ^ (par << 7u8);
    assert(nt == top + 128 * par) by (bit_vector)
        requires
            top < 128,
            par == 0 || par == 1,
            nt == top ^ (par << 7u8),
    ;
    r[31] = nt;
    proof {
        crate::bytes::lemma_bytes_val_frame(r@, r0, 31);
        assert(le_value(r@) == bytes_val(r0, 31) + nt * b8(31));
        assert(nt * b8(31) == top * b8(31) + pow2(255) * par) by (nonlinear_arith)
            requires
                nt == top + 128 * par,
                b8(31) == pow2(248),
                pow2(255) == 128 * pow2(248),
        ;
        assert(le_value(r@) == v);
        lemma_le_bytes_of_value(r@);
    }
}

pub const SIGN_PUBLIC_KEY_LEN: usize = 32;
pub const SIGN_SECRET_KEY_LEN: usize = 64;
pub const SIGN_LEN: usize = 64;
pub type SignPublicKey = [u8; SIGN_PUBLIC_KEY_LEN];
pub type SignSecretKey = [u8; SIGN_SECRET_KEY_LEN];
pub type Sign = [u8; SIGN_LEN];

/// The secret scalar of the signing key made from `seed`: SHA-512 of the seed, its low 32
/// bytes clamped.
pub open spec fn secret_scalar(seed: Seq<u8>) -> Seq<u8> {
    clamp(sha512(seed).subrange(0, 32))
}

/// The encoding of `[s] B`.
pub open spec fn base_mul_bytes(s: Seq<u8>) -> Seq<u8> {
    le_bytes(encode_point(ed_scalarmult(base_pt(), s)), 32)
}

/// The public key that goes with `seed`.
pub open spec fn sign_public_key(seed: Seq<u8>) -> Seq<u8> {
    base_mul_bytes(secret_scalar(seed))
}

/// Makes a signing key pair from `seed`: the secret key is the seed followed by the public
/// key, `[a] B` for the secret scalar `a`. `seed` should come from a secure random
/// generator.
pub fn sign_keypair_seed(pk: &mut SignPublicKey, sk: &mut SignSecretKey, seed: &[u8; 32])
    ensures
        final(pk)@ == sign_public_key(seed@),
        final(sk)@ == seed@ + sign_public_key(seed@),
{
    let mut d = [0u8; 64];
    let mut p: [Gf; 4] = [GF0; 4];
    let mut i: usize = 0;
    while i < 32
        invariant
            i <= 32,
            sk@.len() == 64,
            forall|k: int| 0 <= k < i ==> #[trigger] sk@[k] == seed@[k],
        decreases 32 - i,
    {
        sk[i] = seed[i];
        i += 1;
    }
    hash(&mut d, seed);
    d[0] = d[0] & 248;
    d[31] = d[31] & 127;
    d[31] = d[31] | 64;
    let a: [u8; 32] = sub_array(&d, 0);
    assert(a@ =~= secret_scalar(seed@));
    scalarbase(&mut p, &a);
    pack(pk, &p);
    let ghost sk1 = sk@;
    let mut i: usize = 0;
    while i < 32
        invariant
            i <= 32,
            sk@.len() == 64,
            forall|k: int| 0 <= k < 32 ==> #[trigger] sk@[k] == seed@[k],
            forall|k: int| 32 <= k < 32 + i ==> #[trigger] sk@[k] == pk@[k - 32],
        decreases 32 - i,
    {
        sk[32 + i] = pk[i];
        i += 1;
    }
    assert(sk@ =~= seed@ + sign_public_key(seed@));
}

/// Makes a signing key pair from fresh random bytes.
pub fn sign_keypair(pk: &mut SignPublicKey, sk: &mut SignSecretKey)
    ensures
        final(pk)@ == sign_public_key(final(sk)@.subrange(0, 32)),
        final(sk)@.subrange(32, 64) == final(pk)@,
{
    let mut seed = [0u8; 32];
    randombytes(&mut seed);
    sign_keypair_seed(pk, sk, &seed);
    assert(sk@.subrange(0, 32) =~= seed@);
    assert(sk@.subrange(32, 64) =~= pk@);
}

/// The nonce r = SHA-512(prefix || m) mod L, the prefix being the high half of SHA-512 of
/// the seed (the first half of `sk`).
pub open spec fn sign_nonce(sk: Seq<u8>, m: Seq<u8>) -> int {
    le_value(sha512(sha512(sk.subrange(0, 32)).subrange(32, 64) + m)) % group_order()
}

/// The first half of the signature: `R = [r] B`, encoded.
pub open spec fn sign_r(sk: Seq<u8>, m: Seq<u8>) -> Seq<u8> {
    base_mul_bytes(le_bytes(sign_nonce(sk, m), 32))
}

/// The challenge k = SHA-512(R || A || m) mod L, A being the public half of `sk`.
pub open spec fn sign_challenge(sk: Seq<u8>, m: Seq<u8>) -> int {
    le_value(sha512(sign_r(sk, m) + sk.subrange(32, 64) + m)) % group_order()
}

/// The second half of the signature: S = (r + k a) mod L for the secret scalar a.
pub open spec fn sign_s(sk: Seq<u8>, m: Seq<u8>) -> int {
    (sign_nonce(sk, m) + sign_challenge(sk, m) * le_value(secret_scalar(sk.subrange(0, 32))))
        % group_order()
}

/// The signed message `R || S || m`.
pub open spec fn signed_message(sk: Seq<u8>, m: Seq<u8>) -> Seq<u8> {
    sign_r(sk, m) + le_bytes(sign_s(sk, m), 32) + m
}

proof fn lemma_mac_step(acc: int, hv: int, av: int, hi: int, bi: int, dv: int, dj: int, bj: int, bij: int, rv: int)
    requires
        acc == rv + hv * av + hi * bi * dv,
        bij == bi * bj,
    ensures
        acc + hi * dj * bij == rv + hv * av + hi * bi * (dv + dj * bj),
{
    assert(hi * dj * bij == hi * bi * (dj * bj)) by (nonlinear_arith)
        requires
            bij == bi * bj,
    ;
    assert(hi * bi * (dv + dj * bj) == hi * bi * dv + hi * bi * (dj * bj)) by (nonlinear_arith);
}

/// Signs `m` with the secret key `sk`, writing the signed message `R || S || m` to `sm`.
pub fn sign_attached(sm: &mut [u8], m: &[u8], sk: &SignSecretKey)
    requires
        old(sm)@.len() == m@.len() + SIGN_LEN,
    ensures
        final(sm)@ == signed_message(sk@, m@),
{
    let ghost seed = sk@.subrange(0, 32);
    let mut d = [0u8; 64];
    let mut h = [0u8; 64];
    let mut r = [0u8; 64];
    let mut p: [Gf; 4] = [GF0; 4];
    let n = m.len();
    let total = sm.len();
    let sd: [u8; 32] = sub_array(sk, 0);
    assert(sd@ =~= seed);
    hash(&mut d, &sd);
    let ghost dh = d@;
    d[0] = d[0] & 248;
    d[31] = d[31] & 127;
    d[31] = d[31] | 64;
    assert(d@.subrange(0, 32) =~= secret_scalar(seed));
    assert(d@.subrange(32, 64) =~= dh.subrange(32, 64));
    let mut i: usize = 0;
    while i < n
        invariant
            n == m@.len(),
            sm@.len() == total,
            total == n + 64,
            i <= n,
            forall|k: int| 64 <= k < 64 + i ==> #[trigger] sm@[k] == m@[k - 64],
        decreases n - i,
    {
        sm[64 + i] = m[i];
        i += 1;
    }
    let mut i: usize = 0;
    while i < 32
        invariant
            n == m@.len(),
            sm@.len() == total,
            total == n + 64,
            i <= 32,
            forall|k: int| 64 <= k < n + 64 ==> #[trigger] sm@[k] == m@[k - 64],
            forall|k: int| 32 <= k < 32 + i ==> #[trigger] sm@[k] == d@[k],
        decreases 32 - i,
    {
        sm[32 + i] = d[32 + i];
        i += 1;
    }
    assert(sm@.subrange(32, n + 64) =~= sha512(seed).subrange(32, 64) + m@);
    hash(&mut r, &sm[32..n + 64]);
    reduce(&mut r);
    let ghost nonce = sign_nonce(sk@, m@);
    let r32: [u8; 32] = sub_array(&r, 0);
    assert(r32@ =~= le_bytes(nonce, 32));
    scalarbase(&mut p, &r32);
    let mut rb = [0u8; 32];
    pack(&mut rb, &p);
    assert(rb@ == sign_r(sk@, m@));
    copy_into(sm, 0, &rb);
    let mut i: usize = 0;
    while i < 32
        invariant
            n == m@.len(),
            sm@.len() == total,
            total == n + 64,
            i <= 32,
            forall|k: int| 64 <= k < n + 64 ==> #[trigger] sm@[k] == m@[k - 64],
            forall|k: int| 0 <= k < 32 ==> #[trigger] sm@[k] == rb@[k],
            forall|k: int| 32 <= k < 32 + i ==> #[trigger] sm@[k] == sk@[k],
        decreases 32 - i,
    {
        sm[i + 32] = sk[i + 32];
        i += 1;
    }
    assert(sm@.subrange(0, n + 64) =~= sign_r(sk@, m@) + sk@.subrange(32, 64) + m@);
    hash(&mut h, &sm[0..n + 64]);
    reduce(&mut h);
    let ghost kc = sign_challenge(sk@, m@);
    let ghost av = le_value(secret_scalar(seed));
    let ghost rv = bytes_val(r@, 32);
    proof {
        crate::bytes::lemma_bytes_val_zeros(r@, 32, 64);
        crate::bytes::lemma_bytes_val_zeros(h@, 32, 64);
        crate::bytes::lemma_bytes_val_frame(d@, d@.subrange(0, 32), 32);
        assert(rv == nonce);
        assert(bytes_val(h@, 32) == kc);
        assert(bytes_val(d@, 32) == av);
        assert(b8(0) == 1) by {
            vstd::arithmetic::power2::lemma2_to64();
        }
    }
    let mut x = [0i64; 64];
    let mut i: usize = 0;
    while i < 32
        invariant
            i <= 32,
            forall|k: int| 0 <= k < i ==> #[trigger] x@[k] == r@[k] as i64,
            forall|k: int| i <= k < 64 ==> #[trigger] x@[k] == 0,
        decreases 32 - i,
    {
        x[i] = r[i] as i64;
        i += 1;
    }
    proof {
        crate::scalar::lemma_lval_zeros(x@, 32, 64);
        crate::scalar::lemma_lval_bytes(x@, r@, 32);
    }
    let mut i: usize = 0;
    while i < 32
        invariant
            i <= 32,
            lval(x@, 64) == rv + bytes_val(h@, i as int) * av,
            av == bytes_val(d@, 32),
            forall|k: int| 0 <= k < 64 ==> 0 <= #[trigger] x@[k] <= 255 + 65025 * i,
        decreases 32 - i,
    {
        let mut j: usize = 0;
        while j < 32
            invariant
                i < 32,
                j <= 32,
                lval(x@, 64) == rv + bytes_val(h@, i as int) * av + h@[i as int] * b8(i as int)
                    * bytes_val(d@, j as int),
                forall|k: int|
                    0 <= k < 64 ==> 0 <= #[trigger] x@[k] <= 255 + 65025 * i + (if i <= k < i + j {
                        65025int
                    } else {
                        0int
                    }),
            decreases 32 - j,
        {
            let hi = h[i] as i64;
            let dj = d[j] as i64;
            assert(0 <= hi * dj <= 65025) by (nonlinear_arith)
                requires
                    0 <= hi < 256,
                    0 <= dj < 256,
            ;
            let old_x = x[i + j];
            proof {
                crate::scalar::lemma_lval_update(x@, (i + j) as int, (old_x + hi * dj) as i64, 64);
                crate::bytes::lemma_b8_adds(i as int, j as int);
                lemma_mac_step(
                    lval(x@, 64),
                    bytes_val(h@, i as int),
                    av,
                    hi as int,
                    b8(i as int),
                    bytes_val(d@, j as int),
                    dj as int,
                    b8(j as int),
                    b8(i + j),
                    rv,
                );
            }
            x[i + j] = old_x + hi * dj;
            j += 1;
        }
        proof {
            assert(h@[i as int] * b8(i as int) * av + bytes_val(h@, i as int) * av == bytes_val(
                h@,
                i + 1,
            ) * av) by (nonlinear_arith)
                requires
                    bytes_val(h@, i + 1) == bytes_val(h@, i as int) + h@[i as int] * b8(i as int),
            ;
        }
        i += 1;
    }
    mod_l(sm, 32, &mut x);
    assert(sm@ =~= signed_message(sk@, m@));
}

/// The y-coordinate that 32 bytes encode: the low 255 bits, reduced modulo p.
pub open spec fn decode_y(s: Seq<u8>) -> int {
    (le_value(s) % (pow2(255) as int)) % p25519()
}

/// `u = y^2 - 1`, the numerator of x^2 on the curve.
pub open spec fn recover_u(y: int) -> int {
    fsub(fmul(y, y), 1)
}

/// `v = d y^2 + 1`, the denominator of x^2 on the curve.
pub open spec fn recover_v(y: int) -> int {
    fadd(1, fmul(fmul(y, y), ed_d()))
}

/// The candidate square root of u/v: `u v^3 (u v^7)^((p - 5) / 8)`.
pub open spec fn sqrt_ratio_candidate(u: int, v: int) -> int {
    let p = p25519();
    fmul(fmul(u, pow(v, 3) % p), pow(fmul(u, pow(v, 7) % p), ((p - 5) / 8) as nat) % p)
}

/// The x-coordinate recovered for `y`, before its sign is chosen: the candidate, or the
/// candidate times the square root of -1 when the candidate squared is not u/v.
pub open spec fn decode_root(y: int) -> int {
    let u = recover_u(y);
    let v = recover_v(y);
    let x0 = sqrt_ratio_candidate(u, v);
    if fmul(fmul(x0, x0), v) != u {
        fmul(x0, sqrt_m1())
    } else {
        x0
    }
}

/// Whether the 32 bytes `s` decode: the recovered x squared is u/v.
pub open spec fn decode_ok(s: Seq<u8>) -> bool {
    let y = decode_y(s);
    let x1 = decode_root(y);
    fmul(fmul(x1, x1), recover_v(y)) == recover_u(y)
}

/// The negation of the decoded point, in extended coordinates: x takes the parity opposite
/// to the sign bit `s[31] >> 7`.
pub open spec fn decode_neg(s: Seq<u8>) -> Pt {
    let y = decode_y(s);
    let x1 = decode_root(y);
    let x = if x1 % 2 == (s[31] >> 7u8) as int {
        fsub(0, x1)
    } else {
        x1
    };
    (x, y, 1, fmul(x, y))
}

/// Decodes the point that `p` encodes, negated, into `r`; `Err` when `p` encodes no point.
fn unpackneg(r: &mut [Gf; 4], p: &[u8; 32]) -> (res: Result<(), ()>)
    ensures
        res is Ok <==> decode_ok(p@),
        res is Ok ==> pt_bounded(*final(r)) && pt(*final(r)) == decode_neg(p@),
{
    proof {
        lemma_const_bounds();
        lemma_small_consts();
        lemma_field_consts();
        lemma_fmul_comm_all();
    }
    let ghost pr = p25519();
    let ghost e = ((p25519() - 5) / 8) as nat;
    let mut t: Gf = [0; 16];
    let mut chk: Gf = [0; 16];
    let mut num: Gf = [0; 16];
    let mut den: Gf = [0; 16];
    let mut den2: Gf = [0; 16];
    let mut den4: Gf = [0; 16];
    let mut den6: Gf = [0; 16];
    let mut tmp: Gf = [0; 16];
    let mut r1: Gf = [0; 16];
    let r2: Gf = GF1;
    unpack25519(&mut r1, p);
    let ghost y = fe(r1@);
    assert(y == decode_y(p@));
    gf_square(&mut num, r1);
    proof {
        lemma_reduced_bounded(num@);
    }
    gf_mult(&mut den, num, D);
    gf_sub(&mut tmp, num, r2);
    num = tmp;
    gf_add(&mut tmp, r2, den);
    den = tmp;
    let ghost u = recover_u(y);
    let ghost v = recover_v(y);
    assert(fe(num@) == u);
    assert(fe(den@) == v);
    assert(bounded(num@, 0x40000) && bounded(den@, 0x40000));
    gf_square(&mut den2, den);
    proof {
        lemma_reduced_bounded(den2@);
    }
    gf_square(&mut den4, den2);
    proof {
        lemma_reduced_bounded(den4@);
    }
    gf_mult(&mut den6, den4, den2);
    proof {
        lemma_reduced_bounded(den6@);
    }
    gf_mult(&mut t, den6, num);
    proof {
        lemma_reduced_bounded(t@);
    }
    gf_mult(&mut tmp, t, den);
    t = tmp;
    proof {
        lemma_reduced_bounded(t@);
        vstd::arithmetic::power::lemma_pow1(v);
        lemma_small_mod_fe(v);
        lemma_fmul_pow(v, 1, 1);
        lemma_fmul_pow(v, 2, 2);
        lemma_fmul_pow(v, 4, 2);
        lemma_fmul_pow(v, 6, 1);
        lemma_fmul_pow(v, 2, 1);
        assert(fe(den6@) == pow(v, 6) % pr);
        lemma_fmul_assoc(u, pow(v, 6) % pr, v);
        assert(fe(t@) == fmul(u, pow(v, 7) % pr));
    }
    let ghost t1 = fe(t@);
    let ghost tb = t@;
    pow2523(&mut tmp, t);
    t = tmp;
    let ghost t2 = fe(t@);
    proof {
        vstd::arithmetic::power::lemma_pow_mod_noop(gval(tb, 16), e, pr);
        assert(t2 == pow(t1, e) % pr);
        lemma_reduced_bounded(t@);
    }
    gf_mult(&mut tmp, t, num);
    t = tmp;
    proof {
        lemma_reduced_bounded(t@);
    }
    gf_mult(&mut tmp, t, den);
    t = tmp;
    proof {
        lemma_reduced_bounded(t@);
    }
    gf_mult(&mut tmp, t, den);
    t = tmp;
    proof {
        lemma_reduced_bounded(t@);
    }
    let mut r0: Gf = [0; 16];
    gf_mult(&mut r0, t, den);
    proof {
        lemma_reduced_bounded(r0@);
        let v3 = pow(v, 3) % pr;
        let a1 = fmul(t2, u);
        lemma_fmul_assoc(a1, v, v);
        lemma_fmul_assoc(a1, fmul(v, v), v);
        assert(fmul(fmul(v, v), v) == v3);
        lemma_fmul_assoc(u, t2, v3);
        lemma_fmul_assoc(u, v3, t2);
        assert(fe(r0@) == sqrt_ratio_candidate(u, v));
    }
    let ghost x0 = fe(r0@);
    gf_square(&mut chk, r0);
    proof {
        lemma_reduced_bounded(chk@);
    }
    gf_mult(&mut tmp, chk, den);
    chk = tmp;
    proof {
        lemma_reduced_bounded(chk@);
    }
    if neq25519(chk, num) {
        gf_mult(&mut tmp, r0, I);
        r0 = tmp;
    }
    assert(fe(r0@) == decode_root(y));
    proof {
        lemma_reduced_bounded(r0@);
    }
    gf_square(&mut chk, r0);
    proof {
        lemma_reduced_bounded(chk@);
    }
    gf_mult(&mut tmp, chk, den);
    chk = tmp;
    proof {
        lemma_reduced_bounded(chk@);
    }
    if neq25519(chk, num) {
        return Err(());
    }
    let ghost x1 = fe(r0@);
    if par25519(r0) == (p[31] >> 7) {
        gf_sub(&mut tmp, GF0, r0);
        r0 = tmp;
    }
    assert(bounded(r0@, 0x20000));
    let mut r3: Gf = [0; 16];
    gf_mult(&mut r3, r0, r1);
    proof {
        lemma_reduced_bounded(r3@);
    }
    *r = [r0, r1, r2, r3];
    assert(pt(*r) == decode_neg(p@));
    Ok(())
}

proof fn lemma_small_mod_fe(v: int)
    requires
        0 <= v < p25519(),
    ensures
        v % p25519() == v,
{
    vstd::arithmetic::div_mod::lemma_small_mod(v as nat, p25519() as nat);
}

/// The challenge of the signed message `sm` under the public key `pk`:
/// SHA-512(R || pk || m) mod L, with `R = sm[0..32]` and `m = sm[64..]`.
pub open spec fn open_challenge(sm: Seq<u8>, pk: Seq<u8>) -> int {
    le_value(sha512(sm.subrange(0, 32) + pk + sm.subrange(64, sm.len() as int))) % group_order()
}

/// `[S] B - [k] A` for `S = sm[32..64]`, the challenge k and the point A that `pk` encodes.
pub open spec fn open_point(sm: Seq<u8>, pk: Seq<u8>) -> Pt {
    point_add(
        ed_scalarmult(decode_neg(pk), le_bytes(open_challenge(sm, pk), 32)),
        ed_scalarmult(base_pt(), sm.subrange(32, 64)),
    )
}

/// Whether `sm` is a message signed under `pk`: it holds a signature, `pk` decodes, and the
/// signature's first half encodes `[S] B - [k] A`.
pub open spec fn signature_valid(sm: Seq<u8>, pk: Seq<u8>) -> bool {
    &&& sm.len() >= 64
    &&& decode_ok(pk)
    &&& le_bytes(encode_point(open_point(sm, pk)), 32) == sm.subrange(0, 32)
}

/// The bytes hashed for the challenge: `sm` with `pk` in place of the second half of the
/// signature. The check works in the output buffer, so its tail stays there.
pub open spec fn open_scratch(sm: Seq<u8>, pk: Seq<u8>) -> Seq<u8> {
    sm.subrange(0, 32) + pk + sm.subrange(64, sm.len() as int)
}

/// Checks the signed message `sm` under the public key `pk`. On success returns the length
/// `n` of the message and writes it to `m[0..n]`; when the signature does not match, zeroes
/// `m[0..n]`.
pub fn sign_attached_open(m: &mut [u8], sm: &[u8], pk: &SignPublicKey) -> (res: Result<usize, ()>)
    requires
        old(m)@.len() == sm@.len(),
    ensures
        res is Ok <==> signature_valid(sm@, pk@),
        final(m)@.len() == old(m)@.len(),
        res is Ok ==> res->Ok_0 == sm@.len() - 64 && final(m)@ == sm@.subrange(64, sm@.len() as int)
            + open_scratch(sm@, pk@).subrange(sm@.len() - 64, sm@.len() as int),
        res is Err ==> (if sm@.len() < 64 || !decode_ok(pk@) {
            final(m)@ == old(m)@
        } else {
            final(m)@ == Seq::new((sm@.len() - 64) as nat, |i: int| 0u8) + open_scratch(
                sm@,
                pk@,
            ).subrange(sm@.len() - 64, sm@.len() as int)
        }),
{
    let mut t = [0u8; 32];
    let mut h = [0u8; 64];
    let mut p: [Gf; 4] = [GF0; 4];
    let mut q: [Gf; 4] = [GF0; 4];
    let total = sm.len();
    if total < 64 {
        return Err(());
    }
    match unpackneg(&mut q, pk) {
        Ok(()) => {},
        Err(()) => {
            return Err(());
        },
    }
    let mut i: usize = 0;
    while i < total
        invariant
            total == sm@.len(),
            m@.len() == total,
            i <= total,
            forall|k: int| 0 <= k < i ==> #[trigger] m@[k] == sm@[k],
        decreases total - i,
    {
        m[i] = sm[i];
        i += 1;
    }
    let mut i: usize = 0;
    while i < 32
        invariant
            total == sm@.len(),
            total >= 64,
            m@.len() == total,
            i <= 32,
            forall|k: int| 0 <= k < 32 ==> #[trigger] m@[k] == sm@[k],
            forall|k: int| 32 + i <= k < total ==> #[trigger] m@[k] == sm@[k],
            forall|k: int| 32 <= k < 32 + i ==> #[trigger] m@[k] == pk@[k - 32],
        decreases 32 - i,
    {
        m[i + 32] = pk[i];
        i += 1;
    }
    assert(m@ =~= open_scratch(sm@, pk@));
    hash(&mut h, &m[0..total]);
    assert(m@.subrange(0, total as int) =~= m@);
    reduce(&mut h);
    let h32: [u8; 32] = sub_array(&h, 0);
    assert(h32@ =~= le_bytes(open_challenge(sm@, pk@), 32));
    inner_scalarmult(&mut p, &mut q, &h32);
    let s32: [u8; 32] = sub_array(sm, 32);
    scalarbase(&mut q, &s32);
    proof {
        lemma_reduced_bounded(q[0]@);
        lemma_reduced_bounded(q[1]@);
        lemma_reduced_bounded(q[2]@);
        lemma_reduced_bounded(q[3]@);
        lemma_reduced_bounded(p[0]@);
        lemma_reduced_bounded(p[1]@);
        lemma_reduced_bounded(p[2]@);
        lemma_reduced_bounded(p[3]@);
    }
    add_point(&mut p, &q);
    pack(&mut t, &p);
    assert(t@ == le_bytes(encode_point(open_point(sm@, pk@)), 32));
    let n = total - 64;
    let r32: [u8; 32] = sub_array(sm, 0);
    let ghost mc = m@;
    if verify_32(&r32, &t) != 0 {
        let mut i: usize = 0;
        while i < n
            invariant
                n == total - 64,
                m@.len() == total,
                i <= n,
                forall|k: int| 0 <= k < i ==> #[trigger] m@[k] == 0u8,
                forall|k: int| i <= k < total ==> #[trigger] m@[k] == mc[k],
            decreases n - i,
        {
            m[i] = 0;
            i += 1;
        }
        assert(m@ =~= Seq::new(n as nat, |i: int| 0u8) + mc.subrange(n as int, total as int));
        return Err(());
    }
    let mut i: usize = 0;
    while i < n
        invariant
            n == total - 64,
            total == sm@.len(),
            m@.len() == total,
            i <= n,
            forall|k: int| 0 <= k < i ==> #[trigger] m@[k] == sm@[k + 64],
            forall|k: int| i <= k < total ==> #[trigger] m@[k] == mc[k],
        decreases n - i,
    {
        m[i] = sm[i + 64];
        i += 1;
    }
    assert(m@ =~= sm@.subrange(64, total as int) + mc.subrange(n as int, total as int));
    Ok(n)
}

/// Decoding reads an encoded point back: the y-coordinate that `unpackneg` takes from the
/// 32 bytes that `pack` writes is the point's affine y, and the sign bit is the parity of its
/// affine x.
pub proof fn lemma_decode_encoded(p: Pt)
    ensures
        decode_y(le_bytes(encode_point(p), 32)) == affine_y(p),
        (le_bytes(encode_point(p), 32)[31] >> 7u8) as int == affine_x(p) % 2,
{
    let y = affine_y(p);
    let bit = affine_x(p) % 2;
    let v = encode_point(p);
    let w = b8(31);
    lemma_field_consts();
    vstd::arithmetic::power2::lemma_pow2_adds(248, 7);
    vstd::arithmetic::power2::lemma2_to64();
    crate::bytes::lemma_b8_step(31);
    assert(w == pow2(248));
    assert(pow2(255) == 128 * w);
    assert(0 <= y < p25519());
    assert(0 <= bit <= 1);
    assert(v == bit * pow2(255) + y);
    assert(0 <= bit * pow2(255) <= pow2(255)) by (nonlinear_arith)
        requires
            0 <= bit <= 1,
            pow2(255) > 0,
    ;
    assert(v < b8(32));
    crate::bytes::lemma_le_bytes_value(v, 32);
    vstd::arithmetic::div_mod::lemma_fundamental_div_mod_converse(v, pow2(255) as int, bit, y);
    lemma_small_mod_fe(y);
    let t0 = y / w;
    vstd::arithmetic::div_mod::lemma_fundamental_div_mod(y, w);
    assert(0 <= t0 < 128) by (nonlinear_arith)
        requires
            0 <= y < 128 * w,
            w > 0,
            t0 == y / w,
    ;
    assert(v == (t0 + 128 * bit) * w + y % w) by (nonlinear_arith)
        requires
            v == bit * (128 * w) + y,
            y == w * t0 + y % w,
    ;
    vstd::arithmetic::div_mod::lemma_fundamental_div_mod_converse(v, w, t0 + 128 * bit, y % w);
    vstd::arithmetic::div_mod::lemma_small_mod((t0 + 128 * bit) as nat, 256);
    let byte = (t0 + 128 * bit) as u8;
    assert(le_bytes(v, 32)[31] == byte);
    let tb = t0 as u8;
    let bb = bit as u8;
    assert(byte == (tb + 128 * bb) as u8);
    assert((((tb + 128 * bb) as u8) >> 7u8) == bb) by (bit_vector)
        requires
            tb < 128,
            bb <= 1,
    ;
}

proof fn lemma_gval_step_const(a: Seq<i64>, k: int, prev: int, limb: int, w: int)
    requires
        0 <= k,
        gval(a, k) == prev,
        a[k] == limb,
        w16(k) == w,
    ensures
        gval(a, k + 1) == prev + limb * w,
{
}

/// The limbs `D2` stand for twice the curve constant `d`.
pub proof fn lemma_d2_is_twice_d()
    ensures
        ed_d2() == fadd(ed_d(), ed_d()),
        0 <= ed_d() < p25519(),
{
    lemma_field_consts();
    crate::field::lemma_w16_step(0);
    crate::field::lemma_w16_step(1);
    crate::field::lemma_w16_step(2);
    crate::field::lemma_w16_step(3);
    crate::field::lemma_w16_step(4);
    crate::field::lemma_w16_step(5);
    crate::field::lemma_w16_step(6);
    crate::field::lemma_w16_step(7);
    crate::field::lemma_w16_step(8);
    crate::field::lemma_w16_step(9);
    crate::field::lemma_w16_step(10);
    crate::field::lemma_w16_step(11);
    crate::field::lemma_w16_step(12);
    crate::field::lemma_w16_step(13);
    crate::field::lemma_w16_step(14);
    crate::field::lemma_w16_step(15);
    lemma_gval_step_const(D@, 0, 0int, 30883, 1int);
    lemma_gval_step_const(D@, 1, 30883int, 4953, 65536int);
    lemma_gval_step_const(D@, 2, 324630691int, 19914, 4294967296int);
    lemma_gval_step_const(D@, 3, 85530303363235int, 30187, 281474976710656int);
    lemma_gval_step_const(D@, 4, 8496970652267935907int, 55467, 18446744073709551616int);
    lemma_gval_step_const(D@, 5, 1023194050507099967420579int, 16705, 1208925819614629174706176int);
    lemma_gval_step_const(D@, 6, 20196129010712887463434090659int, 2637, 79228162514264337593543950336int);
    lemma_gval_step_const(D@, 7, 208944860679125771121638831126691int, 112, 5192296858534827628530496329220096int);
    lemma_gval_step_const(D@, 8, 581746193016579820166537227703777443int, 59544, 340282366920938463463374607431768211456int);
    lemma_gval_step_const(D@, 9, 20261773837686552885042997791454434086713507int, 30585, 22300745198530623141535718272648361505980416int);
    lemma_gval_step_const(D@, 10, 682088553670896795336754986366741591094497736867int, 16505, 1461501637330902918203684832716283019655932542976int);
    lemma_gval_step_const(D@, 11, 24122766612700223561747154918968617981012261119555747int, 36039, 95780971304118053647396689196894323976171195136475136int);
    lemma_gval_step_const(D@, 12, 3451874547595723235622091029121793510395214713784546982051int, 65139, 6277101735386680763835789423207666416102355444464034512896int);
    lemma_gval_step_const(D@, 13, 408887581815900593998735109329353304472001726511656528682514595int, 11119, 411376139330301510538742295639337626245683966408394965837152256int);
    lemma_gval_step_const(D@, 14, 4574500180795438396274274320323124419530232024221455281671978449059int, 27886, 26959946667150639794667015087019630673637144422540572481103610249216int);
    lemma_gval_step_const(D@, 15, 751809647260343536752480656990949744089464939598990625663336947388086435int, 20995, 1766847064778384329583297500742918515827483896875618958121606201292619776int);
    lemma_gval_step_const(D2@, 0, 0int, 61785, 1int);
    lemma_gval_step_const(D2@, 1, 61785int, 9906, 65536int);
    lemma_gval_step_const(D2@, 2, 649261401int, 39828, 4294967296int);
    lemma_gval_step_const(D2@, 3, 171060606726489int, 60374, 281474976710656int);
    lemma_gval_step_const(D2@, 4, 16993941304535871833int, 45398, 18446744073709551616int);
    lemma_gval_step_const(D2@, 5, 837462281399570760135001int, 33411, 1208925819614629174706176int);
    lemma_gval_step_const(D2@, 6, 40392258021425774926868181337int, 5274, 79228162514264337593543950336int);
    lemma_gval_step_const(D2@, 7, 417889721358251542243277662253401int, 224, 5192296858534827628530496329220096int);
    lemma_gval_step_const(D2@, 8, 1163492386033159640333074455407554905int, 53552, 340282366920938463463374607431768211456int);
    lemma_gval_step_const(D2@, 9, 18222802476842482628550277310260506667446617int, 61171, 22300745198530623141535718272648361505980416int);
    lemma_gval_step_const(D2@, 10, 1364177107341793590673509972733483182188995473753int, 33010, 1461501637330902918203684832716283019655932542976int);
    lemma_gval_step_const(D2@, 11, 48245533225400447123494309837937235962024522239111513int, 6542, 95780971304118053647396689196894323976171195136475136int);
    lemma_gval_step_const(D2@, 12, 626647359804765707408392635035920604688073983105059451225int, 64743, 6277101735386680763835789423207666416102355444464034512896int);
    lemma_gval_step_const(D2@, 13, 406399024301499677458727923019368982698319486614918091527876953int, 22239, 411376139330301510538742295639337626245683966408394965837152256int);
    lemma_gval_step_const(D2@, 14, 9149000361590876792548548640646248839060464048442910563343956898137int, 55772, 26959946667150639794667015087019630673637144422540572481103610249216int);
    lemma_gval_step_const(D2@, 15, 1503619294520687073504961313981899488178929879197981251326673894776172889int, 9222, 1766847064778384329583297500742918515827483896875618958121606201292619776int);
    let gd = gval(D@, 16);
    let gd2 = gval(D2@, 16);
    assert(2 * gd == gd2 + p25519());
    assert(0 <= gd < p25519());
    assert(0 <= gd2 < p25519());
    lemma_small_mod_fe(gd);
    lemma_small_mod_fe(gd2);
    vstd::arithmetic::div_mod::lemma_fundamental_div_mod_converse(2 * gd, p25519(), 1, gd2);
}

/// The numerator of the affine x of `p + q`, over `Z1 Z2`: `X1 Y2 + Y1 X2`.
pub open spec fn add_x_num(p: Pt, q: Pt) -> int {
    fadd(fmul(p.0, q.1), fmul(p.1, q.0))
}

/// The denominator of the affine x of `p + q`, over `Z1 Z2`: `Z1 Z2 + d T1 T2`.
pub open spec fn add_x_den(p: Pt, q: Pt) -> int {
    fadd(fmul(p.2, q.2), fmul(ed_d(), fmul(p.3, q.3)))
}

/// The numerator of the affine y of `p + q`, over `Z1 Z2`: `Y1 Y2 + X1 X2`.
pub open spec fn add_y_num(p: Pt, q: Pt) -> int {
    fadd(fmul(p.1, q.1), fmul(p.0, q.0))
}

/// The denominator of the affine y of `p + q`, over `Z1 Z2`: `Z1 Z2 - d T1 T2`.
pub open spec fn add_y_den(p: Pt, q: Pt) -> int {
    fsub(fmul(p.2, q.2), fmul(ed_d(), fmul(p.3, q.3)))
}

/// `point_add` is addition on the twisted Edwards curve `-x^2 + y^2 = 1 + d x^2 y^2`: for
/// points in extended coordinates (where `T = X Y / Z`, so that `T1 T2 = Z1 Z2 x1 x2 y1 y2`),
/// the sum `(X3, Y3, Z3, T3)` satisfies `X3 (Z1 Z2 + d T1 T2) = Z3 (X1 Y2 + Y1 X2)` and
/// `Y3 (Z1 Z2 - d T1 T2) = Z3 (Y1 Y2 + X1 X2)`, which is
/// `x3 = (x1 y2 + y1 x2) / (1 + d x1 x2 y1 y2)` and `y3 = (y1 y2 + x1 x2) / (1 - d x1 x2 y1 y2)`
/// wherever the denominators are not zero; and the sum is again in extended coordinates,
/// `X3 Y3 = Z3 T3`.
pub proof fn lemma_point_add_is_edwards_addition(p: Pt, q: Pt)
    ensures
        fmul(point_add(p, q).0, add_x_den(p, q)) == fmul(point_add(p, q).2, add_x_num(p, q)),
        fmul(point_add(p, q).1, add_y_den(p, q)) == fmul(point_add(p, q).2, add_y_num(p, q)),
        fmul(point_add(p, q).0, point_add(p, q).1) == fmul(point_add(p, q).2, point_add(p, q).3),
{
    let pr = p25519();
    lemma_field_consts();
    lemma_d2_is_twice_d();
    let (x1, y1, z1, t1) = p;
    let (x2, y2, z2, t2) = q;
    let dd = ed_d();
    let a = fmul(fsub(y1, x1), fsub(y2, x2));
    let b = fmul(fadd(x1, y1), fadd(x2, y2));
    let c = fmul(fmul(t1, t2), ed_d2());
    let d0 = fmul(z1, z2);
    let d = fadd(d0, d0);
    let e = fsub(b, a);
    let f = fsub(d, c);
    let g = fadd(d, c);
    let h = fadd(b, a);
    let r = point_add(p, q);
    assert(r == (fmul(e, f), fmul(h, g), fmul(g, f), fmul(e, h)));
    // The integers that the residues stand for.
    let a0 = (y1 - x1) * (y2 - x2);
    let b0 = (x1 + y1) * (x2 + y2);
    let tt = t1 * t2;
    let zz = z1 * z2;
    let c0 = tt * (2 * dd);
    let e0 = 2 * (x1 * y2 + y1 * x2);
    let h0 = 2 * (y1 * y2 + x1 * x2);
    let m0 = zz + dd * tt;
    let n0 = zz - dd * tt;
    lemma_mod_idem(y1 - x1);
    lemma_mod_idem(y2 - x2);
    lemma_mod_idem(x1 + y1);
    lemma_mod_idem(x2 + y2);
    lemma_cong_mul(fsub(y1, x1), fsub(y2, x2), y1 - x1, y2 - x2);
    lemma_cong_mul(fadd(x1, y1), fadd(x2, y2), x1 + y1, x2 + y2);
    assert(a % pr == a0 % pr) by {
        lemma_mod_idem(a0);
    }
    assert(b % pr == b0 % pr) by {
        lemma_mod_idem(b0);
    }
    lemma_mod_idem(tt);
    lemma_mod_idem(2 * dd);
    lemma_cong_mul(fmul(t1, t2), ed_d2(), tt, 2 * dd);
    assert(c % pr == c0 % pr) by {
        lemma_mod_idem(c0);
    }
    lemma_mod_idem(zz);
    lemma_cong_add(d0, d0, zz, zz);
    assert(d % pr == (2 * zz) % pr) by {
        lemma_mod_idem(d0 + d0);
    }
    lemma_cong_add(b, a, b0, a0);
    lemma_cong_add(d, c, 2 * zz, c0);
    assert(e % pr == (b0 - a0) % pr) by {
        lemma_mod_idem(b - a);
    }
    assert(h % pr == (b0 + a0) % pr) by {
        lemma_mod_idem(b + a);
    }
    assert(f % pr == (2 * zz - c0) % pr) by {
        lemma_mod_idem(d - c);
    }
    assert(g % pr == (2 * zz + c0) % pr) by {
        lemma_mod_idem(d + c);
    }
    assert(b0 - a0 == e0) by (nonlinear_arith)
        requires
            a0 == (y1 - x1) * (y2 - x2),
            b0 == (x1 + y1) * (x2 + y2),
            e0 == 2 * (x1 * y2 + y1 * x2),
    ;
    assert(b0 + a0 == h0) by (nonlinear_arith)
        requires
            a0 == (y1 - x1) * (y2 - x2),
            b0 == (x1 + y1) * (x2 + y2),
            h0 == 2 * (y1 * y2 + x1 * x2),
    ;
    assert(2 * zz + c0 == 2 * m0 && 2 * zz - c0 == 2 * n0) by (nonlinear_arith)
        requires
            c0 == tt * (2 * dd),
            m0 == zz + dd * tt,
            n0 == zz - dd * tt,
    ;
    // The denominators and numerators as integers.
    let xn = add_x_num(p, q);
    let xd = add_x_den(p, q);
    let yn = add_y_num(p, q);
    let yd = add_y_den(p, q);
    lemma_mod_idem(x1 * y2);
    lemma_mod_idem(y1 * x2);
    lemma_mod_idem(y1 * y2);
    lemma_mod_idem(x1 * x2);
    lemma_cong_add(fmul(x1, y2), fmul(y1, x2), x1 * y2, y1 * x2);
    lemma_cong_add(fmul(y1, y2), fmul(x1, x2), y1 * y2, x1 * x2);
    lemma_mod_idem(dd);
    lemma_cong_mul(dd, fmul(t1, t2), dd, tt);
    lemma_mod_idem(dd * tt);
    lemma_cong_add(fmul(z1, z2), fmul(dd, fmul(t1, t2)), zz, dd * tt);
    let xn0 = x1 * y2 + y1 * x2;
    let yn0 = y1 * y2 + x1 * x2;
    assert(xn % pr == xn0 % pr) by {
        lemma_mod_idem(fmul(x1, y2) + fmul(y1, x2));
    }
    assert(yn % pr == yn0 % pr) by {
        lemma_mod_idem(fmul(y1, y2) + fmul(x1, x2));
    }
    assert(xd % pr == m0 % pr) by {
        lemma_mod_idem(fmul(z1, z2) + fmul(dd, fmul(t1, t2)));
    }
    assert(yd % pr == n0 % pr) by {
        lemma_mod_idem(fmul(z1, z2) - fmul(dd, fmul(t1, t2)));
    }
    // First claim: E F M = F G N, both being 2 M N F.
    lemma_cong_mul(e, f, e0, 2 * zz - c0);
    lemma_mod_idem(e * f);
    lemma_cong_mul(fmul(e, f), xd, e0 * (2 * zz - c0), m0);
    lemma_cong_mul(g, f, 2 * zz + c0, 2 * zz - c0);
    lemma_mod_idem(g * f);
    lemma_cong_mul(fmul(g, f), xn, (2 * zz + c0) * (2 * zz - c0), xn0);
    assert(e0 * (2 * zz - c0) * m0 == (2 * zz + c0) * (2 * zz - c0) * xn0) by (nonlinear_arith)
        requires
            e0 == 2 * xn0,
            2 * zz + c0 == 2 * m0,
    ;
    // Second claim: H G N' = G F N', both being 2 M' N' G.
    lemma_cong_mul(h, g, h0, 2 * zz + c0);
    lemma_mod_idem(h * g);
    lemma_cong_mul(fmul(h, g), yd, h0 * (2 * zz + c0), n0);
    lemma_cong_mul(fmul(g, f), yn, (2 * zz + c0) * (2 * zz - c0), yn0);
    assert(h0 * (2 * zz + c0) * n0 == (2 * zz + c0) * (2 * zz - c0) * yn0) by (nonlinear_arith)
        requires
            h0 == 2 * yn0,
            2 * zz - c0 == 2 * n0,
    ;
    // Third claim: (E F)(H G) = (G F)(E H).
    lemma_mod_idem(e * h);
    lemma_cong_mul(fmul(e, f), fmul(h, g), e * f, h * g);
    lemma_cong_mul(fmul(g, f), fmul(e, h), g * f, e * h);
    assert((e * f) * (h * g) == (g * f) * (e * h)) by (nonlinear_arith);
}

/// When 32 bytes decode, the recovered x is a square root of u/v: `v x^2 = u` for the
/// curve's `u = y^2 - 1` and `v = d y^2 + 1`, so the decoded point `(x, y)` lies on the curve
/// `-x^2 + y^2 = 1 + d x^2 y^2`; its negation `decode_neg` has the same y and x negated.
pub proof fn lemma_decoded_on_curve(s: Seq<u8>)
    requires
        decode_ok(s),
    ensures
        exists|x: int| fmul(fmul(x, x), recover_v(decode_y(s))) == recover_u(decode_y(s)),
        fmul(fmul(decode_root(decode_y(s)), decode_root(decode_y(s))), recover_v(decode_y(s)))
            == recover_u(decode_y(s)),
{
    let x = decode_root(decode_y(s));
    assert(fmul(fmul(x, x), recover_v(decode_y(s))) == recover_u(decode_y(s)));
}

/// The curve constants hold what their names say: `d = -121665 / 121666`, `I` is a square
/// root of -1, the base point's y is 4/5, and the base point lies on the curve
/// `-x^2 + y^2 = 1 + d x^2 y^2`.
pub proof fn lemma_curve_constants()
    ensures
        fmul(ed_d(), 121666) == p25519() - 121665,
        fmul(sqrt_m1(), sqrt_m1()) == p25519() - 1,
        fmul(fe(Y@), 5) == 4,
        fsub(fmul(fe(Y@), fe(Y@)), fmul(fe(X@), fe(X@))) == fadd(
            1,
            fmul(ed_d(), fmul(fmul(fe(X@), fe(X@)), fmul(fe(Y@), fe(Y@)))),
        ),
{
    lemma_field_consts();
    crate::field::lemma_w16_step(0);
    crate::field::lemma_w16_step(1);
    crate::field::lemma_w16_step(2);
    crate::field::lemma_w16_step(3);
    crate::field::lemma_w16_step(4);
    crate::field::lemma_w16_step(5);
    crate::field::lemma_w16_step(6);
    crate::field::lemma_w16_step(7);
    crate::field::lemma_w16_step(8);
    crate::field::lemma_w16_step(9);
    crate::field::lemma_w16_step(10);
    crate::field::lemma_w16_step(11);
    crate::field::lemma_w16_step(12);
    crate::field::lemma_w16_step(13);
    crate::field::lemma_w16_step(14);
    crate::field::lemma_w16_step(15);
    lemma_gval_step_const(D@, 0, 0int, 30883, 1int);
    lemma_gval_step_const(D@, 1, 30883int, 4953, 65536int);
    lemma_gval_step_const(D@, 2, 324630691int, 19914, 4294967296int);
    lemma_gval_step_const(D@, 3, 85530303363235int, 30187, 281474976710656int);
    lemma_gval_step_const(D@, 4, 8496970652267935907int, 55467, 18446744073709551616int);
    lemma_gval_step_const(D@, 5, 1023194050507099967420579int, 16705, 1208925819614629174706176int);
    lemma_gval_step_const(D@, 6, 20196129010712887463434090659int, 2637, 79228162514264337593543950336int);
    lemma_gval_step_const(D@, 7, 208944860679125771121638831126691int, 112, 5192296858534827628530496329220096int);
    lemma_gval_step_const(D@, 8, 581746193016579820166537227703777443int, 59544, 340282366920938463463374607431768211456int);
    lemma_gval_step_const(D@, 9, 20261773837686552885042997791454434086713507int, 30585, 22300745198530623141535718272648361505980416int);
    lemma_gval_step_const(D@, 10, 682088553670896795336754986366741591094497736867int, 16505, 1461501637330902918203684832716283019655932542976int);
    lemma_gval_step_const(D@, 11, 24122766612700223561747154918968617981012261119555747int, 36039, 95780971304118053647396689196894323976171195136475136int);
    lemma_gval_step_const(D@, 12, 3451874547595723235622091029121793510395214713784546982051int, 65139, 6277101735386680763835789423207666416102355444464034512896int);
    lemma_gval_step_const(D@, 13, 408887581815900593998735109329353304472001726511656528682514595int, 11119, 411376139330301510538742295639337626245683966408394965837152256int);
    lemma_gval_step_const(D@, 14, 4574500180795438396274274320323124419530232024221455281671978449059int, 27886, 26959946667150639794667015087019630673637144422540572481103610249216int);
    lemma_gval_step_const(D@, 15, 751809647260343536752480656990949744089464939598990625663336947388086435int, 20995, 1766847064778384329583297500742918515827483896875618958121606201292619776int);
    lemma_gval_step_const(X@, 0, 0int, 54554, 1int);
    lemma_gval_step_const(X@, 1, 54554int, 36645, 65536int);
    lemma_gval_step_const(X@, 2, 2401621274int, 11616, 4294967296int);
    lemma_gval_step_const(X@, 3, 49892741731610int, 51542, 281474976710656int);
    lemma_gval_step_const(X@, 4, 14507833142362363162int, 42930, 18446744073709551616int);
    lemma_gval_step_const(X@, 5, 791933230917493413238042int, 38181, 1208925819614629174706176int);
    lemma_gval_step_const(X@, 6, 46158788651937074012869743898int, 51040, 79228162514264337593543950336int);
    lemma_gval_step_const(X@, 7, 4043851573516703727848496094893338int, 26924, 5192296858534827628530496329220096int);
    lemma_gval_step_const(X@, 8, 139801444470765215774282931664016758042int, 56412, 340282366920938463463374607431768211456int);
    lemma_gval_step_const(X@, 9, 19196148684188451366111662637372572361413914int, 64982, 22300745198530623141535718272648361505980416int);
    lemma_gval_step_const(X@, 10, 1449166220639601141434640156455873199953980806426int, 57905, 1461501637330902918203684832716283019655932542976int);
    lemma_gval_step_const(X@, 11, 84629701475866573079725804878592824126376727881831706int, 49316, 95780971304118053647396689196894323976171195136475136int);
    lemma_gval_step_const(X@, 12, 4723619010535361800248094850238919074032985036078289638682int, 21502, 6277101735386680763835789423207666416102355444464034512896int);
    lemma_gval_step_const(X@, 13, 134974965133294945145797392272661482198106879751901748385928474int, 52590, 411376139330301510538742295639337626245683966408394965837152256int);
    lemma_gval_step_const(X@, 14, 21634406142345689734177603125065038425742717900297243155124223071514int, 14035, 26959946667150639794667015087019630673637144422540572481103610249216int);
    lemma_gval_step_const(X@, 15, 378404485879601575207885734349445581542923064688257232015444294070818074int, 8553, 1766847064778384329583297500742918515827483896875618958121606201292619776int);
    lemma_gval_step_const(Y@, 0, 0int, 26200, 1int);
    lemma_gval_step_const(Y@, 1, 26200int, 26214, 65536int);
    lemma_gval_step_const(Y@, 2, 1717986904int, 26214, 4294967296int);
    lemma_gval_step_const(Y@, 3, 112589990684248int, 26214, 281474976710656int);
    lemma_gval_step_const(Y@, 4, 7378697629483820632int, 26214, 18446744073709551616int);
    lemma_gval_step_const(Y@, 5, 483570327845851669882456int, 26214, 1208925819614629174706176int);
    lemma_gval_step_const(Y@, 6, 31691265005705735037417580120int, 26214, 79228162514264337593543950336int);
    lemma_gval_step_const(Y@, 7, 2076918743413931051412198531688024int, 26214, 5192296858534827628530496329220096int);
    lemma_gval_step_const(Y@, 8, 136112946768375385385349842972707284568int, 26214, 340282366920938463463374607431768211456int);
    lemma_gval_step_const(Y@, 9, 8920298079412249256614287309059344602392152int, 26214, 22300745198530623141535718272648361505980416int);
    lemma_gval_step_const(Y@, 10, 584600654932361167281473933086513207862373017176int, 26214, 1461501637330902918203684832716283019655932542976int);
    lemma_gval_step_const(Y@, 11, 38312388521647221458958675678757729590468478054590040int, 26214, 95780971304118053647396689196894323976171195136475136int);
    lemma_gval_step_const(Y@, 12, 2510840694154672305534315769283066566440942177785613805144int, 26214, 6277101735386680763835789423207666416102355444464034512896int);
    lemma_gval_step_const(Y@, 13, 164550455732120604215496918255735050498273586563357986334860888int, 26214, 411376139330301510538742295639337626245683966408394965837152256int);
    lemma_gval_step_const(Y@, 14, 10783978666860255917866806034807852269454857769016228992441444099672int, 26214, 26959946667150639794667015087019630673637144422540572481103610249216int);
    lemma_gval_step_const(Y@, 15, 706738825911353731833319000297167406330993558750247583248642480517047896int, 26214, 1766847064778384329583297500742918515827483896875618958121606201292619776int);
    lemma_gval_step_const(I@, 0, 0int, 41136, 1int);
    lemma_gval_step_const(I@, 1, 41136int, 18958, 65536int);
    lemma_gval_step_const(I@, 2, 1242472624int, 6951, 4294967296int);
    lemma_gval_step_const(I@, 3, 29855560147120int, 50414, 281474976710656int);
    lemma_gval_step_const(I@, 4, 14190309331451158704int, 58488, 18446744073709551616int);
    lemma_gval_step_const(I@, 5, 1078927357692455706075312int, 44335, 1208925819614629174706176int);
    lemma_gval_step_const(I@, 6, 53598805139972276916304388272int, 6150, 79228162514264337593543950336int);
    lemma_gval_step_const(I@, 7, 487306798267865648477211598954672int, 12099, 5192296858534827628530496329220096int);
    lemma_gval_step_const(I@, 8, 62822086998211147343238952298832896176int, 55207, 340282366920938463463374607431768211456int);
    lemma_gval_step_const(I@, 9, 18786031452691247963569865191437926482747568int, 15867, 22300745198530623141535718272648361505980416int);
    lemma_gval_step_const(I@, 10, 353864710096538088634710811697302989941874008240int, 153, 1461501637330902918203684832716283019655932542976int);
    lemma_gval_step_const(I@, 11, 223963615221724684573798490217288604997299553083568int, 11085, 95780971304118053647396689196894323976171195136475136int);
    lemma_gval_step_const(I@, 12, 1061732290869763846406076873546063798564462695387379966128int, 57099, 6277101735386680763835789423207666416102355444464034512896int);
    lemma_gval_step_const(I@, 13, 358417293721134954698106146352608090756826957986147294031814832int, 20417, 411376139330301510538742295639337626245683966408394965837152256int);
    lemma_gval_step_const(I@, 14, 8399425054000487075624199556214708923148886369118186164791169425584int, 9344, 26959946667150639794667015087019630673637144422540572481103610249216int);
    lemma_gval_step_const(I@, 15, 251922141082909578728444213172667643723388626370588227449596925338099888int, 11139, 1766847064778384329583297500742918515827483896875618958121606201292619776int);
    let pr = p25519();
    assert(pr == 57896044618658097711785492504343953926634992332820282019728792003956564819949int);
    let gd = gval(D@, 16);
    let gx = gval(X@, 16);
    let gy = gval(Y@, 16);
    let gi = gval(I@, 16);
    lemma_small_mod_fe(gd);
    lemma_small_mod_fe(gx);
    lemma_small_mod_fe(gy);
    lemma_small_mod_fe(gi);
    assert(ed_d() == 37095705934669439343138083508754565189542113879843219016388785533085940283555int);
    assert(fe(X@) == 15112221349535400772501151409588531511454012693041857206046113283949847762202int);
    assert(fe(Y@) == 46316835694926478169428394003475163141307993866256225615783033603165251855960int);
    assert(sqrt_m1() == 19681161376707505956807079304988542015446066515923890162744021073123829784752int);
    vstd::arithmetic::div_mod::lemma_fundamental_div_mod_converse(ed_d() * 121666, pr, 77954int, 57896044618658097711785492504343953926634992332820282019728792003956564698284int);
    vstd::arithmetic::div_mod::lemma_fundamental_div_mod_converse(sqrt_m1() * sqrt_m1(), pr, 6690407189080634018507799843845558368979872843924222843531373839242004886244int, 57896044618658097711785492504343953926634992332820282019728792003956564819948int);
    vstd::arithmetic::div_mod::lemma_fundamental_div_mod_converse(fe(Y@) * 5, pr, 4int, 4int);
    vstd::arithmetic::div_mod::lemma_fundamental_div_mod_converse(fe(X@) * fe(X@), pr, 3944643120641682540557488748386534817562863454810087094083181913524639656337int, 26187595835145689230469591415084376402084551887632582719101735842039498021991int);
    vstd::arithmetic::div_mod::lemma_fundamental_div_mod_converse(fe(Y@) * fe(Y@), pr, 37053468555941182535542715202780130513046395093004980492626426882532201484768int, 37053468555941182535542715202780130513046395093004980492626426882532201484768int);
    vstd::arithmetic::div_mod::lemma_fundamental_div_mod_converse(26187595835145689230469591415084376402084551887632582719101735842039498021991int * 37053468555941182535542715202780130513046395093004980492626426882532201484768int, pr, 16760061334493241107500538505654000897334113208084852940225110938905278734074int, 30655112042971184558329056706696549839726511367961720624960021019854854290862int);
    vstd::arithmetic::div_mod::lemma_fundamental_div_mod_converse(ed_d() * 30655112042971184558329056706696549839726511367961720624960021019854854290862int, pr, 19641635784112395346641967481223427603076292420967697888635760513231183455066int, 10865872720795493305073123787695754110961843205372397773524691040492703462776int);
    vstd::arithmetic::div_mod::lemma_fundamental_div_mod_converse(37053468555941182535542715202780130513046395093004980492626426882532201484768int - 26187595835145689230469591415084376402084551887632582719101735842039498021991int, pr, 0int, 10865872720795493305073123787695754110961843205372397773524691040492703462777int);
    vstd::arithmetic::div_mod::lemma_fundamental_div_mod_converse(1int + 10865872720795493305073123787695754110961843205372397773524691040492703462776int, pr, 0int, 10865872720795493305073123787695754110961843205372397773524691040492703462777int);
}

} // verus!
