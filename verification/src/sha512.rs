//! SHA-512.
use vstd::prelude::*;
use vstd::arithmetic::div_mod::{lemma_add_mod_noop, lemma_mod_twice, lemma_small_mod,
    lemma_fundamental_div_mod_converse};
use crate::bytes::{be64_at, be64_prefix, byte64, dl64, ts64};

verus! {

/// 2^64.
pub open spec fn m64() -> int {
    0x1_0000_0000_0000_0000
}

/// Rotation of `x` to the right by `c` bits, for `0 < c < 64`.
pub open spec fn rotr(x: u64, c: u64) -> u64 {
    (x >> c) | (x << ((64 - c) as u64))
}

#[verifier::opaque]
pub open spec fn ch_spec(x: u64, y: u64, z: u64) -> u64 {
    (x & y) ^ (!x & z)
}

#[verifier::opaque]
pub open spec fn maj_spec(x: u64, y: u64, z: u64) -> u64 {
    (x & y) ^ (x & z) ^ (y & z)
}

#[verifier::opaque]
pub open spec fn big_sigma0(x: u64) -> u64 {
    rotr(x, 28) ^ rotr(x, 34) ^ rotr(x, 39)
}

#[verifier::opaque]
pub open spec fn big_sigma1(x: u64) -> u64 {
    rotr(x, 14) ^ rotr(x, 18) ^ rotr(x, 41)
}

#[verifier::opaque]
pub open spec fn small_sigma0(x: u64) -> u64 {
    rotr(x, 1) ^ rotr(x, 8) ^ (x >> 7u64)
}

#[verifier::opaque]
pub open spec fn small_sigma1(x: u64) -> u64 {
    rotr(x, 19) ^ rotr(x, 61) ^ (x >> 6u64)
}

/// The SHA-512 round constants.
pub const K: [u64; 80] = [
    0x428a2f98d728ae22, 0x7137449123ef65cd, 0xb5c0fbcfec4d3b2f, 0xe9b5dba58189dbbc,
    0x3956c25bf348b538, 0x59f111f1b605d019, 0x923f82a4af194f9b, 0xab1c5ed5da6d8118,
    0xd807aa98a3030242, 0x12835b0145706fbe, 0x243185be4ee4b28c, 0x550c7dc3d5ffb4e2,
    0x72be5d74f27b896f, 0x80deb1fe3b1696b1, 0x9bdc06a725c71235, 0xc19bf174cf692694,
    0xe49b69c19ef14ad2, 0xefbe4786384f25e3, 0x0fc19dc68b8cd5b5, 0x240ca1cc77ac9c65,
    0x2de92c6f592b0275, 0x4a7484aa6ea6e483, 0x5cb0a9dcbd41fbd4, 0x76f988da831153b5,
    0x983e5152ee66dfab, 0xa831c66d2db43210, 0xb00327c898fb213f, 0xbf597fc7beef0ee4,
    0xc6e00bf33da88fc2, 0xd5a79147930aa725, 0x06ca6351e003826f, 0x142929670a0e6e70,
    0x27b70a8546d22ffc, 0x2e1b21385c26c926, 0x4d2c6dfc5ac42aed, 0x53380d139d95b3df,
    0x650a73548baf63de, 0x766a0abb3c77b2a8, 0x81c2c92e47edaee6, 0x92722c851482353b,
    0xa2bfe8a14cf10364, 0xa81a664bbc423001, 0xc24b8b70d0f89791, 0xc76c51a30654be30,
    0xd192e819d6ef5218, 0xd69906245565a910, 0xf40e35855771202a, 0x106aa07032bbd1b8,
    0x19a4c116b8d2d0c8, 0x1e376c085141ab53, 0x2748774cdf8eeb99, 0x34b0bcb5e19b48a8,
    0x391c0cb3c5c95a63, 0x4ed8aa4ae3418acb, 0x5b9cca4f7763e373, 0x682e6ff3d6b2b8a3,
    0x748f82ee5defb2fc, 0x78a5636f43172f60, 0x84c87814a1f0ab72, 0x8cc702081a6439ec,
    0x90befffa23631e28, 0xa4506cebde82bde9, 0xbef9a3f7b2c67915, 0xc67178f2e372532b,
    0xca273eceea26619c, 0xd186b8c721c0c207, 0xeada7dd6cde0eb1e, 0xf57d4f7fee6ed178,
    0x06f067aa72176fba, 0x0a637dc5a2c898a6, 0x113f9804bef90dae, 0x1b710b35131c471b,
    0x28db77f523047d84, 0x32caab7b40c72493, 0x3c9ebe0a15c9bebc, 0x431d67c49c100d4c,
    0x4cc5d4becb3e42b6, 0x597f299cfc657e2a, 0x5fcb6fab3ad6faec, 0x6c44198c4a475817,
];

/// Word `t` of the message schedule of the 16-word block `blk`.
#[verifier::opaque]
pub open spec fn sched(blk: Seq<u64>, t: int) -> u64
    decreases t,
{
    if t < 16 {
        blk[t]
    } else {
        ((small_sigma1(sched(blk, t - 2)) + sched(blk, t - 7) + small_sigma0(sched(blk, t - 15))
            + sched(blk, t - 16)) % m64()) as u64
    }
}

proof fn lemma_sched(blk: Seq<u64>, t: int)
    ensures
        t < 16 ==> sched(blk, t) == blk[t],
        t >= 16 ==> sched(blk, t) == ((small_sigma1(sched(blk, t - 2)) + sched(blk, t - 7)
            + small_sigma0(sched(blk, t - 15)) + sched(blk, t - 16)) % m64()) as u64,
{
    reveal(sched);
}

/// One SHA-512 round on the working variables `(a, b, c, d, e, f, g, h)`.
pub open spec fn round_spec(st: Seq<u64>, kt: u64, wt: u64) -> Seq<u64> {
    let t1 = (st[7] + big_sigma1(st[4]) + ch_spec(st[4], st[5], st[6]) + kt + wt) % m64();
    let t2 = (big_sigma0(st[0]) + maj_spec(st[0], st[1], st[2])) % m64();
    seq![((t1 + t2) % m64()) as u64, st[0], st[1], st[2], ((st[3] + t1) % m64()) as u64, st[4], st[5], st[6]]
}

/// The working variables after the first `n` rounds on block `blk`.
pub open spec fn rounds(st: Seq<u64>, blk: Seq<u64>, n: int) -> Seq<u64>
    decreases n,
{
    if n <= 0 {
        st
    } else {
        round_spec(rounds(st, blk, n - 1), K@[n - 1], sched(blk, n - 1))
    }
}

/// The SHA-512 compression of block `blk` into the state `h`.
pub open spec fn compress(h: Seq<u64>, blk: Seq<u64>) -> Seq<u64> {
    let r = rounds(h, blk, 80);
    Seq::new(8, |i: int| ((h[i] + r[i]) % m64()) as u64)
}

/// Block `i` of the message `m`: 16 big-endian words.
pub open spec fn msg_block(m: Seq<u8>, i: int) -> Seq<u64> {
    Seq::new(16, |j: int| be64_at(m, 128 * i + 8 * j))
}

/// The state after compressing the first `n` blocks of `m` into `h`.
pub open spec fn process(h: Seq<u64>, m: Seq<u8>, n: int) -> Seq<u64>
    decreases n,
{
    if n <= 0 {
        h
    } else {
        compress(process(h, m, n - 1), msg_block(m, n - 1))
    }
}

/// The state words stored big-endian in 64 bytes.
pub open spec fn state_words(x: Seq<u8>) -> Seq<u64> {
    Seq::new(8, |i: int| be64_at(x, 8 * i))
}

/// The 64 big-endian bytes of a state.
pub open spec fn state_bytes(h: Seq<u64>) -> Seq<u8> {
    Seq::new(64, |i: int| byte64(h[i / 8], 7 - i % 8))
}

fn add64(a: u64, b: u64) -> (r: u64)
    ensures
        r == ((a + b) % m64()) as u64,
{
    proof {
        if a + b > u64::MAX {
            lemma_fundamental_div_mod_converse(a + b, m64(), 1, a + b - m64());
        } else {
            lemma_fundamental_div_mod_converse(a + b, m64(), 0, a + b);
        }
    }
    a.wrapping_add(b)
}

proof fn lemma_wrap(x: int, y: int)
    ensures
        ((x % m64()) + y) % m64() == (x + y) % m64(),
        (y + (x % m64())) % m64() == (y + x) % m64(),
{
    lemma_add_mod_noop(x, y, m64());
    lemma_add_mod_noop(x % m64(), y, m64());
    lemma_mod_twice(x, m64());
}

fn r(x: u64, c: u64) -> (res: u64)
    requires
        0 < c < 64,
    ensures
        res == rotr(x, c),
{
    (x >> c) | (x << (64 - c))
}

fn ch(x: u64, y: u64, z: u64) -> (res: u64)
    ensures
        res == ch_spec(x, y, z),
{
    reveal(ch_spec);
    (x & y) ^ (!x & z)
}

fn maj(x: u64, y: u64, z: u64) -> (res: u64)
    ensures
        res == maj_spec(x, y, z),
{
    reveal(maj_spec);
    (x & y) ^ (x & z) ^ (y & z)
}

fn upper_sigma0(x: u64) -> (res: u64)
    ensures
        res == big_sigma0(x),
{
    reveal(big_sigma0);
    r(x, 28) ^ r(x, 34) ^ r(x, 39)
}

fn upper_sigma1(x: u64) -> (res: u64)
    ensures
        res == big_sigma1(x),
{
    reveal(big_sigma1);
    r(x, 14) ^ r(x, 18) ^ r(x, 41)
}

fn sigma0(x: u64) -> (res: u64)
    ensures
        res == small_sigma0(x),
{
    reveal(small_sigma0);
    r(x, 1) ^ r(x, 8) ^ (x >> 7)
}

fn sigma1(x: u64) -> (res: u64)
    ensures
        res == small_sigma1(x),
{
    reveal(small_sigma1);
    r(x, 19) ^ r(x, 61) ^ (x >> 6)
}

/// One round on the working variables `a`, with round constant `kt` and schedule word `wt`.
fn sha_round(a: &mut [u64; 8], kt: u64, wt: u64)
    ensures
        final(a)@ == round_spec(old(a)@, kt, wt),
{
    let ghost st = a@;
    let mut b = [0u64; 8];
    let mut j: usize = 0;
    while j < 8
        invariant
            j <= 8,
            a@ == st,
            forall|k: int| 0 <= k < j ==> #[trigger] b@[k] == a@[k],
        decreases 8 - j,
    {
        b[j] = a[j];
        j += 1;
    }
    let t = add64(add64(add64(add64(a[7], upper_sigma1(a[4])), ch(a[4], a[5], a[6])), kt), wt);
    b[7] = add64(add64(t, upper_sigma0(a[0])), maj(a[0], a[1], a[2]));
    b[3] = add64(b[3], t);
    proof {
        let s1 = big_sigma1(st[4]);
        let c = ch_spec(st[4], st[5], st[6]);
        lemma_wrap(st[7] + s1, c as int);
        lemma_wrap(st[7] + s1 + c, kt as int);
        lemma_wrap(st[7] + s1 + c + kt, wt as int);
        let t1 = (st[7] + s1 + c + kt + wt) % m64();
        let s0 = big_sigma0(st[0]);
        let mj = maj_spec(st[0], st[1], st[2]);
        lemma_wrap(t1 + s0, mj as int);
        lemma_wrap(s0 + mj, t1);
        assert(t1 + s0 + mj == t1 + (s0 + mj));
    }
    let mut j: usize = 0;
    while j < 8
        invariant
            j <= 8,
            forall|k: int| 0 < k <= j && k < 8 ==> #[trigger] a@[k] == b@[k - 1],
            j == 8 ==> a@[0] == b@[7],
        decreases 8 - j,
    {
        a[(j + 1) % 8] = b[j];
        j += 1;
    }
    assert(a@ =~= round_spec(st, kt, wt));
}

/// Advances the 16-word schedule window from words `base..base + 16` to the next 16.
fn expand(w: &mut [u64; 16], Ghost(blk): Ghost<Seq<u64>>, Ghost(base): Ghost<int>)
    requires
        base >= 0,
        forall|k: int| 0 <= k < 16 ==> #[trigger] old(w)@[k] == sched(blk, base + k),
    ensures
        forall|k: int| 0 <= k < 16 ==> #[trigger] final(w)@[k] == sched(blk, base + 16 + k),
{
    let mut j: usize = 0;
    while j < 16
        invariant
            j <= 16,
            base >= 0,
            forall|k: int| 0 <= k < j ==> #[trigger] w@[k] == sched(blk, base + 16 + k),
            forall|k: int| j <= k < 16 ==> #[trigger] w@[k] == sched(blk, base + k),
        decreases 16 - j,
    {
        let ghost jj = j as int;
        let ghost t = base + 16 + jj;
        let a = w[j];
        let b = w[(j + 9) % 16];
        let c = w[(j + 1) % 16];
        let d = w[(j + 14) % 16];
        proof {
            assert(a == sched(blk, t - 16));
            if j + 9 < 16 {
                assert(b == w@[jj + 9]);
            } else {
                assert(b == w@[jj - 7]);
            }
            assert(b == sched(blk, t - 7));
            if j + 1 < 16 {
                assert(c == w@[jj + 1]);
            } else {
                assert(c == w@[0]);
            }
            assert(c == sched(blk, t - 15));
            if j + 14 < 16 {
                assert(d == w@[jj + 14]);
            } else {
                assert(d == w@[jj - 2]);
            }
            assert(d == sched(blk, t - 2));
            let s0 = small_sigma0(c);
            let s1 = small_sigma1(d);
            lemma_wrap(a + b, s0 as int);
            lemma_wrap(a + b + s0, s1 as int);
            lemma_sched(blk, t);
            assert(sched(blk, t) == ((s1 + b + s0 + a) % m64()) as u64);
            assert(a + b + s0 + s1 == s1 + b + s0 + a);
        }
        w[j] = add64(add64(add64(a, b), sigma0(c)), sigma1(d));
        j += 1;
    }
}

/// Compresses the whole 128-byte blocks of `m` into the state held big-endian in `x`, and
/// returns how many bytes of `m` are left over; bytes of `x` past the state are left as
/// they were.
fn hashblocks(x: &mut [u8], m: &[u8]) -> (rem: usize)
    requires
        old(x)@.len() >= 64,
    ensures
        final(x)@.len() == old(x)@.len(),
        final(x)@.subrange(0, 64) == state_bytes(
            process(state_words(old(x)@), m@, m@.len() as int / 128),
        ),
        forall|j: int| 64 <= j < old(x)@.len() ==> #[trigger] final(x)@[j] == old(x)@[j],
        rem == m@.len() % 128,
{
    let ghost x0 = x@;
    let ghost h0 = state_words(x@);
    let mut z = [0u64; 8];
    let mut a = [0u64; 8];
    let mut w = [0u64; 16];
    let mut i: usize = 0;
    while i < 8
        invariant
            i <= 8,
            x@.len() >= 64,
            h0 == state_words(x@),
            forall|k: int| 0 <= k < i ==> #[trigger] z@[k] == h0[k],
            forall|k: int| 0 <= k < i ==> #[trigger] a@[k] == h0[k],
        decreases 8 - i,
    {
        let v = dl64(x, 8 * i);
        z[i] = v;
        a[i] = v;
        i += 1;
    }
    assert(z@ =~= h0);
    assert(a@ =~= h0);
    let len = m.len();
    let mut pos: usize = 0;
    while len - pos >= 128
        invariant
            len == m@.len(),
            pos <= len,
            pos % 128 == 0,
            z@ == process(h0, m@, pos as int / 128),
            a@ == z@,
        decreases len - pos,
    {
        let ghost blk = msg_block(m@, pos as int / 128);
        let mut i: usize = 0;
        while i < 16
            invariant
                i <= 16,
                pos + 128 <= len,
                len == m@.len(),
                pos % 128 == 0,
                blk == msg_block(m@, pos as int / 128),
                forall|k: int| 0 <= k < i ==> #[trigger] w@[k] == blk[k],
            decreases 16 - i,
        {
            w[i] = dl64(m, pos + 8 * i);
            assert(128 * (pos as int / 128) + 8 * i == pos + 8 * i);
            i += 1;
        }
        proof {
            assert forall|k: int| 0 <= k < 16 implies #[trigger] w@[k] == sched(blk, 0 + k) by {
                lemma_sched(blk, k);
            }
        }
        let mut i: usize = 0;
        while i < 80
            invariant
                i <= 80,
                a@ == rounds(z@, blk, i as int),
                forall|k: int| 0 <= k < 16 ==> #[trigger] w@[k] == sched(blk, 16 * (i as int / 16) + k),
            decreases 80 - i,
        {
            let wi = w[i % 16];
            assert(wi == sched(blk, i as int));
            sha_round(&mut a, K[i], wi);
            if i % 16 == 15 {
                expand(&mut w, Ghost(blk), Ghost(16 * (i as int / 16)));
                assert(16 * ((i + 1) as int / 16) == 16 * (i as int / 16) + 16);
            } else {
                assert((i + 1) as int / 16 == i as int / 16);
            }
            i += 1;
        }
        let ghost zp = z@;
        let mut i: usize = 0;
        while i < 8
            invariant
                i <= 8,
                zp.len() == 8,
                forall|k: int| 0 <= k < i ==> #[trigger] a@[k] == compress(zp, blk)[k],
                forall|k: int| 0 <= k < i ==> #[trigger] z@[k] == a@[k],
                forall|k: int| i <= k < 8 ==> #[trigger] a@[k] == rounds(zp, blk, 80)[k],
                forall|k: int| i <= k < 8 ==> #[trigger] z@[k] == zp[k],
            decreases 8 - i,
        {
            a[i] = add64(a[i], z[i]);
            z[i] = a[i];
            i += 1;
        }
        assert(z@ =~= compress(zp, blk));
        assert(a@ =~= z@);
        pos += 128;
        assert((pos as int) / 128 == (pos as int - 128) / 128 + 1);
    }
    assert(pos as int / 128 == len as int / 128);
    let mut i: usize = 0;
    while i < 8
        invariant
            i <= 8,
            x@.len() == x0.len(),
            x0.len() >= 64,
            forall|k: int| 64 <= k < x0.len() ==> #[trigger] x@[k] == x0[k],
            forall|k: int| 0 <= k < 8 * i ==> #[trigger] x@[k] == byte64(z@[k / 8], 7 - k % 8),
        decreases 8 - i,
    {
        ts64(x, 8 * i, z[i]);
        proof {
            assert forall|k: int| 0 <= k < 8 * (i + 1) implies #[trigger] x@[k] == byte64(
                z@[k / 8],
                7 - k % 8,
            ) by {
                if k >= 8 * i {
                    let d = k - 8 * i;
                    assert(x@[8 * i + d] == byte64(z@[i as int], 7 - d));
                    assert(k / 8 == i && k % 8 == d);
                }
            }
        }
        i += 1;
    }
    assert(x@.subrange(0, 64) =~= state_bytes(z@));
    len - pos
}

/// `be64_prefix` reads only the bytes it covers.
proof fn lemma_be64_frame(s1: Seq<u8>, o1: int, s2: Seq<u8>, o2: int, n: int)
    requires
        0 <= n,
        forall|j: int| o1 <= j < o1 + n ==> #[trigger] s1[j] == s2[j - o1 + o2],
    ensures
        be64_prefix(s1, o1, n) == be64_prefix(s2, o2, n),
    decreases n,
{
    if n > 0 {
        lemma_be64_frame(s1, o1, s2, o2, n - 1);
        assert(s1[o1 + n - 1] == s2[o1 + n - 1 - o1 + o2]);
    }
}

/// Blocks `b1` of `m1` and `b2` of `m2` hold the same bytes, so the same words.
proof fn lemma_block_frame(m1: Seq<u8>, b1: int, m2: Seq<u8>, b2: int)
    requires
        forall|k: int| 128 * b1 <= k < 128 * b1 + 128 ==> #[trigger] m1[k] == m2[k - 128 * b1 + 128
            * b2],
    ensures
        msg_block(m1, b1) == msg_block(m2, b2),
{
    assert forall|j: int| 0 <= j < 16 implies #[trigger] msg_block(m1, b1)[j] == msg_block(m2, b2)[j] by {
        let o1 = 128 * b1 + 8 * j;
        let o2 = 128 * b2 + 8 * j;
        assert forall|k: int| o1 <= k < o1 + 8 implies #[trigger] m1[k] == m2[k - o1 + o2] by {
            assert(k - o1 + o2 == k - 128 * b1 + 128 * b2);
        }
        lemma_be64_frame(m1, o1, m2, o2, 8);
    }
    assert(msg_block(m1, b1) =~= msg_block(m2, b2));
}

/// Messages that agree on their first `n` blocks compress to the same state.
proof fn lemma_process_frame(h: Seq<u64>, m1: Seq<u8>, m2: Seq<u8>, n: int)
    requires
        0 <= n,
        forall|i: int| 0 <= i < 128 * n ==> m1[i] == m2[i],
    ensures
        process(h, m1, n) == process(h, m2, n),
    decreases n,
{
    if n > 0 {
        lemma_process_frame(h, m1, m2, n - 1);
        assert forall|k: int| 128 * (n - 1) <= k < 128 * (n - 1) + 128 implies #[trigger] m1[k] == m2[k
            - 128 * (n - 1) + 128 * (n - 1)] by {}
        lemma_block_frame(m1, n - 1, m2, n - 1);
    }
}

/// Compressing `q + r` blocks is compressing `q`, then the `r` blocks that follow.
proof fn lemma_process_split(h: Seq<u64>, m: Seq<u8>, q: int, r: int)
    requires
        0 <= q,
        0 <= r,
        128 * (q + r) <= m.len(),
    ensures
        process(process(h, m, q), m.subrange(128 * q, m.len() as int), r) == process(h, m, q + r),
    decreases r,
{
    if r > 0 {
        lemma_process_split(h, m, q, r - 1);
        let t = m.subrange(128 * q, m.len() as int);
        let b1 = q + r - 1;
        assert forall|k: int| 128 * b1 <= k < 128 * b1 + 128 implies #[trigger] m[k] == t[k - 128 * b1
            + 128 * (r - 1)] by {
            assert(k - 128 * b1 + 128 * (r - 1) == k - 128 * q);
        }
        lemma_block_frame(m, b1, t, r - 1);
    }
}

proof fn lemma_byte_step(u: u64, s: u64)
    by (bit_vector)
    requires
        s <= 56,
    ensures
        ((u >> ((s + 8) as u64)) << 8u64) | (((u >> s) as u8) as u64) == u >> s,
{
}

proof fn lemma_word_bytes(h: Seq<u64>, i: int, n: int)
    requires
        0 <= i < 8,
        h.len() == 8,
        0 <= n <= 8,
    ensures
        be64_prefix(state_bytes(h), 8 * i, n) == h[i] >> ((8 * (8 - n)) as u64),
    decreases n,
{
    let u = h[i];
    if n == 0 {
        assert(u >> 64u64 == 0) by (bit_vector);
    } else {
        lemma_word_bytes(h, i, n - 1);
        let s = (8 * (8 - n)) as u64;
        assert(state_bytes(h)[8 * i + n - 1] == byte64(u, 7 - (n - 1)));
        assert((8 * i + n - 1) / 8 == i && (8 * i + n - 1) % 8 == n - 1);
        lemma_byte_step(u, s);
        assert((s + 8) as u64 == (8 * (8 - (n - 1))) as u64);
    }
}

/// Reading back the words of a state written as bytes gives the state.
proof fn lemma_state_roundtrip(h: Seq<u64>)
    requires
        h.len() == 8,
    ensures
        state_words(state_bytes(h)) == h,
{
    assert forall|i: int| 0 <= i < 8 implies #[trigger] state_words(state_bytes(h))[i] == h[i] by {
        lemma_word_bytes(h, i, 8);
        let u = h[i];
        assert(u >> 0u64 == u) by (bit_vector);
    }
    assert(state_words(state_bytes(h)) =~= h);
}

/// The SHA-512 initial state, as 64 big-endian bytes.
pub const IV: [u8; 64] = [
    0x6a, 0x09, 0xe6, 0x67, 0xf3, 0xbc, 0xc9, 0x08, 0xbb, 0x67, 0xae, 0x85, 0x84, 0xca, 0xa7, 0x3b,
    0x3c, 0x6e, 0xf3, 0x72, 0xfe, 0x94, 0xf8, 0x2b, 0xa5, 0x4f, 0xf5, 0x3a, 0x5f, 0x1d, 0x36, 0xf1,
    0x51, 0x0e, 0x52, 0x7f, 0xad, 0xe6, 0x82, 0xd1, 0x9b, 0x05, 0x68, 0x8c, 0x2b, 0x3e, 0x6c, 0x1f,
    0x1f, 0x83, 0xd9, 0xab, 0xfb, 0x41, 0xbd, 0x6b, 0x5b, 0xe0, 0xcd, 0x19, 0x13, 0x7e, 0x21, 0x79,
];

pub const HASH_LEN: usize = 64;
pub type Hash = [u8; HASH_LEN];

/// The length of the padded message: a multiple of 128 with room for the 0x80 byte and the
/// 16-byte length.
pub open spec fn pad_len(n: int) -> int {
    n - n % 128 + (if n % 128 < 112 { 128int } else { 256int })
}

/// The SHA-512 padding of `m`: the message, a 0x80 byte, zeros, then the length in bits as a
/// 128-bit big-endian number.
pub open spec fn padded(m: Seq<u8>) -> Seq<u8> {
    let n = m.len() as int;
    let pl = pad_len(n);
    Seq::new(
        pl as nat,
        |i: int|
            if i < n {
                m[i]
            } else if i == n {
                0x80u8
            } else if i >= pl - 16 {
                (((8 * n) as u128) >> ((8 * (pl - 1 - i)) as u128)) as u8
            } else {
                0u8
            },
    )
}

/// The SHA-512 digest of `m`.
pub open spec fn sha512(m: Seq<u8>) -> Seq<u8> {
    state_bytes(process(state_words(IV@), padded(m), pad_len(m.len() as int) / 128))
}

proof fn lemma_length_bytes(n: u64, k: u64)
    by (bit_vector)
    requires
        k < 16,
    ensures
        k < 8 ==> ((((n as u128) * 8) as u128 >> ((8 * k) as u128)) as u8) == (((n << 3u64) >> ((8 * k)
            as u64)) as u8),
        k == 8 ==> ((((n as u128) * 8) as u128 >> ((8 * k) as u128)) as u8) == ((n >> 61u64) as u8),
        k > 8 ==> ((((n as u128) * 8) as u128 >> ((8 * k) as u128)) as u8) == 0,
{
}

/// Writes the SHA-512 digest of `m` into `out`.
#[verifier::rlimit(40)]
pub fn hash(out: &mut Hash, m: &[u8])
    ensures
        final(out)@ == sha512(m@),
{
    let mut h = IV;
    let b = m.len() as u64;
    hashblocks(&mut h, m);
    assert(h@ =~= h@.subrange(0, 64));
    let ghost n = m@.len() as int;
    let ghost q = n / 128;
    let ghost pm = padded(m@);
    let ghost pl = pad_len(n);
    let len = m.len();
    let rlen = len & 127;
    assert(rlen == len % 128) by (bit_vector)
        requires
            rlen == len & 127usize,
    ;
    let s = len - rlen;
    let mut x = [0u8; 256];
    let mut i: usize = 0;
    while i < rlen
        invariant
            i <= rlen < 128,
            s + rlen == len,
            len == m@.len(),
            forall|k: int| 0 <= k < i ==> #[trigger] x@[k] == m@[s + k],
            forall|k: int| i <= k < 256 ==> #[trigger] x@[k] == 0,
        decreases rlen - i,
    {
        x[i] = m[s + i];
        i += 1;
    }
    x[rlen] = 128;
    let tl: usize = 256 - (if rlen < 112 { 128 } else { 0 });
    let l = tl - 9;
    x[l] = (b >> 61) as u8;
    let l = tl - 8;
    ts64(&mut x, l, b << 3);
    let ghost t = x@.subrange(0, tl as int);
    proof {
        assert(pl == 128 * q + tl);
        assert forall|k: int| 0 <= k < tl implies #[trigger] t[k] == pm[128 * q + k] by {
            let idx = 128 * q + k;
            if k < rlen {
            } else if k == rlen {
            } else if k < tl - 16 {
            } else {
                let kk = (pl - 1 - idx) as u64;
                assert(kk < 16);
                lemma_length_bytes(b, kk);
                assert((8 * n) as u128 == ((b as u128) * 8) as u128);
                if k >= tl - 8 {
                    let d = k - (tl - 8);
                    assert(x@[l + d] == byte64(b << 3u64, 7 - d));
                    assert(7 - d == kk);
                }
            }
        }
        assert(t =~= pm.subrange(128 * q, pl));
        lemma_state_roundtrip(process(state_words(IV@), m@, q));
        lemma_process_frame(state_words(IV@), m@, pm, q);
        lemma_process_split(state_words(IV@), pm, q, tl as int / 128);
    }
    hashblocks(&mut h, &x[0..tl]);
    assert(h@ =~= h@.subrange(0, 64));
    let mut i: usize = 0;
    while i < 64
        invariant
            i <= 64,
            forall|k: int| 0 <= k < i ==> #[trigger] out@[k] == h@[k],
        decreases 64 - i,
    {
        out[i] = h[i];
        i += 1;
    }
    assert(out@ =~= h@);
}

/// Hashing whole blocks in two calls is hashing them in one: `hashblocks` over `m1 ++ m2`,
/// with `m1` a whole number of blocks, leaves the state that `hashblocks` over `m1` and then
/// over `m2` leaves, and returns the same count of bytes left over.
pub proof fn lemma_hashblocks_split(x: Seq<u8>, m1: Seq<u8>, m2: Seq<u8>)
    requires
        x.len() == 64,
        m1.len() % 128 == 0,
    ensures
        state_bytes(process(state_words(x), m1 + m2, (m1.len() + m2.len()) as int / 128))
            == state_bytes(
            process(
                state_words(state_bytes(process(state_words(x), m1, m1.len() as int / 128))),
                m2,
                m2.len() as int / 128,
            ),
        ),
        (m1.len() + m2.len()) as int % 128 == m2.len() as int % 128,
{
    let m = m1 + m2;
    let q = m1.len() as int / 128;
    let r = m2.len() as int / 128;
    assert(m.len() as int / 128 == q + r);
    lemma_process_frame(state_words(x), m, m1, q);
    lemma_process_split(state_words(x), m, q, r);
    assert(m.subrange(128 * q, m.len() as int) =~= m2);
    lemma_process_len(state_words(x), m1, q);
    lemma_state_roundtrip(process(state_words(x), m1, q));
}

proof fn lemma_process_len(h: Seq<u64>, m: Seq<u8>, n: int)
    requires
        h.len() == 8,
    ensures
        process(h, m, n).len() == 8,
    decreases n,
{
    if n > 0 {
        lemma_process_len(h, m, n - 1);
    }
}

/// The SHA-512 padding of an `n`-byte message: a 0x80 byte, then the fewest zero bytes that
/// bring the length to 112 modulo 128, then the message length in bits, `8 n`, as a 128-bit
/// big-endian number.
pub open spec fn sha512_padding(n: int) -> Seq<u8> {
    seq![0x80u8] + Seq::new(((111 - n) % 128) as nat, |i: int| 0u8) + Seq::new(
        16,
        |i: int| crate::bytes::le_bytes(8 * n, 16)[15 - i],
    )
}

/// `hash` computes SHA-512: its digest is the state after compressing, from the initial
/// state, the whole 128-byte blocks of the message followed by its padding, whose last 16
/// bytes carry the full bit length `8 |m|` of the message.
pub proof fn lemma_sha512_is_padded_digest(m: Seq<u8>)
    requires
        m.len() < 0x1_0000_0000_0000_0000,
    ensures
        (m.len() + sha512_padding(m.len() as int).len()) % 128 == 0,
        sha512(m) == state_bytes(
            process(
                state_words(IV@),
                m + sha512_padding(m.len() as int),
                (m.len() + sha512_padding(m.len() as int).len()) as int / 128,
            ),
        ),
{
    let n = m.len() as int;
    let pl = pad_len(n);
    let pd = sha512_padding(n);
    let z = ((111 - n) % 128);
    assert(pd.len() == 17 + z);
    assert(pl == n + 17 + z);
    let full = m + pd;
    assert forall|i: int| 0 <= i < pl implies #[trigger] padded(m)[i] == full[i] by {
        if i < n {
        } else if i == n {
        } else if i >= pl - 16 {
            let j = pl - 1 - i;
            let x = (8 * n) as u128;
            assert(x == 8 * n);
            let sh = (8 * j) as u128;
            vstd::bits::lemma_u128_shr_is_div(x, sh);
            crate::bytes::lemma_u128_low_byte(x >> sh);
            assert(sh as nat == (8 * j) as nat);
            assert(full[i] == pd[i - n]);
            assert(pd[i - n] == crate::bytes::le_bytes(8 * n, 16)[15 - (i - n - 1 - z)]);
            assert(15 - (i - n - 1 - z) == j);
        } else {
            assert(full[i] == pd[i - n]);
        }
    }
    assert(padded(m) =~= full);
}

} // verus!
