//! Loading and storing machine words as bytes, and constant-time comparison.
use vstd::prelude::*;
use vstd::arithmetic::power2::{pow2, lemma_pow2_adds, lemma2_to64, lemma_pow2_pos};
use vstd::arithmetic::div_mod::lemma_fundamental_div_mod_converse;
use vstd::arithmetic::mul::{lemma_mul_is_commutative, lemma_mul_inequality, lemma_mul_nonnegative};

verus! {

/// The little-endian 32-bit word stored in `s[off..off + 4]`.
pub open spec fn le32_at(s: Seq<u8>, off: int) -> u32 {
    ((s[off + 3] as u32) << 24u32) | ((s[off + 2] as u32) << 16u32)
        | ((s[off + 1] as u32) << 8u32) | (s[off] as u32)
}

/// Byte `k` (counting from the least significant) of the word `w`.
pub open spec fn byte32(w: u32, k: int) -> u8 {
    (w >> ((8 * k) as u32)) as u8
}

/// The big-endian 64-bit word stored in `s[off..off + 8]`.
pub open spec fn be64_at(s: Seq<u8>, off: int) -> u64 {
    be64_prefix(s, off, 8)
}

/// Byte `k` (counting from the least significant) of the word `w`.
pub open spec fn byte64(w: u64, k: int) -> u8 {
    (w >> ((8 * k) as u64)) as u8
}

/// Reads the little-endian word at `x[off..off + 4]`.
pub fn ld32(x: &[u8], off: usize) -> (r: u32)
    requires
        off + 4 <= x.len(),
    ensures
        r == le32_at(x@, off as int),
{
    let mut u = x[off + 3] as u32;
    u = (u << 8) | (x[off + 2] as u32);
    u = (u << 8) | (x[off + 1] as u32);
    let r = (u << 8) | (x[off] as u32);
    proof {
        let b0 = x@[off as int];
        let b1 = x@[off + 1];
        let b2 = x@[off + 2];
        let b3 = x@[off + 3];
        assert(((((((b3 as u32) << 8u32) | (b2 as u32)) << 8u32) | (b1 as u32)) << 8u32) | (b0 as u32)
            == ((b3 as u32) << 24u32) | ((b2 as u32) << 16u32) | ((b1 as u32) << 8u32) | (b0 as u32))
            by (bit_vector);
    }
    r
}

/// Reads the big-endian word at `x[off..off + 8]`.
pub fn dl64(x: &[u8], off: usize) -> (r: u64)
    requires
        off + 8 <= x.len(),
    ensures
        r == be64_at(x@, off as int),
{
    let mut u = 0u64;
    let mut i: usize = 0;
    while i < 8
        invariant
            off + 8 <= x.len(),
            i <= 8,
            u == be64_prefix(x@, off as int, i as int),
        decreases 8 - i,
    {
        u = (u << 8) | (x[off + i] as u64);
        i += 1;
    }
    u
}

/// The word accumulated from the first `n` bytes at `s[off..]`, most significant first.
pub open spec fn be64_prefix(s: Seq<u8>, off: int, n: int) -> u64
    decreases n,
{
    if n <= 0 {
        0
    } else {
        (be64_prefix(s, off, n - 1) << 8u64) | (s[off + n - 1] as u64)
    }
}

/// Stores `u` little-endian at `x[off..off + 4]`.
pub fn st32(x: &mut [u8], off: usize, u: u32)
    requires
        off + 4 <= old(x).len(),
    ensures
        final(x)@.len() == old(x)@.len(),
        forall|i: int| 0 <= i < 4 ==> #[trigger] final(x)@[off + i] == byte32(u, i),
        forall|i: int|
            0 <= i < old(x)@.len() && !(off <= i < off + 4) ==> #[trigger] final(x)@[i] == old(x)@[i],
{
    let mut v = u;
    let mut i: usize = 0;
    assert(u >> 0u32 == u) by (bit_vector);
    while i < 4
        invariant
            off + 4 <= x.len(),
            x@.len() == old(x)@.len(),
            i <= 4,
            v == u >> ((8 * i) as u32),
            forall|k: int| 0 <= k < i ==> #[trigger] x@[off + k] == byte32(u, k),
            forall|k: int|
                0 <= k < old(x)@.len() && !(off <= k < off + i) ==> #[trigger] x@[k] == old(x)@[k],
        decreases 4 - i,
    {
        x[off + i] = v as u8;
        proof {
            let s = (8 * i) as u32;
            assert(s < 32);
            assert((u >> s) >> 8u32 == u >> ((s + 8) as u32)) by (bit_vector)
                requires s < 32;
        }
        v = v >> 8;
        i += 1;
    }
}

/// Stores `u` big-endian at `x[off..off + 8]`.
pub fn ts64(x: &mut [u8], off: usize, u: u64)
    requires
        off + 8 <= old(x).len(),
    ensures
        final(x)@.len() == old(x)@.len(),
        forall|i: int| 0 <= i < 8 ==> #[trigger] final(x)@[off + i] == byte64(u, 7 - i),
        forall|i: int|
            0 <= i < old(x)@.len() && !(off <= i < off + 8) ==> #[trigger] final(x)@[i] == old(x)@[i],
{
    let mut v = u;
    let mut i: usize = 8;
    assert(u >> 0u64 == u) by (bit_vector);
    while i > 0
        invariant
            off + 8 <= x.len(),
            x@.len() == old(x)@.len(),
            i <= 8,
            v == u >> ((8 * (8 - i)) as u64),
            forall|k: int| i <= k < 8 ==> #[trigger] x@[off + k] == byte64(u, 7 - k),
            forall|k: int|
                0 <= k < old(x)@.len() && !(off + i <= k < off + 8) ==> #[trigger] x@[k] == old(x)@[k],
        decreases i,
    {
        i -= 1;
        x[off + i] = v as u8;
        proof {
            let s = (8 * (7 - i)) as u64;
            assert(s < 64);
            assert((u >> s) >> 8u64 == u >> ((s + 8) as u64)) by (bit_vector)
                requires s < 64;
        }
        v = v >> 8;
    }
}

/// Compares `x` and `y` in time independent of their contents: 0 when they are equal,
/// and all ones of a 32-bit word, taken as an `isize`, when they differ.
pub fn vn(x: &[u8], y: &[u8]) -> (r: isize)
    requires
        x@.len() == y@.len(),
    ensures
        r == (if x@ == y@ { 0isize } else { 0xffff_ffffu32 as isize }),
        (r == 0) == (x@ == y@),
{
    assert(0xffff_ffffu32 as isize != 0) by (bit_vector);
    let mut d = 0u32;
    let mut i: usize = 0;
    while i < x.len()
        invariant
            x@.len() == y@.len(),
            i <= x@.len(),
            d < 256,
            (d == 0) <==> (forall|k: int| 0 <= k < i ==> x@[k] == y@[k]),
        decreases x@.len() - i,
    {
        let a = x[i];
        let b = y[i];
        let nd = d | ((a ^ b) as u32);
        assert(((nd == 0) <==> (d == 0 && a == b)) && nd < 256) by (bit_vector)
            requires
                nd == d | ((a ^ b) as u32),
                d < 256,
        ;
        proof {
            if nd == 0 {
                assert forall|k: int| 0 <= k < i + 1 implies x@[k] == y@[k] by {
                    if k < i {
                    } else {
                        assert(x@[k] == a && y@[k] == b);
                    }
                }
            }
        }
        d = nd;
        i += 1;
    }
    let t = (1u32 & (d.wrapping_sub(1) >> 8)).wrapping_sub(1);
    assert((d == 0 ==> t == 0) && (d != 0 ==> t == 0xffff_ffffu32)) by (bit_vector)
        requires
            t == (1u32 & (d.wrapping_sub(1) >> 8u32)).wrapping_sub(1),
            d < 256,
    ;
    proof {
        if d == 0 {
            assert(x@ =~= y@);
        }
    }
    t as isize
}

/// Compares two 16-byte strings in constant time; 0 means equal.
pub fn verify_16(x: &[u8; 16], y: &[u8; 16]) -> (r: isize)
    ensures
        r == (if x@ == y@ { 0isize } else { 0xffff_ffffu32 as isize }),
        (r == 0) == (x@ == y@),
{
    vn(x, y)
}

/// Compares two 32-byte strings in constant time; 0 means equal.
pub fn verify_32(x: &[u8; 32], y: &[u8; 32]) -> (r: isize)
    ensures
        r == (if x@ == y@ { 0isize } else { 0xffff_ffffu32 as isize }),
        (r == 0) == (x@ == y@),
{
    vn(x, y)
}

/// A copy of `src[off..off + N]` as an array.
pub fn sub_array<const N: usize>(src: &[u8], off: usize) -> (r: [u8; N])
    requires
        off + N <= src.len(),
    ensures
        r@ == src@.subrange(off as int, off + N),
{
    let mut r = [0u8; N];
    let mut i: usize = 0;
    while i < N
        invariant
            i <= N,
            off + N <= src.len(),
            r@.len() == N,
            forall|k: int| 0 <= k < i ==> r@[k] == src@[off + k],
        decreases N - i,
    {
        r[i] = src[off + i];
        i += 1;
    }
    assert(r@ =~= src@.subrange(off as int, off + N));
    r
}

/// Writes `v` over `x[off..off + v.len()]`.
pub fn copy_into(x: &mut [u8], off: usize, v: &[u8])
    requires
        off + v.len() <= old(x).len(),
    ensures
        final(x)@ == old(x)@.subrange(0, off as int) + v@ + old(x)@.subrange(
            off + v@.len(),
            old(x)@.len() as int,
        ),
{
    let ghost x0 = x@;
    let mut i: usize = 0;
    while i < v.len()
        invariant
            i <= v.len(),
            off + v.len() <= x.len(),
            x@.len() == x0.len(),
            forall|k: int| 0 <= k < i ==> x@[off + k] == v@[k],
            forall|k: int| 0 <= k < x0.len() && !(off <= k < off + i) ==> x@[k] == x0[k],
        decreases v.len() - i,
    {
        x[off + i] = v[i];
        i += 1;
    }
    assert(x@ =~= x0.subrange(0, off as int) + v@ + x0.subrange(off + v@.len(), x0.len() as int));
}

/// 256^j.
pub open spec fn b8(j: int) -> int {
    pow2((8 * j) as nat) as int
}


/// The number whose little-endian bytes are `s[0..n]`.
pub open spec fn bytes_val(s: Seq<u8>, n: int) -> int
    decreases n,
{
    if n <= 0 {
        0
    } else {
        bytes_val(s, n - 1) + s[n - 1] * b8(n - 1)
    }
}

/// The number whose little-endian encoding is `s`.
pub open spec fn le_value(s: Seq<u8>) -> int {
    bytes_val(s, s.len() as int)
}


pub proof fn lemma_b8_step(j: int)
    requires
        j >= 0,
    ensures
        b8(j + 1) == 256 * b8(j),
        b8(j) > 0,
{
    lemma_pow2_adds((8 * j) as nat, 8);
    lemma2_to64();
    lemma_pow2_pos((8 * j) as nat);
    assert((8 * j) as nat + 8 == (8 * (j + 1)) as nat);
}

/// 256^(a + b) = 256^a 256^b.
pub proof fn lemma_b8_adds(a: int, b: int)
    requires
        a >= 0,
        b >= 0,
    ensures
        b8(a + b) == b8(a) * b8(b),
{
    lemma_pow2_adds((8 * a) as nat, (8 * b) as nat);
    assert((8 * a) as nat + (8 * b) as nat == (8 * (a + b)) as nat);
}

/// `bytes_val` reads only the first `n` bytes.
pub proof fn lemma_bytes_val_frame(a: Seq<u8>, b: Seq<u8>, n: int)
    requires
        0 <= n <= a.len(),
        n <= b.len(),
        forall|k: int| 0 <= k < n ==> a[k] == b[k],
    ensures
        bytes_val(a, n) == bytes_val(b, n),
    decreases n,
{
    if n > 0 {
        lemma_bytes_val_frame(a, b, n - 1);
    }
}

/// Zero bytes from `lo` on add nothing.
pub proof fn lemma_bytes_val_zeros(s: Seq<u8>, lo: int, n: int)
    requires
        0 <= lo <= n <= s.len(),
        forall|k: int| lo <= k < n ==> s[k] == 0,
    ensures
        bytes_val(s, n) == bytes_val(s, lo),
    decreases n,
{
    if n > lo {
        lemma_bytes_val_zeros(s, lo, n - 1);
    }
}

/// Digits below 256 give a number below 256^n.
pub proof fn lemma_bytes_bound(s: Seq<u8>, n: int)
    requires
        0 <= n <= s.len(),
    ensures
        0 <= bytes_val(s, n) < b8(n),
    decreases n,
{
    lemma_pow2_pos(0);
    assert(b8(0) == 1) by {
        vstd::arithmetic::power2::lemma2_to64();
    }
    if n > 0 {
        lemma_bytes_bound(s, n - 1);
        lemma_b8_step(n - 1);
        lemma_mul_inequality(s[n - 1] as int, 255, b8(n - 1));
        lemma_mul_nonnegative(s[n - 1] as int, b8(n - 1));
    }
}


/// Two byte strings of one length with the same little-endian value are equal.
pub proof fn lemma_le_value_injective(a: Seq<u8>, b: Seq<u8>)
    requires
        a.len() == b.len(),
    ensures
        le_value(a) == le_value(b) <==> a == b,
{
    if le_value(a) == le_value(b) {
        lemma_bytes_val_injective(a, b, a.len() as int);
        assert(a =~= b);
    }
}

proof fn lemma_bytes_val_injective(a: Seq<u8>, b: Seq<u8>, n: int)
    requires
        0 <= n <= a.len(),
        n <= b.len(),
        bytes_val(a, n) == bytes_val(b, n),
    ensures
        forall|k: int| 0 <= k < n ==> a[k] == b[k],
    decreases n,
{
    if n > 0 {
        lemma_bytes_bound(a, n - 1);
        lemma_bytes_bound(b, n - 1);
        let x = bytes_val(a, n - 1);
        let y = bytes_val(b, n - 1);
        let w = b8(n - 1);
        lemma_fundamental_div_mod_converse(bytes_val(a, n), w, a[n - 1] as int, x);
        lemma_fundamental_div_mod_converse(bytes_val(b, n), w, b[n - 1] as int, y);
        lemma_mul_is_commutative(a[n - 1] as int, w);
        lemma_mul_is_commutative(b[n - 1] as int, w);
        lemma_bytes_val_injective(a, b, n - 1);
    }
}


/// The low bit of a little-endian number is the low bit of its first byte.
pub proof fn lemma_bytes_parity(s: Seq<u8>, n: int)
    requires
        1 <= n <= s.len(),
    ensures
        bytes_val(s, n) % 2 == s[0] % 2,
    decreases n,
{
    lemma2_to64();
    if n == 1 {
        assert(bytes_val(s, 0) == 0);
        assert(b8(0) == 1);
    } else {
        lemma_bytes_parity(s, n - 1);
        lemma_b8_step(n - 2);
        let a = bytes_val(s, n - 1);
        let t = s[n - 1] * b8(n - 2);
        assert(s[n - 1] * b8(n - 1) == 2 * (128 * t)) by (nonlinear_arith)
            requires
                b8(n - 1) == 256 * b8(n - 2),
                t == s[n - 1] * b8(n - 2),
        ;
        vstd::arithmetic::div_mod::lemma_mod_multiples_vanish(128 * t, a, 2);
    }
}

/// The `n` little-endian bytes of `v` (of `v mod 256^n` when `v` is larger).
pub open spec fn le_bytes(v: int, n: int) -> Seq<u8> {
    Seq::new(n as nat, |i: int| ((v / b8(i)) % 256) as u8)
}

/// `sum_{k <= j < n} s[j] 256^(j - k)`: the bytes from `k` on, as a number.
pub open spec fn bytes_hi(s: Seq<u8>, k: int, n: int) -> int
    decreases n - k,
{
    if n <= k {
        0
    } else {
        s[k] + 256 * bytes_hi(s, k + 1, n)
    }
}

pub proof fn lemma_bytes_split(s: Seq<u8>, k: int, n: int)
    requires
        0 <= k <= n <= s.len(),
    ensures
        bytes_val(s, n) == bytes_val(s, k) + b8(k) * bytes_hi(s, k, n),
        bytes_hi(s, k, n) >= 0,
    decreases n - k,
{
    if k < n {
        lemma_bytes_split(s, k + 1, n);
        lemma_b8_step(k);
        assert(bytes_val(s, k + 1) == bytes_val(s, k) + s[k] * b8(k));
        assert(b8(k + 1) * bytes_hi(s, k + 1, n) + s[k] * b8(k) == b8(k) * bytes_hi(s, k, n))
            by (nonlinear_arith)
            requires
                b8(k + 1) == 256 * b8(k),
                bytes_hi(s, k, n) == s[k] + 256 * bytes_hi(s, k + 1, n),
        ;
    }
}

/// A byte string is the little-endian encoding of its own value.
pub proof fn lemma_le_bytes_of_value(s: Seq<u8>)
    ensures
        s == le_bytes(le_value(s), s.len() as int),
{
    let n = s.len() as int;
    let v = le_value(s);
    assert forall|i: int| 0 <= i < n implies #[trigger] s[i] == ((v / b8(i)) % 256) as u8 by {
        lemma_bytes_split(s, i, n);
        lemma_bytes_bound(s, i);
        lemma_b8_step(i);
        lemma_fundamental_div_mod_converse(v, b8(i), bytes_hi(s, i, n), bytes_val(s, i));
        lemma_mul_is_commutative(b8(i), bytes_hi(s, i, n));
        assert(bytes_hi(s, i, n) == s[i] + 256 * bytes_hi(s, i + 1, n));
        lemma_bytes_split(s, i + 1, n);
        lemma_fundamental_div_mod_converse(bytes_hi(s, i, n), 256, bytes_hi(s, i + 1, n), s[i] as int);
    }
    assert(s =~= le_bytes(v, n));
}

/// The first `k` bytes of `le_bytes(v, n)` read back as `v` modulo 256^k.
pub proof fn lemma_le_bytes_prefix(v: int, n: int, k: int)
    requires
        0 <= v,
        0 <= k <= n,
    ensures
        bytes_val(le_bytes(v, n), k) == v % b8(k),
    decreases k,
{
    if k == 0 {
        lemma2_to64();
        assert(b8(0) == 1);
    } else {
        lemma_le_bytes_prefix(v, n, k - 1);
        lemma_b8_step(k - 1);
        let w = b8(k - 1);
        vstd::arithmetic::div_mod::lemma_mod_breakdown(v, w, 256);
        assert(w * 256 == 256 * w) by (nonlinear_arith);
        assert(le_bytes(v, n)[k - 1] == (v / w) % 256);
        assert(((v / w) % 256) * w == w * ((v / w) % 256)) by (nonlinear_arith);
    }
}

/// `le_bytes(v, n)` reads back as `v` when `v` fits in `n` bytes.
pub proof fn lemma_le_bytes_value(v: int, n: int)
    requires
        0 <= n,
        0 <= v < b8(n),
    ensures
        le_value(le_bytes(v, n)) == v,
{
    lemma_le_bytes_prefix(v, n, n);
    vstd::arithmetic::div_mod::lemma_small_mod(v as nat, b8(n) as nat);
}

/// Xoring twice with the same byte gives the byte back.
pub proof fn lemma_xor_twice(a: u8, b: u8)
    by (bit_vector)
    ensures
        (a ^ b) ^ b == a,
{
}

/// The low byte of a 64-bit word is the word modulo 256.
pub proof fn lemma_u64_low_byte(y: u64)
    by (bit_vector)
    ensures
        (y as u8) as u64 == y % 256,
{
}

/// The low byte of a 128-bit word is the word modulo 256.
pub proof fn lemma_u128_low_byte(y: u128)
    by (bit_vector)
    ensures
        (y as u8) as u128 == y % 256,
{
}

} // verus!
