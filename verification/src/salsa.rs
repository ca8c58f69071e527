//! The Salsa20 core, HSalsa20, and the Salsa20/XSalsa20 stream ciphers.
use vstd::prelude::*;
use crate::bytes::{le32_at, byte32, byte64, ld32, st32};

verus! {

/// Addition modulo 2^32.
pub open spec fn wadd(a: u32, b: u32) -> u32 {
    if a + b > u32::MAX {
        (a + b - 0x1_0000_0000) as u32
    } else {
        (a + b) as u32
    }
}

/// Subtraction modulo 2^32.
pub open spec fn wsub(a: u32, b: u32) -> u32 {
    if a < b {
        (a - b + 0x1_0000_0000) as u32
    } else {
        (a - b) as u32
    }
}

/// Rotation of `x` to the left by `c` bits, for `0 < c < 32`.
pub open spec fn rotl(x: u32, c: u32) -> u32 {
    (x << c) | (x >> ((32 - c) as u32))
}

/// The Salsa20 quarter-round on `(y0, y1, y2, y3)`.
#[verifier::opaque]
pub open spec fn quarterround(y0: u32, y1: u32, y2: u32, y3: u32) -> (u32, u32, u32, u32) {
    let z1 = y1 ^ rotl(wadd(y0, y3), 7);
    let z2 = y2 ^ rotl(wadd(z1, y0), 9);
    let z3 = y3 ^ rotl(wadd(z2, z1), 13);
    let z0 = y0 ^ rotl(wadd(z3, z2), 18);
    (z0, z1, z2, z3)
}

/// The Salsa20 column-round on a 16-word state.
#[verifier::opaque]
pub open spec fn columnround(x: Seq<u32>) -> Seq<u32> {
    let a = quarterround(x[0], x[4], x[8], x[12]);
    let b = quarterround(x[5], x[9], x[13], x[1]);
    let c = quarterround(x[10], x[14], x[2], x[6]);
    let d = quarterround(x[15], x[3], x[7], x[11]);
    seq![a.0, b.3, c.2, d.1, a.1, b.0, c.3, d.2, a.2, b.1, c.0, d.3, a.3, b.2, c.1, d.0]
}

/// The Salsa20 row-round on a 16-word state.
#[verifier::opaque]
pub open spec fn rowround(x: Seq<u32>) -> Seq<u32> {
    let a = quarterround(x[0], x[1], x[2], x[3]);
    let b = quarterround(x[5], x[6], x[7], x[4]);
    let c = quarterround(x[10], x[11], x[8], x[9]);
    let d = quarterround(x[15], x[12], x[13], x[14]);
    seq![a.0, a.1, a.2, a.3, b.3, b.0, b.1, b.2, c.2, c.3, c.0, c.1, d.1, d.2, d.3, d.0]
}

/// The Salsa20 double-round.
pub open spec fn doubleround(x: Seq<u32>) -> Seq<u32> {
    rowround(columnround(x))
}

/// `n` double-rounds applied to `x`.
#[verifier::opaque]
pub open spec fn doublerounds(x: Seq<u32>, n: nat) -> Seq<u32>
    decreases n,
{
    if n == 0 {
        x
    } else {
        doubleround(doublerounds(x, (n - 1) as nat))
    }
}

/// The 4x4 transpose of a 16-word state.
pub open spec fn transpose(y: Seq<u32>) -> Seq<u32> {
    seq![y[0], y[4], y[8], y[12], y[1], y[5], y[9], y[13], y[2], y[6], y[10], y[14], y[3], y[7],
        y[11], y[15]]
}

/// The input state of the core: constant `c`, key `k`, and 16-byte input `inp`.
pub open spec fn salsa_input(inp: Seq<u8>, k: Seq<u8>, c: Seq<u8>) -> Seq<u32> {
    seq![le32_at(c, 0), le32_at(k, 0), le32_at(k, 4), le32_at(k, 8), le32_at(k, 12),
        le32_at(c, 4), le32_at(inp, 0), le32_at(inp, 4), le32_at(inp, 8), le32_at(inp, 12),
        le32_at(c, 8), le32_at(k, 16), le32_at(k, 20), le32_at(k, 24), le32_at(k, 28),
        le32_at(c, 12)]
}

/// The Salsa20 hash of a 16-word state: twenty rounds, then the input added back word by word.
pub open spec fn salsa20_words(x: Seq<u32>) -> Seq<u32> {
    let z = doublerounds(x, 10);
    Seq::new(16, |i: int| wadd(z[i], x[i]))
}

/// HSalsa20: words 0, 5, 10, 15, 6, 7, 8, 9 of the state after twenty rounds.
pub open spec fn hsalsa20_words(x: Seq<u32>) -> Seq<u32> {
    let z = doublerounds(x, 10);
    seq![z[0], z[5], z[10], z[15], z[6], z[7], z[8], z[9]]
}

/// The little-endian encoding of a sequence of words.
pub open spec fn words_to_bytes(w: Seq<u32>) -> Seq<u8> {
    Seq::new(4 * w.len(), |i: int| byte32(w[i / 4], i % 4))
}

/// The 64-byte Salsa20 block for input `inp`, key `k` and constant `c`.
pub open spec fn salsa20_block(inp: Seq<u8>, k: Seq<u8>, c: Seq<u8>) -> Seq<u8> {
    words_to_bytes(salsa20_words(salsa_input(inp, k, c)))
}

/// The 32-byte HSalsa20 output for input `inp`, key `k` and constant `c`.
pub open spec fn hsalsa20_block(inp: Seq<u8>, k: Seq<u8>, c: Seq<u8>) -> Seq<u8> {
    words_to_bytes(hsalsa20_words(salsa_input(inp, k, c)))
}

/// One round as the core computes it: a column-round followed by a transpose.
pub open spec fn half_round(x: Seq<u32>) -> Seq<u32> {
    transpose(columnround(x))
}

pub open spec fn half_rounds(x: Seq<u32>, n: nat) -> Seq<u32>
    decreases n,
{
    if n == 0 {
        x
    } else {
        half_round(half_rounds(x, (n - 1) as nat))
    }
}

/// A row-round is a column-round conjugated by the transpose.
proof fn lemma_rowround_transposed(z: Seq<u32>)
    requires
        z.len() == 16,
    ensures
        transpose(columnround(transpose(z))) == rowround(z),
{
    reveal(columnround);
    reveal(rowround);
    assert(transpose(columnround(transpose(z))) =~= rowround(z));
}

proof fn lemma_half_rounds_even(x: Seq<u32>, n: nat)
    requires
        x.len() == 16,
    ensures
        half_rounds(x, 2 * n) == doublerounds(x, n),
        doublerounds(x, n).len() == 16,
    decreases n,
{
    reveal(doublerounds);
    if n > 0 {
        lemma_half_rounds_even(x, (n - 1) as nat);
        let y = doublerounds(x, (n - 1) as nat);
        assert(half_rounds(x, 2 * n) == half_round(half_round(half_rounds(x, (2 * n - 2) as nat))))
            by {
            reveal_with_fuel(half_rounds, 3);
        }
        assert(columnround(y).len() == 16 && rowround(columnround(y)).len() == 16) by {
            reveal(columnround);
            reveal(rowround);
        }
        lemma_rowround_transposed(columnround(y));
    }
}

/// Rotation of a word to the left by `c` bits.
fn l32(x: u32, c: u32) -> (r: u32)
    requires
        0 < c < 32,
    ensures
        r == rotl(x, c),
{
    (x << c) | (x >> (32 - c))
}

fn quarter(y0: u32, y1: u32, y2: u32, y3: u32) -> (r: (u32, u32, u32, u32))
    ensures
        r == quarterround(y0, y1, y2, y3),
{
    reveal(quarterround);
    let z1 = y1 ^ l32(y0.wrapping_add(y3), 7);
    let z2 = y2 ^ l32(z1.wrapping_add(y0), 9);
    let z3 = y3 ^ l32(z2.wrapping_add(z1), 13);
    let z0 = y0 ^ l32(z3.wrapping_add(z2), 18);
    (z0, z1, z2, z3)
}

/// One round of the core: the four column quarter-rounds, written out transposed.
fn round(x: &[u32; 16]) -> (w: [u32; 16])
    ensures
        w@ == half_round(x@),
{
    let mut w = [0u32; 16];
    let t = quarter(x[0], x[4], x[8], x[12]);
    w[0] = t.0;
    w[1] = t.1;
    w[2] = t.2;
    w[3] = t.3;
    let t = quarter(x[5], x[9], x[13], x[1]);
    w[5] = t.0;
    w[6] = t.1;
    w[7] = t.2;
    w[4] = t.3;
    let t = quarter(x[10], x[14], x[2], x[6]);
    w[10] = t.0;
    w[11] = t.1;
    w[8] = t.2;
    w[9] = t.3;
    let t = quarter(x[15], x[3], x[7], x[11]);
    w[15] = t.0;
    w[12] = t.1;
    w[13] = t.2;
    w[14] = t.3;
    reveal(columnround);
    assert(w@ =~= half_round(x@));
    w
}

/// Stores the 16 words of `x` little-endian into `out[0..64]`, leaving the rest of `out`.
fn store_words16(out: &mut [u8], x: &[u32; 16])
    requires
        old(out).len() >= 64,
    ensures
        final(out)@.len() == old(out)@.len(),
        final(out)@.subrange(0, 64) == words_to_bytes(x@),
        forall|j: int| 64 <= j < old(out)@.len() ==> #[trigger] final(out)@[j] == old(out)@[j],
{
    let ghost o0 = out@;
    let mut i: usize = 0;
    while i < 16
        invariant
            out@.len() == o0.len(),
            o0.len() >= 64,
            forall|j: int| 64 <= j < o0.len() ==> #[trigger] out@[j] == o0[j],
            i <= 16,
            forall|j: int| 0 <= j < 4 * i ==> #[trigger] out@[j] == byte32(x@[j / 4], j % 4),
        decreases 16 - i,
    {
        st32(out, 4 * i, x[i]);
        proof {
            assert forall|j: int| 0 <= j < 4 * (i + 1) implies #[trigger] out@[j] == byte32(
                x@[j / 4],
                j % 4,
            ) by {
                if j >= 4 * i {
                    let k = j - 4 * i;
                    assert(out@[4 * i + k] == byte32(x[i as int], k));
                    assert(j / 4 == i && j % 4 == k);
                }
            }
        }
        i += 1;
    }
    assert(out@.subrange(0, 64) =~= words_to_bytes(x@));
}

/// Stores the 8 words of `x` little-endian into `out[0..32]`, leaving the rest of `out`.
fn store_words8(out: &mut [u8], x: &[u32; 8])
    requires
        old(out).len() >= 32,
    ensures
        final(out)@.len() == old(out)@.len(),
        final(out)@.subrange(0, 32) == words_to_bytes(x@),
        forall|j: int| 32 <= j < old(out)@.len() ==> #[trigger] final(out)@[j] == old(out)@[j],
{
    let ghost o0 = out@;
    let mut i: usize = 0;
    while i < 8
        invariant
            out@.len() == o0.len(),
            o0.len() >= 32,
            forall|j: int| 32 <= j < o0.len() ==> #[trigger] out@[j] == o0[j],
            i <= 8,
            forall|j: int| 0 <= j < 4 * i ==> #[trigger] out@[j] == byte32(x@[j / 4], j % 4),
        decreases 8 - i,
    {
        st32(out, 4 * i, x[i]);
        proof {
            assert forall|j: int| 0 <= j < 4 * (i + 1) implies #[trigger] out@[j] == byte32(
                x@[j / 4],
                j % 4,
            ) by {
                if j >= 4 * i {
                    let k = j - 4 * i;
                    assert(out@[4 * i + k] == byte32(x[i as int], k));
                    assert(j / 4 == i && j % 4 == k);
                }
            }
        }
        i += 1;
    }
    assert(out@.subrange(0, 32) =~= words_to_bytes(x@));
}

/// Loads the constant, key and input words into the initial state.
fn load_state(inx: &[u8; 16], k: &[u8; 32], c: &[u8; 16]) -> (x: [u32; 16])
    ensures
        x@ == salsa_input(inx@, k@, c@),
{
    let mut x = [0u32; 16];
    x[0] = ld32(c, 0);
    x[1] = ld32(k, 0);
    x[6] = ld32(inx, 0);
    x[11] = ld32(k, 16);
    x[5] = ld32(c, 4);
    x[2] = ld32(k, 4);
    x[7] = ld32(inx, 4);
    x[12] = ld32(k, 20);
    x[10] = ld32(c, 8);
    x[3] = ld32(k, 8);
    x[8] = ld32(inx, 8);
    x[13] = ld32(k, 24);
    x[15] = ld32(c, 12);
    x[4] = ld32(k, 12);
    x[9] = ld32(inx, 12);
    x[14] = ld32(k, 28);
    assert(x@ =~= salsa_input(inx@, k@, c@));
    x
}

/// Twenty rounds, that is ten double-rounds.
fn twenty_rounds(x0: &[u32; 16]) -> (x: [u32; 16])
    ensures
        x@ == doublerounds(x0@, 10),
{
    let mut x = *x0;
    let mut r: usize = 0;
    while r < 20
        invariant
            r <= 20,
            x@ == half_rounds(x0@, r as nat),
        decreases 20 - r,
    {
        x = round(&x);
        r += 1;
    }
    proof {
        lemma_half_rounds_even(x0@, 10);
    }
    x
}

/// Adds `y` into `x` word by word, modulo 2^32.
fn add_words(x: &mut [u32; 16], y: &[u32; 16])
    ensures
        forall|j: int| 0 <= j < 16 ==> #[trigger] final(x)@[j] == wadd(old(x)@[j], y@[j]),
{
    let ghost x1 = x@;
    let mut i: usize = 0;
    while i < 16
        invariant
            i <= 16,
            forall|j: int| 0 <= j < i ==> #[trigger] x@[j] == wadd(x1[j], y@[j]),
            forall|j: int| i <= j < 16 ==> #[trigger] x@[j] == x1[j],
        decreases 16 - i,
    {
        x[i] = x[i].wrapping_add(y[i]);
        i += 1;
    }
}

/// The shared body of Salsa20 (`h == false`, 64 bytes out) and HSalsa20 (`h == true`,
/// 32 bytes out); bytes of `out` past those are left as they were.
fn salsa_core(out: &mut [u8], inx: &[u8; 16], k: &[u8; 32], c: &[u8; 16], h: bool)
    requires
        old(out).len() >= (if h { 32int } else { 64int }),
    ensures
        final(out)@.len() == old(out)@.len(),
        final(out)@.subrange(0, if h { 32int } else { 64int }) == (if h {
            hsalsa20_block(inx@, k@, c@)
        } else {
            salsa20_block(inx@, k@, c@)
        }),
        forall|j: int|
            (if h { 32int } else { 64int }) <= j < old(out)@.len() ==> #[trigger] final(out)@[j]
                == old(out)@[j],
{
    let y = load_state(inx, k, c);
    let ghost x0 = y@;
    let mut x = twenty_rounds(&y);
    add_words(&mut x, &y);
    if h {
        finish_hsalsa(out, &x, inx, k, c);
    } else {
        assert(x@ =~= salsa20_words(x0));
        store_words16(out, &x);
    }
}

fn finish_hsalsa(out: &mut [u8], x: &[u32; 16], inx: &[u8; 16], k: &[u8; 32], c: &[u8; 16])
    requires
        old(out).len() >= 32,
        forall|j: int|
            0 <= j < 16 ==> #[trigger] x@[j] == wadd(
                doublerounds(salsa_input(inx@, k@, c@), 10)[j],
                salsa_input(inx@, k@, c@)[j],
            ),
    ensures
        final(out)@.len() == old(out)@.len(),
        final(out)@.subrange(0, 32) == hsalsa20_block(inx@, k@, c@),
        forall|j: int| 32 <= j < old(out)@.len() ==> #[trigger] final(out)@[j] == old(out)@[j],
{
    let ghost x0 = salsa_input(inx@, k@, c@);
    let mut x = *x;
    {
        x[0] = x[0].wrapping_sub(ld32(c, 0));
        x[6] = x[6].wrapping_sub(ld32(inx, 0));
        x[5] = x[5].wrapping_sub(ld32(c, 4));
        x[7] = x[7].wrapping_sub(ld32(inx, 4));
        x[10] = x[10].wrapping_sub(ld32(c, 8));
        x[8] = x[8].wrapping_sub(ld32(inx, 8));
        x[15] = x[15].wrapping_sub(ld32(c, 12));
        x[9] = x[9].wrapping_sub(ld32(inx, 12));
        let o = [x[0], x[5], x[10], x[15], x[6], x[7], x[8], x[9]];
        assert(o@ =~= hsalsa20_words(x0));
        store_words8(out, &o);
    }
}

/// The Salsa20 core: the 64-byte block for input `inx`, key `k` and constant `c`.
pub fn core_salsa20(out: &mut [u8; 64], inx: &[u8; 16], k: &[u8; 32], c: &[u8; 16])
    ensures
        final(out)@ == salsa20_block(inx@, k@, c@),
{
    salsa_core(out, inx, k, c, false);
    assert(out@ =~= out@.subrange(0, 64));
}

/// The HSalsa20 core: 32 bytes derived from input `inx`, key `k` and constant `c`.
pub fn core_hsalsa20(out: &mut [u8; 32], inx: &[u8; 16], k: &[u8; 32], c: &[u8; 16])
    ensures
        final(out)@ == hsalsa20_block(inx@, k@, c@),
{
    salsa_core(out, inx, k, c, true);
    assert(out@ =~= out@.subrange(0, 32));
}

/// The constant "expand 32-byte k".
pub const SIGMA: [u8; 16] = [101, 120, 112, 97, 110, 100, 32, 51, 50, 45, 98, 121, 116, 101, 32, 107];

/// The little-endian encoding of a 64-bit word.
pub open spec fn le64_bytes(v: u64) -> Seq<u8> {
    Seq::new(8, |i: int| byte64(v, i))
}

/// Block number `b` of the Salsa20 key stream for an 8-byte nonce `n` and key `k`.
pub open spec fn stream_block(n: Seq<u8>, k: Seq<u8>, b: int) -> Seq<u8> {
    salsa20_block(n + le64_bytes((b % 0x1_0000_0000_0000_0000) as u64), k, SIGMA@)
}

/// Byte `i` of the Salsa20 key stream for an 8-byte nonce `n` and key `k`.
pub open spec fn keystream_byte(n: Seq<u8>, k: Seq<u8>, i: int) -> u8 {
    stream_block(n, k, i / 64)[i % 64]
}

/// Byte `i` of an optional message; an absent message reads as zeros.
pub open spec fn msg_byte(m: Option<&[u8]>, i: int) -> u8 {
    match m {
        Some(s) => s@[i],
        None => 0u8,
    }
}

/// The carry into byte `j` when 1 is added to `n`: 1 exactly when bytes `0..j` of `n` are all ones.
pub open spec fn carry_in(n: u64, j: u64) -> u32 {
    if n & (((1u64 << ((8 * j) as u64)) - 1) as u64) == (((1u64 << ((8 * j) as u64)) - 1) as u64) {
        1
    } else {
        0
    }
}

proof fn lemma_increment_step(n: u64, j: u64)
    by (bit_vector)
    requires
        j < 8,
        n < 0xffff_ffff_ffff_ffffu64,
    ensures
        (((carry_in(n, j) + (((n >> ((8 * j) as u64)) as u8) as u32)) as u32) as u8) == ((((n + 1)
            as u64) >> ((8 * j) as u64)) as u8),
        j < 7 ==> (((carry_in(n, j) + (((n >> ((8 * j) as u64)) as u8) as u32)) as u32) >> 8u32)
            == carry_in(n, (j + 1) as u64),
{
}

/// Adds one to the little-endian counter in `z[8..16]`.
fn increment_counter(z: &mut [u8; 16], Ghost(n): Ghost<u64>)
    requires
        n < 0xffff_ffff_ffff_ffffu64,
        old(z)@.subrange(8, 16) == le64_bytes(n),
    ensures
        final(z)@.subrange(0, 8) == old(z)@.subrange(0, 8),
        final(z)@.subrange(8, 16) == le64_bytes((n + 1) as u64),
{
    let ghost z0 = z@;
    let mut u = 1u32;
    let mut i: usize = 8;
    assert(carry_in(n, 0) == 1) by (bit_vector);
    while i < 16
        invariant
            8 <= i <= 16,
            u <= 1,
            z0.len() == 16,
            n < 0xffff_ffff_ffff_ffffu64,
            z0.subrange(8, 16) == le64_bytes(n),
            i < 16 ==> u == carry_in(n, (i - 8) as u64),
            forall|j: int| 0 <= j < 8 ==> #[trigger] z@[j] == z0[j],
            forall|j: int| 8 <= j < i ==> #[trigger] z@[j] == byte64((n + 1) as u64, j - 8),
            forall|j: int| i <= j < 16 ==> #[trigger] z@[j] == z0[j],
        decreases 16 - i,
    {
        assert(z0[i as int] == z0.subrange(8, 16)[i - 8]);
        proof {
            lemma_increment_step(n, (i - 8) as u64);
        }
        let s = u + z[i] as u32;
        z[i] = s as u8;
        u = s >> 8;
        assert(u <= 1) by (bit_vector)
            requires
                s <= 256,
                u == s >> 8u32,
        ;
        i += 1;
    }
    assert(z@.subrange(0, 8) =~= z0.subrange(0, 8));
    assert(z@.subrange(8, 16) =~= le64_bytes((n + 1) as u64));
}

/// Encrypts `message` into `c_stream` by xoring it with the Salsa20 key stream for `nonce`
/// and `key`; with no message, writes the key stream itself. Decryption is the same call with
/// the cipher text as the message.
pub fn stream_salsa20_xor(c_stream: &mut [u8], message: Option<&[u8]>, nonce: &[u8; 8], key: &[u8; 32])
    requires
        message matches Some(m) ==> m@.len() == old(c_stream)@.len(),
    ensures
        final(c_stream)@.len() == old(c_stream)@.len(),
        forall|i: int|
            0 <= i < old(c_stream)@.len() ==> #[trigger] final(c_stream)@[i] == msg_byte(message, i)
                ^ keystream_byte(nonce@, key@, i),
{
    let c = c_stream;
    let m = message;
    let mut z = [0u8; 16];
    let mut x = [0u8; 64];
    let len = c.len();
    if len == 0 {
        return;
    }
    let mut i: usize = 0;
    while i < 8
        invariant
            i <= 8,
            forall|j: int| 0 <= j < i ==> #[trigger] z@[j] == nonce@[j],
            forall|j: int| 8 <= j < 16 ==> #[trigger] z@[j] == 0,
        decreases 8 - i,
    {
        z[i] = nonce[i];
        i += 1;
    }
    assert(z@ =~= nonce@ + le64_bytes(0)) by {
        assert forall|j: int| 0 <= j < 8 implies #[trigger] byte64(0u64, j) == 0 by {
            let jj = j as u64;
            assert(((0u64 >> ((8 * jj) as u64)) as u8) == 0) by (bit_vector);
        }
    }
    let mut pos: usize = 0;
    while len - pos >= 64
        invariant
            len == c@.len(),
            m matches Some(mm) ==> mm@.len() == len,
            pos <= len,
            pos % 64 == 0,
            z@ == nonce@ + le64_bytes((pos / 64) as u64),
            forall|j: int| 0 <= j < pos ==> #[trigger] c@[j] == msg_byte(m, j) ^ keystream_byte(
                nonce@,
                key@,
                j,
            ),
        decreases len - pos,
    {
        core_salsa20(&mut x, &z, key, &SIGMA);
        assert(z@ == nonce@ + le64_bytes(((pos as int / 64) % 0x1_0000_0000_0000_0000) as u64));
        let mut i: usize = 0;
        while i < 64
            invariant
                len == c@.len(),
                m matches Some(mm) ==> mm@.len() == len,
                pos + 64 <= len,
                pos % 64 == 0,
                i <= 64,
                x@ == stream_block(nonce@, key@, pos as int / 64),
                forall|j: int| 0 <= j < pos + i ==> #[trigger] c@[j] == msg_byte(m, j)
                    ^ keystream_byte(nonce@, key@, j),
            decreases 64 - i,
        {
            let mb = match m {
                Some(mm) => mm[pos + i],
                None => 0,
            };
            c[pos + i] = mb ^ x[i];
            assert((pos + i) / 64 == pos / 64 && (pos + i) % 64 == i as int);
            i += 1;
        }
        proof {
            assert(z@.subrange(8, 16) =~= le64_bytes((pos / 64) as u64));
        }
        increment_counter(&mut z, Ghost((pos / 64) as u64));
        proof {
            assert(z@ =~= z@.subrange(0, 8) + z@.subrange(8, 16));
            assert(nonce@ =~= (nonce@ + le64_bytes((pos / 64) as u64)).subrange(0, 8));
            assert((pos + 64) / 64 == pos / 64 + 1);
        }
        pos += 64;
    }
    if pos < len {
        core_salsa20(&mut x, &z, key, &SIGMA);
        assert(z@ == nonce@ + le64_bytes(((pos as int / 64) % 0x1_0000_0000_0000_0000) as u64));
        let mut i: usize = 0;
        while i < len - pos
            invariant
                len == c@.len(),
                m matches Some(mm) ==> mm@.len() == len,
                pos + 64 > len,
                pos < len,
                pos % 64 == 0,
                i <= len - pos,
                x@ == stream_block(nonce@, key@, pos as int / 64),
                forall|j: int| 0 <= j < pos + i ==> #[trigger] c@[j] == msg_byte(m, j)
                    ^ keystream_byte(nonce@, key@, j),
            decreases len - pos - i,
        {
            let mb = match m {
                Some(mm) => mm[pos + i],
                None => 0,
            };
            c[pos + i] = mb ^ x[i];
            assert((pos + i) / 64 == pos / 64 && (pos + i) % 64 == i as int);
            i += 1;
        }
    }
}

/// Fills `c_stream` with the Salsa20 key stream for `nonce` and `key`.
pub fn stream_salsa20(c_stream: &mut [u8], nonce: &[u8; 8], key: &[u8; 32])
    ensures
        final(c_stream)@.len() == old(c_stream)@.len(),
        forall|i: int|
            0 <= i < old(c_stream)@.len() ==> #[trigger] final(c_stream)@[i] == keystream_byte(
                nonce@,
                key@,
                i,
            ),
{
    stream_salsa20_xor(c_stream, None, nonce, key);
    assert forall|i: int| 0 <= i < c_stream@.len() implies #[trigger] c_stream@[i] == keystream_byte(
        nonce@,
        key@,
        i,
    ) by {
        let kb = keystream_byte(nonce@, key@, i);
        assert(0u8 ^ kb == kb) by (bit_vector);
    }
}

/// Xoring twice with the Salsa20 key stream gives the message back: when `c` is what
/// `stream_salsa20_xor` writes for the message `m`, and `d` what it writes for the message
/// `c`, under the same nonce and key, then `d` is `m`.
pub proof fn lemma_stream_salsa20_xor_twice(
    m: Seq<u8>,
    c: Seq<u8>,
    d: Seq<u8>,
    n: Seq<u8>,
    k: Seq<u8>,
)
    requires
        c.len() == m.len(),
        d.len() == m.len(),
        forall|i: int| 0 <= i < m.len() ==> #[trigger] c[i] == m[i] ^ keystream_byte(n, k, i),
        forall|i: int| 0 <= i < m.len() ==> #[trigger] d[i] == c[i] ^ keystream_byte(n, k, i),
    ensures
        d == m,
{
    assert forall|i: int| 0 <= i < m.len() implies d[i] == m[i] by {
        let a = m[i];
        let b = keystream_byte(n, k, i);
        crate::bytes::lemma_xor_twice(a, b);
    }
    assert(d =~= m);
}

/// The state words that HSalsa20 outputs, in order: 0, 5, 10, 15, 6, 7, 8, 9.
pub open spec fn hsalsa20_index(m: int) -> int {
    seq![0int, 5, 10, 15, 6, 7, 8, 9][m]
}

/// A word stored little-endian reads back as itself.
proof fn lemma_le32_word(w: Seq<u32>, i: int)
    requires
        0 <= i < w.len(),
    ensures
        le32_at(words_to_bytes(w), 4 * i) == w[i],
{
    let b = words_to_bytes(w);
    let v = w[i];
    assert(b[4 * i] == byte32(v, 0));
    assert(b[4 * i + 1] == byte32(v, 1));
    assert(b[4 * i + 2] == byte32(v, 2));
    assert(b[4 * i + 3] == byte32(v, 3));
    assert((((((v >> 24u32) as u8) as u32) << 24u32) | ((((v >> 16u32) as u8) as u32) << 16u32)
        | ((((v >> 8u32) as u8) as u32) << 8u32) | (((v >> 0u32) as u8) as u32)) == v)
        by (bit_vector);
}

/// HSalsa20 is the Salsa20 block without the final addition of the input: word `m` of the
/// HSalsa20 output is word `hsalsa20_index(m)` of the Salsa20 block for the same input, key
/// and constant, less that word of the input state, modulo 2^32.
pub proof fn lemma_hsalsa20_from_salsa20(inp: Seq<u8>, k: Seq<u8>, c: Seq<u8>)
    ensures
        forall|m: int|
            0 <= m < 8 ==> #[trigger] le32_at(hsalsa20_block(inp, k, c), 4 * m) == wsub(
                le32_at(salsa20_block(inp, k, c), 4 * hsalsa20_index(m)),
                salsa_input(inp, k, c)[hsalsa20_index(m)],
            ),
{
    let x = salsa_input(inp, k, c);
    let sw = salsa20_words(x);
    let hw = hsalsa20_words(x);
    let z = doublerounds(x, 10);
    assert forall|m: int|
        0 <= m < 8 implies #[trigger] le32_at(hsalsa20_block(inp, k, c), 4 * m) == wsub(
        le32_at(salsa20_block(inp, k, c), 4 * hsalsa20_index(m)),
        x[hsalsa20_index(m)],
    ) by {
        let j = hsalsa20_index(m);
        assert(0 <= j < 16);
        lemma_le32_word(hw, m);
        lemma_le32_word(sw, j);
        assert(hw[m] == z[j]);
        assert(sw[j] == wadd(z[j], x[j]));
    }
}

/// The Salsa20 key stream runs through the whole 64-bit block counter: byte `i` of the
/// stream is byte `i mod 64` of the Salsa20 block whose 16-byte input is the nonce followed
/// by the block number `i / 64` as 8 little-endian bytes, for every `i` below `2^70`.
pub proof fn lemma_keystream_block_index(n: Seq<u8>, k: Seq<u8>, i: int)
    requires
        0 <= i,
        i / 64 < 0x1_0000_0000_0000_0000,
    ensures
        keystream_byte(n, k, i) == salsa20_block(
            n + crate::bytes::le_bytes(i / 64, 8),
            k,
            SIGMA@,
        )[i % 64],
{
    let b = i / 64;
    let v = b as u64;
    assert(b % 0x1_0000_0000_0000_0000 == b);
    assert forall|j: int| 0 <= j < 8 implies #[trigger] le64_bytes(v)[j]
        == crate::bytes::le_bytes(b, 8)[j] by {
        let sh = (8 * j) as u64;
        vstd::bits::lemma_u64_shr_is_div(v, sh);
        crate::bytes::lemma_u64_low_byte(v >> sh);
        assert(sh as nat == (8 * j) as nat);
    }
    assert(le64_bytes(v) =~= crate::bytes::le_bytes(b, 8));
}

} // verus!
