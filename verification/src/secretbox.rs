//! XSalsa20, and the XSalsa20-Poly1305 `secretbox` authenticated encryption.
use vstd::prelude::*;
use crate::bytes::{sub_array, copy_into};
use crate::salsa::{SIGMA, hsalsa20_block, keystream_byte, msg_byte, core_hsalsa20,
    stream_salsa20, stream_salsa20_xor};
use crate::bytes::le_value;
use crate::poly1305::{poly1305_tag_value, onetimeauth, onetimeauth_verify};

verus! {

pub const STREAM_XSALSA20_NONCE_LEN: usize = 24;
pub const STREAM_XSALSA20_KEY_LEN: usize = 32;
pub type StreamXSalsa20Nonce = [u8; STREAM_XSALSA20_NONCE_LEN];
pub type StreamXSalsa20Key = [u8; STREAM_XSALSA20_KEY_LEN];

/// The Salsa20 key derived by HSalsa20 from the first 16 bytes of a 24-byte nonce.
pub open spec fn xsalsa20_subkey(n: Seq<u8>, k: Seq<u8>) -> Seq<u8> {
    hsalsa20_block(n.subrange(0, 16), k, SIGMA@)
}

/// Byte `i` of the XSalsa20 key stream for a 24-byte nonce `n` and key `k`.
pub open spec fn xsalsa20_byte(n: Seq<u8>, k: Seq<u8>, i: int) -> u8 {
    keystream_byte(n.subrange(16, 24), xsalsa20_subkey(n, k), i)
}

/// The first `len` bytes of the XSalsa20 key stream.
pub open spec fn xsalsa20_stream(n: Seq<u8>, k: Seq<u8>, len: int) -> Seq<u8> {
    Seq::new(len as nat, |i: int| xsalsa20_byte(n, k, i))
}

/// Fills `c_stream` with the XSalsa20 key stream for `nonce` and `key`.
pub fn stream_xsalsa20(c_stream: &mut [u8], nonce: &StreamXSalsa20Nonce, key: &StreamXSalsa20Key)
    ensures
        final(c_stream)@ == xsalsa20_stream(nonce@, key@, old(c_stream)@.len() as int),
{
    let mut s = [0u8; 32];
    let n16: [u8; 16] = sub_array(nonce, 0);
    core_hsalsa20(&mut s, &n16, key, &SIGMA);
    let n8: [u8; 8] = sub_array(nonce, 16);
    stream_salsa20(c_stream, &n8, &s);
    assert(c_stream@ =~= xsalsa20_stream(nonce@, key@, c_stream@.len() as int));
}

/// Encrypts `message` into `c_text` by xoring it with the XSalsa20 key stream for `nonce`
/// and `key`; the same call decrypts.
pub fn stream_xsalsa20_xor(
    c_text: &mut [u8],
    message: &[u8],
    nonce: &StreamXSalsa20Nonce,
    key: &StreamXSalsa20Key,
)
    requires
        old(c_text)@.len() == message@.len(),
    ensures
        final(c_text)@.len() == message@.len(),
        forall|i: int|
            0 <= i < message@.len() ==> #[trigger] final(c_text)@[i] == message@[i]
                ^ xsalsa20_byte(nonce@, key@, i),
{
    let mut s = [0u8; 32];
    let n16: [u8; 16] = sub_array(nonce, 0);
    core_hsalsa20(&mut s, &n16, key, &SIGMA);
    let n8: [u8; 8] = sub_array(nonce, 16);
    stream_salsa20_xor(c_text, Some(message), &n8, &s);
    assert forall|i: int| 0 <= i < message@.len() implies #[trigger] c_text@[i] == message@[i]
        ^ xsalsa20_byte(nonce@, key@, i) by {
        assert(msg_byte(Some(message), i) == message@[i]);
    }
}

pub const SECRETBOX_KEY_LEN: usize = 32;
pub const SECRETBOX_NONCE_LEN: usize = 24;
pub type SecretboxKey = [u8; SECRETBOX_KEY_LEN];
pub type SecretboxNonce = [u8; SECRETBOX_NONCE_LEN];

/// `c` is the sealed form of the padded message `m` (its first 32 bytes zero) under nonce `n`
/// and key `k`: 16 zero bytes, the Poly1305 tag of the cipher text keyed by the first 32 bytes
/// of the XSalsa20 key stream, then the cipher text `m[32..]` xor the key stream.
pub open spec fn secretbox_sealed(c: Seq<u8>, m: Seq<u8>, n: Seq<u8>, k: Seq<u8>) -> bool {
    let ks = xsalsa20_stream(n, k, m.len() as int);
    &&& c.len() == m.len()
    &&& forall|i: int| 0 <= i < 16 ==> #[trigger] c[i] == 0
    &&& forall|i: int| 32 <= i < m.len() ==> #[trigger] c[i] == m[i] ^ ks[i]
    &&& le_value(c.subrange(16, 32)) == poly1305_tag_value(
        c.subrange(32, c.len() as int),
        xsalsa20_stream(n, k, 32),
    )
}

/// The cipher text `c` passes the authentication check of `secretbox_open`.
pub open spec fn secretbox_authentic(c: Seq<u8>, n: Seq<u8>, k: Seq<u8>) -> bool {
    &&& c.len() >= 32
    &&& le_value(c.subrange(16, 32)) == poly1305_tag_value(
        c.subrange(32, c.len() as int),
        xsalsa20_stream(n, k, 32),
    )
}

/// `m` is what `secretbox_open` writes for the authentic cipher text `c`: 32 zero bytes,
/// then `c[32..]` xor the key stream.
pub open spec fn secretbox_opened(m: Seq<u8>, c: Seq<u8>, n: Seq<u8>, k: Seq<u8>) -> bool {
    &&& m.len() == c.len()
    &&& forall|i: int| 0 <= i < 32 ==> #[trigger] m[i] == 0
    &&& forall|i: int| 32 <= i < c.len() ==> #[trigger] m[i] == c[i] ^ xsalsa20_byte(n, k, i)
}

/// Encrypts and authenticates the message `m`, whose first 32 bytes must be zero, under
/// nonce `n` and secret key `k`; the cipher text goes to `c`, its first 16 bytes zero.
pub fn secretbox(c: &mut [u8], m: &[u8], n: &SecretboxNonce, k: &SecretboxKey) -> (res: Result<
    (),
    (),
>)
    requires
        old(c)@.len() == m@.len(),
        m@.len() >= 32,
        forall|i: int| 0 <= i < 32 ==> m@[i] == 0,
    ensures
        res is Ok,
        secretbox_sealed(final(c)@, m@, n@, k@),
{
    stream_xsalsa20_xor(c, m, n, k);
    let ghost c1 = c@;
    let mut o = [0u8; 16];
    {
        let c_k: [u8; 32] = sub_array(c, 0);
        let c_m = &c[32..c.len()];
        onetimeauth(&mut o, c_m, &c_k);
        proof {
            assert forall|i: int| 0 <= i < 32 implies c_k@[i] == xsalsa20_stream(n@, k@, 32)[i] by {
                let b = xsalsa20_byte(n@, k@, i);
                assert(0u8 ^ b == b) by (bit_vector);
                assert(m@[i] == 0);
            }
            assert(c_k@ =~= xsalsa20_stream(n@, k@, 32));
        }
    }
    copy_into(c, 16, &o);
    let z = [0u8; 16];
    copy_into(c, 0, &z);
    proof {
        assert(c@.subrange(16, 32) =~= o@);
        assert(c@.subrange(32, c@.len() as int) =~= c1.subrange(32, c1.len() as int));
    }
    Ok(())
}

/// Verifies and decrypts the cipher text `c` under nonce `n` and secret key `k`. On success
/// `m` receives 32 zero bytes followed by the message; on failure `m` is left as it was.
pub fn secretbox_open(m: &mut [u8], c: &[u8], n: &SecretboxNonce, k: &SecretboxKey) -> (res:
    Result<(), ()>)
    requires
        old(m)@.len() == c@.len(),
    ensures
        res is Ok <==> secretbox_authentic(c@, n@, k@),
        res is Ok ==> secretbox_opened(final(m)@, c@, n@, k@),
        res is Err ==> final(m)@ == old(m)@,
{
    if c.len() < 32 {
        return Err(());
    }
    let mut x = [0u8; 32];
    stream_xsalsa20(&mut x, n, k);
    let tag: [u8; 16] = sub_array(c, 16);
    match onetimeauth_verify(&tag, &c[32..c.len()], &x) {
        Ok(()) => {},
        Err(()) => {
            return Err(());
        },
    }
    stream_xsalsa20_xor(m, c, n, k);
    let mut i: usize = 0;
    while i < 32
        invariant
            i <= 32,
            m@.len() == c@.len(),
            c@.len() >= 32,
            forall|j: int| 0 <= j < i ==> m@[j] == 0,
            forall|j: int| 32 <= j < c@.len() ==> #[trigger] m@[j] == c@[j] ^ xsalsa20_byte(n@, k@, j),
        decreases 32 - i,
    {
        m[i] = 0;
        i += 1;
    }
    Ok(())
}

/// Xoring twice with the XSalsa20 key stream gives the message back: when `c` is what
/// `stream_xsalsa20_xor` writes for the message `m`, and `d` what it writes for the message
/// `c`, under the same nonce and key, then `d` is `m`.
pub proof fn lemma_stream_xsalsa20_xor_twice(
    m: Seq<u8>,
    c: Seq<u8>,
    d: Seq<u8>,
    n: Seq<u8>,
    k: Seq<u8>,
)
    requires
        c.len() == m.len(),
        d.len() == m.len(),
        forall|i: int| 0 <= i < m.len() ==> #[trigger] c[i] == m[i] ^ xsalsa20_byte(n, k, i),
        forall|i: int| 0 <= i < m.len() ==> #[trigger] d[i] == c[i] ^ xsalsa20_byte(n, k, i),
    ensures
        d == m,
{
    assert forall|i: int| 0 <= i < m.len() implies d[i] == m[i] by {
        let a = m[i];
        let b = xsalsa20_byte(n, k, i);
        crate::bytes::lemma_xor_twice(a, b);
    }
    assert(d =~= m);
}

/// What `secretbox` seals under a nonce and key, `secretbox_open` accepts under the same
/// nonce and key, and what it then writes is the padded message that was sealed.
pub proof fn lemma_secretbox_open_sealed(c: Seq<u8>, m: Seq<u8>, n: Seq<u8>, k: Seq<u8>)
    requires
        m.len() >= 32,
        forall|i: int| 0 <= i < 32 ==> m[i] == 0,
        secretbox_sealed(c, m, n, k),
    ensures
        secretbox_authentic(c, n, k),
        forall|m2: Seq<u8>| #[trigger] secretbox_opened(m2, c, n, k) ==> m2 == m,
{
    assert forall|m2: Seq<u8>| #[trigger] secretbox_opened(m2, c, n, k) implies m2 == m by {
        let ks = xsalsa20_stream(n, k, m.len() as int);
        assert forall|i: int| 0 <= i < m.len() implies m2[i] == m[i] by {
            if i >= 32 {
                let a = m[i];
                let b = ks[i];
                assert(c[i] == a ^ b);
                assert(m2[i] == c[i] ^ b);
                crate::bytes::lemma_xor_twice(a, b);
            }
        }
        assert(m2 =~= m);
    }
}

/// Opening and sealing again gives the cipher text back: when `c` (its first 16 bytes zero)
/// passes `secretbox_open` under a nonce and key and `m` is what it writes, then `m` may be
/// sealed, and what `secretbox` writes for `m` under the same nonce and key is `c`.
pub proof fn lemma_secretbox_seal_opened(c: Seq<u8>, m: Seq<u8>, n: Seq<u8>, k: Seq<u8>)
    requires
        forall|i: int| 0 <= i < 16 ==> c[i] == 0,
        secretbox_authentic(c, n, k),
        secretbox_opened(m, c, n, k),
    ensures
        m.len() >= 32,
        forall|i: int| 0 <= i < 32 ==> m[i] == 0,
        forall|c2: Seq<u8>| #[trigger] secretbox_sealed(c2, m, n, k) ==> c2 == c,
{
    assert forall|c2: Seq<u8>| #[trigger] secretbox_sealed(c2, m, n, k) implies c2 == c by {
        let ks = xsalsa20_stream(n, k, m.len() as int);
        assert forall|i: int| 32 <= i < c.len() implies c2[i] == c[i] by {
            let a = c[i];
            let b = ks[i];
            assert(m[i] == a ^ b);
            assert(c2[i] == m[i] ^ b);
            crate::bytes::lemma_xor_twice(a, b);
        }
        assert(c2.subrange(32, c2.len() as int) =~= c.subrange(32, c.len() as int));
        crate::bytes::lemma_le_value_injective(c2.subrange(16, 32), c.subrange(16, 32));
        assert forall|i: int| 16 <= i < 32 implies c2[i] == c[i] by {
            assert(c2.subrange(16, 32)[i - 16] == c.subrange(16, 32)[i - 16]);
        }
        assert(c2 =~= c);
    }
}

/// XSalsa20: byte `i` of the stream for the 24-byte nonce `n` is byte `i mod 64` of the
/// Salsa20 block keyed by HSalsa20 of the first 16 nonce bytes, whose input is the last 8
/// nonce bytes followed by the full 64-bit block number `i / 64`, little-endian.
pub proof fn lemma_xsalsa20_byte_index(n: Seq<u8>, k: Seq<u8>, i: int)
    requires
        0 <= i,
        i / 64 < 0x1_0000_0000_0000_0000,
    ensures
        xsalsa20_byte(n, k, i) == crate::salsa::salsa20_block(
            n.subrange(16, 24) + crate::bytes::le_bytes(i / 64, 8),
            hsalsa20_block(n.subrange(0, 16), k, SIGMA@),
            SIGMA@,
        )[i % 64],
{
    crate::salsa::lemma_keystream_block_index(n.subrange(16, 24), xsalsa20_subkey(n, k), i);
}

} // verus!
