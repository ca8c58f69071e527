//! Curve25519-XSalsa20-Poly1305 public-key authenticated encryption (`box`).
use vstd::prelude::*;
use rand::RngCore;
use crate::bytes::le_bytes;
use crate::salsa::{SIGMA, hsalsa20_block, core_hsalsa20};
use crate::x25519::{C_9, x25519, scalarmult, scalarmult_base};
use crate::secretbox::{secretbox, secretbox_open, secretbox_sealed, secretbox_authentic,
    secretbox_opened};

verus! {

pub const BOX_SECRET_KEY_LEN: usize = 32;
pub const BOX_PUBLIC_KEY_LEN: usize = 32;
pub const BOX_NONCE_LEN: usize = 24;
pub type BoxPublicKey = [u8; BOX_PUBLIC_KEY_LEN];
pub type BoxSecretKey = [u8; BOX_SECRET_KEY_LEN];
pub type BoxNonce = [u8; BOX_NONCE_LEN];

/// Sixteen zero bytes.
pub const C_0: [u8; 16] = [0, 0, 0, 0, 0, 0, 0, 0, 0, 0, 0, 0, 0, 0, 0, 0];

/// The public key that goes with the secret key `sk`.
pub open spec fn box_public_key(sk: Seq<u8>) -> Seq<u8> {
    le_bytes(x25519(sk, C_9@), 32)
}

/// The shared secret key for public key `pk` and secret key `sk`: HSalsa20, with a zero
/// input, keyed by the X25519 shared point.
pub open spec fn box_shared_key(pk: Seq<u8>, sk: Seq<u8>) -> Seq<u8> {
    hsalsa20_block(C_0@, le_bytes(x25519(sk, pk), 32), SIGMA@)
}

/// Fills `x` from `rand`'s thread-local generator (`rand::thread_rng`, then
/// `RngCore::fill_bytes`). The bytes come from the operating system's entropy and nothing is
/// stated of them; the generator panics if the operating system cannot supply entropy.
#[verifier::external_body]
pub(crate) fn randombytes(x: &mut [u8])
    ensures
        final(x)@.len() == old(x)@.len(),
{
    rand::thread_rng().fill_bytes(x);
}

/// Makes a `box` key pair from `seed`: the secret key is the seed, the public key its
/// X25519 product with the base point. `seed` should come from a secure random generator.
pub fn box_keypair_seed(pub_key: &mut BoxPublicKey, secret_key: &mut BoxSecretKey, seed: &[u8; 32])
    ensures
        final(secret_key)@ == seed@,
        final(pub_key)@ == box_public_key(seed@),
{
    *secret_key = *seed;
    scalarmult_base(pub_key, secret_key)
}

/// Makes a `box` key pair from fresh random bytes.
pub fn box_keypair(pk: &mut BoxPublicKey, sk: &mut BoxSecretKey)
    ensures
        final(pk)@ == box_public_key(final(sk)@),
{
    let mut seed = [0u8; 32];
    randombytes(&mut seed);
    box_keypair_seed(pk, sk, &seed);
}

/// Computes the key `k` shared by the holder of `sk` and the holder of the secret key behind
/// `pk`; it can be reused for every message between them.
pub fn box_beforenm(k: &mut [u8; 32], pk: &BoxPublicKey, sk: &BoxSecretKey)
    ensures
        final(k)@ == box_shared_key(pk@, sk@),
{
    let mut s = [0u8; 32];
    scalarmult(&mut s, sk, pk);
    core_hsalsa20(k, &C_0, &s, &SIGMA)
}

/// Encrypts and authenticates `m` (its first 32 bytes zero) with nonce `n` and a key `k`
/// from `box_beforenm`; the cipher text goes to `c`.
pub fn box_afternm(c: &mut [u8], m: &[u8], n: &[u8; 24], k: &[u8; 32]) -> (res: Result<(), ()>)
    requires
        old(c)@.len() == m@.len(),
        m@.len() >= 32,
        forall|i: int| 0 <= i < 32 ==> m@[i] == 0,
    ensures
        res is Ok,
        secretbox_sealed(final(c)@, m@, n@, k@),
{
    secretbox(c, m, n, k)
}

/// Verifies and decrypts `c` with nonce `n` and a key `k` from `box_beforenm`; the message,
/// after 32 zero bytes, goes to `m`, which is left as it was when verification fails.
pub fn box_open_afternm(m: &mut [u8], c: &[u8], n: &[u8; 24], k: &[u8; 32]) -> (res: Result<(), ()>)
    requires
        old(m)@.len() == c@.len(),
    ensures
        res is Ok <==> secretbox_authentic(c@, n@, k@),
        res is Ok ==> secretbox_opened(final(m)@, c@, n@, k@),
        res is Err ==> final(m)@ == old(m)@,
{
    secretbox_open(m, c, n, k)
}

/// Encrypts and authenticates `m` (its first 32 bytes zero) from the holder of `sk` to the
/// holder of the secret key behind `pk`, with nonce `n`; the cipher text goes to `c`.
pub fn box_(c: &mut [u8], m: &[u8], n: &BoxNonce, pk: &BoxPublicKey, sk: &BoxSecretKey) -> (res:
    Result<(), ()>)
    requires
        old(c)@.len() == m@.len(),
        m@.len() >= 32,
        forall|i: int| 0 <= i < 32 ==> m@[i] == 0,
    ensures
        res is Ok,
        secretbox_sealed(final(c)@, m@, n@, box_shared_key(pk@, sk@)),
{
    let mut k = [0u8; 32];
    box_beforenm(&mut k, pk, sk);
    box_afternm(c, m, n, &k)
}

/// Verifies and decrypts `c` (its first 16 bytes zero), sent by the holder of the secret key
/// behind `pk` to the holder of `sk`, with nonce `n`; the message, after 32 zero bytes, goes
/// to `m`, which is left as it was when verification fails.
pub fn box_open(m: &mut [u8], c: &[u8], n: &BoxNonce, pk: &BoxPublicKey, sk: &BoxSecretKey) -> (res:
    Result<(), ()>)
    requires
        old(m)@.len() == c@.len(),
        c@.len() >= 16,
        forall|i: int| 0 <= i < 16 ==> c@[i] == 0,
    ensures
        res is Ok <==> secretbox_authentic(c@, n@, box_shared_key(pk@, sk@)),
        res is Ok ==> secretbox_opened(final(m)@, c@, n@, box_shared_key(pk@, sk@)),
        res is Err ==> final(m)@ == old(m)@,
{
    let mut k = [0u8; 32];
    box_beforenm(&mut k, pk, sk);
    box_open_afternm(m, c, n, &k)
}

} // verus!
