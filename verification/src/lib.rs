//! Verified cryptographic primitives in a compact style: Salsa20/XSalsa20
//! streams, Poly1305 one-time authentication, Curve25519 scalar multiplication, SHA-512,
//! Ed25519 signatures and the `box`/`secretbox` constructions.
#![allow(unused_imports)]

pub mod bytes;
pub mod salsa;
pub mod poly1305;
pub mod secretbox;
pub mod field;
pub mod x25519;
pub mod boxes;
pub mod sha512;
pub mod scalar;
pub mod ed25519;

pub use salsa::{stream_salsa20, stream_salsa20_xor};
pub use poly1305::{onetimeauth, onetimeauth_verify, OnetimeauthHash, OnetimeauthKey,
    ONETIMEAUTH_HASH_LEN, ONETIMEAUTH_KEY_LEN};
pub use secretbox::{secretbox, secretbox_open, stream_xsalsa20, stream_xsalsa20_xor, SecretboxKey,
    SecretboxNonce, StreamXSalsa20Key, StreamXSalsa20Nonce, SECRETBOX_KEY_LEN,
    SECRETBOX_NONCE_LEN, STREAM_XSALSA20_KEY_LEN, STREAM_XSALSA20_NONCE_LEN};
pub use x25519::{scalarmult, scalarmult_base};
pub use boxes::{box_, box_afternm, box_beforenm, box_keypair, box_keypair_seed, box_open,
    box_open_afternm, BoxNonce, BoxPublicKey, BoxSecretKey, BOX_NONCE_LEN, BOX_PUBLIC_KEY_LEN,
    BOX_SECRET_KEY_LEN};
pub use sha512::{hash, HASH_LEN};
pub use scalar::reduce;
pub use ed25519::{sign_attached, sign_attached_open, sign_keypair, sign_keypair_seed, Sign,
    SignPublicKey, SignSecretKey, SIGN_LEN, SIGN_PUBLIC_KEY_LEN, SIGN_SECRET_KEY_LEN};
