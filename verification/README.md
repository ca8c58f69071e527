# tweetnacl

Compact cryptographic primitives, written in Verus and proved
against mathematical specifications.

- `bytes`: little-endian and big-endian byte access, constant-time comparison, the value of a
  byte string as a number.
- `salsa`: the Salsa20 and HSalsa20 cores and the Salsa20 stream.
- `poly1305`: Poly1305 one-time authentication, proved to compute the polynomial modulo
  2^130 - 5.
- `secretbox`: the XSalsa20 stream and XSalsa20-Poly1305 authenticated encryption.
- `field`: arithmetic modulo 2^255 - 19 on sixteen 16-bit limbs.
- `x25519`: the Curve25519 Montgomery ladder.
- `boxes`: Curve25519-XSalsa20-Poly1305 public-key authenticated encryption.
- `sha512`: SHA-512.
- `scalar`: reduction modulo the order of the Ed25519 base point.
- `ed25519`: Ed25519 key generation, signing and verification.

Random key generation draws its seed from the `rand` crate's thread-local generator.

The public functions, key and nonce types and their lengths are also re-exported at the crate
root (`tweetnacl::hash`, `tweetnacl::box_`, ...); the `Hash` type is at `tweetnacl::sha512::Hash`.
