use tweetnacl::poly1305::{onetimeauth, onetimeauth_verify};
use tweetnacl::bytes::{verify_16, verify_32};

fn unhex(s: &str) -> Vec<u8> {
    (0..s.len()).step_by(2).map(|i| u8::from_str_radix(&s[i..i + 2], 16).unwrap()).collect()
}

fn arr32(v: &[u8]) -> [u8; 32] {
    let mut a = [0u8; 32];
    a.copy_from_slice(v);
    a
}

fn arr16(v: &[u8]) -> [u8; 16] {
    let mut a = [0u8; 16];
    a.copy_from_slice(v);
    a
}

fn seq_key() -> [u8; 32] {
    let mut k = [0u8; 32];
    for i in 0..32 {
        k[i] = i as u8;
    }
    k
}

#[test]
fn onetimeauth_known_vector() {
    let k = arr32(&unhex("85d6be7857556d337f4452fe42d506a80103808afb0db2fd4abff6af4149f51b"));
    let mut out = [0u8; 16];
    onetimeauth(&mut out, b"Cryptographic Forum Research Group", &k);
    assert_eq!(out.to_vec(), unhex("a8061dc1305136c6c22b8baf0c0127a9"));
}

#[test]
fn onetimeauth_of_empty_message_is_second_key_half() {
    let mut out = [0u8; 16];
    onetimeauth(&mut out, &[], &seq_key());
    assert_eq!(out.to_vec(), unhex("101112131415161718191a1b1c1d1e1f"));
}

#[test]
fn onetimeauth_partial_last_block() {
    let m: Vec<u8> = (0..100u32).map(|i| (i * 7 % 256) as u8).collect();
    let mut out = [0u8; 16];
    onetimeauth(&mut out, &m, &seq_key());
    assert_eq!(out.to_vec(), unhex("6c17082f1eb4a98538a182daf142d627"));
}

#[test]
fn onetimeauth_verify_accepts_own_tag() {
    let m = b"some message to authenticate, of no special length";
    let mut tag = [0u8; 16];
    onetimeauth(&mut tag, m, &seq_key());
    assert_eq!(onetimeauth_verify(&tag, m, &seq_key()), Ok(()));
}

#[test]
fn onetimeauth_verify_rejects_other_tag() {
    let m = b"some message to authenticate, of no special length";
    let mut tag = [0u8; 16];
    onetimeauth(&mut tag, m, &seq_key());
    tag[5] ^= 1;
    assert_eq!(onetimeauth_verify(&tag, m, &seq_key()), Err(()));
    let t2 = arr16(&unhex("a8061dc1305136c6c22b8baf0c0127a9"));
    assert_eq!(onetimeauth_verify(&t2, m, &seq_key()), Err(()));
}

#[test]
fn verify_16_and_32_compare_all_bytes() {
    let a = [7u8; 16];
    let mut b = a;
    assert_eq!(verify_16(&a, &b), 0);
    b[15] = 8;
    assert_ne!(verify_16(&a, &b), 0);
    let c = [1u8; 32];
    let mut d = c;
    assert_eq!(verify_32(&c, &d), 0);
    d[0] = 0;
    assert_ne!(verify_32(&c, &d), 0);
}
