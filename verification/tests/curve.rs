use tweetnacl::x25519::{scalarmult, scalarmult_base};
use tweetnacl::boxes::{box_, box_afternm, box_beforenm, box_keypair, box_keypair_seed, box_open,
    box_open_afternm};

fn unhex(s: &str) -> Vec<u8> {
    (0..s.len()).step_by(2).map(|i| u8::from_str_radix(&s[i..i + 2], 16).unwrap()).collect()
}

fn arr32(v: &[u8]) -> [u8; 32] {
    let mut a = [0u8; 32];
    a.copy_from_slice(v);
    a
}

fn alice_sk() -> [u8; 32] {
    arr32(&unhex("77076d0a7318a57d3c16c17251b26645df4c2f87ebc0992ab177fba51db92c2a"))
}

fn alice_pk() -> [u8; 32] {
    arr32(&unhex("8520f0098930a754748b7ddcb43ef75a0dbf3a0d26381af4eba4a98eaa9b4e6a"))
}

fn bob_sk() -> [u8; 32] {
    arr32(&unhex("5dab087e624a8a4b79e17f8b83800ee66f3bb1292618b6fd1c2f8b27ff88e0eb"))
}

fn bob_pk() -> [u8; 32] {
    arr32(&unhex("de9edb7d7b7dc1b4d35b61c2ece435373f8343c85b78674dadfc7e146f882b4f"))
}

fn box_nonce() -> [u8; 24] {
    let mut n = [0u8; 24];
    n.copy_from_slice(&unhex("69696ee955b62b73cd62bda875fc73d68219e0036b7a0b37"));
    n
}

#[test]
fn scalarmult_known_vector() {
    let n = arr32(&unhex("a546e36bf0527c9d3b16154b82465edd62144c0ac1fc5a18506a2244ba449ac4"));
    let p = arr32(&unhex("e6db6867583030db3594c1a424b15f7c726624ec26b3353b10a903a6d0ab1c4c"));
    let mut q = [0u8; 32];
    scalarmult(&mut q, &n, &p);
    assert_eq!(q.to_vec(), unhex("c3da55379de9c6908e94ea4df28d084f32eccf03491c71f754b4075577a28552"));
}

#[test]
fn scalarmult_base_gives_public_keys() {
    let mut q = [0u8; 32];
    scalarmult_base(&mut q, &alice_sk());
    assert_eq!(q, alice_pk());
    scalarmult_base(&mut q, &bob_sk());
    assert_eq!(q, bob_pk());
}

#[test]
fn scalarmult_shared_secret_agrees() {
    let mut a = [0u8; 32];
    let mut b = [0u8; 32];
    scalarmult(&mut a, &alice_sk(), &bob_pk());
    scalarmult(&mut b, &bob_sk(), &alice_pk());
    assert_eq!(a, b);
    assert_eq!(a.to_vec(), unhex("4a5d9d5ba4ce2de1728e3bf480350f25e07e21c947d19e3376f09b3c1e161742"));
}

#[test]
fn box_beforenm_known_key() {
    let mut k = [0u8; 32];
    box_beforenm(&mut k, &bob_pk(), &alice_sk());
    assert_eq!(k.to_vec(), unhex("1b27556473e985d462cd51197a9a46c76009549eac6474f206c4ee0844f68389"));
    let mut k2 = [0u8; 32];
    box_beforenm(&mut k2, &alice_pk(), &bob_sk());
    assert_eq!(k, k2);
}

#[test]
fn box_keypair_seed_is_seed_and_base_product() {
    let mut pk = [0u8; 32];
    let mut sk = [0u8; 32];
    box_keypair_seed(&mut pk, &mut sk, &alice_sk());
    assert_eq!(sk, alice_sk());
    assert_eq!(pk, alice_pk());
}

#[test]
fn box_keypair_draws_fresh_keys() {
    let mut pk = [0u8; 32];
    let mut sk = [0u8; 32];
    box_keypair(&mut pk, &mut sk);
    let mut expect = [0u8; 32];
    scalarmult_base(&mut expect, &sk);
    assert_eq!(pk, expect);
    let mut pk2 = [0u8; 32];
    let mut sk2 = [0u8; 32];
    box_keypair(&mut pk2, &mut sk2);
    assert_ne!(sk, [0u8; 32]);
    assert_ne!(sk, sk2);
}

#[test]
fn box_matches_known_bytes() {
    let mut m = vec![0u8; 32];
    m.extend_from_slice(b"box message from alice to bob");
    let mut c = vec![0u8; m.len()];
    assert_eq!(box_(&mut c, &m, &box_nonce(), &bob_pk(), &alice_sk()), Ok(()));
    assert_eq!(
        c,
        unhex(
            "000000000000000000000000000000000b7df8ab88d6c773786c29d76df4712e52f11c7a198c93d56ce5268cbf6515d83a7a87e4394a7d0463295e3137"
        )
    );
    let mut out = vec![0u8; c.len()];
    assert_eq!(box_open(&mut out, &c, &box_nonce(), &alice_pk(), &bob_sk()), Ok(()));
    assert_eq!(out, m);
}

#[test]
fn box_open_rejects_wrong_sender() {
    let mut m = vec![0u8; 32];
    m.extend_from_slice(b"signed by alice's key pair");
    let mut c = vec![0u8; m.len()];
    box_(&mut c, &m, &box_nonce(), &bob_pk(), &alice_sk()).unwrap();
    let mut out = vec![5u8; c.len()];
    assert_eq!(box_open(&mut out, &c, &box_nonce(), &bob_pk(), &bob_sk()), Err(()));
    assert_eq!(out, vec![5u8; c.len()]);
}

#[test]
fn box_afternm_round_trip() {
    let mut k = [0u8; 32];
    box_beforenm(&mut k, &bob_pk(), &alice_sk());
    let mut m = vec![0u8; 32];
    m.extend_from_slice(&[1, 2, 3, 4, 5, 6, 7, 8, 9, 10]);
    let mut c = vec![0u8; m.len()];
    assert_eq!(box_afternm(&mut c, &m, &box_nonce(), &k), Ok(()));
    let mut out = vec![0u8; c.len()];
    assert_eq!(box_open_afternm(&mut out, &c, &box_nonce(), &k), Ok(()));
    assert_eq!(out, m);
    c[20] ^= 4;
    let mut out2 = vec![7u8; c.len()];
    assert_eq!(box_open_afternm(&mut out2, &c, &box_nonce(), &k), Err(()));
    assert_eq!(out2, vec![7u8; c.len()]);
}
