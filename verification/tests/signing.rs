use tweetnacl::ed25519::{sign_attached, sign_attached_open, sign_keypair, sign_keypair_seed};

fn unhex(s: &str) -> Vec<u8> {
    (0..s.len()).step_by(2).map(|i| u8::from_str_radix(&s[i..i + 2], 16).unwrap()).collect()
}

fn keys(seed_hex: &str) -> ([u8; 32], [u8; 64]) {
    let mut seed = [0u8; 32];
    seed.copy_from_slice(&unhex(seed_hex));
    let mut pk = [0u8; 32];
    let mut sk = [0u8; 64];
    sign_keypair_seed(&mut pk, &mut sk, &seed);
    (pk, sk)
}

fn sign(m: &[u8], sk: &[u8; 64]) -> Vec<u8> {
    let mut sm = vec![0u8; m.len() + 64];
    sign_attached(&mut sm, m, sk);
    sm
}

const SEED1: &str = "9d61b19deffd5a60ba844af492ec2cc44449c5697b326919703bac031cae7f60";
const SEED2: &str = "4ccd089b28ff96da9db6c346ec114e0f5b8a319f35aba624da8cf6ed4fb8a6fb";

#[test]
fn sign_keypair_seed_known_keys() {
    let (pk, sk) = keys(SEED1);
    assert_eq!(pk.to_vec(), unhex("d75a980182b10ab7d54bfed3c964073a0ee172f3daa62325af021a68f707511a"));
    assert_eq!(sk[..32].to_vec(), unhex(SEED1));
    assert_eq!(sk[32..].to_vec(), pk.to_vec());
}

#[test]
fn sign_attached_known_empty_message() {
    let (_, sk) = keys(SEED1);
    let sm = sign(&[], &sk);
    assert_eq!(
        sm,
        unhex("e5564300c360ac729086e2cc806e828a84877f1eb8e5d974d873e065224901555fb8821590a33bacc61e39701cf9b46bd25bf5f0595bbe24655141438e7a100b")
    );
}

#[test]
fn sign_attached_known_one_byte() {
    let (pk, sk) = keys(SEED2);
    assert_eq!(pk.to_vec(), unhex("3d4017c3e843895a92b70aa74d1b7ebc9c982ccf2ec4968cc0cd55f12af4660c"));
    let sm = sign(&[0x72], &sk);
    let mut expect = unhex("92a009a9f0d4cab8720e820b5f642540a2b27b5416503f8fb3762223ebdb69da085ac1e43e15996e458f3613d0f11d8c387b2eaeb4302aeeb00d291612bb0c00");
    expect.push(0x72);
    assert_eq!(sm, expect);
}

#[test]
fn sign_attached_longer_message() {
    let seed: Vec<u8> = (0..32u8).collect();
    let mut s = [0u8; 32];
    s.copy_from_slice(&seed);
    let mut pk = [0u8; 32];
    let mut sk = [0u8; 64];
    sign_keypair_seed(&mut pk, &mut sk, &s);
    assert_eq!(pk.to_vec(), unhex("03a107bff3ce10be1d70dd18e74bc09967e4d6309ba50d5f1ddc8664125531b8"));
    let m = b"attack at dawn, bring the verified code";
    let sm = sign(m, &sk);
    assert_eq!(
        sm[..64].to_vec(),
        unhex("428ae06f706588170c39d916efa2e09913d72900d43652535b1376eec4be75b9b499347017024ad02851be127245a08704da5ac7bcd9935ed7f06097e799de01")
    );
    assert_eq!(sm[64..].to_vec(), m.to_vec());
}

#[test]
fn sign_attached_open_accepts_signed_message() {
    let (pk, sk) = keys(SEED2);
    let msg = b"a message worth signing";
    let sm = sign(msg, &sk);
    let mut m = vec![0u8; sm.len()];
    assert_eq!(sign_attached_open(&mut m, &sm, &pk), Ok(msg.len()));
    assert_eq!(m[..msg.len()].to_vec(), msg.to_vec());
}

#[test]
fn sign_attached_open_known_signature() {
    let pk_bytes = unhex("d75a980182b10ab7d54bfed3c964073a0ee172f3daa62325af021a68f707511a");
    let mut pk = [0u8; 32];
    pk.copy_from_slice(&pk_bytes);
    let sm = unhex("e5564300c360ac729086e2cc806e828a84877f1eb8e5d974d873e065224901555fb8821590a33bacc61e39701cf9b46bd25bf5f0595bbe24655141438e7a100b");
    let mut m = vec![0u8; 64];
    assert_eq!(sign_attached_open(&mut m, &sm, &pk), Ok(0));
}

#[test]
fn sign_attached_open_rejects_altered_message() {
    let (pk, sk) = keys(SEED1);
    let mut sm = sign(b"pay bob 10", &sk);
    let last = sm.len() - 1;
    sm[last] = b'9';
    let mut m = vec![0x33u8; sm.len()];
    assert_eq!(sign_attached_open(&mut m, &sm, &pk), Err(()));
    assert_eq!(m[..sm.len() - 64].to_vec(), vec![0u8; sm.len() - 64]);
}

#[test]
fn sign_attached_open_rejects_other_key() {
    let (_, sk) = keys(SEED1);
    let (pk2, _) = keys(SEED2);
    let sm = sign(b"from the first key", &sk);
    let mut m = vec![0u8; sm.len()];
    assert_eq!(sign_attached_open(&mut m, &sm, &pk2), Err(()));
}

#[test]
fn sign_attached_open_rejects_short_input() {
    let (pk, _) = keys(SEED1);
    let sm = vec![0u8; 63];
    let mut m = vec![0x11u8; 63];
    assert_eq!(sign_attached_open(&mut m, &sm, &pk), Err(()));
    assert_eq!(m, vec![0x11u8; 63]);
}

#[test]
fn sign_attached_open_rejects_undecodable_key() {
    let (_, sk) = keys(SEED1);
    let sm = sign(b"any message", &sk);
    let mut pk = [0u8; 32];
    pk[0] = 2;
    let mut m = vec![0x22u8; sm.len()];
    assert_eq!(sign_attached_open(&mut m, &sm, &pk), Err(()));
    assert_eq!(m, vec![0x22u8; sm.len()]);
}

#[test]
fn sign_keypair_draws_working_keys() {
    let mut pk = [0u8; 32];
    let mut sk = [0u8; 64];
    sign_keypair(&mut pk, &mut sk);
    assert_eq!(sk[32..].to_vec(), pk.to_vec());
    assert_ne!(sk[..32].to_vec(), vec![0u8; 32]);
    let mut seed = [0u8; 32];
    seed.copy_from_slice(&sk[..32]);
    let mut pk2 = [0u8; 32];
    let mut sk2 = [0u8; 64];
    sign_keypair_seed(&mut pk2, &mut sk2, &seed);
    assert_eq!(pk2, pk);
    let sm = sign(b"fresh", &sk);
    let mut m = vec![0u8; sm.len()];
    assert_eq!(sign_attached_open(&mut m, &sm, &pk), Ok(5));
}
