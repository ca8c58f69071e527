use tweetnacl::secretbox::{secretbox, secretbox_open};

fn unhex(s: &str) -> Vec<u8> {
    (0..s.len()).step_by(2).map(|i| u8::from_str_radix(&s[i..i + 2], 16).unwrap()).collect()
}

fn key() -> [u8; 32] {
    let mut k = [0u8; 32];
    for i in 0..32 {
        k[i] = i as u8;
    }
    k
}

fn nonce() -> [u8; 24] {
    let mut n = [0u8; 24];
    for i in 0..24 {
        n[i] = 100 + i as u8;
    }
    n
}

fn padded(text: &[u8]) -> Vec<u8> {
    let mut m = vec![0u8; 32];
    m.extend_from_slice(text);
    m
}

#[test]
fn secretbox_matches_known_bytes() {
    let m = padded(b"hello, secretbox world; a message spanning two blocks!!");
    let mut c = vec![0u8; m.len()];
    assert_eq!(secretbox(&mut c, &m, &nonce(), &key()), Ok(()));
    assert_eq!(
        c,
        unhex(
            "000000000000000000000000000000005c2e24227c7a30168ca29175dc192ba26adcf5a5559aee9ad59e51f143e6cc601edd57d588c2703bc72c2ff179f8a8efcd4f87682e59f58d9b713716777cfd07adffcd7361a718"
        )
    );
}

#[test]
fn secretbox_open_recovers_message() {
    let m = padded(b"round trip through seal and open");
    let mut c = vec![0u8; m.len()];
    secretbox(&mut c, &m, &nonce(), &key()).unwrap();
    let mut out = vec![0xaau8; c.len()];
    assert_eq!(secretbox_open(&mut out, &c, &nonce(), &key()), Ok(()));
    assert_eq!(out, m);
}

#[test]
fn secretbox_of_empty_text() {
    let m = vec![0u8; 32];
    let mut c = vec![1u8; 32];
    secretbox(&mut c, &m, &nonce(), &key()).unwrap();
    assert_eq!(c[..16].to_vec(), vec![0u8; 16]);
    let mut out = vec![9u8; 32];
    assert_eq!(secretbox_open(&mut out, &c, &nonce(), &key()), Ok(()));
    assert_eq!(out, m);
}

#[test]
fn secretbox_open_rejects_tampered_text() {
    let m = padded(b"do not change me");
    let mut c = vec![0u8; m.len()];
    secretbox(&mut c, &m, &nonce(), &key()).unwrap();
    let last = c.len() - 1;
    c[last] ^= 0x80;
    let mut out = vec![0x42u8; c.len()];
    assert_eq!(secretbox_open(&mut out, &c, &nonce(), &key()), Err(()));
    assert_eq!(out, vec![0x42u8; c.len()]);
}

#[test]
fn secretbox_open_rejects_other_key() {
    let m = padded(b"for one key only");
    let mut c = vec![0u8; m.len()];
    secretbox(&mut c, &m, &nonce(), &key()).unwrap();
    let mut k2 = key();
    k2[0] ^= 1;
    let mut out = vec![0u8; c.len()];
    assert_eq!(secretbox_open(&mut out, &c, &nonce(), &k2), Err(()));
}

#[test]
fn secretbox_open_rejects_short_text() {
    let c = vec![0u8; 31];
    let mut out = vec![3u8; 31];
    assert_eq!(secretbox_open(&mut out, &c, &nonce(), &key()), Err(()));
    assert_eq!(out, vec![3u8; 31]);
}
