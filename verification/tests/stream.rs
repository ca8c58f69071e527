use tweetnacl::salsa::{stream_salsa20, stream_salsa20_xor};
use tweetnacl::secretbox::{stream_xsalsa20, stream_xsalsa20_xor};

fn unhex(s: &str) -> Vec<u8> {
    (0..s.len()).step_by(2).map(|i| u8::from_str_radix(&s[i..i + 2], 16).unwrap()).collect()
}

fn key() -> [u8; 32] {
    let mut k = [0u8; 32];
    for i in 0..32 {
        k[i] = i as u8;
    }
    k
}

#[test]
fn salsa20_stream_matches_known_bytes() {
    let mut out = vec![0u8; 100];
    stream_salsa20(&mut out, &[1, 2, 3, 4, 5, 6, 7, 8], &key());
    assert_eq!(
        out,
        unhex(
            "2d8626a68e241c92749dc7efa74b6ee4b86f375ea5fef57c0d7c5d431c17dc3cdc87684cf21de0336c440a48569906510c3524e9a11077ce75c23321ce4afcdc09aab4c3d031467ab246a5732bce5b2c486243475819666bf9a698f90d3cb64b4b482e5e"
        )
    );
}

#[test]
fn salsa20_stream_counter_carries_past_255() {
    let len = 64 * 257 + 5;
    let mut out = vec![0u8; len];
    stream_salsa20(&mut out, &[1, 2, 3, 4, 5, 6, 7, 8], &key());
    assert_eq!(out[64 * 256 - 3..64 * 256 + 5].to_vec(), unhex("0e990ef8628d9985"));
    assert_eq!(out[len - 5..].to_vec(), unhex("5b015c892e"));
}

#[test]
fn salsa20_stream_of_nothing() {
    let mut out: Vec<u8> = Vec::new();
    stream_salsa20(&mut out, &[0; 8], &key());
    assert!(out.is_empty());
}

#[test]
fn salsa20_stream_is_xor_of_zeros() {
    let n = [9u8; 8];
    let mut a = vec![0u8; 150];
    stream_salsa20(&mut a, &n, &key());
    let zeros = vec![0u8; 150];
    let mut b = vec![0xffu8; 150];
    stream_salsa20_xor(&mut b, Some(&zeros), &n, &key());
    assert_eq!(a, b);
    let mut c = vec![0x55u8; 150];
    stream_salsa20_xor(&mut c, None, &n, &key());
    assert_eq!(a, c);
}

#[test]
fn salsa20_xor_twice_restores_message() {
    let n = [3u8; 8];
    let m: Vec<u8> = (0..200u32).map(|i| (i * 13 % 256) as u8).collect();
    let mut c = vec![0u8; m.len()];
    stream_salsa20_xor(&mut c, Some(&m), &n, &key());
    assert_ne!(c, m);
    let mut d = vec![0u8; m.len()];
    stream_salsa20_xor(&mut d, Some(&c), &n, &key());
    assert_eq!(d, m);
}

#[test]
fn xsalsa20_stream_matches_known_bytes() {
    let mut n = [0u8; 24];
    for i in 0..24 {
        n[i] = 100 + i as u8;
    }
    let mut out = vec![0u8; 70];
    stream_xsalsa20(&mut out, &n, &key());
    assert_eq!(
        out,
        unhex(
            "687dffe12afa5fef7e0feb195d6cd992f49572d6194281e3c87fbb4e2106932c02b999c93ab6cee9b0fd23943784a3183eaa38a7e4a64b1ba60c42940a8bc988a86ff4184f37"
        )
    );
}

#[test]
fn xsalsa20_xor_twice_restores_message() {
    let n = [7u8; 24];
    let m: Vec<u8> = (0..99u32).map(|i| (i * 31 % 256) as u8).collect();
    let mut c = vec![0u8; m.len()];
    stream_xsalsa20_xor(&mut c, &m, &n, &key());
    let mut s = vec![0u8; m.len()];
    stream_xsalsa20(&mut s, &n, &key());
    for i in 0..m.len() {
        assert_eq!(c[i], m[i] ^ s[i]);
    }
    let mut d = vec![0u8; m.len()];
    stream_xsalsa20_xor(&mut d, &c, &n, &key());
    assert_eq!(d, m);
}
