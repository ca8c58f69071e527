use tweetnacl::sha512::hash;

fn unhex(s: &str) -> Vec<u8> {
    (0..s.len()).step_by(2).map(|i| u8::from_str_radix(&s[i..i + 2], 16).unwrap()).collect()
}

fn digest(m: &[u8]) -> Vec<u8> {
    let mut out = [0u8; 64];
    hash(&mut out, m);
    out.to_vec()
}

fn counting(len: usize) -> Vec<u8> {
    (0..len).map(|i| (i % 251) as u8).collect()
}

#[test]
fn hash_abc() {
    assert_eq!(
        digest(b"abc"),
        unhex("ddaf35a193617abacc417349ae20413112e6fa4e89a97ea20a9eeee64b55d39a2192992a274fc1a836ba3c23a3feebbd454d4423643ce80e2a9ac94fa54ca49f")
    );
}

#[test]
fn hash_empty() {
    assert_eq!(
        digest(b""),
        unhex("cf83e1357eefb8bdf1542850d66d8007d620e4050b5715dc83f4a921d36ce9ce47d0d13c5d85f2b0ff8318d2877eec2f63b931bd47417a81a538327af927da3e")
    );
}

#[test]
fn hash_two_block_message() {
    let m = b"abcdefghbcdefghicdefghijdefghijkefghijklfghijklmghijklmnhijklmnoijklmnopjklmnopqklmnopqrlmnopqrsmnopqrstnopqrstu";
    assert_eq!(
        digest(m),
        unhex("8e959b75dae313da8cf4f72814fc143f8f7779c6eb9f7fa17299aeadb6889018501d289e4900f7e4331b99dec4b5433ac7d329eeb6dd26545e96e55b874be909")
    );
}

#[test]
fn hash_padding_boundaries() {
    let cases = [
        (111, "a1a111449b198d9b1f538bad7f3fc1022b3a5b1a5e90a0bc860de8512746cbc31599e6c834de3a3235327af0b51ff57bf7acf1974a73014d9c3953812edc7c8d"),
        (112, "c5fbd731d19d2ae1180f001be72c2c1aaba1d7b094b3748880e24593b8e117a750e11c1bd867cc2f96dace8c8b74abd2d5c4f236be444e77d30d1916174070b9"),
        (127, "eab89674feaa34e27aebeeff3c0a4d70070bb872d5e9f186cf1dbbdee517b6e35724d629ff025a5b07185e911ada7e3c8acf830aa0e4f71777bd2d44f504f7f0"),
        (128, "1dffd5e3adb71d45d2245939665521ae001a317a03720a45732ba1900ca3b8351fc5c9b4ca513eba6f80bc7b1d1fdad4abd13491cb824d61b08d8c0e1561b3f7"),
        (129, "1d9da57fbbdab09afb3506ab2d223d06109d65c1c8ad197f50138f714bc4c3f2fe5787922639c680acad1c651f955990425954ce2cba0c5cc83f2667d878eb0f"),
        (239, "cb4c7fd522756d5781ad3a4f590a1d862906b960e7720136cb3fb36b563caa1ea5689134291fa79c80ccc2b4092b41df32ebdcb36dbe79db483440228c1622a8"),
        (240, "6c48466c9f6c07e4ab762c696b7eeb35cfe236fca73683e5fab873ac3489b4d2eb3d7afcce7e8165dbbf37aded3b5b0c889c0b7e0f1790a8330d8677429d91a5"),
    ];
    for (len, expect) in cases.iter() {
        assert_eq!(digest(&counting(*len)), unhex(expect));
    }
}

#[test]
fn hash_thousand_bytes() {
    assert_eq!(
        digest(&vec![b'a'; 1000]),
        unhex("67ba5535a46e3f86dbfbed8cbbaf0125c76ed549ff8b0b9e03e0c88cf90fa634fa7b12b47d77b694de488ace8d9a65967dc96df599727d3292a8d9d447709c97")
    );
}

#[test]
fn crate_root_exposes_the_flat_interface() {
    let mut out = [0u8; tweetnacl::HASH_LEN];
    tweetnacl::hash(&mut out, b"abc");
    assert_eq!(out.to_vec(), digest(b"abc"));
    let mut q: tweetnacl::BoxPublicKey = [0u8; tweetnacl::BOX_PUBLIC_KEY_LEN];
    tweetnacl::scalarmult_base(&mut q, &[1u8; 32]);
    let mut k = [0u8; 32];
    tweetnacl::x25519::scalarmult_base(&mut k, &[1u8; 32]);
    assert_eq!(q, k);
}
