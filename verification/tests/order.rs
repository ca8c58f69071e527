use tweetnacl::scalar::reduce;

fn unhex(s: &str) -> Vec<u8> {
    (0..s.len()).step_by(2).map(|i| u8::from_str_radix(&s[i..i + 2], 16).unwrap()).collect()
}

fn arr64(v: &[u8]) -> [u8; 64] {
    let mut a = [0u8; 64];
    a.copy_from_slice(v);
    a
}

const ORDER: &str = "edd3f55c1a631258d69cf7a2def9de14000000000000000000000000000000100000000000000000000000000000000000000000000000000000000000000000";

#[test]
fn reduce_group_order_is_zero() {
    let mut r = arr64(&unhex(ORDER));
    reduce(&mut r);
    assert_eq!(r, [0u8; 64]);
}

#[test]
fn reduce_keeps_small_values() {
    let mut r = [0u8; 64];
    r[0] = 7;
    r[20] = 0x99;
    let expect = r;
    reduce(&mut r);
    assert_eq!(r, expect);
}

#[test]
fn reduce_order_plus_five() {
    let mut r = arr64(&unhex(ORDER));
    r[0] += 5;
    reduce(&mut r);
    let mut expect = [0u8; 64];
    expect[0] = 5;
    assert_eq!(r, expect);
}

#[test]
fn reduce_all_ones() {
    let mut r = [0xffu8; 64];
    reduce(&mut r);
    assert_eq!(
        r.to_vec(),
        unhex("000f9c44e31106a447938568a71b0ed065bef517d273ecce3d9a307c1b4199030000000000000000000000000000000000000000000000000000000000000000")
    );
}

#[test]
fn reduce_counting_bytes() {
    let mut r = [0u8; 64];
    for i in 0..64 {
        r[i] = i as u8;
    }
    reduce(&mut r);
    assert_eq!(
        r.to_vec(),
        unhex("7a3c6282f02d37a05023b60d5428e6cc5961d4c31221937adae0b574e4d072050000000000000000000000000000000000000000000000000000000000000000")
    );
}

#[test]
fn reduce_twice_is_reduce_once() {
    let mut r = [0xa5u8; 64];
    reduce(&mut r);
    let once = r;
    reduce(&mut r);
    assert_eq!(r, once);
}
