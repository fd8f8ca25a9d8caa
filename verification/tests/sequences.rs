use vardel::{
    contains_u128, contains_u16, contains_u32, contains_u64, decode_u128_slice, decode_u16_slice,
    decode_u32_slice, decode_u64_slice, delta_decode_u128_slice, delta_decode_u16_slice,
    delta_decode_u32_slice, delta_decode_u64_slice, delta_encode_u128_slice,
    delta_encode_u16_slice, delta_encode_u64_slice, encode_u128_slice, encode_u16_slice,
    encode_u32_slice, encode_u64_slice, Error,
};

/// A fixed sequence of well-mixed 64-bit numbers.
fn scrambled(count: usize) -> Vec<u64> {
    let mut state: u64 = 0x2545_f491_4f6c_dd1d;
    let mut out = Vec::new();
    for _ in 0..count {
        state ^= state >> 12;
        state ^= state << 25;
        state ^= state >> 27;
        out.push(state.wrapping_mul(0x2545_f491_4f6c_dd1d));
    }
    out
}

#[test]
fn bulk_literal_bytes() {
    let mut w: Vec<u8> = Vec::new();
    assert_eq!(encode_u32_slice(&[150, 300, 0, 46], &mut w).unwrap(), 6);
    assert_eq!(w, vec![0x96, 0x01, 0xac, 0x02, 0x00, 0x2e]);
    assert_eq!(decode_u32_slice(&w).unwrap(), vec![150, 300, 0, 46]);
    assert_eq!(decode_u16_slice(&w).unwrap(), vec![150, 300, 0, 46]);
    assert_eq!(decode_u64_slice(&w).unwrap(), vec![150, 300, 0, 46]);
    assert_eq!(decode_u128_slice(&w).unwrap(), vec![150, 300, 0, 46]);
}

#[test]
fn bulk_of_nothing() {
    let mut w: Vec<u8> = Vec::new();
    assert_eq!(encode_u16_slice(&[], &mut w).unwrap(), 0);
    assert_eq!(encode_u32_slice(&[], &mut w).unwrap(), 0);
    assert_eq!(encode_u64_slice(&[], &mut w).unwrap(), 0);
    assert_eq!(encode_u128_slice(&[], &mut w).unwrap(), 0);
    assert!(w.is_empty());
    assert_eq!(decode_u16_slice(&[]).unwrap(), Vec::<u16>::new());
    assert_eq!(decode_u32_slice(&[]).unwrap(), Vec::<u32>::new());
    assert_eq!(decode_u64_slice(&[]).unwrap(), Vec::<u64>::new());
    assert_eq!(decode_u128_slice(&[]).unwrap(), Vec::<u128>::new());
}

#[test]
fn bulk_appends_to_what_is_there() {
    let mut w: Vec<u8> = vec![0xaa, 0xbb];
    assert_eq!(encode_u64_slice(&[1, 128], &mut w).unwrap(), 3);
    assert_eq!(w, vec![0xaa, 0xbb, 0x01, 0x80, 0x01]);
    assert_eq!(encode_u16_slice(&[u16::MAX], &mut w).unwrap(), 3);
    assert_eq!(w, vec![0xaa, 0xbb, 0x01, 0x80, 0x01, 0xff, 0xff, 0x03]);
}

#[test]
fn bulk_comes_back_u16() {
    let xs: Vec<u16> = scrambled(3000).iter().map(|v| (v >> (v % 17)) as u16).collect();
    let mut w: Vec<u8> = Vec::new();
    let n = encode_u16_slice(&xs, &mut w).unwrap();
    assert_eq!(n, w.len());
    assert_eq!(decode_u16_slice(&w).unwrap(), xs);
}

#[test]
fn bulk_comes_back_u32() {
    let xs: Vec<u32> = scrambled(3000).iter().map(|v| (v >> (v % 33)) as u32).collect();
    let mut w: Vec<u8> = Vec::new();
    let n = encode_u32_slice(&xs, &mut w).unwrap();
    assert_eq!(n, w.len());
    assert_eq!(decode_u32_slice(&w).unwrap(), xs);
}

#[test]
fn bulk_comes_back_u64() {
    let xs: Vec<u64> = scrambled(3000).iter().map(|v| v >> (v % 64)).collect();
    let mut w: Vec<u8> = Vec::new();
    let n = encode_u64_slice(&xs, &mut w).unwrap();
    assert_eq!(n, w.len());
    assert_eq!(decode_u64_slice(&w).unwrap(), xs);
}

#[test]
fn bulk_comes_back_u128() {
    let halves = scrambled(3000);
    let xs: Vec<u128> = halves
        .chunks(2)
        .map(|p| (((p[0] as u128) << 64) | p[1] as u128) >> (p[0] % 128))
        .collect();
    let mut w: Vec<u8> = Vec::new();
    let n = encode_u128_slice(&xs, &mut w).unwrap();
    assert_eq!(n, w.len());
    assert_eq!(decode_u128_slice(&w).unwrap(), xs);
}

#[test]
fn bulk_with_the_largest_values() {
    let mut w: Vec<u8> = Vec::new();
    assert_eq!(encode_u128_slice(&[u128::MAX, 0, u128::MAX], &mut w).unwrap(), 39);
    assert_eq!(decode_u128_slice(&w).unwrap(), vec![u128::MAX, 0, u128::MAX]);
    let mut w: Vec<u8> = Vec::new();
    assert_eq!(encode_u64_slice(&[u64::MAX, u64::MAX], &mut w).unwrap(), 20);
    assert_eq!(decode_u64_slice(&w).unwrap(), vec![u64::MAX, u64::MAX]);
}

#[test]
fn bulk_decode_is_all_or_nothing() {
    assert!(matches!(decode_u32_slice(&[0x01, 0x02, 0x80]), Err(Error::InvalidVarInt)));
    assert!(matches!(decode_u16_slice(&[0x80]), Err(Error::InvalidVarInt)));
    assert!(matches!(decode_u64_slice(&[0x96, 0x01, 0x96]), Err(Error::InvalidVarInt)));
    assert!(matches!(decode_u128_slice(&[0x00, 0xff, 0xff]), Err(Error::InvalidVarInt)));
    assert_eq!(decode_u32_slice(&[0x01, 0x02, 0x80, 0x00]).unwrap(), vec![1, 2, 0]);
}

#[test]
fn delta_literal_bytes() {
    let mut w: Vec<u8> = Vec::new();
    assert_eq!(delta_encode_u16_slice(&[5, 10, 160], &mut w).unwrap(), 4);
    assert_eq!(w, vec![5, 5, 0x96, 0x01]);
    let mut w: Vec<u8> = Vec::new();
    assert_eq!(delta_encode_u64_slice(&[1, 2, 3], &mut w).unwrap(), 3);
    assert_eq!(w, vec![1, 1, 1]);
    let mut w: Vec<u8> = Vec::new();
    assert_eq!(delta_encode_u128_slice(&[4, 8, 15, 16, 23, 42], &mut w).unwrap(), 6);
    assert_eq!(w, vec![4, 4, 7, 1, 7, 19]);
    let mut w: Vec<u8> = Vec::new();
    assert_eq!(delta_encode_u64_slice(&[7, 7, 7, 1000], &mut w).unwrap(), 5);
    assert_eq!(w, vec![7, 0, 0, 0xe1, 0x07]);
}

#[test]
fn delta_literal_values() {
    assert_eq!(delta_decode_u32_slice(&[5, 5, 0x96, 0x01]).unwrap(), vec![5, 10, 160]);
    assert_eq!(delta_decode_u16_slice(&[1, 1, 1]).unwrap(), vec![1, 2, 3]);
    assert_eq!(delta_decode_u64_slice(&[4, 4, 7, 1, 7, 19]).unwrap(), vec![4, 8, 15, 16, 23, 42]);
    assert_eq!(delta_decode_u128_slice(&[0, 0, 0x80, 0x01]).unwrap(), vec![0, 0, 128]);
}

#[test]
fn delta_of_nothing() {
    let mut w: Vec<u8> = vec![9];
    assert_eq!(delta_encode_u16_slice(&[], &mut w).unwrap(), 0);
    assert_eq!(delta_encode_u64_slice(&[], &mut w).unwrap(), 0);
    assert_eq!(delta_encode_u128_slice(&[], &mut w).unwrap(), 0);
    assert_eq!(w, vec![9]);
    assert_eq!(delta_decode_u16_slice(&[]).unwrap(), Vec::<u16>::new());
    assert_eq!(delta_decode_u32_slice(&[]).unwrap(), Vec::<u32>::new());
    assert_eq!(delta_decode_u64_slice(&[]).unwrap(), Vec::<u64>::new());
    assert_eq!(delta_decode_u128_slice(&[]).unwrap(), Vec::<u128>::new());
}

#[test]
fn delta_comes_back_u16() {
    let mut xs: Vec<u16> = scrambled(3000).iter().map(|v| *v as u16).collect();
    xs.sort_unstable();
    let mut w: Vec<u8> = Vec::new();
    let n = delta_encode_u16_slice(&xs, &mut w).unwrap();
    assert_eq!(n, w.len());
    assert_eq!(delta_decode_u16_slice(&w).unwrap(), xs);
}

#[test]
fn delta_comes_back_u32() {
    let mut xs: Vec<u32> = scrambled(3000).iter().map(|v| *v as u32).collect();
    xs.sort_unstable();
    let mut w: Vec<u8> = Vec::new();
    let n = vardel::delta_encode_u32_slice(&xs, &mut w).unwrap();
    assert_eq!(n, w.len());
    assert_eq!(delta_decode_u32_slice(&w).unwrap(), xs);
}

#[test]
fn delta_comes_back_u64() {
    let mut xs: Vec<u64> = scrambled(3000);
    xs.sort_unstable();
    let mut w: Vec<u8> = Vec::new();
    let n = delta_encode_u64_slice(&xs, &mut w).unwrap();
    assert_eq!(n, w.len());
    assert_eq!(delta_decode_u64_slice(&w).unwrap(), xs);
}

#[test]
fn delta_comes_back_u128() {
    let halves = scrambled(3000);
    let mut xs: Vec<u128> = halves.chunks(2).map(|p| ((p[0] as u128) << 64) | p[1] as u128).collect();
    xs.sort_unstable();
    xs.push(u128::MAX);
    let mut w: Vec<u8> = Vec::new();
    let n = delta_encode_u128_slice(&xs, &mut w).unwrap();
    assert_eq!(n, w.len());
    assert_eq!(delta_decode_u128_slice(&w).unwrap(), xs);
}

#[test]
fn delta_is_shorter_where_neighbours_are_close() {
    let xs: Vec<u64> = (0..1000_u64).map(|i| 1_000_000_000_000 + 3 * i).collect();
    let mut plain: Vec<u8> = Vec::new();
    let mut delta: Vec<u8> = Vec::new();
    assert_eq!(encode_u64_slice(&xs, &mut plain).unwrap(), 6000);
    assert_eq!(delta_encode_u64_slice(&xs, &mut delta).unwrap(), 6 + 999);
}

#[test]
fn delta_out_of_order_wraps_and_comes_back() {
    let xs: Vec<u16> = vec![10, 3, 65535, 0, 7];
    let mut w: Vec<u8> = Vec::new();
    assert_eq!(delta_encode_u16_slice(&xs, &mut w).unwrap(), 9);
    // 10, 3 - 10 = 65529, 65535 - 3 = 65532, 0 - 65535 = 1, 7 - 0 = 7
    assert_eq!(w, vec![10, 0xf9, 0xff, 0x03, 0xfc, 0xff, 0x03, 0x01, 0x07]);
    assert_eq!(decode_u16_slice(&w).unwrap(), vec![10, 65529, 65532, 1, 7]);
    assert_eq!(delta_decode_u16_slice(&w).unwrap(), xs);

    let ys: Vec<u128> = vec![u128::MAX, 0, u128::MAX - 1];
    let mut w: Vec<u8> = Vec::new();
    delta_encode_u128_slice(&ys, &mut w).unwrap();
    assert_eq!(decode_u128_slice(&w).unwrap(), vec![u128::MAX, 1, u128::MAX - 1]);
    assert_eq!(delta_decode_u128_slice(&w).unwrap(), ys);
}

#[test]
fn delta_sums_wrap() {
    // 65535, then 2 more
    assert_eq!(delta_decode_u16_slice(&[0xff, 0xff, 0x03, 0x02]).unwrap(), vec![65535, 1]);
    assert_eq!(delta_decode_u32_slice(&[0xff, 0xff, 0x03, 0x02]).unwrap(), vec![65535, 65537]);
    assert_eq!(
        delta_decode_u64_slice(&[0xff, 0xff, 0xff, 0xff, 0xff, 0xff, 0xff, 0xff, 0xff, 0x01, 0x01])
            .unwrap(),
        vec![u64::MAX, 0]
    );
}

#[test]
fn delta_decode_is_all_or_nothing() {
    assert!(matches!(delta_decode_u16_slice(&[0x01, 0x80]), Err(Error::InvalidVarInt)));
    assert!(matches!(delta_decode_u32_slice(&[0x01, 0x02, 0x80]), Err(Error::InvalidVarInt)));
    assert!(matches!(delta_decode_u64_slice(&[0xff]), Err(Error::InvalidVarInt)));
    assert!(matches!(delta_decode_u128_slice(&[0x00, 0x00, 0x81]), Err(Error::InvalidVarInt)));
}

#[test]
fn search_finds_members_only() {
    let members: [u32; 6] = [4, 8, 15, 16, 23, 42];
    let mut w: Vec<u8> = Vec::new();
    vardel::delta_encode_u32_slice(&members, &mut w).unwrap();
    assert!(contains_u32(8, &w));
    assert!(!contains_u32(9, &w));
    for x in 0..=50_u32 {
        assert_eq!(contains_u32(x, &w), members.contains(&x));
        assert_eq!(contains_u16(x as u16, &w), members.contains(&x));
        assert_eq!(contains_u64(x as u64, &w), members.contains(&x));
        assert_eq!(contains_u128(x as u128, &w), members.contains(&x));
    }
    assert!(!contains_u32(u32::MAX, &w));
}

#[test]
fn search_agrees_with_decoding() {
    let mut xs: Vec<u16> = scrambled(400).iter().map(|v| (*v >> 50) as u16).collect();
    xs.sort_unstable();
    let mut w: Vec<u8> = Vec::new();
    delta_encode_u16_slice(&xs, &mut w).unwrap();
    let back = delta_decode_u16_slice(&w).unwrap();
    for x in 0..(1_u16 << 14) {
        assert_eq!(contains_u16(x, &w), back.contains(&x));
    }
}

#[test]
fn search_in_nothing() {
    assert!(!contains_u16(0, &[]));
    assert!(!contains_u32(0, &[]));
    assert!(!contains_u64(0, &[]));
    assert!(!contains_u128(0, &[]));
    assert!(!contains_u32(5, &[]));
}

#[test]
fn search_for_zero() {
    assert!(contains_u32(0, &[0x00]));
    assert!(!contains_u32(0, &[0x01]));
    assert!(contains_u64(0, &[0x00, 0x05]));
    assert!(contains_u16(0, &[0xff, 0xff, 0x03, 0x01]));
    assert!(!contains_u32(0, &[0xff, 0xff, 0x03, 0x01]));
}

#[test]
fn search_stops_where_the_bytes_go_bad() {
    // 4, 8, then an integer that does not end
    assert!(contains_u32(4, &[4, 4, 0x87]));
    assert!(contains_u32(8, &[4, 4, 0x87]));
    assert!(!contains_u32(15, &[4, 4, 0x87]));
    assert!(!contains_u64(7, &[0x87]));
    assert!(!contains_u16(0, &[0x80]));
    assert!(!contains_u128(1, &[0x81, 0x80]));
}
