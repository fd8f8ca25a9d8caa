use vardel::{decode_u32, delta_encode_u32_slice, encode_u16, encode_u32, Error};

#[test]
fn test_encode_fail() {
    let mut out: [u8; 1] = [0; 1];
    assert!(matches!(encode_u32(46, &mut out), Ok(1)));
    assert!(matches!(encode_u32(150, &mut out), Err(Error::BufferTooSmall)));
}

#[test]
fn test_encode_u16() {
    let mut out: [u8; 16] = [0; 16];

    for i in 0_u16..=127_u16 {
        assert!(matches!(encode_u16(i, &mut out[..]), Ok(1)));
        assert_eq!(&[i as u8], &out[0..1]);
    }

    for i in 128_u16..=16383_u16 {
        assert!(matches!(encode_u16(i, &mut out[..]), Ok(2)));
    }

    for i in 16384_u16..=65535_u16 {
        assert!(matches!(encode_u16(i, &mut out[..]), Ok(3)));
    }
}

#[test]
fn test_encode_u32() {
    let mut out: [u8; 16] = [0; 16];

    for i in 0_u32..=127_u32 {
        assert!(matches!(encode_u32(i, &mut out[..]), Ok(1)));
        assert_eq!(&[i as u8], &out[0..1]);
    }

    assert!(matches!(encode_u32(150, &mut out[..]), Ok(2)));
    assert_eq!(&[0x96, 0x01], &out[0..2]);

    assert!(matches!(encode_u32(300, &mut out[..]), Ok(2)));
    assert_eq!(&[0xac, 0x02], &out[0..2]);
}

#[test]
fn test_decode_u32() {
    let bytes = &[0x96, 0x01];
    if let Ok((x, rest)) = decode_u32(&bytes[..]) {
        assert_eq!(x, 150);
        assert!(rest.is_empty());
    }

    let bytes = &[0x96, 0x01, 0x97, 0x01];
    if let Ok((x, rest)) = decode_u32(&bytes[..]) {
        assert_eq!(x, 150);
        assert!(!rest.is_empty());
        if let Ok((x, rest)) = decode_u32(&rest[..]) {
            assert_eq!(x, 151);
            assert!(rest.is_empty());
        }
    }
}

#[test]
fn test_delta_encode_u32_slice() {
    let mut w: Vec<u8> = Vec::new();
    let r = delta_encode_u32_slice(&[], &mut w);
    assert!(r.is_ok());
    assert_eq!(0, r.unwrap());
    assert!(w.is_empty());

    let mut w: Vec<u8> = Vec::new();
    let r = delta_encode_u32_slice(&[1, 2, 3], &mut w);
    assert!(r.is_ok());
    assert_eq!(3, r.unwrap());
    assert_eq!(vec![1, 1, 1], w);

    let mut w: Vec<u8> = Vec::new();
    let r = delta_encode_u32_slice(&[5, 10, 160], &mut w);
    assert!(r.is_ok());
    assert_eq!(4, r.unwrap());
    assert_eq!(vec![5, 5, 0x96, 0x01], w);
}
