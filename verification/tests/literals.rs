use neural_network::error::{DecodeError, DecodeErrorKind};
use neural_network::codec::{deserialize_at, Serialized};
use neural_network::literals::{f64_from_bytes, i64_from_bytes, u64_from_bytes, Float32, Float64};
use neural_network::mnist::u32_from_bytes;

#[test]
fn test_deserialize_string() {
    let x = String::from("Hello, World!");
    let serialized = x.serialize_binary();
    assert_eq!(x, String::deserialize_binary(&serialized).unwrap().0);
}

#[test]
fn test_deserialize_u64() {
    let num = rand::random::<u64>();
    assert_eq!(num, u64_from_bytes(&num.to_be_bytes()).unwrap());
}

#[test]
fn test_deserialize_u32() {
    let num = rand::random::<u32>();
    assert_eq!(num, u32_from_bytes(&num.to_be_bytes()).unwrap());
}

#[test]
fn test_deserialize_f64() {
    let num = rand::random::<f64>();
    assert_eq!(num, f64::from_bits(f64_from_bytes(&num.to_be_bytes()).unwrap().bits));
}

#[test]
fn serializer_test_deserialize_f64() {
    let num = rand::random::<f64>();
    let bytes = Float64 { bits: num.to_bits() }.serialize_binary();
    assert_eq!(bytes, num.to_be_bytes().to_vec());
    assert_eq!(num, f64::from_bits(f64_from_bytes(&bytes).unwrap().bits));
}

#[test]
fn test_deserialize_i64() {
    let num = rand::random::<i64>();
    assert_eq!(Ok(num), i64_from_bytes(&num.to_be_bytes()));
    assert_eq!(Ok(-1), i64_from_bytes(&[0xff; 8]));
    assert_eq!(Ok(i64::MIN), i64_from_bytes(&[0x80, 0, 0, 0, 0, 0, 0, 0]));
    assert_eq!(Ok(i64::MAX), i64_from_bytes(&[0x7f, 0xff, 0xff, 0xff, 0xff, 0xff, 0xff, 0xff, 1]));
    let truncated = DecodeError { kind: DecodeErrorKind::Truncated, offset: 0 };
    assert_eq!(i64_from_bytes(&[0xff; 7]), Err(truncated));
    assert_eq!(u64_from_bytes(&[0xff; 7]), Err(truncated));
    assert_eq!(u64_from_bytes(&[]), Err(truncated));
    assert_eq!(f64_from_bytes(&[0; 3]), Err(truncated));
    assert_eq!(u64_from_bytes(&[0, 0, 0, 0, 0, 0, 1, 0, 9]), Ok(256));
}

#[test]
fn unsigned_numbers_are_big_endian() {
    assert_eq!(0xabu8.serialize_binary(), vec![0xab]);
    assert_eq!(0x1234u16.serialize_binary(), vec![0x12, 0x34]);
    assert_eq!(0x1234_5678u32.serialize_binary(), vec![0x12, 0x34, 0x56, 0x78]);
    assert_eq!(
        0x0102_0304_0506_0708u64.serialize_binary(),
        vec![1, 2, 3, 4, 5, 6, 7, 8]
    );
    assert_eq!(258usize.serialize_binary(), vec![0, 0, 0, 0, 0, 0, 1, 2]);
}

#[test]
fn signed_numbers_are_twos_complement() {
    assert_eq!((-1i8).serialize_binary(), vec![0xff]);
    assert_eq!((-128i8).serialize_binary(), vec![0x80]);
    assert_eq!((-2i16).serialize_binary(), vec![0xff, 0xfe]);
    assert_eq!(i32::MIN.serialize_binary(), vec![0x80, 0, 0, 0]);
    assert_eq!((-1i64).serialize_binary(), vec![0xff; 8]);
    assert_eq!((-3isize).serialize_binary(), vec![0xff, 0xff, 0xff, 0xff, 0xff, 0xff, 0xff, 0xfd]);
    assert_eq!(i64::MIN.serialize_binary(), vec![0x80, 0, 0, 0, 0, 0, 0, 0]);
}

#[test]
fn numbers_match_the_standard_library() {
    for _ in 0..200 {
        let a = rand::random::<u8>();
        let b = rand::random::<u16>();
        let c = rand::random::<u32>();
        let d = rand::random::<u64>();
        let e = rand::random::<usize>();
        let f = rand::random::<i8>();
        let g = rand::random::<i16>();
        let h = rand::random::<i32>();
        let i = rand::random::<i64>();
        let j = rand::random::<isize>();
        assert_eq!(a.serialize_binary(), a.to_be_bytes().to_vec());
        assert_eq!(b.serialize_binary(), b.to_be_bytes().to_vec());
        assert_eq!(c.serialize_binary(), c.to_be_bytes().to_vec());
        assert_eq!(d.serialize_binary(), d.to_be_bytes().to_vec());
        assert_eq!(e.serialize_binary(), (e as u64).to_be_bytes().to_vec());
        assert_eq!(f.serialize_binary(), f.to_be_bytes().to_vec());
        assert_eq!(g.serialize_binary(), g.to_be_bytes().to_vec());
        assert_eq!(h.serialize_binary(), h.to_be_bytes().to_vec());
        assert_eq!(i.serialize_binary(), i.to_be_bytes().to_vec());
        assert_eq!(j.serialize_binary(), (j as i64).to_be_bytes().to_vec());
    }
}

#[test]
fn test_deserialize_usize() {
    let x = rand::random::<usize>();
    let serialized = x.serialize_binary();
    assert_eq!((x, 8), usize::deserialize_binary(&serialized).unwrap());
}

#[test]
fn test_deserialize_u16() {
    let x = rand::random::<u16>();
    let serialized = x.serialize_binary();
    assert_eq!((x, 2), u16::deserialize_binary(&serialized).unwrap());
}

#[test]
fn test_deserialize_u8() {
    let x = rand::random::<u8>();
    let serialized = x.serialize_binary();
    assert_eq!((x, 1), u8::deserialize_binary(&serialized).unwrap());
}

#[test]
fn test_deserialize_isize() {
    let x = rand::random::<isize>();
    let serialized = x.serialize_binary();
    assert_eq!((x, 8), isize::deserialize_binary(&serialized).unwrap());
}

#[test]
fn test_deserialize_i32() {
    let x = rand::random::<i32>();
    let serialized = x.serialize_binary();
    assert_eq!((x, 4), i32::deserialize_binary(&serialized).unwrap());
    assert_eq!((x, 4), i32::deserialize_binary(&x.to_be_bytes()).unwrap());
}

#[test]
fn test_deserialize_i16() {
    let x = rand::random::<i16>();
    let serialized = x.serialize_binary();
    assert_eq!((x, 2), i16::deserialize_binary(&serialized).unwrap());
    assert_eq!((x, 2), i16::deserialize_binary(&x.to_be_bytes()).unwrap());
}

#[test]
fn test_deserialize_i8() {
    let x = rand::random::<i8>();
    let serialized = x.serialize_binary();
    assert_eq!((x, 1), i8::deserialize_binary(&serialized).unwrap());
    for value in i8::MIN..=i8::MAX {
        assert_eq!((value, 1), i8::deserialize_binary(&value.to_be_bytes()).unwrap());
    }
}

#[test]
fn test_deserialize_f32() {
    let x = rand::random::<f32>();
    let value = Float32 { bits: x.to_bits() };
    let serialized = value.serialize_binary();
    assert_eq!(serialized, x.to_be_bytes().to_vec());
    let (back, used) = Float32::deserialize_binary(&serialized).unwrap();
    assert_eq!(used, 4);
    assert_eq!(f32::from_bits(back.bits), x);
}

#[test]
fn a_not_a_number_keeps_its_bits() {
    let bits = 0x7ff8_0000_dead_beefu64;
    let serialized = Float64 { bits }.serialize_binary();
    let (back, used) = Float64::deserialize_binary(&serialized).unwrap();
    assert_eq!(used, 8);
    assert_eq!(back.bits, bits);
    assert!(f64::from_bits(back.bits).is_nan());
}

#[test]
fn every_number_round_trips_at_its_limits() {
    assert_eq!((u8::MAX, 1), u8::deserialize_binary(&u8::MAX.serialize_binary()).unwrap());
    assert_eq!((u16::MAX, 2), u16::deserialize_binary(&u16::MAX.serialize_binary()).unwrap());
    assert_eq!((u32::MAX, 4), u32::deserialize_binary(&u32::MAX.serialize_binary()).unwrap());
    assert_eq!((u64::MAX, 8), u64::deserialize_binary(&u64::MAX.serialize_binary()).unwrap());
    assert_eq!((usize::MAX, 8), usize::deserialize_binary(&usize::MAX.serialize_binary()).unwrap());
    assert_eq!((i8::MIN, 1), i8::deserialize_binary(&i8::MIN.serialize_binary()).unwrap());
    assert_eq!((i16::MIN, 2), i16::deserialize_binary(&i16::MIN.serialize_binary()).unwrap());
    assert_eq!((i32::MIN, 4), i32::deserialize_binary(&i32::MIN.serialize_binary()).unwrap());
    assert_eq!((i64::MIN, 8), i64::deserialize_binary(&i64::MIN.serialize_binary()).unwrap());
    assert_eq!((isize::MIN, 8), isize::deserialize_binary(&isize::MIN.serialize_binary()).unwrap());
    assert_eq!((i8::MAX, 1), i8::deserialize_binary(&i8::MAX.serialize_binary()).unwrap());
    assert_eq!((i16::MAX, 2), i16::deserialize_binary(&i16::MAX.serialize_binary()).unwrap());
    assert_eq!((i32::MAX, 4), i32::deserialize_binary(&i32::MAX.serialize_binary()).unwrap());
    assert_eq!((i64::MAX, 8), i64::deserialize_binary(&i64::MAX.serialize_binary()).unwrap());
    assert_eq!((isize::MAX, 8), isize::deserialize_binary(&isize::MAX.serialize_binary()).unwrap());
}

#[test]
fn a_short_input_is_truncated() {
    let truncated = DecodeError { kind: DecodeErrorKind::Truncated, offset: 0 };
    assert_eq!(u8::deserialize_binary(&[]), Err(truncated));
    assert_eq!(u16::deserialize_binary(&[1]), Err(truncated));
    assert_eq!(u32::deserialize_binary(&[1, 2, 3]), Err(truncated));
    assert_eq!(u64::deserialize_binary(&[1, 2, 3, 4, 5, 6, 7]), Err(truncated));
    assert_eq!(usize::deserialize_binary(&[1, 2, 3, 4, 5, 6, 7]), Err(truncated));
    assert_eq!(i8::deserialize_binary(&[]), Err(truncated));
    assert_eq!(i16::deserialize_binary(&[1]), Err(truncated));
    assert_eq!(i32::deserialize_binary(&[1, 2, 3]), Err(truncated));
    assert_eq!(i64::deserialize_binary(&[1, 2, 3, 4, 5, 6, 7]), Err(truncated));
    assert_eq!(isize::deserialize_binary(&[]), Err(truncated));
    assert_eq!(Float32::deserialize_binary(&[0, 0]), Err(truncated));
    assert_eq!(Float64::deserialize_binary(&[0, 0, 0, 0]), Err(truncated));
}

#[test]
fn a_decoder_ignores_what_follows() {
    assert_eq!(u16::deserialize_binary(&[0x12, 0x34, 0x56]), Ok((0x1234, 2)));
    assert_eq!(i8::deserialize_binary(&[0xfe, 0x01]), Ok((-2, 1)));
    assert_eq!(
        String::deserialize_binary(&[0, 0, 0, 0, 0, 0, 0, 1, b'a', b'b']),
        Ok((String::from("a"), 9))
    );
}

#[test]
fn text_is_its_length_and_its_bytes() {
    assert_eq!(
        String::from("hi").serialize_binary(),
        vec![0, 0, 0, 0, 0, 0, 0, 2, b'h', b'i']
    );
    assert_eq!(String::new().serialize_binary(), vec![0; 8]);
    assert_eq!(String::deserialize_binary(&[0; 8]), Ok((String::new(), 8)));
    let text = String::from("naïve ✓");
    let serialized = text.serialize_binary();
    assert_eq!(serialized.len(), 8 + text.len());
    assert_eq!(&serialized[..8], &(text.len() as u64).to_be_bytes());
    assert_eq!(&serialized[8..], text.as_bytes());
    assert_eq!(String::deserialize_binary(&serialized), Ok((text.clone(), 8 + text.len())));
}

#[test]
fn text_that_is_cut_short_is_truncated() {
    let serialized = String::from("Hello, World!").serialize_binary();
    for cut in 0..8 {
        assert_eq!(
            String::deserialize_binary(&serialized[..cut]),
            Err(DecodeError { kind: DecodeErrorKind::Truncated, offset: 0 })
        );
    }
    for cut in 8..serialized.len() {
        assert_eq!(
            String::deserialize_binary(&serialized[..cut]),
            Err(DecodeError { kind: DecodeErrorKind::Truncated, offset: 8 })
        );
    }
}

#[test]
fn text_that_is_not_utf8_is_invalid() {
    let invalid = DecodeError { kind: DecodeErrorKind::InvalidText, offset: 8 };
    assert_eq!(String::deserialize_binary(&[0, 0, 0, 0, 0, 0, 0, 1, 0xff]), Err(invalid));
    assert_eq!(String::deserialize_binary(&[0, 0, 0, 0, 0, 0, 0, 2, 0xc3, 0x28]), Err(invalid));
    // The first byte of a two-byte character alone.
    assert_eq!(String::deserialize_binary(&[0, 0, 0, 0, 0, 0, 0, 1, 0xc3, 0xa9]), Err(invalid));
    assert_eq!(
        String::deserialize_binary(&[0, 0, 0, 0, 0, 0, 0, 2, 0xc3, 0xa9]),
        Ok((String::from("é"), 10))
    );
}

#[test]
fn a_length_beyond_the_input_is_truncated() {
    let mut data = u64::MAX.to_be_bytes().to_vec();
    data.extend_from_slice(b"abc");
    assert_eq!(
        String::deserialize_binary(&data),
        Err(DecodeError { kind: DecodeErrorKind::Truncated, offset: 8 })
    );
}

#[test]
fn the_names_of_the_scalars() {
    assert_eq!(u8::tag(), "u8");
    assert_eq!(u16::tag(), "u16");
    assert_eq!(u32::tag(), "u32");
    assert_eq!(u64::tag(), "u64");
    assert_eq!(usize::tag(), "usize");
    assert_eq!(i8::tag(), "i8");
    assert_eq!(i16::tag(), "i16");
    assert_eq!(i32::tag(), "i32");
    assert_eq!(i64::tag(), "i64");
    assert_eq!(isize::tag(), "isize");
    assert_eq!(Float32::tag(), "f32");
    assert_eq!(Float64::tag(), "f64");
    assert_eq!(String::tag(), "String");
}

#[test]
fn encoding_twice_gives_the_same_bytes() {
    let text = String::from("the same bytes");
    assert_eq!(text.serialize_binary(), text.serialize_binary());
    let number = rand::random::<i64>();
    assert_eq!(number.serialize_binary(), number.serialize_binary());
}

#[test]
fn two_values_decode_one_after_the_other() {
    let first = String::from("first");
    let second = 0x0a0b_0c0du32;
    let mut data = first.serialize_binary();
    data.extend(second.serialize_binary());
    let (a, used) = String::deserialize_binary(&data).unwrap();
    assert_eq!(a, first);
    assert_eq!(used, 13);
    let (b, more) = u32::deserialize_binary(&data[used..]).unwrap();
    assert_eq!(b, second);
    assert_eq!(used + more, data.len());
}

#[test]
fn values_are_read_at_the_offset_where_the_last_one_ended() {
    let first = String::from("first");
    let second = -5i16;
    let third = Float64 { bits: 2.5f64.to_bits() };
    let mut data = first.serialize_binary();
    data.extend(second.serialize_binary());
    data.extend(third.serialize_binary());
    let (a, offset) = deserialize_at::<String>(&data, 0).unwrap();
    assert_eq!((a, offset), (first, 13));
    let (b, offset) = deserialize_at::<i16>(&data, offset).unwrap();
    assert_eq!((b, offset), (second, 15));
    let (c, offset) = deserialize_at::<Float64>(&data, offset).unwrap();
    assert_eq!((c, offset), (third, 23));
    assert_eq!(offset, data.len());
    // A failure is placed in the whole input.
    assert_eq!(
        deserialize_at::<u8>(&data, offset),
        Err(DecodeError { kind: DecodeErrorKind::Truncated, offset: 23 })
    );
    assert_eq!(
        deserialize_at::<u8>(&data, offset + 1),
        Err(DecodeError { kind: DecodeErrorKind::Truncated, offset: 24 })
    );
    assert_eq!(
        deserialize_at::<String>(&data, 13),
        Err(DecodeError { kind: DecodeErrorKind::Truncated, offset: 21 })
    );
    assert_eq!(
        deserialize_at::<String>(&[9, 0, 0, 0, 0, 0, 0, 0, 1, 0xff], 1),
        Err(DecodeError { kind: DecodeErrorKind::InvalidText, offset: 9 })
    );
}
