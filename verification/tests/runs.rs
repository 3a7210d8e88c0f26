use ext_value::length::is_power_of_two;
use ext_value::word::{bits_to_byte, byte_to_bits, pack_bits, unpack_bytes};
use ext_value::{Bits, Bytes, Error};

#[test]
fn split_bits() {
    let bits = Bits::from_byte(0b01101111);
    assert_eq!("0b01101111", bits.to_string().as_str());

    let (a, b) = bits.split().unwrap();
    assert_eq!("0b0110", a.to_string().as_str());
    assert_eq!("0b1111", b.to_string().as_str());

    let (c, d) = a.split().unwrap();
    assert_eq!("0b01", c.to_string().as_str());
    assert_eq!("0b10", d.to_string().as_str());

    let (e, f) = c.split().unwrap();
    assert_eq!("0b0", e.to_string().as_str());
    assert_eq!("0b1", f.to_string().as_str());

    assert!(e.split().is_none());
}

#[test]
fn get_bit() {
    assert_eq!(Some(false), Bits::from_bit(false).get_bit());
    assert_eq!(Some(true), Bits::from_bit(true).get_bit());
    assert_eq!(None, Bits::from_bits(vec![false, false]).get_bit());
}

#[test]
fn split_bytes() {
    let bytes = Bytes::from_bytes(vec![0b01101111, 0xff, 0xff, 0xff]);
    assert_eq!("0x6fffffff", bytes.to_string().as_str());

    let (a, b) = bytes.split().unwrap();
    assert_eq!("0x6fff", a.to_string().as_str());
    assert_eq!("0xffff", b.to_string().as_str());

    let (c, d) = a.split().unwrap();
    assert_eq!("0x6f", c.to_string().as_str());
    assert_eq!("0xff", d.to_string().as_str());

    let (e, f) = c.split().unwrap_err();
    assert_eq!("0b0110", e.to_string().as_str());
    assert_eq!("0b1111", f.to_string().as_str());
}

#[test]
fn power_of_two_lengths() {
    assert!(!is_power_of_two(0));
    assert!(is_power_of_two(1));
    assert!(is_power_of_two(2));
    assert!(!is_power_of_two(3));
    assert!(is_power_of_two(4));
    assert!(!is_power_of_two(6));
    assert!(is_power_of_two(1024));
    assert!(!is_power_of_two(1025));
    assert!(is_power_of_two(1 << (usize::BITS - 1)));
    assert!(!is_power_of_two(usize::MAX));
}

#[test]
fn byte_of_eight_bits() {
    let bits = [false, true, true, false, true, true, true, true];
    assert_eq!(0x6f, bits_to_byte(&bits));
    assert_eq!(0x00, bits_to_byte(&[false; 8]));
    assert_eq!(0xff, bits_to_byte(&[true; 8]));
    assert_eq!(
        0x80,
        bits_to_byte(&[true, false, false, false, false, false, false, false])
    );
    assert_eq!(
        0x01,
        bits_to_byte(&[false, false, false, false, false, false, false, true])
    );
}

#[test]
fn eight_bits_of_byte() {
    assert_eq!(
        vec![false, true, true, false, true, true, true, true],
        byte_to_bits(0x6f)
    );
    assert_eq!(vec![false; 8], byte_to_bits(0));
    assert_eq!(vec![true; 8], byte_to_bits(0xff));
    for byte in 0..=255u8 {
        assert_eq!(byte, bits_to_byte(&byte_to_bits(byte)));
    }
}

#[test]
fn pack_and_unpack() {
    let bytes = vec![0xde, 0xad, 0xbe, 0xef];
    let bits = unpack_bytes(&bytes);
    assert_eq!(32, bits.len());
    assert_eq!(
        vec![true, true, false, true, true, true, true, false],
        bits[..8].to_vec()
    );
    assert_eq!(bytes, pack_bits(&bits));
    assert_eq!(Vec::<u8>::new(), pack_bits(&[]));
    assert_eq!(Vec::<bool>::new(), unpack_bytes(&[]));
}

#[test]
fn bits_from_bits_keeps_the_bits() {
    let bits = vec![true, false, false, true];
    let run = Bits::from_bits(bits.clone());
    assert_eq!(4, run.bit_length());
    assert_eq!(bits, run.iter_bits());
    assert_eq!("0b1001", run.to_string().as_str());
}

#[test]
fn bits_of_a_wrong_length_are_refused() {
    assert_eq!(Err(Error::InvalidLength), Bits::try_from_bits(vec![]));
    assert_eq!(
        Err(Error::InvalidLength),
        Bits::try_from_bits(vec![true, false, true])
    );
    assert_eq!(
        Ok(Bits::from_bits(vec![true, false])),
        Bits::try_from_bits(vec![true, false])
    );
}

#[test]
fn bytes_of_a_wrong_length_are_refused() {
    assert_eq!(Err(Error::InvalidLength), Bytes::try_from_bytes(vec![]));
    assert_eq!(
        Err(Error::InvalidLength),
        Bytes::try_from_bytes(vec![1, 2, 3, 4, 5, 6])
    );
    assert_eq!(
        Ok(Bytes::from_bytes(vec![7])),
        Bytes::try_from_bytes(vec![7])
    );
}

#[test]
fn halves_of_bits_make_the_whole() {
    let bits = vec![
        true, false, false, true, false, false, false, true, true, true, false, true, false,
        true, true, false,
    ];
    let run = Bits::from_bits(bits.clone());
    let (left, right) = run.split().unwrap();
    assert_eq!(8, left.bit_length());
    assert_eq!(8, right.bit_length());
    assert_eq!(bits[..8].to_vec(), left.iter_bits());
    assert_eq!(bits[8..].to_vec(), right.iter_bits());
    let mut joined = left.iter_bits();
    joined.extend(right.iter_bits());
    assert_eq!(bits, joined);

    let (_, inner) = left.split().unwrap();
    assert_eq!(bits[4..8].to_vec(), inner.iter_bits());
    let (third, _) = right.split().unwrap();
    let (_, sixth) = third.split().unwrap();
    assert_eq!(bits[10..12].to_vec(), sixth.iter_bits());
    assert_eq!(None, sixth.get_bit());
    let (first, second) = sixth.split().unwrap();
    assert_eq!(Some(false), first.get_bit());
    assert_eq!(Some(true), second.get_bit());
}

#[test]
fn halves_of_bytes_make_the_whole() {
    let bytes = vec![0x01, 0x23, 0x45, 0x67, 0x89, 0xab, 0xcd, 0xef];
    let run = Bytes::from_slice(&bytes);
    assert_eq!(8, run.byte_length());
    assert_eq!(bytes, run.iter_bytes());
    let (left, right) = run.split().unwrap();
    assert_eq!(vec![0x01, 0x23, 0x45, 0x67], left.iter_bytes());
    assert_eq!(vec![0x89, 0xab, 0xcd, 0xef], right.iter_bytes());
    assert_eq!("0x89abcdef", right.to_string().as_str());
    let (_, fourth) = right.split().unwrap();
    let (seventh, eighth) = fourth.split().unwrap();
    assert_eq!(vec![0xcd], seventh.iter_bytes());
    assert_eq!(1, eighth.byte_length());
    assert_eq!(byte_to_bits(0xef), eighth.iter_bits());
    let (high, low) = eighth.split().unwrap_err();
    assert_eq!(vec![true, true, true, false], high.iter_bits());
    assert_eq!(vec![true, true, true, true], low.iter_bits());
    assert_eq!(unpack_bytes(&bytes[..4]), left.iter_bits());
}

#[test]
fn bytes_render_every_hex_digit() {
    let run = Bytes::from_bytes(vec![0x01, 0x23, 0x45, 0x67, 0x89, 0xab, 0xcd, 0xef]);
    assert_eq!("0x0123456789abcdef", run.to_string().as_str());
    assert_eq!("0x00", Bytes::from_bytes(vec![0]).to_string().as_str());
    assert_eq!("0x0a", Bytes::from_bytes(vec![10]).to_string().as_str());
}

#[test]
fn a_clone_is_the_same_run() {
    let run = Bits::from_byte(0x3c);
    let (left, _) = run.split().unwrap();
    assert_eq!(left, left.clone());
    assert_eq!(left.iter_bits(), left.clone().iter_bits());
    let bytes = Bytes::from_bytes(vec![1, 2]);
    assert_eq!(bytes, bytes.clone());
}

#[test]
fn a_long_run_of_bytes_renders_in_full() {
    let bytes: Vec<u8> = (0..1024u32).map(|i| (i % 251) as u8).collect();
    let run = Bytes::from_bytes(bytes.clone());
    let text = run.to_string();
    assert_eq!(2 + 2 * 1024, text.len());
    assert!(text.starts_with("0x000102030405060708090a0b0c0d0e0f10"));
    let digits = "0123456789abcdef".as_bytes();
    for (i, byte) in bytes.iter().enumerate() {
        assert_eq!(digits[(byte >> 4) as usize], text.as_bytes()[2 + 2 * i]);
        assert_eq!(digits[(byte & 15) as usize], text.as_bytes()[3 + 2 * i]);
    }
    let (_, right) = run.split().unwrap();
    assert_eq!(2 + 2 * 512, right.to_string().len());
    assert_eq!(unpack_bytes(&bytes[512..]), right.iter_bits());
}
