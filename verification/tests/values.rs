use ext_value::native::{do_each_bit_strict, native_bits};
use ext_value::word::{byte_to_bits, unpack_bytes};
use ext_value::{Bits, Bytes, Error, ExtValue};
use simplicity::{Cmr, Value};
use std::sync::Arc;

#[test]
fn display_value() {
    let value = ExtValue::product(
        ExtValue::left(ExtValue::right(ExtValue::unit())),
        ExtValue::product(
            ExtValue::bits(Bits::from_byte(0b01101111)),
            ExtValue::bytes(Bytes::from_bytes(vec![0xde, 0xad, 0xbe, 0xef])),
        ),
    );
    assert_eq!(
        "(LR●, (0b01101111, 0xdeadbeef))",
        value.to_string().as_str()
    );
}

#[test]
fn extvalue_from_value() {
    let cmr = Cmr::unit();
    let cmr_bytes: &[u8] = cmr.as_ref();
    let output_input = vec![
        (ExtValue::unit(), Value::unit()),
        (
            ExtValue::bits(Bits::from_bit(false)),
            Value::sum_l(Value::unit()),
        ),
        (
            ExtValue::bits(Bits::from_bit(true)),
            Value::sum_r(Value::unit()),
        ),
        (
            ExtValue::left(ExtValue::bits(Bits::from_bit(true))),
            Value::sum_l(Value::sum_r(Value::unit())),
        ),
        (
            ExtValue::product(ExtValue::unit(), ExtValue::unit()),
            Value::prod(Value::unit(), Value::unit()),
        ),
        (
            ExtValue::bytes(Bytes::from_slice(cmr_bytes)),
            Value::u256_from_slice(cmr_bytes),
        ),
        (
            ExtValue::bytes(Bytes::from_bytes(vec![0b01010101])),
            Value::u8(0b01010101),
        ),
        (
            ExtValue::bytes(Bytes::from_bytes(vec![0xab, 0xcd])),
            Value::prod(Value::u8(0xab), Value::u8(0xcd)),
        ),
    ];

    for (expected_output, input) in output_input {
        assert_eq!(expected_output.as_ref(), &ExtValue::from(input.as_ref()));
    }
}

fn samples() -> Vec<Arc<Value>> {
    vec![
        Value::unit(),
        Value::u1(0),
        Value::u1(1),
        Value::u2(2),
        Value::u4(9),
        Value::u8(0xa5),
        Value::u16(0xbeef),
        Value::u32(0xdeadbeef),
        Value::sum_l(Value::u8(0x11)),
        Value::sum_r(Value::sum_l(Value::unit())),
        Value::prod(Value::unit(), Value::u1(1)),
        Value::prod(Value::u1(0), Value::u2(1)),
        Value::prod(Value::prod(Value::u1(0), Value::u2(1)), Value::u1(0)),
        Value::prod(Value::u8(1), Value::u16(2)),
        Value::prod(Value::u4(3), Value::prod(Value::unit(), Value::u4(4))),
        Value::prod(
            Value::sum_r(Value::prod(Value::u16(7), Value::unit())),
            Value::sum_l(Value::unit()),
        ),
    ]
}

#[test]
fn native_bits_in_order() {
    assert_eq!(Vec::<bool>::new(), native_bits(&Value::unit()));
    assert_eq!(vec![false], native_bits(&Value::u1(0)));
    assert_eq!(vec![true, false], native_bits(&Value::u2(2)));
    assert_eq!(byte_to_bits(0xa5), native_bits(&Value::u8(0xa5)));
    assert_eq!(
        vec![true, false],
        native_bits(&Value::sum_r(Value::sum_l(Value::unit())))
    );
    assert_eq!(
        unpack_bytes(&[0xde, 0xad, 0xbe, 0xef]),
        native_bits(&Value::u32(0xdeadbeef))
    );
    for value in samples() {
        let mut bits = Vec::new();
        value.do_each_bit(|bit| bits.push(bit));
        assert_eq!(bits, native_bits(&value));
        assert_eq!(value.len(), native_bits(&value).len());
    }
}

#[test]
fn strict_bits_of_run_shaped_values() {
    assert_eq!(Ok(vec![]), do_each_bit_strict(&Value::unit()));
    assert_eq!(Ok(vec![true]), do_each_bit_strict(&Value::u1(1)));
    assert_eq!(
        Ok(byte_to_bits(0x5a)),
        do_each_bit_strict(&Value::u8(0x5a))
    );
    assert_eq!(
        Ok(vec![true]),
        do_each_bit_strict(&Value::prod(Value::unit(), Value::u1(1)))
    );
    assert_eq!(
        Err(Error::NotAUniformRun),
        do_each_bit_strict(&Value::sum_l(Value::u1(1)))
    );
    assert_eq!(
        Err(Error::NotAUniformRun),
        do_each_bit_strict(&Value::sum_r(Value::prod(Value::unit(), Value::unit())))
    );
    assert_eq!(
        Err(Error::NotAUniformRun),
        do_each_bit_strict(&Value::prod(Value::unit(), Value::unit()))
    );
    assert_eq!(
        Err(Error::NotAUniformRun),
        do_each_bit_strict(&Value::prod(
            Value::u1(0),
            Value::prod(Value::unit(), Value::unit())
        ))
    );
}

#[test]
fn bits_try_from_value() {
    assert_eq!(Ok(Bits::from_bit(true)), Bits::try_from(&Value::u1(1)));
    assert_eq!(
        Ok(Bits::from_bits(vec![true, false, false, true])),
        Bits::try_from(&Value::u4(9))
    );
    assert_eq!(Ok(Bits::from_byte(0xa5)), Bits::try_from(&Value::u8(0xa5)));
    assert_eq!(Err(Error::InvalidLength), Bits::try_from(&Value::unit()));
    assert_eq!(
        Err(Error::InvalidLength),
        Bits::try_from(&Value::prod(Value::u1(0), Value::u2(1)))
    );
    assert_eq!(
        Err(Error::InvalidLength),
        Bits::try_from(&Value::prod(Value::sum_l(Value::u2(1)), Value::unit()))
    );
    assert_eq!(
        Err(Error::NotAUniformRun),
        Bits::try_from(&Value::sum_l(Value::sum_r(Value::unit())))
    );
    assert_eq!(
        Err(Error::NotAUniformRun),
        Bits::try_from(&Value::prod(
            Value::u1(0),
            Value::prod(Value::unit(), Value::unit())
        ))
    );
}

#[test]
fn bytes_try_from_value() {
    assert_eq!(
        Ok(Bytes::from_bytes(vec![0xa5])),
        Bytes::try_from(&Value::u8(0xa5))
    );
    assert_eq!(
        Ok(Bytes::from_bytes(vec![0xde, 0xad, 0xbe, 0xef])),
        Bytes::try_from(&Value::u32(0xdeadbeef))
    );
    assert_eq!(Err(Error::InvalidLength), Bytes::try_from(&Value::unit()));
    assert_eq!(
        Err(Error::InvalidLength),
        Bytes::try_from(&Value::prod(Value::u8(1), Value::u16(2)))
    );
    assert_eq!(
        Err(Error::MisalignedByteLength),
        Bytes::try_from(&Value::u4(9))
    );
    assert_eq!(
        Err(Error::MisalignedByteLength),
        Bytes::try_from(&Value::sum_l(Value::sum_r(Value::unit())))
    );
    assert_eq!(
        Err(Error::NotAUniformRun),
        Bytes::try_from(&Value::prod(
            Value::sum_l(Value::u4(1)),
            Value::prod(Value::u2(0), Value::u1(0))
        ))
    );
}

#[test]
fn compressed_values_keep_their_bits() {
    for value in samples() {
        let compressed = ExtValue::from(&value);
        assert_eq!(native_bits(&value), compressed.iter_bits());
        assert_eq!(value.len(), compressed.bit_width());
    }
}

#[test]
fn a_uniform_run_is_compressed_to_itself() {
    for value in samples() {
        let compressed = ExtValue::from(&value);
        if let Ok(bytes) = Bytes::try_from(&value) {
            assert_eq!(ExtValue::Bytes(bytes), compressed);
        } else if let Ok(bits) = Bits::try_from(&value) {
            assert_eq!(ExtValue::Bits(bits), compressed);
        } else {
            assert!(!matches!(compressed, ExtValue::Bits(..) | ExtValue::Bytes(..)));
        }
    }
    assert_eq!(
        ExtValue::Bits(Bits::from_bits(vec![true, false, false, true])),
        ExtValue::from(&Value::u4(9))
    );
    assert_eq!(
        ExtValue::Bits(Bits::from_bit(true)),
        ExtValue::from(&Value::prod(Value::unit(), Value::u1(1)))
    );
}

#[test]
fn compressed_values_by_their_text() {
    let text = |value: Arc<Value>| ExtValue::from(&value).to_string();
    assert_eq!("●", text(Value::unit()));
    assert_eq!("0b1", text(Value::sum_r(Value::unit())));
    assert_eq!("0b10", text(Value::u2(2)));
    assert_eq!("0xbeef", text(Value::u16(0xbeef)));
    assert_eq!("L0x11", text(Value::sum_l(Value::u8(0x11))));
    assert_eq!("R0b0", text(Value::sum_r(Value::sum_l(Value::unit()))));
    assert_eq!("(0b0, 0b01)", text(Value::prod(Value::u1(0), Value::u2(1))));
    assert_eq!(
        "0b0010",
        text(Value::prod(
            Value::prod(Value::u1(0), Value::u2(1)),
            Value::u1(0)
        ))
    );
    assert_eq!(
        "((0b0, 0b01), ●)",
        text(Value::prod(
            Value::prod(Value::u1(0), Value::u2(1)),
            Value::unit()
        ))
    );
    assert_eq!(
        "(0x01, 0x0002)",
        text(Value::prod(Value::u8(1), Value::u16(2)))
    );
    assert_eq!(
        "0x34",
        text(Value::prod(
            Value::u4(3),
            Value::prod(Value::unit(), Value::u4(4))
        ))
    );
    assert_eq!(
        "(0b0011, (●, 0b01))",
        text(Value::prod(
            Value::u4(3),
            Value::prod(Value::unit(), Value::u2(1))
        ))
    );
    assert_eq!(
        "(R(0x0007, ●), 0b0)",
        text(Value::prod(
            Value::sum_r(Value::prod(Value::u16(7), Value::unit())),
            Value::sum_l(Value::unit()),
        ))
    );
    assert_eq!(
        "L(0xab, 0xcdef)",
        text(Value::sum_l(Value::prod(Value::u8(0xab), Value::u16(0xcdef))))
    );
    assert_eq!(
        "(●, ●)",
        text(Value::prod(Value::unit(), Value::unit()))
    );
}

#[test]
fn split_left_and_right() {
    let unit = ExtValue::unit();
    let left = ExtValue::left(ExtValue::bits(Bits::from_byte(3)));
    let right = ExtValue::right(ExtValue::unit());
    assert_eq!(
        Some(ExtValue::bits(Bits::from_byte(3))),
        left.split_left()
    );
    assert_eq!(None, left.split_right());
    assert_eq!(None, left.split_product());
    assert_eq!(Some(ExtValue::unit()), right.split_right());
    assert_eq!(None, right.split_left());
    assert_eq!(None, unit.split_left());
    assert_eq!(None, unit.split_right());
    assert_eq!(None, unit.split_product());

    let zero = ExtValue::bits(Bits::from_bit(false));
    let one = ExtValue::bits(Bits::from_bit(true));
    assert_eq!(Some(ExtValue::unit()), zero.split_left());
    assert_eq!(None, zero.split_right());
    assert_eq!(None, zero.split_product());
    assert_eq!(Some(ExtValue::unit()), one.split_right());
    assert_eq!(None, one.split_left());

    let two = ExtValue::bits(Bits::from_bits(vec![false, true]));
    assert_eq!(None, two.split_left());
    assert_eq!(None, two.split_right());
    let byte = ExtValue::bytes(Bytes::from_bytes(vec![0]));
    assert_eq!(None, byte.split_left());
    assert_eq!(None, byte.split_right());
}

#[test]
fn split_product_halves_a_run() {
    let pair = ExtValue::product(ExtValue::unit(), ExtValue::bits(Bits::from_bit(true)));
    let (left, right) = pair.split_product().unwrap();
    assert_eq!(ExtValue::unit(), left);
    assert_eq!(ExtValue::bits(Bits::from_bit(true)), right);

    let bytes = ExtValue::bytes(Bytes::from_bytes(vec![0xde, 0xad, 0xbe, 0xef]));
    assert_eq!(32, bytes.bit_width());
    let (left, right) = bytes.split_product().unwrap();
    assert_eq!(16, left.bit_width());
    assert_eq!(16, right.bit_width());
    assert_eq!("0xdead", left.to_string().as_str());
    assert_eq!("0xbeef", right.to_string().as_str());
    let mut joined = left.iter_bits();
    joined.extend(right.iter_bits());
    assert_eq!(bytes.iter_bits(), joined);

    let (de, _) = left.split_product().unwrap();
    let (high, low) = de.split_product().unwrap();
    assert_eq!("0b1101", high.to_string().as_str());
    assert_eq!("0b1110", low.to_string().as_str());
    assert_eq!(4, high.bit_width());
    let (first, second) = high.split_product().unwrap();
    assert_eq!("0b11", first.to_string().as_str());
    assert_eq!("0b01", second.to_string().as_str());
    let (bit, _) = second.split_product().unwrap();
    assert_eq!(None, bit.split_product());
    assert_eq!(Some(ExtValue::unit()), bit.split_left());
}

#[test]
fn bit_width_and_bits_of_a_mixed_value() {
    let value = ExtValue::product(
        ExtValue::left(ExtValue::right(ExtValue::unit())),
        ExtValue::product(
            ExtValue::bits(Bits::from_byte(0b01101111)),
            ExtValue::bytes(Bytes::from_bytes(vec![0xde, 0xad, 0xbe, 0xef])),
        ),
    );
    assert_eq!(42, value.bit_width());
    let mut bits = vec![false, true];
    bits.extend(byte_to_bits(0b01101111));
    bits.extend(unpack_bytes(&[0xde, 0xad, 0xbe, 0xef]));
    assert_eq!(bits, value.iter_bits());
    assert_eq!(0, ExtValue::unit().bit_width());
    assert_eq!(Vec::<bool>::new(), ExtValue::unit().iter_bits());

    let (_, tail) = value.split_product().unwrap();
    let (run, _) = tail.split_product().unwrap();
    let (_, low) = run.split_product().unwrap();
    assert_eq!(vec![true, true, true, true], low.iter_bits());
    assert_eq!(4, low.bit_width());
    assert_eq!(value.as_ref(), &value.as_ref().clone());
}

#[test]
fn a_word_is_the_same_run_on_both_ways() {
    let words = vec![
        Value::u1(1),
        Value::u2(1),
        Value::u4(0xc),
        Value::u8(0x5a),
        Value::u16(0x1234),
        Value::u32(0xdeadbeef),
        Value::u64(0x0123456789abcdef),
        Value::u256_from_slice(&[0x42; 32]),
    ];
    for word in words {
        assert_eq!(ExtValue::from(&word), ExtValue::from_fragments(&word));
    }
    assert_eq!(
        "0x0123456789abcdef",
        ExtValue::from_fragments(&Value::u64(0x0123456789abcdef))
            .to_string()
            .as_str()
    );
    assert_eq!(
        "0b1100",
        ExtValue::from_fragments(&Value::u4(0xc)).to_string().as_str()
    );
}

#[test]
fn fragments_keep_the_shape_of_an_uneven_value() {
    let uneven = Value::prod(Value::prod(Value::u1(0), Value::u2(1)), Value::u1(0));
    let built = ExtValue::from_fragments(&uneven);
    assert_eq!("((0b0, 0b01), 0b0)", built.to_string().as_str());
    assert_eq!(native_bits(&uneven), built.iter_bits());
    let padded = Value::prod(Value::u4(3), Value::prod(Value::unit(), Value::u4(4)));
    let built = ExtValue::from_fragments(&padded);
    assert_eq!("(0b0011, (●, 0b0100))", built.to_string().as_str());
    assert_eq!(native_bits(&padded), built.iter_bits());
    for value in samples() {
        assert_eq!(
            native_bits(&value),
            ExtValue::from_fragments(&value).iter_bits()
        );
    }
}
