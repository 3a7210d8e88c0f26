use ext_value::types::TypeTree;
use ext_value::word::{byte_to_bits, unpack_bytes};
use ext_value::{Error, ExtValue};
use simplicity::types::{Final, Type};
use std::sync::Arc;

fn finalize(ty: Type) -> Arc<Final> {
    ty.final_data().unwrap()
}

fn decode(ty: Arc<Final>, bits: &[bool]) -> Result<Arc<ExtValue>, Error> {
    ExtValue::from_bits(ty, &mut bits.iter().copied())
}

#[test]
fn decode_unit() {
    assert_eq!(Ok(ExtValue::unit()), decode(finalize(Type::unit()), &[]));
    assert_eq!(
        Ok(ExtValue::unit()),
        decode(finalize(Type::unit()), &[true, false])
    );
}

#[test]
fn decode_bit() {
    let bit = Final::two_two_n(0);
    assert_eq!(
        Ok(ExtValue::left(ExtValue::unit())),
        decode(bit.clone(), &[false])
    );
    assert_eq!(
        Ok(ExtValue::right(ExtValue::unit())),
        decode(bit.clone(), &[true])
    );
    assert_eq!(Err(Error::OutOfBits), decode(bit, &[]));
}

#[test]
fn decode_byte_round_trip() {
    let byte = Final::two_two_n(3);
    let bits = byte_to_bits(0xa5);
    let value = decode(byte.clone(), &bits).unwrap();
    assert_eq!(
        "(((R●, L●), (R●, L●)), ((L●, R●), (L●, R●)))",
        value.to_string().as_str()
    );
    assert_eq!(bits, value.iter_bits());
    assert_eq!(8, value.bit_width());
    assert_eq!(Err(Error::OutOfBits), decode(byte, &bits[..7]));
}

#[test]
fn decode_word_round_trip() {
    let word = Final::two_two_n(5);
    let bits = unpack_bytes(&[0xde, 0xad, 0xbe, 0xef]);
    let value = decode(word.clone(), &bits).unwrap();
    assert_eq!(bits, value.iter_bits());
    assert_eq!(32, value.bit_width());
    let mut longer = bits.clone();
    longer.extend([true, true, false]);
    assert_eq!(Ok(value), decode(word.clone(), &longer));
    assert_eq!(
        Err(Error::OutOfBits),
        decode(word, &bits[..31])
    );
}

#[test]
fn decode_product_reads_the_left_side_first() {
    let pair = finalize(Type::product(
        Type::two_two_n(0),
        Type::product(Type::unit(), Type::two_two_n(0)),
    ));
    let value = decode(pair.clone(), &[true, false]).unwrap();
    assert_eq!("(R●, (●, L●))", value.to_string().as_str());
    assert_eq!(
        ExtValue::product(
            ExtValue::right(ExtValue::unit()),
            ExtValue::product(ExtValue::unit(), ExtValue::left(ExtValue::unit())),
        ),
        value
    );
    assert_eq!(Err(Error::OutOfBits), decode(pair, &[true]));
}

#[test]
fn decode_sum_takes_the_bits_of_the_chosen_side() {
    let option = finalize(Type::sum(Type::unit(), Type::two_two_n(2)));
    let none = decode(option.clone(), &[false, true, true, true, true]).unwrap();
    assert_eq!("L●", none.to_string().as_str());
    assert_eq!(vec![false], none.iter_bits());
    assert_eq!(
        Ok(ExtValue::left(ExtValue::unit())),
        decode(option.clone(), &[false])
    );
    let some = decode(option.clone(), &[true, true, false, false, true]).unwrap();
    assert_eq!("R((R●, L●), (L●, R●))", some.to_string().as_str());
    assert_eq!(vec![true, true, false, false, true], some.iter_bits());
    assert_eq!(
        Err(Error::OutOfBits),
        decode(option, &[true, true, false, false])
    );
}

#[test]
fn decode_nested_sums() {
    let ty = finalize(Type::sum(
        Type::sum(Type::two_two_n(0), Type::unit()),
        Type::product(Type::two_two_n(0), Type::two_two_n(0)),
    ));
    assert_eq!(
        "LLR●",
        decode(ty.clone(), &[false, false, true])
            .unwrap()
            .to_string()
            .as_str()
    );
    assert_eq!(
        "LR●",
        decode(ty.clone(), &[false, true, true])
            .unwrap()
            .to_string()
            .as_str()
    );
    assert_eq!(
        "R(L●, R●)",
        decode(ty.clone(), &[true, false, true])
            .unwrap()
            .to_string()
            .as_str()
    );
    assert_eq!(
        Err(Error::OutOfBits),
        decode(ty, &[false, false])
    );
}

#[test]
fn decode_leaves_the_bits_after_the_value() {
    let bits = vec![true, false, false, true, true, false];
    let mut it = bits.iter().copied();
    let first = ExtValue::from_bits(Final::two_two_n(1), &mut it).unwrap();
    assert_eq!("(R●, L●)", first.to_string().as_str());
    let second = ExtValue::from_bits(Final::two_two_n(0), &mut it).unwrap();
    assert_eq!("L●", second.to_string().as_str());
    let nothing = ExtValue::from_bits(finalize(Type::unit()), &mut it).unwrap();
    assert_eq!("●", nothing.to_string().as_str());
    assert_eq!(vec![true, true, false], it.clone().collect::<Vec<bool>>());
    let option = finalize(Type::sum(Type::unit(), Type::two_two_n(1)));
    let third = ExtValue::from_bits(option.clone(), &mut it).unwrap();
    assert_eq!("R(R●, L●)", third.to_string().as_str());
    assert_eq!(None, it.next());
    assert_eq!(Err(Error::OutOfBits), ExtValue::from_bits(option, &mut it));
}

#[test]
fn decode_all_bytes_round_trip() {
    for byte in 0..=255u8 {
        let bits = byte_to_bits(byte);
        let value = decode(Final::two_two_n(3), &bits).unwrap();
        assert_eq!(bits, value.iter_bits());
        assert_eq!(8, value.bit_width());
    }
}

fn bit_tree() -> Arc<TypeTree> {
    Arc::new(TypeTree::Sum(
        Arc::new(TypeTree::Unit),
        Arc::new(TypeTree::Unit),
    ))
}

fn word_tree(n: usize) -> Arc<TypeTree> {
    let mut ty = bit_tree();
    for _ in 0..n {
        ty = Arc::new(TypeTree::Product(ty.clone(), ty));
    }
    ty
}

#[test]
fn decode_a_type_written_out() {
    let mut it = [true, false, true].into_iter();
    assert_eq!(
        Ok(ExtValue::right(ExtValue::unit())),
        ExtValue::from_bits_of(bit_tree(), &mut it)
    );
    assert_eq!(Some(false), it.next());
    assert_eq!(
        Ok(ExtValue::unit()),
        ExtValue::from_bits_of(Arc::new(TypeTree::Unit), &mut it)
    );
    assert_eq!(
        Ok(ExtValue::right(ExtValue::unit())),
        ExtValue::from_bits_of(bit_tree(), &mut it)
    );
    assert_eq!(
        Err(Error::OutOfBits),
        ExtValue::from_bits_of(bit_tree(), &mut it)
    );
}

#[test]
fn decode_agrees_on_both_kinds_of_type() {
    for byte in [0x00u8, 0x01, 0x5a, 0x80, 0xff] {
        let bits = byte_to_bits(byte);
        assert_eq!(
            decode(Final::two_two_n(3), &bits),
            ExtValue::from_bits_of(word_tree(3), &mut bits.iter().copied())
        );
    }
    let option = Arc::new(TypeTree::Sum(Arc::new(TypeTree::Unit), word_tree(2)));
    let same = finalize(Type::sum(Type::unit(), Type::two_two_n(2)));
    for bits in [
        vec![false],
        vec![true, false, true, true, false],
        vec![true, true, true],
        vec![],
    ] {
        assert_eq!(
            decode(same.clone(), &bits),
            ExtValue::from_bits_of(option.clone(), &mut bits.iter().copied())
        );
    }
}

#[test]
fn decode_a_product_written_out() {
    let pair = Arc::new(TypeTree::Product(
        Arc::new(TypeTree::Sum(bit_tree(), Arc::new(TypeTree::Unit))),
        bit_tree(),
    ));
    let text = |bits: &[bool]| {
        ExtValue::from_bits_of(pair.clone(), &mut bits.iter().copied())
            .map(|value| value.to_string())
    };
    assert_eq!(Ok("(LL●, R●)".to_string()), text(&[false, false, true]));
    assert_eq!(Ok("(LR●, L●)".to_string()), text(&[false, true, false]));
    assert_eq!(Ok("(R●, L●)".to_string()), text(&[true, false, false]));
    assert_eq!(Err(Error::OutOfBits), text(&[true]));
    assert_eq!(Err(Error::OutOfBits), text(&[false, true]));
}
