//! From a value in its explicit form to an extended value, in which spans of
//! bits and bytes have become runs.

use crate::bits::Bits;
use crate::bytes::Bytes;
use crate::length::{is_pow2, lemma_pow2_double, lemma_pow2_eighth};
use crate::native::{is_run_shaped, value_bits, value_size};
use crate::shape::Shape;
use crate::strict::{bit_run_of, byte_run_of};
use crate::value::ExtValue;
use crate::word::{
    bits_to_byte, bits_value, byte_bits, bytes_bits, exp2, lemma_byte_round_trip,
    lemma_pack_concat, lemma_unpack_pack, pack_bytes,
};
use simplicity::Value;
use std::sync::Arc;
use vstd::prelude::*;

verus! {

/// What a part of a value has become while the value is being compressed.
pub enum Fragment {
    /// A finished value.
    Value(Shape),
    /// Bits that may still grow into a longer run.
    Bits(Seq<bool>),
    /// Bytes that may still grow into a longer run.
    Bytes(Seq<u8>),
}

impl Fragment {
    /// The fragment as a value: pending bits and bytes become runs.
    pub open spec fn finish(self) -> Shape {
        match self {
            Fragment::Value(value) => value,
            Fragment::Bits(bits) => Shape::Bits(bits),
            Fragment::Bytes(bytes) => Shape::Bytes(bytes),
        }
    }

    /// Whether the length of every run is a power of two.
    pub open spec fn wf(self) -> bool {
        self.finish().wf()
    }
}

/// The left value of a fragment.  That of the unit is the bit `false`.
pub open spec fn wrap_left(inner: Fragment) -> Fragment {
    if inner == Fragment::Value(Shape::Unit) {
        Fragment::Bits(seq![false])
    } else {
        Fragment::Value(Shape::Left(Box::new(inner.finish())))
    }
}

/// The right value of a fragment.  That of the unit is the bit `true`.
pub open spec fn wrap_right(inner: Fragment) -> Fragment {
    if inner == Fragment::Value(Shape::Unit) {
        Fragment::Bits(seq![true])
    } else {
        Fragment::Value(Shape::Right(Box::new(inner.finish())))
    }
}

/// The product of two fragments.
///
/// Pending bits of equal length are joined, and become a byte when there are
/// eight of them.  Pending bytes of equal length are joined.  Anything else
/// becomes a product of two finished values.
pub open spec fn join(left: Fragment, right: Fragment) -> Fragment {
    match (left, right) {
        (Fragment::Bits(l), Fragment::Bits(r)) => if l.len() == r.len() {
            if l.len() + r.len() == 8 {
                Fragment::Bytes(seq![bits_value(l + r) as u8])
            } else {
                Fragment::Bits(l + r)
            }
        } else {
            Fragment::Value(Shape::Product(Box::new(left.finish()), Box::new(right.finish())))
        },
        (Fragment::Bytes(l), Fragment::Bytes(r)) => if l.len() == r.len() {
            Fragment::Bytes(l + r)
        } else {
            Fragment::Value(Shape::Product(Box::new(left.finish()), Box::new(right.finish())))
        },
        _ => Fragment::Value(Shape::Product(Box::new(left.finish()), Box::new(right.finish()))),
    }
}

/// The fragment that a value becomes, built from the fragments of its
/// children.
pub open spec fn fragment_of(v: &Value) -> Fragment
    decreases v,
{
    match v {
        Value::Unit => Fragment::Value(Shape::Unit),
        Value::SumL(inner) => wrap_left(fragment_of(&**inner)),
        Value::SumR(inner) => wrap_right(fragment_of(&**inner)),
        Value::Prod(left, right) => join(fragment_of(&**left), fragment_of(&**right)),
    }
}

/// The extended value of a value.
///
/// A value that is one run of bytes becomes that run, a value that is one
/// run of bits becomes that run, and any other value is built from the
/// fragments of its children.
pub open spec fn compress(v: &Value) -> Shape {
    match byte_run_of(v) {
        Ok(bytes) => Shape::Bytes(bytes),
        Err(_) => match bit_run_of(v) {
            Ok(bits) => Shape::Bits(bits),
            Err(_) => fragment_of(v).finish(),
        },
    }
}

/// The fragment of a value has the bits of the value, and the lengths of its
/// runs are powers of two.
pub proof fn lemma_fragment_bits(v: &Value)
    ensures
        fragment_of(v).wf(),
        fragment_of(v).finish().bits() == value_bits(v),
    decreases v,
{
    reveal_with_fuel(is_pow2, 2);
    match v {
        Value::Unit => {},
        Value::SumL(inner) => {
            lemma_fragment_bits(&**inner);
            assert(fragment_of(v).finish().bits() =~= value_bits(v));
        },
        Value::SumR(inner) => {
            lemma_fragment_bits(&**inner);
            assert(fragment_of(v).finish().bits() =~= value_bits(v));
        },
        Value::Prod(left, right) => {
            lemma_fragment_bits(&**left);
            lemma_fragment_bits(&**right);
            lemma_join_bits(fragment_of(&**left), fragment_of(&**right));
        },
    }
}

/// Joining two fragments joins their bits, and keeps the lengths of runs
/// powers of two.
pub proof fn lemma_join_bits(left: Fragment, right: Fragment)
    requires
        left.wf(),
        right.wf(),
    ensures
        join(left, right).wf(),
        join(left, right).finish().bits() == left.finish().bits() + right.finish().bits(),
{
    reveal_with_fuel(is_pow2, 2);
    match (left, right) {
        (Fragment::Bits(l), Fragment::Bits(r)) => {
            if l.len() == r.len() {
                lemma_pow2_double(l.len() as int);
                if l.len() + r.len() == 8 {
                    lemma_byte_round_trip(0, l + r);
                    let byte = bits_value(l + r) as u8;
                    assert(bytes_bits(seq![byte]) =~= byte_bits(byte));
                }
            }
        },
        (Fragment::Bytes(l), Fragment::Bytes(r)) => {
            if l.len() == r.len() {
                lemma_pow2_double(l.len() as int);
                assert(bytes_bits(l + r) =~= bytes_bits(l) + bytes_bits(r));
            }
        },
        _ => {},
    }
}

/// Compression keeps the bits of a value, in their order, and gives every
/// run a length that is a power of two.
pub proof fn lemma_compress_bits(v: &Value)
    ensures
        compress(v).wf(),
        compress(v).bits() == value_bits(v),
        compress(v).bit_width() == value_bits(v).len(),
{
    lemma_fragment_bits(v);
    if byte_run_of(v) is Ok {
        lemma_unpack_pack(value_bits(v));
        lemma_pow2_eighth(value_bits(v).len() as int);
    }
    compress(v).lemma_bit_width();
}

/// A value that is one run of bytes becomes that run; one that is no run of
/// bytes but one run of bits becomes that run.
pub proof fn lemma_compress_run(v: &Value)
    ensures
        byte_run_of(v) matches Ok(bytes) ==> compress(v) == Shape::Bytes(bytes),
        byte_run_of(v) is Err ==> (bit_run_of(v) matches Ok(bits) ==> compress(v) == Shape::Bits(
            bits,
        )),
{
}

/// Whether a value is a word of two to the `k` bits: a bit where `k` is zero,
/// and else a product of two words of half as many bits.
pub open spec fn is_word(v: &Value, k: nat) -> bool
    decreases k,
{
    if k == 0 {
        ||| v matches Value::SumL(inner) && **inner is Unit
        ||| v matches Value::SumR(inner) && **inner is Unit
    } else {
        v matches Value::Prod(left, right) && is_word(&**left, (k - 1) as nat) && is_word(
            &**right,
            (k - 1) as nat,
        )
    }
}

/// A word is one run, and building it from the fragments of its children
/// gives that run: a run of bits for a word of fewer than eight bits, and a
/// run of bytes for a longer word.
pub proof fn lemma_word_is_a_run(v: &Value, k: nat)
    requires
        is_word(v, k),
    ensures
        value_bits(v).len() == exp2(k),
        is_pow2(exp2(k) as int),
        k >= 3 ==> exp2(k) % 8 == 0,
        is_run_shaped(v),
        k < 3 ==> fragment_of(v) == Fragment::Bits(value_bits(v)),
        k >= 3 ==> fragment_of(v) == Fragment::Bytes(pack_bytes(value_bits(v))),
        fragment_of(v).finish() == compress(v),
    decreases k,
{
    reveal_with_fuel(exp2, 4);
    reveal_with_fuel(is_pow2, 4);
    match v {
        Value::Prod(left, right) => {
            if k > 0 {
                let half = (k - 1) as nat;
                lemma_word_is_a_run(&**left, half);
                lemma_word_is_a_run(&**right, half);
                lemma_pow2_double(exp2(half) as int);
                let l = value_bits(&**left);
                let r = value_bits(&**right);
                assert(value_bits(v) == l + r);
                assert(fragment_of(v) == join(fragment_of(&**left), fragment_of(&**right)));
                if k < 3 {
                    assert(half == 0 || half == 1);
                    assert(l.len() + r.len() <= 4);
                } else if k == 3 {
                    assert(half == 2);
                    assert(l.len() + r.len() == 8);
                    assert((l + r).subrange(0, 8) =~= l + r);
                    assert(pack_bytes(l + r) =~= seq![bits_value(l + r) as u8]);
                } else {
                    lemma_pack_concat(l, r);
                    assert(pack_bytes(l).len() == pack_bytes(r).len());
                }
            }
        },
        Value::SumL(inner) => {
            if k == 0 {
                assert(value_bits(&**inner) =~= Seq::empty());
                assert(value_bits(v) =~= seq![false]);
            }
        },
        Value::SumR(inner) => {
            if k == 0 {
                assert(value_bits(&**inner) =~= Seq::empty());
                assert(value_bits(v) =~= seq![true]);
            }
        },
        Value::Unit => {},
    }
}

/// A part of a value while the value is being compressed.
enum Item {
    Value(ExtValue),
    Bits(Vec<bool>),
    Bytes(Vec<u8>),
}

impl View for Item {
    type V = Fragment;

    closed spec fn view(&self) -> Fragment {
        match self {
            Item::Value(value) => Fragment::Value(value@),
            Item::Bits(bits) => Fragment::Bits(bits@),
            Item::Bytes(bytes) => Fragment::Bytes(bytes@),
        }
    }
}

impl Item {
    fn into_extvalue(self) -> (value: ExtValue)
        requires
            self@.wf(),
        ensures
            value@ == self@.finish(),
    {
        match self {
            Item::Value(value) => value,
            Item::Bits(bits) => ExtValue::Bits(Bits::from_bits(bits)),
            Item::Bytes(bytes) => ExtValue::Bytes(Bytes::from_bytes(bytes)),
        }
    }

    fn wrap_left(self) -> (item: Item)
        requires
            self@.wf(),
        ensures
            item@ == wrap_left(self@),
    {
        match self {
            Item::Value(ExtValue::Unit) => {
                let bits: Vec<bool> = vec![false];
                assert(bits@ =~= seq![false]);
                Item::Bits(bits)
            },
            top => Item::Value(ExtValue::Left(Arc::new(top.into_extvalue()))),
        }
    }

    fn wrap_right(self) -> (item: Item)
        requires
            self@.wf(),
        ensures
            item@ == wrap_right(self@),
    {
        match self {
            Item::Value(ExtValue::Unit) => {
                let bits: Vec<bool> = vec![true];
                assert(bits@ =~= seq![true]);
                Item::Bits(bits)
            },
            top => Item::Value(ExtValue::Right(Arc::new(top.into_extvalue()))),
        }
    }

    fn join(left: Item, right: Item) -> (item: Item)
        requires
            left@.wf(),
            right@.wf(),
        ensures
            item@ == join(left@, right@),
    {
        match (left, right) {
            (Item::Bits(mut left), Item::Bits(mut right)) => {
                if left.len() == right.len() {
                    left.append(&mut right);
                    if left.len() == 8 {
                        let bytes: Vec<u8> = vec![bits_to_byte(left.as_slice())];
                        proof {
                            assert(bytes@ =~= seq![bits_value(left@) as u8]);
                        }
                        Item::Bytes(bytes)
                    } else {
                        Item::Bits(left)
                    }
                } else {
                    let left = ExtValue::bits(Bits::from_bits(left));
                    let right = ExtValue::bits(Bits::from_bits(right));
                    Item::Value(ExtValue::Product(left, right))
                }
            },
            (Item::Bytes(mut left), Item::Bytes(mut right)) => {
                if left.len() == right.len() {
                    left.append(&mut right);
                    Item::Bytes(left)
                } else {
                    let left = ExtValue::bytes(Bytes::from_bytes(left));
                    let right = ExtValue::bytes(Bytes::from_bytes(right));
                    Item::Value(ExtValue::Product(left, right))
                }
            },
            (left, right) => {
                let left = Arc::new(left.into_extvalue());
                let right = Arc::new(right.into_extvalue());
                Item::Value(ExtValue::Product(left, right))
            },
        }
    }
}

/// What is left to do for a part of the value.
enum Step<'a> {
    /// Compress this value.
    Enter(&'a Value),
    /// Wrap the last fragment into a left value.
    WrapLeft,
    /// Wrap the last fragment into a right value.
    WrapRight,
    /// Join the last two fragments into a product.
    Join,
}

/// A bound on the number of rounds that a step still takes.
spec fn step_weight(step: Step) -> nat {
    match step {
        Step::Enter(v) => 2 * value_size(v),
        _ => 1,
    }
}

/// A bound on the number of rounds that the steps on a stack still take.
spec fn work(steps: Seq<Step>) -> nat
    decreases steps.len(),
{
    if steps.len() == 0 {
        0
    } else {
        step_weight(steps.last()) + work(steps.drop_last())
    }
}

/// The fragments after one step, or `None` where fragments are missing.
spec fn apply(step: Step, items: Seq<Fragment>) -> Option<Seq<Fragment>> {
    match step {
        Step::Enter(v) => Some(items.push(fragment_of(v))),
        Step::WrapLeft => if items.len() >= 1 {
            Some(items.drop_last().push(wrap_left(items.last())))
        } else {
            None
        },
        Step::WrapRight => if items.len() >= 1 {
            Some(items.drop_last().push(wrap_right(items.last())))
        } else {
            None
        },
        Step::Join => if items.len() >= 2 {
            Some(
                items.drop_last().drop_last().push(
                    join(items[items.len() - 2], items.last()),
                ),
            )
        } else {
            None
        },
    }
}

/// The fragments after all the steps on a stack, taken from its top (the last
/// entry) down.
spec fn run(steps: Seq<Step>, items: Seq<Fragment>) -> Option<Seq<Fragment>>
    decreases steps.len(),
{
    if steps.len() == 0 {
        Some(items)
    } else {
        match apply(steps.last(), items) {
            Some(next) => run(steps.drop_last(), next),
            None => None,
        }
    }
}

proof fn lemma_run_push(steps: Seq<Step>, step: Step, items: Seq<Fragment>)
    ensures
        run(steps.push(step), items) == match apply(step, items) {
            Some(next) => run(steps, next),
            None => None,
        },
        work(steps.push(step)) == work(steps) + step_weight(step),
{
    assert(steps.push(step).drop_last() =~= steps);
}

/// The fragments that the items on a stack stand for.
spec fn fragments(items: Seq<Item>) -> Seq<Fragment> {
    Seq::new(items.len(), |i: int| items[i]@)
}

impl ExtValue {
    /// The extended value of a value, built from the fragments of its
    /// children in one pass from the leaves up.
    ///
    /// It has the bits of the value, in their order.
    pub fn from_fragments(value: &Value) -> (result: Self)
        ensures
            result@ == fragment_of(value).finish(),
            result@.wf(),
            result@.bits() == value_bits(value),
    {
        proof {
            lemma_fragment_bits(value);
        }
        let mut steps: Vec<Step> = Vec::new();
        let mut items: Vec<Item> = Vec::new();
        steps.push(Step::Enter(value));
        proof {
            lemma_run_push(Seq::empty(), Step::Enter(value), fragments(items@));
            assert(fragments(items@).push(fragment_of(value)) =~= seq![fragment_of(value)]);
        }
        while steps.len() > 0
            invariant
                run(steps@, fragments(items@)) == Some(seq![fragment_of(value)]),
                forall|i: int| 0 <= i < items@.len() ==> (#[trigger] items@[i])@.wf(),
            decreases work(steps@),
        {
            let ghost before = steps@;
            let ghost had = fragments(items@);
            let step = steps.pop().unwrap();
            let ghost rest = steps@;
            proof {
                assert(before.drop_last() =~= rest);
            }
            match step {
                Step::Enter(node) => match node {
                    Value::Unit => {
                        items.push(Item::Value(ExtValue::Unit));
                        proof {
                            assert(fragments(items@) =~= had.push(fragment_of(node)));
                        }
                    },
                    Value::SumL(inner) => {
                        steps.push(Step::WrapLeft);
                        steps.push(Step::Enter(&**inner));
                        proof {
                            let entered = had.push(fragment_of(&**inner));
                            lemma_run_push(rest, Step::WrapLeft, entered);
                            lemma_run_push(rest.push(Step::WrapLeft), Step::Enter(&**inner), had);
                            assert(entered.drop_last() =~= had);
                        }
                    },
                    Value::SumR(inner) => {
                        steps.push(Step::WrapRight);
                        steps.push(Step::Enter(&**inner));
                        proof {
                            let entered = had.push(fragment_of(&**inner));
                            lemma_run_push(rest, Step::WrapRight, entered);
                            lemma_run_push(rest.push(Step::WrapRight), Step::Enter(&**inner), had);
                            assert(entered.drop_last() =~= had);
                        }
                    },
                    Value::Prod(left, right) => {
                        steps.push(Step::Join);
                        steps.push(Step::Enter(&**right));
                        steps.push(Step::Enter(&**left));
                        proof {
                            let first = had.push(fragment_of(&**left));
                            let both = first.push(fragment_of(&**right));
                            lemma_run_push(rest, Step::Join, both);
                            lemma_run_push(rest.push(Step::Join), Step::Enter(&**right), first);
                            lemma_run_push(
                                rest.push(Step::Join).push(Step::Enter(&**right)),
                                Step::Enter(&**left),
                                had,
                            );
                            assert(both.drop_last() =~= first);
                            assert(first.drop_last() =~= had);
                        }
                    },
                },
                Step::WrapLeft => {
                    let ghost old_items = items@;
                    let top = items.pop().unwrap();
                    proof {
                        assert(top == old_items[old_items.len() - 1]);
                    }
                    let wrapped = top.wrap_left();
                    items.push(wrapped);
                    proof {
                        assert(fragments(items@) =~= had.drop_last().push(wrap_left(had.last())));
                    }
                },
                Step::WrapRight => {
                    let ghost old_items = items@;
                    let top = items.pop().unwrap();
                    proof {
                        assert(top == old_items[old_items.len() - 1]);
                    }
                    let wrapped = top.wrap_right();
                    items.push(wrapped);
                    proof {
                        assert(fragments(items@) =~= had.drop_last().push(wrap_right(had.last())));
                    }
                },
                Step::Join => {
                    let ghost old_items = items@;
                    let right = items.pop().unwrap();
                    let left = items.pop().unwrap();
                    proof {
                        assert(right == old_items[old_items.len() - 1]);
                        assert(left == old_items[old_items.len() - 2]);
                        lemma_join_bits(left@, right@);
                    }
                    let joined = Item::join(left, right);
                    items.push(joined);
                    proof {
                        assert(fragments(items@) =~= had.drop_last().drop_last().push(
                            join(had[had.len() - 2], had.last()),
                        ));
                    }
                },
            }
        }
        let item = items.pop().unwrap();
        item.into_extvalue()
    }

    /// The extended value of a value.
    ///
    /// It has the bits of the value, in their order.  A value that is one
    /// run of bytes becomes that run, a value that is one run of bits becomes
    /// that run, and any other value is built from the fragments of its
    /// children.
    pub fn from(value: &Value) -> (result: Self)
        ensures
            result@ == compress(value),
            result@.wf(),
            result@.bits() == value_bits(value),
    {
        proof {
            lemma_compress_bits(value);
        }
        match Bytes::try_from(value) {
            Ok(bytes) => ExtValue::Bytes(bytes),
            Err(_) => match Bits::try_from(value) {
                Ok(bits) => ExtValue::Bits(bits),
                Err(_) => Self::from_fragments(value),
            },
        }
    }
}

} // verus!
