//! Extended values: trees of unit, left, right and product nodes in which
//! spans of bits and bytes are held as runs.

use crate::bits::Bits;
use crate::bytes::Bytes;
use crate::shape::Shape;
use std::sync::Arc;
use vstd::prelude::*;

verus! {

/// A value whose children are shared and in which a span of bits or bytes may
/// be held as one run.
///
/// A run of bits stands for the bits themselves where it is one bit long, and
/// for the product of its two halves where it is longer; a run of bytes
/// likewise, each byte standing for the run of its eight bits.
#[derive(Debug, Eq, PartialEq)]
pub enum ExtValue {
    Unit,
    Left(Arc<Self>),
    Right(Arc<Self>),
    Product(Arc<Self>, Arc<Self>),
    Bits(Bits),
    Bytes(Bytes),
}

impl View for ExtValue {
    type V = Shape;

    /// The value with each run given by its contents.
    open spec fn view(&self) -> Shape
        decreases self,
    {
        match self {
            ExtValue::Unit => Shape::Unit,
            ExtValue::Left(inner) => Shape::Left(Box::new((**inner).view())),
            ExtValue::Right(inner) => Shape::Right(Box::new((**inner).view())),
            ExtValue::Product(left, right) => Shape::Product(
                Box::new((**left).view()),
                Box::new((**right).view()),
            ),
            ExtValue::Bits(run) => Shape::Bits(run@),
            ExtValue::Bytes(run) => Shape::Bytes(run@),
        }
    }
}

impl Clone for ExtValue {
    /// The same value, sharing the children and the storage of the runs.
    fn clone(&self) -> (value: Self)
        ensures
            value@ == self@,
    {
        match self {
            ExtValue::Unit => ExtValue::Unit,
            ExtValue::Left(inner) => ExtValue::Left(inner.clone()),
            ExtValue::Right(inner) => ExtValue::Right(inner.clone()),
            ExtValue::Product(left, right) => ExtValue::Product(left.clone(), right.clone()),
            ExtValue::Bits(run) => ExtValue::Bits(run.clone()),
            ExtValue::Bytes(run) => ExtValue::Bytes(run.clone()),
        }
    }
}

/// The bits of the values on a stack, from its top (the last entry) down.
spec fn stacked_bits(stack: Seq<&ExtValue>) -> Seq<bool>
    decreases stack.len(),
{
    if stack.len() == 0 {
        Seq::empty()
    } else {
        stack.last()@.bits() + stacked_bits(stack.drop_last())
    }
}

/// The number of bits of the values on a stack.
spec fn stacked_width(stack: Seq<&ExtValue>) -> nat
    decreases stack.len(),
{
    if stack.len() == 0 {
        0
    } else {
        stack.last()@.bit_width() + stacked_width(stack.drop_last())
    }
}

/// The number of nodes of the values on a stack.
spec fn stacked_size(stack: Seq<&ExtValue>) -> nat
    decreases stack.len(),
{
    if stack.len() == 0 {
        0
    } else {
        stack.last()@.size() + stacked_size(stack.drop_last())
    }
}

proof fn lemma_stacked_push(stack: Seq<&ExtValue>, node: &ExtValue)
    ensures
        stacked_bits(stack.push(node)) == node@.bits() + stacked_bits(stack),
        stacked_width(stack.push(node)) == node@.bit_width() + stacked_width(stack),
        stacked_size(stack.push(node)) == node@.size() + stacked_size(stack),
{
    assert(stack.push(node).drop_last() =~= stack);
}

impl ExtValue {
    /// The unit value.
    pub fn unit() -> (value: Arc<Self>)
        ensures
            value@ == Shape::Unit,
    {
        Arc::new(Self::Unit)
    }

    /// The left value that wraps `left`.
    pub fn left(left: Arc<Self>) -> (value: Arc<Self>)
        ensures
            value@ == Shape::Left(Box::new(left@)),
    {
        Arc::new(Self::Left(left))
    }

    /// The right value that wraps `right`.
    pub fn right(right: Arc<Self>) -> (value: Arc<Self>)
        ensures
            value@ == Shape::Right(Box::new(right@)),
    {
        Arc::new(Self::Right(right))
    }

    /// The product of `left` and `right`.
    pub fn product(left: Arc<Self>, right: Arc<Self>) -> (value: Arc<Self>)
        ensures
            value@ == Shape::Product(Box::new(left@), Box::new(right@)),
    {
        Arc::new(Self::Product(left, right))
    }

    /// The value that is a run of bits.
    pub fn bits(bits: Bits) -> (value: Arc<Self>)
        ensures
            value@ == Shape::Bits(bits@),
            value@.wf(),
    {
        let _ = bits.bit_length();
        Arc::new(Self::Bits(bits))
    }

    /// The value that is a run of bytes.
    pub fn bytes(bytes: Bytes) -> (value: Arc<Self>)
        ensures
            value@ == Shape::Bytes(bytes@),
            value@.wf(),
    {
        let _ = bytes.byte_length();
        Arc::new(Self::Bytes(bytes))
    }

    /// What a left value wraps, or `None` for a value that is not a left
    /// value.
    pub fn split_left(&self) -> (inner: Option<Arc<Self>>)
        ensures
            match inner {
                Some(inner) => self@.split_left() == Some(inner@),
                None => self@.split_left() is None,
            },
    {
        match self {
            Self::Left(left) => Some(left.clone()),
            Self::Bits(bits) => match bits.get_bit() {
                Some(false) => Some(ExtValue::unit()),
                _ => None,
            },
            _ => None,
        }
    }

    /// What a right value wraps, or `None` for a value that is not a right
    /// value.
    pub fn split_right(&self) -> (inner: Option<Arc<Self>>)
        ensures
            match inner {
                Some(inner) => self@.split_right() == Some(inner@),
                None => self@.split_right() is None,
            },
    {
        match self {
            Self::Right(right) => Some(right.clone()),
            Self::Bits(bits) => match bits.get_bit() {
                Some(true) => Some(ExtValue::unit()),
                _ => None,
            },
            _ => None,
        }
    }

    /// The two parts of a product, or `None` for a value that is not a
    /// product.
    pub fn split_product(&self) -> (parts: Option<(Arc<Self>, Arc<Self>)>)
        ensures
            match parts {
                Some((left, right)) => self@.split_product() == Some((left@, right@)),
                None => self@.split_product() is None,
            },
    {
        match self {
            Self::Product(left, right) => Some((left.clone(), right.clone())),
            Self::Bits(bits) => match bits.split() {
                Some((left, right)) => Some((Self::bits(left), Self::bits(right))),
                None => None,
            },
            Self::Bytes(bytes) => match bytes.split() {
                Ok((left, right)) => Some((Self::bytes(left), Self::bytes(right))),
                Err((left, right)) => Some((Self::bits(left), Self::bits(right))),
            },
            _ => None,
        }
    }

    /// The number of bits of the value, which must fit a `usize`.
    pub fn bit_width(&self) -> (width: usize)
        requires
            self@.bit_width() <= usize::MAX,
        ensures
            width == self@.bit_width(),
    {
        let mut width: usize = 0;
        let mut stack: Vec<&ExtValue> = Vec::new();
        stack.push(self);
        proof {
            lemma_stacked_push(Seq::empty(), self);
        }
        while stack.len() > 0
            invariant
                width + stacked_width(stack@) == self@.bit_width(),
                self@.bit_width() <= usize::MAX,
            decreases stacked_size(stack@),
        {
            let ghost before = stack@;
            let node = stack.pop().unwrap();
            let ghost rest = stack@;
            proof {
                assert(before.drop_last() =~= rest);
            }
            match node {
                ExtValue::Unit => {},
                ExtValue::Left(inner) => {
                    width += 1;
                    stack.push(&**inner);
                    proof {
                        lemma_stacked_push(rest, &**inner);
                    }
                },
                ExtValue::Right(inner) => {
                    width += 1;
                    stack.push(&**inner);
                    proof {
                        lemma_stacked_push(rest, &**inner);
                    }
                },
                ExtValue::Product(left, right) => {
                    stack.push(&**right);
                    stack.push(&**left);
                    proof {
                        lemma_stacked_push(rest, &**right);
                        lemma_stacked_push(rest.push(&**right), &**left);
                    }
                },
                ExtValue::Bits(bits) => {
                    width += bits.bit_length();
                },
                ExtValue::Bytes(bytes) => {
                    width += bytes.byte_length() * 8;
                },
            }
        }
        width
    }

    /// The bits of the value, leftmost first.
    pub fn iter_bits(&self) -> (bits: Vec<bool>)
        ensures
            bits@ == self@.bits(),
    {
        let mut bits: Vec<bool> = Vec::new();
        let mut stack: Vec<&ExtValue> = Vec::new();
        stack.push(self);
        proof {
            lemma_stacked_push(Seq::empty(), self);
            assert(bits@ + stacked_bits(stack@) =~= self@.bits());
        }
        while stack.len() > 0
            invariant
                bits@ + stacked_bits(stack@) == self@.bits(),
            decreases stacked_size(stack@),
        {
            let ghost before = stack@;
            let ghost done = bits@;
            let node = stack.pop().unwrap();
            let ghost rest = stack@;
            proof {
                assert(before.drop_last() =~= rest);
            }
            match node {
                ExtValue::Unit => {
                    proof {
                        assert(done + stacked_bits(before) =~= done + stacked_bits(rest));
                    }
                },
                ExtValue::Left(inner) => {
                    bits.push(false);
                    stack.push(&**inner);
                    proof {
                        lemma_stacked_push(rest, &**inner);
                    }
                },
                ExtValue::Right(inner) => {
                    bits.push(true);
                    stack.push(&**inner);
                    proof {
                        lemma_stacked_push(rest, &**inner);
                    }
                },
                ExtValue::Product(left, right) => {
                    stack.push(&**right);
                    stack.push(&**left);
                    proof {
                        lemma_stacked_push(rest, &**right);
                        lemma_stacked_push(rest.push(&**right), &**left);
                    }
                },
                ExtValue::Bits(run) => {
                    let mut more = run.iter_bits();
                    bits.append(&mut more);
                },
                ExtValue::Bytes(run) => {
                    let mut more = run.iter_bits();
                    bits.append(&mut more);
                },
            }
            proof {
                assert(bits@ + stacked_bits(stack@) =~= done + stacked_bits(before));
            }
        }
        proof {
            assert(bits@ + stacked_bits(stack@) =~= bits@);
        }
        bits
    }
}

} // verus!
