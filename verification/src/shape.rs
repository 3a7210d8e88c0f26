//! What an extended value is, apart from how its runs are stored.

use crate::length::{is_pow2, lemma_pow2_half};
use crate::types::TypeShape;
use crate::word::{byte_bits, bytes_bits, lemma_bits_of_len};
use vstd::prelude::*;

verus! {

/// An extended value with each run given by its contents.
pub enum Shape {
    /// The unit value.
    Unit,
    /// A left value.
    Left(Box<Shape>),
    /// A right value.
    Right(Box<Shape>),
    /// A product of two values.
    Product(Box<Shape>, Box<Shape>),
    /// A run of bits.
    Bits(Seq<bool>),
    /// A run of bytes.
    Bytes(Seq<u8>),
}

impl Shape {
    /// Whether the length of every run is a power of two.
    pub open spec fn wf(self) -> bool
        decreases self,
    {
        match self {
            Shape::Unit => true,
            Shape::Left(inner) => inner.wf(),
            Shape::Right(inner) => inner.wf(),
            Shape::Product(left, right) => left.wf() && right.wf(),
            Shape::Bits(run) => is_pow2(run.len() as int),
            Shape::Bytes(run) => is_pow2(run.len() as int),
        }
    }

    /// Whether the value holds no run.
    pub open spec fn is_explicit(self) -> bool
        decreases self,
    {
        match self {
            Shape::Unit => true,
            Shape::Left(inner) => inner.is_explicit(),
            Shape::Right(inner) => inner.is_explicit(),
            Shape::Product(left, right) => left.is_explicit() && right.is_explicit(),
            Shape::Bits(run) => false,
            Shape::Bytes(run) => false,
        }
    }

    /// Whether the value is a value of the type `ty`, written without runs.
    pub open spec fn has_type(self, ty: TypeShape) -> bool
        decreases self,
    {
        match self {
            Shape::Unit => ty is Unit,
            Shape::Left(inner) => ty matches TypeShape::Sum(left, _) && inner.has_type(*left),
            Shape::Right(inner) => ty matches TypeShape::Sum(_, right) && inner.has_type(*right),
            Shape::Product(first, second) => ty matches TypeShape::Product(left, right)
                && first.has_type(*left) && second.has_type(*right),
            Shape::Bits(run) => false,
            Shape::Bytes(run) => false,
        }
    }

    /// The bits of the value, leftmost first.
    ///
    /// A left value is `false` followed by the bits of what it wraps, a right
    /// value is `true` followed by them, and a run of bytes gives the bits of
    /// each byte, most significant first.
    pub open spec fn bits(self) -> Seq<bool>
        decreases self,
    {
        match self {
            Shape::Unit => Seq::empty(),
            Shape::Left(inner) => seq![false] + inner.bits(),
            Shape::Right(inner) => seq![true] + inner.bits(),
            Shape::Product(left, right) => left.bits() + right.bits(),
            Shape::Bits(run) => run,
            Shape::Bytes(run) => bytes_bits(run),
        }
    }

    /// The number of bits of the value.
    pub open spec fn bit_width(self) -> nat
        decreases self,
    {
        match self {
            Shape::Unit => 0,
            Shape::Left(inner) => 1 + inner.bit_width(),
            Shape::Right(inner) => 1 + inner.bit_width(),
            Shape::Product(left, right) => left.bit_width() + right.bit_width(),
            Shape::Bits(run) => run.len(),
            Shape::Bytes(run) => 8 * run.len(),
        }
    }

    /// The number of nodes of the value, a run being one node.
    pub open spec fn size(self) -> nat
        decreases self,
    {
        match self {
            Shape::Unit => 1,
            Shape::Left(inner) => 1 + inner.size(),
            Shape::Right(inner) => 1 + inner.size(),
            Shape::Product(left, right) => 1 + left.size() + right.size(),
            Shape::Bits(run) => 1,
            Shape::Bytes(run) => 1,
        }
    }

    /// What a left value wraps.  A run of the one bit `false` is a left
    /// value that wraps the unit.
    pub open spec fn split_left(self) -> Option<Shape> {
        match self {
            Shape::Left(inner) => Some(*inner),
            Shape::Bits(run) => if run.len() == 1 && !run[0] {
                Some(Shape::Unit)
            } else {
                None
            },
            _ => None,
        }
    }

    /// What a right value wraps.  A run of the one bit `true` is a right
    /// value that wraps the unit.
    pub open spec fn split_right(self) -> Option<Shape> {
        match self {
            Shape::Right(inner) => Some(*inner),
            Shape::Bits(run) => if run.len() == 1 && run[0] {
                Some(Shape::Unit)
            } else {
                None
            },
            _ => None,
        }
    }

    /// The two parts of a product.  A run of more than one bit or byte is
    /// the product of its halves, and a run of one byte is the product of the
    /// runs of its upper and lower four bits.
    pub open spec fn split_product(self) -> Option<(Shape, Shape)> {
        match self {
            Shape::Product(left, right) => Some((*left, *right)),
            Shape::Bits(run) => if run.len() > 1 {
                Some(
                    (
                        Shape::Bits(run.take(run.len() as int / 2)),
                        Shape::Bits(run.skip(run.len() as int / 2)),
                    ),
                )
            } else {
                None
            },
            Shape::Bytes(run) => if run.len() > 1 {
                Some(
                    (
                        Shape::Bytes(run.take(run.len() as int / 2)),
                        Shape::Bytes(run.skip(run.len() as int / 2)),
                    ),
                )
            } else if run.len() == 1 {
                Some(
                    (
                        Shape::Bits(byte_bits(run[0]).take(4)),
                        Shape::Bits(byte_bits(run[0]).skip(4)),
                    ),
                )
            } else {
                None
            },
            _ => None,
        }
    }

    /// What a left value wraps has the bits of the value after its first
    /// bit, which is `false`; for a right value that bit is `true`.
    pub proof fn lemma_split_sum(self)
        ensures
            self.split_left() matches Some(inner) ==> self.bits() == seq![false] + inner.bits()
                && (self.wf() ==> inner.wf()),
            self.split_right() matches Some(inner) ==> self.bits() == seq![true] + inner.bits()
                && (self.wf() ==> inner.wf()),
    {
        match self {
            Shape::Bits(run) => {
                if run.len() == 1 {
                    assert(run =~= seq![run[0]] + Seq::<bool>::empty());
                }
            },
            _ => {},
        }
    }

    /// The two parts of a product have, one after the other, the bits of the
    /// product.  The halves of a run are runs, and have the same number of
    /// bits.
    pub proof fn lemma_split_product(self)
        requires
            self.wf(),
        ensures
            match self.split_product() {
                Some((left, right)) => {
                    &&& left.wf()
                    &&& right.wf()
                    &&& left.bits() + right.bits() == self.bits()
                    &&& left.bit_width() + right.bit_width() == self.bit_width()
                    &&& self is Bits || self is Bytes ==> left.bit_width() == right.bit_width()
                },
                None => self.bit_width() <= 1 || self is Left || self is Right,
            },
    {
        reveal_with_fuel(is_pow2, 4);
        match self {
            Shape::Product(left, right) => {
                left.lemma_bit_width();
                right.lemma_bit_width();
            },
            Shape::Bits(run) => {
                if run.len() > 1 {
                    lemma_pow2_half(run.len() as int);
                    let half = run.len() as int / 2;
                    assert(run.take(half) + run.skip(half) =~= run);
                }
            },
            Shape::Bytes(run) => {
                if run.len() > 1 {
                    lemma_pow2_half(run.len() as int);
                    let half = run.len() as int / 2;
                    assert(bytes_bits(run.take(half)) + bytes_bits(run.skip(half)) =~= bytes_bits(
                        run,
                    ));
                } else {
                    let bits = byte_bits(run[0]);
                    lemma_bits_of_len(run[0] as nat, 8);
                    assert(bits.take(4) + bits.skip(4) =~= bits);
                    assert(bytes_bits(run) =~= bits);
                }
            },
            _ => {},
        }
    }

    /// A run or a product of two equally wide values, of `2 * k` bits in all,
    /// splits into two values of `k` bits each, which have, one after the
    /// other, the bits of the whole.
    pub proof fn lemma_split_halves(self, k: nat)
        requires
            self.wf(),
            self.bit_width() == 2 * k,
            self is Bits || self is Bytes || (self matches Shape::Product(left, right)
                && left.bit_width() == right.bit_width()),
        ensures
            self.split_product() matches Some((left, right)) && left.bit_width() == k
                && right.bit_width() == k && left.bits() + right.bits() == self.bits(),
    {
        self.lemma_split_product();
    }

    /// The number of bits of a value is the length of its sequence of bits.
    pub proof fn lemma_bit_width(self)
        ensures
            self.bits().len() == self.bit_width(),
        decreases self,
    {
        match self {
            Shape::Unit => {},
            Shape::Left(inner) => inner.lemma_bit_width(),
            Shape::Right(inner) => inner.lemma_bit_width(),
            Shape::Product(left, right) => {
                left.lemma_bit_width();
                right.lemma_bit_width();
            },
            Shape::Bits(run) => {},
            Shape::Bytes(run) => {},
        }
    }
}

} // verus!
