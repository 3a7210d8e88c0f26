//! Types of values: the unit type, sums and products, as
//! `simplicity::types::Final` holds them.

use simplicity::types::Final;
use std::sync::Arc;
use vstd::prelude::*;

verus! {

/// What a type is made of.
pub enum TypeShape {
    /// The unit type.
    Unit,
    /// The sum of two types.
    Sum(Box<TypeShape>, Box<TypeShape>),
    /// The product of two types.
    Product(Box<TypeShape>, Box<TypeShape>),
}

impl TypeShape {
    /// The number of nodes of the type.
    pub open spec fn size(self) -> nat
        decreases self,
    {
        match self {
            TypeShape::Unit => 1,
            TypeShape::Sum(left, right) => 1 + left.size() + right.size(),
            TypeShape::Product(left, right) => 1 + left.size() + right.size(),
        }
    }

    /// The number of bits that hold any value of the type: a sum takes one
    /// bit and the bits of its wider side.
    pub open spec fn bit_width(self) -> nat
        decreases self,
    {
        match self {
            TypeShape::Unit => 0,
            TypeShape::Sum(left, right) => 1 + if left.bit_width() >= right.bit_width() {
                left.bit_width()
            } else {
                right.bit_width()
            },
            TypeShape::Product(left, right) => left.bit_width() + right.bit_width(),
        }
    }

    /// Whether the two sides of every sum in the type take the same number
    /// of bits, so that every value of the type has the same number of bits.
    pub open spec fn is_exact(self) -> bool
        decreases self,
    {
        match self {
            TypeShape::Unit => true,
            TypeShape::Sum(left, right) => {
                &&& left.bit_width() == right.bit_width()
                &&& left.is_exact()
                &&& right.is_exact()
            },
            TypeShape::Product(left, right) => left.is_exact() && right.is_exact(),
        }
    }
}

/// `simplicity::types::Final`: a type without free variables.  Its fields are
/// private; what it is made of is read through `is_unit`, `split_sum` and
/// `split_product`.
#[verifier::external_type_specification]
#[verifier::external_body]
pub struct ExFinal(Final);

/// What a `simplicity::types::Final` is made of: the tree of its bound, which
/// is fixed when the type is built.
pub uninterp spec fn final_shape(ty: &Final) -> TypeShape;

/// `simplicity::types::Final::is_unit`: whether the bound of the type is the
/// unit type.
pub assume_specification[ Final::is_unit ](ty: &Final) -> (answer: bool)
    ensures
        answer == (final_shape(ty) is Unit),
;

/// `simplicity::types::Final::split_sum`: the two sides of the bound where it
/// is a sum, and `None` where it is not.
pub assume_specification[ Final::split_sum ](ty: &Final) -> (parts: Option<
    (Arc<Final>, Arc<Final>),
>)
    ensures
        match parts {
            Some((a, b)) => final_shape(ty) == TypeShape::Sum(
                Box::new(final_shape(&*a)),
                Box::new(final_shape(&*b)),
            ),
            None => !(final_shape(ty) is Sum),
        },
;

/// `simplicity::types::Final::split_product`: the two sides of the bound
/// where it is a product, and `None` where it is not.
pub assume_specification[ Final::split_product ](ty: &Final) -> (parts: Option<
    (Arc<Final>, Arc<Final>),
>)
    ensures
        match parts {
            Some((a, b)) => final_shape(ty) == TypeShape::Product(
                Box::new(final_shape(&*a)),
                Box::new(final_shape(&*b)),
            ),
            None => !(final_shape(ty) is Product),
        },
;

/// A type written out in full.
#[derive(Debug, PartialEq, Eq)]
pub enum TypeTree {
    /// The unit type.
    Unit,
    /// The sum of two types.
    Sum(Arc<TypeTree>, Arc<TypeTree>),
    /// The product of two types.
    Product(Arc<TypeTree>, Arc<TypeTree>),
}

impl View for TypeTree {
    type V = TypeShape;

    open spec fn view(&self) -> TypeShape
        decreases self,
    {
        match self {
            TypeTree::Unit => TypeShape::Unit,
            TypeTree::Sum(left, right) => TypeShape::Sum(
                Box::new((**left).view()),
                Box::new((**right).view()),
            ),
            TypeTree::Product(left, right) => TypeShape::Product(
                Box::new((**left).view()),
                Box::new((**right).view()),
            ),
        }
    }
}

impl Clone for TypeTree {
    /// The same type, sharing its sides.
    fn clone(&self) -> (ty: Self)
        ensures
            ty@ == self@,
    {
        match self {
            TypeTree::Unit => TypeTree::Unit,
            TypeTree::Sum(left, right) => TypeTree::Sum(left.clone(), right.clone()),
            TypeTree::Product(left, right) => TypeTree::Product(left.clone(), right.clone()),
        }
    }
}

/// Something that tells what a type is made of, one node at a time.
pub trait Descriptor: Sized {
    /// What the type is made of.
    spec fn shape(&self) -> TypeShape;

    /// Whether the type is the unit type.
    fn is_unit_type(&self) -> (answer: bool)
        ensures
            answer == (self.shape() is Unit),
    ;

    /// The two sides of the type where it is a sum, and `None` where it is
    /// not.
    fn sum_sides(&self) -> (sides: Option<(Self, Self)>)
        ensures
            match sides {
                Some((a, b)) => self.shape() == TypeShape::Sum(
                    Box::new(a.shape()),
                    Box::new(b.shape()),
                ),
                None => !(self.shape() is Sum),
            },
    ;

    /// The two sides of the type where it is a product, and `None` where it
    /// is not.
    fn product_sides(&self) -> (sides: Option<(Self, Self)>)
        ensures
            match sides {
                Some((a, b)) => self.shape() == TypeShape::Product(
                    Box::new(a.shape()),
                    Box::new(b.shape()),
                ),
                None => !(self.shape() is Product),
            },
    ;
}

impl Descriptor for Arc<Final> {
    open spec fn shape(&self) -> TypeShape {
        final_shape(&**self)
    }

    fn is_unit_type(&self) -> (answer: bool) {
        (**self).is_unit()
    }

    fn sum_sides(&self) -> (sides: Option<(Self, Self)>) {
        (**self).split_sum()
    }

    fn product_sides(&self) -> (sides: Option<(Self, Self)>) {
        (**self).split_product()
    }
}

impl Descriptor for Arc<TypeTree> {
    open spec fn shape(&self) -> TypeShape {
        (**self).view()
    }

    fn is_unit_type(&self) -> (answer: bool) {
        match &**self {
            TypeTree::Unit => true,
            _ => false,
        }
    }

    fn sum_sides(&self) -> (sides: Option<(Self, Self)>) {
        match &**self {
            TypeTree::Sum(left, right) => Some((left.clone(), right.clone())),
            _ => None,
        }
    }

    fn product_sides(&self) -> (sides: Option<(Self, Self)>) {
        match &**self {
            TypeTree::Product(left, right) => Some((left.clone(), right.clone())),
            _ => None,
        }
    }
}

} // verus!
