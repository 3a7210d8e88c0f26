//! From a type and a stream of bits to the extended value of that type which
//! the bits spell.

use crate::error::Error;
use crate::shape::Shape;
use crate::types::{Descriptor, TypeShape};
use crate::value::ExtValue;
use simplicity::types::Final;
use std::sync::Arc;
use vstd::prelude::*;
use vstd::std_specs::iter::IteratorSpec;

verus! {

/// The value of type `ty` that the bits from position `at` on spell, with
/// the position after its last bit; `None` where the bits run out.
///
/// The unit type takes no bit.  A sum takes one bit, which chooses the side:
/// `false` the left, `true` the right.  A product takes the bits of its left
/// side and then those of its right side.
pub open spec fn decode(ty: TypeShape, bits: Seq<bool>, at: int) -> Option<(Shape, int)>
    decreases ty,
{
    match ty {
        TypeShape::Unit => Some((Shape::Unit, at)),
        TypeShape::Sum(left, right) => if at < 0 || at >= bits.len() {
            None
        } else if !bits[at] {
            match decode(*left, bits, at + 1) {
                Some((inner, end)) => Some((Shape::Left(Box::new(inner)), end)),
                None => None,
            }
        } else {
            match decode(*right, bits, at + 1) {
                Some((inner, end)) => Some((Shape::Right(Box::new(inner)), end)),
                None => None,
            }
        },
        TypeShape::Product(left, right) => match decode(*left, bits, at) {
            Some((first, mid)) => match decode(*right, bits, mid) {
                Some((second, end)) => Some(
                    (Shape::Product(Box::new(first), Box::new(second)), end),
                ),
                None => None,
            },
            None => None,
        },
    }
}

/// A decoded value is a value of the type; its bits are the bits that were
/// taken, in their order; it takes no more bits than the type has; and the
/// bits run out only where fewer are left than the type has.
pub proof fn lemma_decode_bits(ty: TypeShape, bits: Seq<bool>, at: int)
    requires
        0 <= at <= bits.len(),
    ensures
        match decode(ty, bits, at) {
            Some((value, end)) => {
                &&& at <= end <= bits.len()
                &&& end == at + value.bit_width()
                &&& end <= at + ty.bit_width()
                &&& value.bits() == bits.subrange(at, end)
                &&& value.has_type(ty)
                &&& value.is_explicit()
                &&& value.wf()
            },
            None => at + ty.bit_width() > bits.len(),
        },
    decreases ty,
{
    match ty {
        TypeShape::Unit => {
            assert(bits.subrange(at, at) =~= Seq::<bool>::empty());
        },
        TypeShape::Sum(left, right) => {
            if at < bits.len() {
                let side = if !bits[at] { *left } else { *right };
                lemma_decode_bits(side, bits, at + 1);
                match decode(side, bits, at + 1) {
                    Some((inner, end)) => {
                        assert(seq![bits[at]] + bits.subrange(at + 1, end) =~= bits.subrange(
                            at,
                            end,
                        ));
                    },
                    None => {},
                }
            }
        },
        TypeShape::Product(left, right) => {
            lemma_decode_bits(*left, bits, at);
            match decode(*left, bits, at) {
                Some((first, mid)) => {
                    lemma_decode_bits(*right, bits, mid);
                    match decode(*right, bits, mid) {
                        Some((second, end)) => {
                            assert(bits.subrange(at, mid) + bits.subrange(mid, end)
                                =~= bits.subrange(at, end));
                        },
                        None => {},
                    }
                },
                None => {},
            }
        },
    }
}

/// Every value of a type in which the two sides of every sum take the same
/// number of bits takes exactly the number of bits of the type.
pub proof fn lemma_decode_exact(ty: TypeShape, bits: Seq<bool>, at: int)
    requires
        0 <= at <= bits.len(),
        ty.is_exact(),
    ensures
        match decode(ty, bits, at) {
            Some((value, end)) => end == at + ty.bit_width(),
            None => at + ty.bit_width() > bits.len(),
        },
    decreases ty,
{
    lemma_decode_bits(ty, bits, at);
    match ty {
        TypeShape::Unit => {},
        TypeShape::Sum(left, right) => {
            if at < bits.len() {
                lemma_decode_exact(*left, bits, at + 1);
                lemma_decode_exact(*right, bits, at + 1);
            }
        },
        TypeShape::Product(left, right) => {
            lemma_decode_exact(*left, bits, at);
            match decode(*left, bits, at) {
                Some((first, mid)) => {
                    lemma_decode_bits(*left, bits, at);
                    lemma_decode_exact(*right, bits, mid);
                },
                None => {},
            }
        },
    }
}

/// Decoding as many bits as a type has succeeds, and the bits of the value
/// are the bits that were taken: all of them where the value took them all,
/// as every value does of a type in which the two sides of every sum take
/// the same number of bits.
pub proof fn lemma_decode_round_trip(ty: TypeShape, bits: Seq<bool>)
    requires
        bits.len() == ty.bit_width(),
    ensures
        decode(ty, bits, 0) matches Some((value, end)) && {
            &&& 0 <= end <= bits.len()
            &&& value.bits() == bits.take(end)
            &&& end == bits.len() ==> value.bits() == bits
            &&& ty.is_exact() ==> end == bits.len()
        },
{
    lemma_decode_bits(ty, bits, 0);
    if ty.is_exact() {
        lemma_decode_exact(ty, bits, 0);
    }
    if let Some((value, end)) = decode(ty, bits, 0) {
        assert(bits.subrange(0, end) =~= bits.take(end));
        assert(bits.take(bits.len() as int) =~= bits);
    }
}

/// What is left to do for a part of the type.
enum Task<T> {
    /// Decode a value of this type.
    ReadType(T),
    /// Wrap the last value into a left value.
    MakeLeft,
    /// Wrap the last value into a right value.
    MakeRight,
    /// Make the last two values a product.
    MakeProduct,
}

/// A bound on the number of rounds that a task still takes.
spec fn task_weight<T: Descriptor>(task: Task<T>) -> nat {
    match task {
        Task::ReadType(ty) => 2 * ty.shape().size(),
        _ => 1,
    }
}

/// A bound on the number of rounds that the tasks on a stack still take.
spec fn work<T: Descriptor>(tasks: Seq<Task<T>>) -> nat
    decreases tasks.len(),
{
    if tasks.len() == 0 {
        0
    } else {
        task_weight(tasks.last()) + work(tasks.drop_last())
    }
}

/// How far a stack of tasks gets.
enum Outcome {
    /// All tasks are done: the values, and the position after the last bit
    /// that was taken.
    Done(Seq<Shape>, int),
    /// The bits ran out.
    OutOfBits,
    /// A task found too few values.
    Stuck,
}

/// The values and the position after one task.
spec fn apply<T: Descriptor>(
    task: Task<T>,
    values: Seq<Shape>,
    bits: Seq<bool>,
    at: int,
) -> Outcome {
    match task {
        Task::ReadType(ty) => match decode(ty.shape(), bits, at) {
            Some((value, end)) => Outcome::Done(values.push(value), end),
            None => Outcome::OutOfBits,
        },
        Task::MakeLeft => if values.len() >= 1 {
            Outcome::Done(values.drop_last().push(Shape::Left(Box::new(values.last()))), at)
        } else {
            Outcome::Stuck
        },
        Task::MakeRight => if values.len() >= 1 {
            Outcome::Done(values.drop_last().push(Shape::Right(Box::new(values.last()))), at)
        } else {
            Outcome::Stuck
        },
        Task::MakeProduct => if values.len() >= 2 {
            Outcome::Done(
                values.drop_last().drop_last().push(
                    Shape::Product(Box::new(values[values.len() - 2]), Box::new(values.last())),
                ),
                at,
            )
        } else {
            Outcome::Stuck
        },
    }
}

/// The values and the position after all the tasks on a stack, taken from
/// its top (the last entry) down.
spec fn run<T: Descriptor>(
    tasks: Seq<Task<T>>,
    values: Seq<Shape>,
    bits: Seq<bool>,
    at: int,
) -> Outcome
    decreases tasks.len(),
{
    if tasks.len() == 0 {
        Outcome::Done(values, at)
    } else {
        match apply(tasks.last(), values, bits, at) {
            Outcome::Done(next, end) => run(tasks.drop_last(), next, bits, end),
            other => other,
        }
    }
}

/// What decoding one value comes to.
spec fn outcome_of(decoded: Option<(Shape, int)>) -> Outcome {
    match decoded {
        Some((shape, end)) => Outcome::Done(seq![shape], end),
        None => Outcome::OutOfBits,
    }
}

proof fn lemma_run_push<T: Descriptor>(
    tasks: Seq<Task<T>>,
    task: Task<T>,
    values: Seq<Shape>,
    bits: Seq<bool>,
    at: int,
)
    ensures
        run(tasks.push(task), values, bits, at) == match apply(task, values, bits, at) {
            Outcome::Done(next, end) => run(tasks, next, bits, end),
            other => other,
        },
        work(tasks.push(task)) == work(tasks) + task_weight(task),
{
    assert(tasks.push(task).drop_last() =~= tasks);
}

/// Whether no task on a stack will find too few values, given that there
/// are `have` values now, and whether one value is left at the end.
spec fn settled<T: Descriptor>(tasks: Seq<Task<T>>, have: int) -> bool
    decreases tasks.len(),
{
    if tasks.len() == 0 {
        have == 1
    } else {
        match tasks.last() {
            Task::ReadType(_) => settled(tasks.drop_last(), have + 1),
            Task::MakeLeft => have >= 1 && settled(tasks.drop_last(), have),
            Task::MakeRight => have >= 1 && settled(tasks.drop_last(), have),
            Task::MakeProduct => have >= 2 && settled(tasks.drop_last(), have - 1),
        }
    }
}

proof fn lemma_settled_push<T: Descriptor>(tasks: Seq<Task<T>>, task: Task<T>, have: int)
    ensures
        settled(tasks.push(task), have) == match task {
            Task::ReadType(_) => settled(tasks, have + 1),
            Task::MakeLeft => have >= 1 && settled(tasks, have),
            Task::MakeRight => have >= 1 && settled(tasks, have),
            Task::MakeProduct => have >= 2 && settled(tasks, have - 1),
        },
{
    assert(tasks.push(task).drop_last() =~= tasks);
}

/// Reading a sum comes to reading the side that the next bit chooses and
/// wrapping what was read.
proof fn lemma_read_sum<T: Descriptor>(
    rest: Seq<Task<T>>,
    had: Seq<Shape>,
    bits: Seq<bool>,
    at: int,
    whole: T,
    side: T,
    make: Task<T>,
    have: int,
)
    requires
        have >= 0,
        whole.shape() matches TypeShape::Sum(left, right) && ({
            ||| make == Task::<T>::MakeLeft && *left == side.shape()
            ||| make == Task::<T>::MakeRight && *right == side.shape()
        }),
    ensures
        work(rest.push(make).push(Task::ReadType(side))) < work(rest.push(Task::ReadType(whole))),
        settled(rest.push(make).push(Task::ReadType(side)), have) == settled(
            rest.push(Task::ReadType(whole)),
            have,
        ),
        0 <= at < bits.len() && bits[at] == (make == Task::<T>::MakeRight) ==> run(
            rest.push(make).push(Task::ReadType(side)),
            had,
            bits,
            at + 1,
        ) == run(rest.push(Task::ReadType(whole)), had, bits, at),
{
    lemma_settled_push(rest, make, have + 1);
    lemma_settled_push(rest.push(make), Task::ReadType(side), have);
    lemma_settled_push(rest, Task::ReadType(whole), have);
    lemma_run_push(rest, make, had, bits, at + 1);
    lemma_run_push(rest.push(make), Task::ReadType(side), had, bits, at + 1);
    lemma_run_push(rest, Task::ReadType(whole), had, bits, at);
    if let Some((inner, end)) = decode(side.shape(), bits, at + 1) {
        lemma_run_push(rest, make, had.push(inner), bits, end);
        assert(had.push(inner).drop_last() =~= had);
    }
}

/// Reading a product comes to reading its left side, reading its right side
/// and making a product of what was read.
proof fn lemma_read_product<T: Descriptor>(
    rest: Seq<Task<T>>,
    had: Seq<Shape>,
    bits: Seq<bool>,
    at: int,
    whole: T,
    left: T,
    right: T,
    have: int,
)
    requires
        have >= 0,
        whole.shape() == TypeShape::Product(Box::new(left.shape()), Box::new(right.shape())),
    ensures
        work(rest.push(Task::MakeProduct).push(Task::ReadType(right)).push(Task::ReadType(left)))
            < work(rest.push(Task::ReadType(whole))),
        settled(
            rest.push(Task::MakeProduct).push(Task::ReadType(right)).push(Task::ReadType(left)),
            have,
        ) == settled(rest.push(Task::ReadType(whole)), have),
        run(
            rest.push(Task::MakeProduct).push(Task::ReadType(right)).push(Task::ReadType(left)),
            had,
            bits,
            at,
        ) == run(rest.push(Task::ReadType(whole)), had, bits, at),
{
    let make = rest.push(Task::MakeProduct);
    lemma_settled_push(rest, Task::MakeProduct, have + 2);
    lemma_settled_push(make, Task::ReadType(right), have + 1);
    lemma_settled_push(make.push(Task::ReadType(right)), Task::ReadType(left), have);
    lemma_settled_push(rest, Task::ReadType(whole), have);
    lemma_run_push(rest, Task::MakeProduct, had, bits, at);
    lemma_run_push(make, Task::ReadType(right), had, bits, at);
    lemma_run_push(make.push(Task::ReadType(right)), Task::ReadType(left), had, bits, at);
    lemma_run_push(rest, Task::ReadType(whole), had, bits, at);
    if let Some((first, mid)) = decode(left.shape(), bits, at) {
        lemma_run_push(make, Task::ReadType(right), had.push(first), bits, mid);
        if let Some((second, end)) = decode(right.shape(), bits, mid) {
            let both = had.push(first).push(second);
            lemma_run_push(rest, Task::MakeProduct, both, bits, end);
            assert(both.drop_last() =~= had.push(first));
            assert(had.push(first).drop_last() =~= had);
        }
    }
}

/// What the values on a stack are.
spec fn shapes(values: Seq<Arc<ExtValue>>) -> Seq<Shape> {
    Seq::new(values.len(), |i: int| values[i]@)
}

impl ExtValue {
    /// The value of type `ty` that the coming bits of `it` spell, or
    /// `OutOfBits` where `it` ends before the value is complete.
    ///
    /// The value holds no run.  Where `it` keeps to the laws of iterators,
    /// the value is the one that `decode` gives for the bits that `it` had
    /// to give, an error means that these were fewer than the type has, and
    /// `it` is left with the bits after those of the value.
    pub fn from_bits<I: Iterator<Item = bool>>(ty: Arc<Final>, it: &mut I) -> (result: Result<
        Arc<Self>,
        Error,
    >)
        ensures
            result matches Ok(value) ==> value@.is_explicit(),
            result matches Err(e) ==> e == Error::OutOfBits,
            (*old(it)).obeys_prophetic_iter_laws() ==> match result {
                Ok(value) => decode(ty.shape(), (*old(it)).remaining(), 0) matches Some(
                    (shape, end),
                ) && {
                    &&& value@ == shape
                    &&& (*final(it)).remaining() == (*old(it)).remaining().skip(end)
                },
                Err(_) => {
                    &&& decode(ty.shape(), (*old(it)).remaining(), 0) is None
                    &&& (*old(it)).remaining().len() < ty.shape().bit_width()
                },
            },
    {
        Self::from_bits_of(ty, it)
    }

    /// The value of the type that `ty` describes which the coming bits of
    /// `it` spell, or `OutOfBits` where `it` ends before the value is
    /// complete.
    ///
    /// The value holds no run.  Where `it` keeps to the laws of iterators,
    /// the value is the one that `decode` gives for the bits that `it` had
    /// to give, an error means that these were fewer than the type has, and
    /// `it` is left with the bits after those of the value.
    pub fn from_bits_of<T: Descriptor, I: Iterator<Item = bool>>(ty: T, it: &mut I) -> (result:
        Result<Arc<Self>, Error>)
        ensures
            result matches Ok(value) ==> value@.is_explicit(),
            result matches Err(e) ==> e == Error::OutOfBits,
            (*old(it)).obeys_prophetic_iter_laws() ==> match result {
                Ok(value) => decode(ty.shape(), (*old(it)).remaining(), 0) matches Some(
                    (shape, end),
                ) && {
                    &&& value@ == shape
                    &&& (*final(it)).remaining() == (*old(it)).remaining().skip(end)
                },
                Err(_) => {
                    &&& decode(ty.shape(), (*old(it)).remaining(), 0) is None
                    &&& (*old(it)).remaining().len() < ty.shape().bit_width()
                },
            },
    {
        let ghost root = ty.shape();
        let ghost bits = (*it).remaining();
        let ghost lawful = (*it).obeys_prophetic_iter_laws();
        let ghost mut at: int = 0;
        let mut task_stack: Vec<Task<T>> = Vec::new();
        let mut result_stack: Vec<Arc<ExtValue>> = Vec::new();
        proof {
            lemma_decode_bits(root, bits, 0);
            lemma_run_push(Seq::empty(), Task::ReadType(ty), shapes(result_stack@), bits, 0);
            lemma_settled_push(Seq::empty(), Task::ReadType(ty), 0);
            assert(shapes(result_stack@) =~= Seq::empty());
            assert(bits.skip(0) =~= bits);
            assert forall|shape: Shape| #[trigger]
                Seq::<Shape>::empty().push(shape) == seq![shape] by {
                assert(Seq::<Shape>::empty().push(shape) =~= seq![shape]);
            }
        }
        task_stack.push(Task::ReadType(ty));
        while task_stack.len() > 0
            invariant
                root == ty.shape(),
                bits == (*old(it)).remaining(),
                lawful == (*old(it)).obeys_prophetic_iter_laws(),
                (*it).obeys_prophetic_iter_laws() == lawful,
                settled(task_stack@, result_stack@.len() as int),
                forall|i: int|
                    0 <= i < result_stack@.len() ==> (#[trigger] result_stack@[i])@.is_explicit(),
                lawful ==> {
                    &&& 0 <= at <= bits.len()
                    &&& (*it).remaining() == bits.skip(at)
                    &&& decode(root, bits, 0) is None ==> root.bit_width() > bits.len()
                    &&& run(task_stack@, shapes(result_stack@), bits, at) == outcome_of(
                        decode(root, bits, 0),
                    )
                },
            decreases work(task_stack@),
        {
            let ghost before = task_stack@;
            let ghost had = shapes(result_stack@);
            let ghost have = result_stack@.len() as int;
            let task = task_stack.pop().unwrap();
            let ghost rest = task_stack@;
            proof {
                assert(before =~= rest.push(task));
                lemma_settled_push(rest, task, have);
                lemma_run_push(rest, task, had, bits, at);
            }
            match task {
                Task::ReadType(ty) => {
                    if ty.is_unit_type() {
                        result_stack.push(ExtValue::unit());
                        proof {
                            assert(shapes(result_stack@) =~= had.push(Shape::Unit));
                        }
                    } else if let Some((left, right)) = ty.sum_sides() {
                        let ghost coming = (*it).remaining();
                        match it.next() {
                            None => {
                                proof {
                                    assert(lawful ==> run(before, had, bits, at)
                                        == Outcome::OutOfBits);
                                }
                                return Err(Error::OutOfBits);
                            },
                            Some(bit) => {
                                proof {
                                    assert(lawful ==> coming.drop_first() =~= bits.skip(at + 1));
                                    if bit {
                                        lemma_read_sum(
                                            rest,
                                            had,
                                            bits,
                                            at,
                                            ty,
                                            right,
                                            Task::MakeRight,
                                            have,
                                        );
                                    } else {
                                        lemma_read_sum(
                                            rest,
                                            had,
                                            bits,
                                            at,
                                            ty,
                                            left,
                                            Task::MakeLeft,
                                            have,
                                        );
                                    }
                                    at = at + 1;
                                }
                                if !bit {
                                    task_stack.push(Task::MakeLeft);
                                    task_stack.push(Task::ReadType(left));
                                } else {
                                    task_stack.push(Task::MakeRight);
                                    task_stack.push(Task::ReadType(right));
                                }
                            },
                        }
                    } else if let Some((left, right)) = ty.product_sides() {
                        proof {
                            lemma_read_product(rest, had, bits, at, ty, left, right, have);
                        }
                        task_stack.push(Task::MakeProduct);
                        task_stack.push(Task::ReadType(right));
                        task_stack.push(Task::ReadType(left));
                    }
                },
                Task::MakeLeft => {
                    let inner = result_stack.pop().unwrap();
                    result_stack.push(ExtValue::left(inner));
                    proof {
                        assert(shapes(result_stack@) =~= had.drop_last().push(
                            Shape::Left(Box::new(had.last())),
                        ));
                    }
                },
                Task::MakeRight => {
                    let inner = result_stack.pop().unwrap();
                    result_stack.push(ExtValue::right(inner));
                    proof {
                        assert(shapes(result_stack@) =~= had.drop_last().push(
                            Shape::Right(Box::new(had.last())),
                        ));
                    }
                },
                Task::MakeProduct => {
                    let right = result_stack.pop().unwrap();
                    let left = result_stack.pop().unwrap();
                    result_stack.push(ExtValue::product(left, right));
                    proof {
                        assert(shapes(result_stack@) =~= had.drop_last().drop_last().push(
                            Shape::Product(Box::new(had[had.len() - 2]), Box::new(had.last())),
                        ));
                    }
                },
            }
        }
        let value = result_stack.pop().unwrap();
        Ok(value)
    }
}

} // verus!
