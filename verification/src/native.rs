//! Values in their explicit form: trees of unit, left, right and product
//! nodes, as `simplicity::Value` holds them.

use crate::error::Error;
use simplicity::Value;
use vstd::prelude::*;

verus! {

/// `simplicity::Value`: a public enum of the variants `Unit`, `SumL`, `SumR`
/// and `Prod`, whose children are held in `Arc`s.  It is declared with its
/// variants, so that contracts speak of the tree itself.
#[verifier::external_type_specification]
pub struct ExValue(Value);

/// The bits of a value, leftmost first: a left node is `false`, a right node
/// is `true`, and the node of a sum comes before what it wraps.
pub open spec fn value_bits(v: &Value) -> Seq<bool>
    decreases v,
{
    match v {
        Value::Unit => Seq::empty(),
        Value::SumL(inner) => seq![false] + value_bits(&**inner),
        Value::SumR(inner) => seq![true] + value_bits(&**inner),
        Value::Prod(left, right) => value_bits(&**left) + value_bits(&**right),
    }
}

/// The number of nodes of a value.
pub open spec fn value_size(v: &Value) -> nat
    decreases v,
{
    match v {
        Value::Unit => 1,
        Value::SumL(inner) => 1 + value_size(&**inner),
        Value::SumR(inner) => 1 + value_size(&**inner),
        Value::Prod(left, right) => 1 + value_size(&**left) + value_size(&**right),
    }
}

/// Whether a value has the shape of a run: every left and right node wraps
/// the unit, and no product is a product of two units.
pub open spec fn is_run_shaped(v: &Value) -> bool
    decreases v,
{
    match v {
        Value::Unit => true,
        Value::SumL(inner) => **inner is Unit,
        Value::SumR(inner) => **inner is Unit,
        Value::Prod(left, right) => {
            &&& !(**left is Unit && **right is Unit)
            &&& is_run_shaped(&**left)
            &&& is_run_shaped(&**right)
        },
    }
}

/// The bits of the values on a stack, from its top (the last entry) down.
spec fn pending_bits(stack: Seq<&Value>) -> Seq<bool>
    decreases stack.len(),
{
    if stack.len() == 0 {
        Seq::empty()
    } else {
        value_bits(stack.last()) + pending_bits(stack.drop_last())
    }
}

/// The number of nodes of the values on a stack.
spec fn pending_size(stack: Seq<&Value>) -> nat
    decreases stack.len(),
{
    if stack.len() == 0 {
        0
    } else {
        value_size(stack.last()) + pending_size(stack.drop_last())
    }
}

/// Whether every value on a stack has the shape of a run.
spec fn pending_run_shaped(stack: Seq<&Value>) -> bool
    decreases stack.len(),
{
    stack.len() > 0 ==> is_run_shaped(stack.last()) && pending_run_shaped(stack.drop_last())
}

proof fn lemma_pending_push(stack: Seq<&Value>, node: &Value)
    ensures
        pending_bits(stack.push(node)) == value_bits(node) + pending_bits(stack),
        pending_size(stack.push(node)) == value_size(node) + pending_size(stack),
        pending_run_shaped(stack.push(node)) == (is_run_shaped(node) && pending_run_shaped(stack)),
{
    assert(stack.push(node).drop_last() =~= stack);
}

/// The bits of a value, leftmost first.
pub fn native_bits(value: &Value) -> (bits: Vec<bool>)
    ensures
        bits@ == value_bits(value),
{
    let mut bits: Vec<bool> = Vec::new();
    let mut stack: Vec<&Value> = Vec::new();
    stack.push(value);
    proof {
        lemma_pending_push(Seq::empty(), value);
        assert(bits@ + pending_bits(stack@) =~= value_bits(value));
    }
    while stack.len() > 0
        invariant
            bits@ + pending_bits(stack@) == value_bits(value),
        decreases pending_size(stack@),
    {
        let ghost before = stack@;
        let ghost done = bits@;
        let node = stack.pop().unwrap();
        let ghost rest = stack@;
        proof {
            assert(before.drop_last() =~= rest);
        }
        match node {
            Value::Unit => {
                proof {
                    assert(done + pending_bits(before) =~= done + pending_bits(rest));
                }
            },
            Value::SumL(inner) => {
                bits.push(false);
                stack.push(&**inner);
                proof {
                    lemma_pending_push(rest, &**inner);
                    assert(bits@ + pending_bits(stack@) =~= done + pending_bits(before));
                }
            },
            Value::SumR(inner) => {
                bits.push(true);
                stack.push(&**inner);
                proof {
                    lemma_pending_push(rest, &**inner);
                    assert(bits@ + pending_bits(stack@) =~= done + pending_bits(before));
                }
            },
            Value::Prod(left, right) => {
                stack.push(&**right);
                stack.push(&**left);
                proof {
                    lemma_pending_push(rest, &**right);
                    lemma_pending_push(rest.push(&**right), &**left);
                    assert(bits@ + pending_bits(stack@) =~= done + pending_bits(before));
                }
            },
        }
    }
    proof {
        assert(bits@ + pending_bits(stack@) =~= bits@);
    }
    bits
}

/// The bits of a value that has the shape of a run, leftmost first;
/// `NotAUniformRun` for any other value.
pub fn do_each_bit_strict(value: &Value) -> (result: Result<Vec<bool>, Error>)
    ensures
        match result {
            Ok(bits) => is_run_shaped(value) && bits@ == value_bits(value),
            Err(e) => !is_run_shaped(value) && e == Error::NotAUniformRun,
        },
{
    let mut bits: Vec<bool> = Vec::new();
    let mut stack: Vec<&Value> = Vec::new();
    stack.push(value);
    proof {
        lemma_pending_push(Seq::empty(), value);
        assert(bits@ + pending_bits(stack@) =~= value_bits(value));
    }
    while stack.len() > 0
        invariant
            bits@ + pending_bits(stack@) == value_bits(value),
            pending_run_shaped(stack@) == is_run_shaped(value),
        decreases pending_size(stack@),
    {
        let ghost before = stack@;
        let ghost done = bits@;
        let node = stack.pop().unwrap();
        let ghost rest = stack@;
        proof {
            assert(before.drop_last() =~= rest);
        }
        match node {
            Value::Unit => {
                proof {
                    assert(done + pending_bits(before) =~= done + pending_bits(rest));
                }
            },
            Value::SumL(inner) => {
                if let Value::Unit = &**inner {
                    bits.push(false);
                    proof {
                        assert(value_bits(&**inner) =~= Seq::empty());
                        assert(value_bits(node) =~= seq![false]);
                        assert(bits@ + pending_bits(stack@) =~= done + pending_bits(before));
                    }
                } else {
                    return Err(Error::NotAUniformRun);
                }
            },
            Value::SumR(inner) => {
                if let Value::Unit = &**inner {
                    bits.push(true);
                    proof {
                        assert(value_bits(&**inner) =~= Seq::empty());
                        assert(value_bits(node) =~= seq![true]);
                        assert(bits@ + pending_bits(stack@) =~= done + pending_bits(before));
                    }
                } else {
                    return Err(Error::NotAUniformRun);
                }
            },
            Value::Prod(left, right) => {
                if let (Value::Unit, Value::Unit) = (&**left, &**right) {
                    return Err(Error::NotAUniformRun);
                }
                stack.push(&**right);
                stack.push(&**left);
                proof {
                    lemma_pending_push(rest, &**right);
                    lemma_pending_push(rest.push(&**right), &**left);
                    assert(bits@ + pending_bits(stack@) =~= done + pending_bits(before));
                }
            },
        }
    }
    proof {
        assert(bits@ + pending_bits(stack@) =~= bits@);
    }
    Ok(bits)
}

} // verus!
