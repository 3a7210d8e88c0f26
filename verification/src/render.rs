//! Values as text.
//!
//! The unit is `●`, a left value is `L` and a right value `R` before what
//! they wrap, a product is `(left, right)`, a run of bits is `0b` and its
//! bits, a run of bytes is `0x` and its bytes in lower-case hexadecimal.

use crate::bits::Bits;
use crate::bytes::Bytes;
use crate::shape::Shape;
use crate::value::ExtValue;
use hex_conservative::DisplayHex;
use vstd::prelude::*;
use vstd::string::StringExecFns;

verus! {

/// One character for each bit: `0` for `false`, `1` for `true`.
pub open spec fn bit_digits(bits: Seq<bool>) -> Seq<char> {
    Seq::new(bits.len(), |i: int| if bits[i] { '1' } else { '0' })
}

/// The lower-case hexadecimal digit of a number below sixteen.
pub open spec fn hex_digit(n: int) -> char {
    seq!['0', '1', '2', '3', '4', '5', '6', '7', '8', '9', 'a', 'b', 'c', 'd', 'e', 'f'][n]
}

/// Two lower-case hexadecimal digits for each byte, the upper half first.
pub open spec fn hex_digits(bytes: Seq<u8>) -> Seq<char> {
    Seq::new(
        2 * bytes.len(),
        |i: int|
            if i % 2 == 0 {
                hex_digit(bytes[i / 2] as int / 16)
            } else {
                hex_digit(bytes[i / 2] as int % 16)
            },
    )
}

/// The text of a run of bits.
pub open spec fn bits_text(bits: Seq<bool>) -> Seq<char> {
    seq!['0', 'b'] + bit_digits(bits)
}

/// The text of a run of bytes.
pub open spec fn bytes_text(bytes: Seq<u8>) -> Seq<char> {
    seq!['0', 'x'] + hex_digits(bytes)
}

impl Shape {
    /// The text of a value.
    pub open spec fn text(self) -> Seq<char>
        decreases self,
    {
        match self {
            Shape::Unit => seq!['●'],
            Shape::Left(inner) => seq!['L'] + inner.text(),
            Shape::Right(inner) => seq!['R'] + inner.text(),
            Shape::Product(left, right) => seq!['('] + left.text() + seq![',', ' '] + right.text()
                + seq![')'],
            Shape::Bits(run) => bits_text(run),
            Shape::Bytes(run) => bytes_text(run),
        }
    }
}

/// `hex_conservative::DisplayHex::as_hex` on a slice of bytes, written with
/// `{}`: two lower-case hexadecimal digits for each byte, in the order of the
/// bytes, and nothing else.
#[verifier::external_body]
fn lower_hex(bytes: &[u8]) -> (text: String)
    ensures
        text@ == hex_digits(bytes@),
{
    format!("{}", bytes.as_hex())
}

impl Bits {
    /// The run as text: `0b` and one digit for each bit.
    pub fn to_string(&self) -> (text: String)
        ensures
            text@ == bits_text(self@),
    {
        let bits = self.iter_bits();
        let mut text = String::new();
        text.append("0b");
        proof {
            reveal_strlit("0b");
            reveal_strlit("0");
            reveal_strlit("1");
            assert(text@ =~= seq!['0', 'b'] + bit_digits(bits@.take(0)));
        }
        let mut i: usize = 0;
        while i < bits.len()
            invariant
                i <= bits@.len(),
                "0"@ == seq!['0'],
                "1"@ == seq!['1'],
                text@ == seq!['0', 'b'] + bit_digits(bits@.take(i as int)),
            decreases bits@.len() - i,
        {
            if bits[i] {
                text.append("1");
            } else {
                text.append("0");
            }
            proof {
                assert(text@ =~= seq!['0', 'b'] + bit_digits(bits@.take(i + 1)));
            }
            i += 1;
        }
        proof {
            assert(bits@.take(bits@.len() as int) =~= bits@);
        }
        text
    }
}

impl Bytes {
    /// The run as text: `0x` and two hexadecimal digits for each byte.
    pub fn to_string(&self) -> (text: String)
        ensures
            text@ == bytes_text(self@),
    {
        let digits = lower_hex(self.as_slice());
        let mut text = String::new();
        text.append("0x");
        text.append(digits.as_str());
        proof {
            reveal_strlit("0x");
            assert(text@ =~= seq!['0', 'x'] + hex_digits(self@));
        }
        text
    }
}

/// What is still to be written of a value of which `yielded` children have
/// been written.
spec fn text_left(value: Shape, yielded: int) -> Seq<char> {
    match value {
        Shape::Product(left, right) => if yielded == 0 {
            value.text()
        } else if yielded == 1 {
            seq![',', ' '] + right.text() + seq![')']
        } else {
            seq![')']
        },
        _ => value.text(),
    }
}

/// A bound on the number of rounds that a value still takes of which
/// `yielded` children have been written.
spec fn rounds_left(value: Shape, yielded: int) -> nat {
    match value {
        Shape::Product(left, right) => if yielded == 0 {
            3 * value.size()
        } else if yielded == 1 {
            3 * right.size() + 2
        } else {
            1
        },
        _ => 3 * value.size(),
    }
}

/// What is still to be written of the values on a stack, from its top (the
/// last entry) down.
spec fn stacked_text(stack: Seq<(&ExtValue, u8)>) -> Seq<char>
    decreases stack.len(),
{
    if stack.len() == 0 {
        Seq::empty()
    } else {
        text_left(stack.last().0@, stack.last().1 as int) + stacked_text(stack.drop_last())
    }
}

/// A bound on the number of rounds that the values on a stack still take.
spec fn stacked_rounds(stack: Seq<(&ExtValue, u8)>) -> nat
    decreases stack.len(),
{
    if stack.len() == 0 {
        0
    } else {
        rounds_left(stack.last().0@, stack.last().1 as int) + stacked_rounds(stack.drop_last())
    }
}

proof fn lemma_stacked_push(stack: Seq<(&ExtValue, u8)>, node: &ExtValue, yielded: u8)
    ensures
        stacked_text(stack.push((node, yielded))) == text_left(node@, yielded as int)
            + stacked_text(stack),
        stacked_rounds(stack.push((node, yielded))) == rounds_left(node@, yielded as int)
            + stacked_rounds(stack),
{
    assert(stack.push((node, yielded)).drop_last() =~= stack);
}

impl ExtValue {
    /// The value as text.
    pub fn to_string(&self) -> (text: String)
        ensures
            text@ == self@.text(),
    {
        let mut text = String::new();
        let mut stack: Vec<(&ExtValue, u8)> = Vec::new();
        stack.push((self, 0));
        proof {
            reveal_strlit("●");
            reveal_strlit("L");
            reveal_strlit("R");
            reveal_strlit("(");
            reveal_strlit(", ");
            reveal_strlit(")");
            lemma_stacked_push(Seq::empty(), self, 0);
            assert(text@ + stacked_text(stack@) =~= self@.text());
        }
        while stack.len() > 0
            invariant
                "●"@ == seq!['●'],
                "L"@ == seq!['L'],
                "R"@ == seq!['R'],
                "("@ == seq!['('],
                ", "@ == seq![',', ' '],
                ")"@ == seq![')'],
                text@ + stacked_text(stack@) == self@.text(),
            decreases stacked_rounds(stack@),
        {
            let ghost before = stack@;
            let ghost done = text@;
            let (node, yielded) = stack.pop().unwrap();
            let ghost rest = stack@;
            proof {
                assert(before.drop_last() =~= rest);
            }
            match node {
                ExtValue::Unit => {
                    text.append("●");
                },
                ExtValue::Left(inner) => {
                    text.append("L");
                    stack.push((&**inner, 0));
                    proof {
                        lemma_stacked_push(rest, &**inner, 0);
                    }
                },
                ExtValue::Right(inner) => {
                    text.append("R");
                    stack.push((&**inner, 0));
                    proof {
                        lemma_stacked_push(rest, &**inner, 0);
                    }
                },
                ExtValue::Product(left, right) => {
                    if yielded == 0 {
                        text.append("(");
                        stack.push((node, 1));
                        stack.push((&**left, 0));
                        proof {
                            lemma_stacked_push(rest, node, 1);
                            lemma_stacked_push(rest.push((node, 1u8)), &**left, 0);
                        }
                    } else if yielded == 1 {
                        text.append(", ");
                        stack.push((node, 2));
                        stack.push((&**right, 0));
                        proof {
                            lemma_stacked_push(rest, node, 2);
                            lemma_stacked_push(rest.push((node, 2u8)), &**right, 0);
                        }
                    } else {
                        text.append(")");
                    }
                },
                ExtValue::Bits(run) => {
                    let run_text = run.to_string();
                    text.append(run_text.as_str());
                },
                ExtValue::Bytes(run) => {
                    let run_text = run.to_string();
                    text.append(run_text.as_str());
                },
            }
            proof {
                assert(text@ + stacked_text(stack@) =~= done + stacked_text(before));
            }
        }
        proof {
            assert(text@ + stacked_text(stack@) =~= text@);
        }
        text
    }
}

} // verus!
