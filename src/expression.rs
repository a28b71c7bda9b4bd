//! Expression trees: evaluation and rendering.
use vstd::prelude::*;
use crate::int32::{
    wrap_i32, truncated_quotient, lemma_wrapping_add, lemma_wrapping_sub, lemma_wrapping_mul,
    lemma_checked_div,
};
use crate::text::{decimal_text, push_char, write_decimal};
use vstd::string::StringExecFns;

verus! {

/// An arithmetic expression over `i32`, each node owning its operands.
#[derive(Debug)]
pub enum Expression {
    Literal(i32),
    Addition(Box<Expression>, Box<Expression>),
    Subtraction(Box<Expression>, Box<Expression>),
    Multiplication(Box<Expression>, Box<Expression>),
    Division(Box<Expression>, Box<Expression>),
}

/// What evaluation reports when a divisor is zero.
pub const ZERO_DIVISION_ERROR: &'static str = "Division by zero.";

/// Rendering of a binary node from the renderings of its operands.
pub open spec fn binary_text(left: Seq<char>, op: char, right: Seq<char>) -> Seq<char> {
    seq!['('] + left + seq![' ', op, ' '] + right + seq![')']
}

impl Expression {
    /// The value of the expression, computed exactly and reduced to `i32`
    /// by wrapping at each node; `None` when some divisor is zero.
    pub open spec fn value(self) -> Option<i32>
        decreases self,
    {
        match self {
            Expression::Literal(n) => Some(n),
            Expression::Addition(l, r) => match (l.value(), r.value()) {
                (Some(a), Some(b)) => Some(wrap_i32(a + b)),
                _ => None,
            },
            Expression::Subtraction(l, r) => match (l.value(), r.value()) {
                (Some(a), Some(b)) => Some(wrap_i32(a - b)),
                _ => None,
            },
            Expression::Multiplication(l, r) => match (l.value(), r.value()) {
                (Some(a), Some(b)) => Some(wrap_i32(a * b)),
                _ => None,
            },
            Expression::Division(l, r) => match (l.value(), r.value()) {
                (Some(a), Some(b)) => if b == 0 {
                    None
                } else {
                    Some(wrap_i32(truncated_quotient(a as int, b as int)))
                },
                _ => None,
            },
        }
    }

    /// Fully parenthesised infix rendering.
    pub open spec fn text(self) -> Seq<char>
        decreases self,
    {
        match self {
            Expression::Literal(n) => decimal_text(n as int),
            Expression::Addition(l, r) => binary_text(l.text(), '+', r.text()),
            Expression::Subtraction(l, r) => binary_text(l.text(), '-', r.text()),
            Expression::Multiplication(l, r) => binary_text(l.text(), '*', r.text()),
            Expression::Division(l, r) => binary_text(l.text(), '/', r.text()),
        }
    }

    /// Evaluates the tree, left operand before right; fails when a divisor
    /// is zero.
    pub fn evaluate(&self) -> (r: Result<i32, String>)
        ensures
            match self.value() {
                Some(v) => r == Ok::<i32, String>(v),
                None => r matches Err(e) && e@ == ZERO_DIVISION_ERROR@,
            },
        decreases self,
    {
        match self {
            Expression::Literal(number) => Ok(*number),
            Expression::Addition(left, right) => {
                let left = left.evaluate()?;
                let right = right.evaluate()?;
                proof {
                    lemma_wrapping_add(left, right);
                }
                Ok(left.wrapping_add(right))
            },
            Expression::Subtraction(left, right) => {
                let left = left.evaluate()?;
                let right = right.evaluate()?;
                proof {
                    lemma_wrapping_sub(left, right);
                }
                Ok(left.wrapping_sub(right))
            },
            Expression::Multiplication(left, right) => {
                let left = left.evaluate()?;
                let right = right.evaluate()?;
                proof {
                    lemma_wrapping_mul(left, right);
                }
                Ok(left.wrapping_mul(right))
            },
            Expression::Division(left, right) => {
                let left = left.evaluate()?;
                let right = right.evaluate()?;
                if right == 0 {
                    return Err(String::from_str(ZERO_DIVISION_ERROR));
                }
                proof {
                    lemma_checked_div(left, right);
                }
                match left.checked_div(right) {
                    Some(quotient) => Ok(quotient),
                    None => Ok(left),
                }
            },
        }
    }

    /// The fully parenthesised infix form, e.g. `((3 + 4) * 2)`.
    pub fn render(&self) -> (r: String)
        ensures
            r@ == self.text(),
    {
        let mut out = String::new();
        self.render_into(&mut out);
        assert(out@ =~= self.text());
        out
    }

    fn render_into(&self, out: &mut String)
        ensures
            final(out)@ == old(out)@ + self.text(),
        decreases self,
    {
        match self {
            Expression::Literal(number) => write_decimal(*number, out),
            Expression::Addition(left, right) => {
                push_char(out, '(');
                left.render_into(out);
                write_operator('+', out);
                right.render_into(out);
                push_char(out, ')');
            },
            Expression::Subtraction(left, right) => {
                push_char(out, '(');
                left.render_into(out);
                write_operator('-', out);
                right.render_into(out);
                push_char(out, ')');
            },
            Expression::Multiplication(left, right) => {
                push_char(out, '(');
                left.render_into(out);
                write_operator('*', out);
                right.render_into(out);
                push_char(out, ')');
            },
            Expression::Division(left, right) => {
                push_char(out, '(');
                left.render_into(out);
                write_operator('/', out);
                right.render_into(out);
                push_char(out, ')');
            },
        }
        assert(out@ =~= old(out)@ + self.text());
    }
}

/// Evaluation has no hidden state: its outcome is a function of the tree
/// alone, so evaluating a tree again, or an equal tree, gives the same
/// value or the same failure.
pub proof fn lemma_evaluation_deterministic(first: Expression, second: Expression)
    requires
        first == second,
    ensures
        first.value() == second.value(),
        first.text() == second.text(),
{
}

/// Appends an operator symbol with a space on each side.
fn write_operator(op: char, out: &mut String)
    ensures
        final(out)@ == old(out)@ + seq![' ', op, ' '],
{
    push_char(out, ' ');
    push_char(out, op);
    push_char(out, ' ');
    assert(out@ =~= old(out)@ + seq![' ', op, ' ']);
}

} // verus!
