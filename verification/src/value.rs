//! The result of an evaluation.

use crate::operator::Reduction;
use crate::token::{is_numeral, Numeral};
use vstd::prelude::*;

verus! {

/// The value of an expression, as the arithmetic that yields it: what the
/// operand stack held in place of a number.
#[derive(Debug, PartialEq, Eq)]
pub enum Value {
    /// The number that a literal denotes.
    Number(Numeral),
    /// The negation of a value.
    Negated(Box<Value>),
    /// A reduction applied to a left and a right operand, in that order.
    Reduced(Reduction, Box<Value>, Box<Value>),
}

/// What a [`Value`] stands for.
pub enum Term {
    Number(Seq<char>),
    Negated(Box<Term>),
    Reduced(Reduction, Box<Term>, Box<Term>),
}

impl Term {
    /// Every numeral of the term denotes a number.
    pub open spec fn wf(self) -> bool
        decreases self,
    {
        match self {
            Term::Number(text) => is_numeral(text),
            Term::Negated(inner) => inner.wf(),
            Term::Reduced(_, left, right) => left.wf() && right.wf(),
        }
    }
}

/// Every term of the stack is well formed.
pub open spec fn all_terms_wf(stack: Seq<Term>) -> bool {
    forall|i: int| 0 <= i < stack.len() ==> (#[trigger] stack[i]).wf()
}

impl Value {
    /// The term that the value stands for.
    pub open spec fn term(self) -> Term
        decreases self,
    {
        match self {
            Value::Number(numeral) => Term::Number(numeral@),
            Value::Negated(inner) => Term::Negated(Box::new((*inner).term())),
            Value::Reduced(reduce, left, right) => Term::Reduced(
                reduce,
                Box::new((*left).term()),
                Box::new((*right).term()),
            ),
        }
    }
}

impl View for Value {
    type V = Term;

    open spec fn view(&self) -> Term {
        self.term()
    }
}

impl Clone for Value {
    fn clone(&self) -> (copy: Value)
        ensures
            copy@ == self@,
        decreases self,
    {
        match self {
            Value::Number(numeral) => Value::Number(numeral.clone()),
            Value::Negated(inner) => Value::Negated(Box::new((&**inner).clone())),
            Value::Reduced(reduce, left, right) => Value::Reduced(
                *reduce,
                Box::new((&**left).clone()),
                Box::new((&**right).clone()),
            ),
        }
    }
}

/// What a stack of values stands for.
pub open spec fn terms(values: Seq<Value>) -> Seq<Term> {
    Seq::new(values.len(), |i: int| values[i]@)
}

} // verus!
