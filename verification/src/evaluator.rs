//! Reducing a postfix queue on an operand stack.

use crate::operator::Operator;
use crate::scanner::{lemma_postfix_wf, postfix, to_postfix};
use crate::token::{agrees, all_wf, views, EvalError, Token, TokenView};
use crate::value::{all_terms_wf, terms, Term, Value};
use vstd::prelude::*;

verus! {

/// What one token does to the operand stack, whose top is last. A literal is
/// pushed. A prefix `+` leaves its operand as it is, a prefix `-` negates it.
/// Any other operator takes its operands off the stack and puts their
/// reduction there, the lower of the two top operands on the left.
pub open spec fn reduce(stack: Seq<Term>, token: TokenView) -> Result<Seq<Term>, EvalError> {
    match token {
        TokenView::NumericLiteral(text) => Ok(stack.push(Term::Number(text))),
        TokenView::Operator(op) => if stack.len() < op.argc {
            Err(EvalError::NotEnoughArguments)
        } else if op.argc == 1 && op.symbol == '+' {
            Ok(stack)
        } else if op.argc == 1 && op.symbol == '-' {
            Ok(stack.drop_last().push(Term::Negated(Box::new(stack.last()))))
        } else {
            Ok(
                stack.take(stack.len() - op.argc).push(
                    Term::Reduced(
                        op.reduce,
                        Box::new(stack[stack.len() - 2]),
                        Box::new(stack[stack.len() - 1]),
                    ),
                ),
            )
        },
        TokenView::OpenParen => Err(EvalError::UnexpectedToken(Token::OpenParen)),
    }
}

/// The operand stack after the tokens of `queue`, front first, or the first
/// failure among them.
pub open spec fn reduce_all(stack: Seq<Term>, queue: Seq<TokenView>) -> Result<
    Seq<Term>,
    EvalError,
>
    decreases queue.len(),
{
    if queue.len() == 0 {
        Ok(stack)
    } else {
        match reduce(stack, queue[0]) {
            Err(error) => Err(error),
            Ok(next) => reduce_all(next, queue.drop_first()),
        }
    }
}

/// The result that a final operand stack gives: its top.
pub open spec fn top_of(stack: Seq<Term>) -> Result<Term, EvalError> {
    if stack.len() > 0 {
        Ok(stack.last())
    } else {
        Err(EvalError::NoResult)
    }
}

/// The result of a postfix queue.
pub open spec fn result_of(queue: Seq<TokenView>) -> Result<Term, EvalError> {
    match reduce_all(Seq::empty(), queue) {
        Err(error) => Err(error),
        Ok(stack) => top_of(stack),
    }
}

/// The value of an expression.
pub open spec fn value_of(text: Seq<char>) -> Result<Term, EvalError> {
    match postfix(text) {
        Err(error) => Err(error),
        Ok(queue) => result_of(queue),
    }
}

/// The operators among the tokens are well formed.
pub open spec fn operators_wf(queue: Seq<TokenView>) -> bool {
    forall|i: int|
        0 <= i < queue.len() ==> ((#[trigger] queue[i]) matches TokenView::Operator(op)
            ==> op.wf())
}

/// A well-formed token leaves the terms on the stack well formed.
pub proof fn lemma_reduce_wf(stack: Seq<Term>, token: TokenView)
    requires
        all_terms_wf(stack),
        token.wf(),
    ensures
        reduce(stack, token) matches Ok(next) ==> all_terms_wf(next),
{
}

/// Well-formed tokens leave the terms on the stack well formed.
pub proof fn lemma_reduce_all_wf(stack: Seq<Term>, queue: Seq<TokenView>)
    requires
        all_terms_wf(stack),
        all_wf(queue),
    ensures
        reduce_all(stack, queue) matches Ok(end) ==> all_terms_wf(end),
    decreases queue.len(),
{
    if queue.len() > 0 {
        lemma_reduce_wf(stack, queue[0]);
        if let Ok(next) = reduce(stack, queue[0]) {
            assert(all_wf(queue.drop_first())) by {
                assert forall|i: int| 0 <= i < queue.drop_first().len() implies (
                #[trigger] queue.drop_first()[i]).wf() by {
                    assert(queue.drop_first()[i] == queue[i + 1]);
                }
            }
            lemma_reduce_all_wf(next, queue.drop_first());
        }
    }
}

/// Every numeral in the value of an expression denotes a number.
pub proof fn lemma_value_wf(text: Seq<char>)
    ensures
        value_of(text) matches Ok(term) ==> term.wf(),
{
    lemma_postfix_wf(text);
    if let Ok(queue) = postfix(text) {
        lemma_reduce_all_wf(Seq::empty(), queue);
    }
}

proof fn lemma_terms_push(values: Seq<Value>, value: Value)
    ensures
        terms(values.push(value)) == terms(values).push(value@),
{
    assert(terms(values.push(value)) =~= terms(values).push(value@));
}

proof fn lemma_terms_drop_last(values: Seq<Value>)
    requires
        values.len() > 0,
    ensures
        terms(values.drop_last()) == terms(values).drop_last(),
        terms(values).last() == values.last()@,
{
    assert(terms(values.drop_last()) =~= terms(values).drop_last());
}

/// Takes the two top operands off the stack and puts their reduction there.
fn reduce_top(stack: &mut Vec<Value>, op: Operator)
    requires
        op.argc == 2,
        old(stack).len() >= 2,
    ensures
        reduce(terms(old(stack)@), TokenView::Operator(op)) == Ok::<Seq<Term>, EvalError>(
            terms(final(stack)@),
        ),
{
    let ghost before = stack@;
    let mut args: Vec<Value> = Vec::with_capacity(op.argc);
    while args.len() < op.argc
        invariant
            op.argc == 2,
            before.len() >= 2,
            args.len() <= 2,
            stack@ == before.take(before.len() - args.len()),
            forall|k: int| 0 <= k < args.len() ==> args@[k] == before[before.len() - 1 - k],
        decreases op.argc - args.len(),
    {
        let operand = stack.pop().unwrap();
        args.push(operand);
        assert(stack@ =~= before.take(before.len() - args.len()));
    }
    let reduced = op.resolve(args);
    proof {
        lemma_terms_push(stack@, reduced);
        assert(terms(stack@) =~= terms(before).take(before.len() - 2));
    }
    stack.push(reduced);
}

/// Reduces a postfix queue to its result.
pub fn evaluate(queue: Vec<Token>) -> (value: Result<Value, EvalError>)
    requires
        operators_wf(views(queue@)),
    ensures
        agrees(value, result_of(views(queue@))),
        all_wf(views(queue@)) ==> (value matches Ok(reduced) ==> reduced@.wf()),
{
    proof {
        if all_wf(views(queue@)) {
            lemma_reduce_all_wf(Seq::empty(), views(queue@));
        }
    }
    let ghost tokens = views(queue@);
    let ghost mut rest = tokens;
    let mut stack: Vec<Value> = Vec::new();
    assert(terms(stack@) =~= Seq::empty());
    for token in it: queue
        invariant
            it.seq() == queue@,
            tokens == views(queue@),
            operators_wf(tokens),
            rest == tokens.skip(it.index()),
            reduce_all(terms(stack@), rest) == reduce_all(Seq::empty(), tokens),
    {
        assert(rest.len() > 0 && rest[0] == token@);
        assert(rest[0] == tokens[it.index()]);
        assert(rest.drop_first() =~= tokens.skip(it.index() + 1));
        match token {
            Token::NumericLiteral(numeral) => {
                proof {
                    lemma_terms_push(stack@, Value::Number(numeral));
                }
                stack.push(Value::Number(numeral));
            },
            Token::Operator(op) => {
                if stack.len() < op.argc {
                    return Err(EvalError::NotEnoughArguments);
                }
                if op.symbol == '+' && op.argc == 1 {
                } else if op.symbol == '-' && op.argc == 1 {
                    proof {
                        lemma_terms_drop_last(stack@);
                    }
                    let operand = stack.pop().unwrap();
                    proof {
                        lemma_terms_push(stack@, Value::Negated(Box::new(operand)));
                    }
                    stack.push(Value::Negated(Box::new(operand)));
                } else {
                    reduce_top(&mut stack, op);
                }
            },
            Token::OpenParen => {
                return Err(EvalError::UnexpectedToken(Token::OpenParen));
            },
        }
        proof {
            rest = rest.drop_first();
        }
    }
    assert(rest.len() == 0);
    proof {
        if stack.len() > 0 {
            lemma_terms_drop_last(stack@);
        }
    }
    match stack.pop() {
        Some(top) => Ok(top),
        None => Err(EvalError::NoResult),
    }
}

/// Evaluates an expression.
pub fn eval(expression: &str) -> (value: Result<Value, EvalError>)
    ensures
        agrees(value, value_of(expression@)),
        value matches Ok(reduced) ==> reduced@.wf(),
{
    match to_postfix(expression) {
        Err(error) => Err(error),
        Ok(queue) => evaluate(queue),
    }
}

/// Two outcomes are the same: the same error, or values that stand for the
/// same term.
pub open spec fn same_outcome(
    first: Result<Value, EvalError>,
    second: Result<Value, EvalError>,
) -> bool {
    match (first, second) {
        (Ok(a), Ok(b)) => a@ == b@,
        (Err(a), Err(b)) => a == b,
        _ => false,
    }
}

/// Evaluating the same text again gives the same outcome: what `eval`
/// returns depends on the characters of the expression and on nothing else.
pub proof fn lemma_eval_again(
    text: Seq<char>,
    first: Result<Value, EvalError>,
    second: Result<Value, EvalError>,
)
    requires
        agrees(first, value_of(text)),
        agrees(second, value_of(text)),
    ensures
        same_outcome(first, second),
{
}

} // verus!
