//! Expressions as they are written, and what the scan and the evaluation make
//! of them.

use crate::evaluator::{reduce, reduce_all, result_of, value_of};
use crate::operator::{is_sign, Operator, PREFIX_PRECEDENCE};
use crate::scanner::{postfix, Scan};
use crate::token::{
    is_blank, is_numeral, is_numeral_char, only_numeral_chars, single_point, EvalError, TokenView,
};
use crate::value::Term;
use vstd::prelude::*;

verus! {

/// An expression as it is written: each token with the white space in front
/// of it.
pub enum Written {
    /// A numeral.
    Number { blanks: Seq<char>, text: Seq<char> },
    /// A sign in front of its operand.
    Signed { blanks: Seq<char>, sign: char, operand: Box<Written> },
    /// A binary operator between its operands.
    Binary { left: Box<Written>, blanks: Seq<char>, symbol: char, right: Box<Written> },
    /// An expression in parentheses; `closing` is the white space in front
    /// of the closing one.
    Group { blanks: Seq<char>, inner: Box<Written>, closing: Seq<char> },
}

/// `text` is white space throughout.
pub open spec fn all_blank(text: Seq<char>) -> bool {
    forall|i: int| 0 <= i < text.len() ==> is_blank(#[trigger] text[i])
}

impl Written {
    /// The characters of the expression.
    pub open spec fn text(self) -> Seq<char>
        decreases self,
    {
        match self {
            Written::Number { blanks, text } => blanks + text,
            Written::Signed { blanks, sign, operand } => blanks + seq![sign] + operand.text(),
            Written::Binary { left, blanks, symbol, right } => left.text() + blanks + seq![symbol]
                + right.text(),
            Written::Group { blanks, inner, closing } => blanks + seq!['('] + inner.text()
                + closing + seq![')'],
        }
    }

    /// How tightly the expression holds together: the precedence of the
    /// operator applied last, above every precedence for a numeral and for
    /// an expression in parentheses.
    pub open spec fn floor(self) -> int {
        match self {
            Written::Number { .. } => PREFIX_PRECEDENCE + 1,
            Written::Signed { .. } => PREFIX_PRECEDENCE as int,
            Written::Binary { symbol, .. } => match Operator::lookup(symbol) {
                Some(entry) => entry.precedence as int,
                None => 0,
            },
            Written::Group { .. } => PREFIX_PRECEDENCE + 1,
        }
    }

    /// The expression begins with a sign.
    pub open spec fn leading_sign(self) -> bool
        decreases self,
    {
        match self {
            Written::Number { .. } => false,
            Written::Signed { .. } => true,
            Written::Binary { left, .. } => left.leading_sign(),
            Written::Group { .. } => false,
        }
    }

    /// The expression is written so that the scan reads it as it is built:
    /// its numerals denote numbers; a sign stands in front of a numeral or a
    /// parenthesis, and never right after an opening parenthesis; the left
    /// operand of a binary operator holds together at least as tightly as the
    /// operator binds, and the right operand more tightly.
    pub open spec fn wf(self) -> bool
        decreases self,
    {
        match self {
            Written::Number { blanks, text } => all_blank(blanks) && is_numeral(text),
            Written::Signed { blanks, sign, operand } => {
                &&& all_blank(blanks)
                &&& is_sign(sign)
                &&& operand.wf()
                &&& operand.floor() > PREFIX_PRECEDENCE
            },
            Written::Binary { left, blanks, symbol, right } => {
                &&& all_blank(blanks)
                &&& left.wf()
                &&& right.wf()
                &&& Operator::lookup(symbol) matches Some(entry)
                &&& left.floor() >= entry.precedence
                &&& right.floor() > entry.precedence
            },
            Written::Group { blanks, inner, closing } => {
                &&& all_blank(blanks)
                &&& all_blank(closing)
                &&& inner.wf()
                &&& !inner.leading_sign()
            },
        }
    }

    /// The operator token that a sign in prefix position becomes.
    pub open spec fn prefix_token(sign: char) -> TokenView {
        TokenView::Operator(Operator::lookup(sign).unwrap().as_prefix())
    }

    /// The operator token that a symbol between two operands becomes.
    pub open spec fn binary_token(symbol: char) -> TokenView {
        TokenView::Operator(Operator::lookup(symbol).unwrap())
    }

    /// The expression in postfix order: each operator after its operands.
    pub open spec fn postfix(self) -> Seq<TokenView>
        decreases self,
    {
        match self {
            Written::Number { text, .. } => seq![TokenView::NumericLiteral(text)],
            Written::Signed { sign, operand, .. } => operand.postfix().push(
                Written::prefix_token(sign),
            ),
            Written::Binary { left, symbol, right, .. } => (left.postfix()
                + right.postfix()).push(Written::binary_token(symbol)),
            Written::Group { inner, .. } => inner.postfix(),
        }
    }

    /// The value of the expression, read as it is built.
    pub open spec fn term(self) -> Term
        decreases self,
    {
        match self {
            Written::Number { text, .. } => Term::Number(text),
            Written::Signed { sign, operand, .. } => if sign == '-' {
                Term::Negated(Box::new(operand.term()))
            } else {
                operand.term()
            },
            Written::Binary { left, symbol, right, .. } => Term::Reduced(
                Operator::lookup(symbol).unwrap().reduce,
                Box::new(left.term()),
                Box::new(right.term()),
            ),
            Written::Group { inner, .. } => inner.term(),
        }
    }

    /// The operators of the expression that wait on the holding stack when
    /// its last character has been read, the top last.
    pub open spec fn held(self) -> Seq<TokenView>
        decreases self,
    {
        match self {
            Written::Number { .. } => Seq::empty(),
            Written::Signed { sign, operand, .. } => seq![Written::prefix_token(sign)]
                + operand.held(),
            Written::Binary { symbol, right, .. } => seq![Written::binary_token(symbol)]
                + right.held(),
            Written::Group { .. } => Seq::empty(),
        }
    }

    /// The tokens of the expression that have reached the output queue when
    /// its last character has been read and its last numeral ended.
    pub open spec fn emitted(self) -> Seq<TokenView>
        decreases self,
    {
        match self {
            Written::Number { text, .. } => seq![TokenView::NumericLiteral(text)],
            Written::Signed { operand, .. } => operand.emitted(),
            Written::Binary { left, right, .. } => left.postfix() + right.emitted(),
            Written::Group { inner, .. } => inner.postfix(),
        }
    }

    /// The state in which the scan of the expression, begun in `before`,
    /// leaves off, once the last numeral is ended.
    pub open spec fn read_from(self, before: Scan) -> Scan {
        Scan {
            pending: Seq::empty(),
            holding: before.holding + self.held(),
            output: before.output + self.emitted(),
            prefix: false,
        }
    }
}

/// The top of the holding stack stays where it is when an operator of
/// precedence `floor` arrives.
pub open spec fn rests(holding: Seq<TokenView>, floor: int) -> bool {
    holding.len() > 0 ==> !(holding.last() matches TokenView::Operator(held) && held.precedence
        >= floor)
}

/// Scanning a text is scanning its first part and then, from where that
/// left off, its second part.
pub proof fn lemma_scan_concat(st: Scan, first: Seq<char>, second: Seq<char>)
    ensures
        st.scan(first + second) == match st.scan(first) {
            Ok(middle) => middle.scan(second),
            Err(error) => Err(error),
        },
    decreases first.len(),
{
    if first.len() == 0 {
        assert(first + second =~= second);
    } else {
        assert((first + second).drop_first() =~= first.drop_first() + second);
        assert((first + second)[0] == first[0]);
        if let Ok(next) = st.step(first[0]) {
            lemma_scan_concat(next, first.drop_first(), second);
        }
    }
}

proof fn lemma_scan_one(st: Scan, c: char)
    ensures
        st.scan(seq![c]) == st.step(c),
{
    reveal_with_fuel(Scan::scan, 2);
    assert(seq![c].drop_first() =~= Seq::<char>::empty());
}

/// White space ends the numeral being read and changes nothing else.
proof fn lemma_scan_blanks(st: Scan, blanks: Seq<char>, flushed: Scan)
    requires
        all_blank(blanks),
        st.flush() == Ok::<Scan, EvalError>(flushed),
    ensures
        st.scan(blanks) matches Ok(end) && end.flush() == Ok::<Scan, EvalError>(flushed) && (
        st.pending.len() == 0 ==> end == st),
    decreases blanks.len(),
{
    if blanks.len() > 0 {
        assert(is_blank(blanks[0]));
        assert(st.step(blanks[0]) == Ok::<Scan, EvalError>(flushed));
        assert(all_blank(blanks.drop_first()));
        lemma_scan_blanks(flushed, blanks.drop_first(), flushed);
    }
}

/// The characters of a numeral gather in the pending buffer.
proof fn lemma_scan_numeral(st: Scan, text: Seq<char>)
    requires
        only_numeral_chars(text),
        single_point(st.pending + text),
    ensures
        st.scan(text) == Ok::<Scan, EvalError>(Scan { pending: st.pending + text, ..st }),
    decreases text.len(),
{
    if text.len() == 0 {
        assert(st.pending + text =~= st.pending);
    } else {
        let c = text[0];
        let whole = st.pending + text;
        assert(is_numeral_char(c));
        assert(whole[st.pending.len() as int] == c);
        if c == '.' {
            if st.pending.contains('.') {
                let i = choose|i: int| 0 <= i < st.pending.len() && st.pending[i] == '.';
                assert(whole[i] == '.');
                assert(false);
            }
        }
        let next = Scan { pending: st.pending.push(c), ..st };
        assert(st.step(c) == Ok::<Scan, EvalError>(next));
        assert(next.pending + text.drop_first() =~= whole);
        assert(only_numeral_chars(text.drop_first()));
        lemma_scan_numeral(next, text.drop_first());
    }
}

/// Operators that all give way leave the holding stack together, down to a
/// top that stays.
proof fn lemma_unwind_all(st: Scan, base: Seq<TokenView>, over: Seq<TokenView>, precedence: usize)
    requires
        st.holding == base + over,
        forall|i: int| 0 <= i < over.len() ==> Scan::gives_way(#[trigger] over[i], precedence),
        rests(base, precedence as int),
    ensures
        st.unwind(precedence) == (Scan {
            holding: base,
            output: st.output + over.reverse(),
            ..st
        }),
    decreases over.len(),
{
    if over.len() == 0 {
        assert(st.holding =~= base);
        assert(st.output + over.reverse() =~= st.output);
    } else {
        assert(st.holding.last() == over.last());
        let next = st.emit_top();
        assert(next.holding =~= base + over.drop_last());
        lemma_unwind_all(next, base, over.drop_last(), precedence);
        assert(next.output + over.drop_last().reverse() =~= st.output + over.reverse());
    }
}

/// A closing parenthesis sends what lies above the opening one to the output
/// queue and removes the opening one.
proof fn lemma_close_all(st: Scan, base: Seq<TokenView>, over: Seq<TokenView>)
    requires
        st.holding == base.push(TokenView::OpenParen) + over,
        forall|i: int| 0 <= i < over.len() ==> !((#[trigger] over[i]) is OpenParen),
    ensures
        st.close() == Ok::<Scan, EvalError>(
            Scan { holding: base, output: st.output + over.reverse(), prefix: false, ..st },
        ),
    decreases over.len(),
{
    if over.len() == 0 {
        assert(st.holding =~= base.push(TokenView::OpenParen));
        assert(st.holding.drop_last() =~= base);
        assert(st.output + over.reverse() =~= st.output);
    } else {
        assert(st.holding.last() == over.last());
        let next = st.emit_top();
        assert(next.holding =~= base.push(TokenView::OpenParen) + over.drop_last());
        lemma_close_all(next, base, over.drop_last());
        assert(next.output + over.drop_last().reverse() =~= st.output + over.reverse());
    }
}

impl Written {
    /// What waits on the holding stack are operators that bind at least as
    /// tightly as the expression holds together, and with what has been
    /// emitted they make up the postfix order.
    proof fn lemma_held(self)
        requires
            self.wf(),
        ensures
            forall|i: int|
                0 <= i < self.held().len() ==> (
                (#[trigger] self.held()[i]) matches TokenView::Operator(op) && op.precedence
                    >= self.floor()),
            self.emitted() + self.held().reverse() == self.postfix(),
        decreases self,
    {
        match self {
            Written::Number { .. } => {
                assert(self.emitted() + self.held().reverse() =~= self.postfix());
            },
            Written::Signed { sign, operand, .. } => {
                operand.lemma_held();
                assert(self.emitted() + self.held().reverse() =~= self.postfix());
            },
            Written::Binary { left, symbol, right, .. } => {
                right.lemma_held();
                let front = seq![Written::binary_token(symbol)];
                assert((front + right.held()).reverse() =~= right.held().reverse() + front);
                assert(self.emitted() + self.held().reverse() =~= left.postfix() + (right.emitted()
                    + right.held().reverse()) + front);
                assert(self.emitted() + self.held().reverse() =~= self.postfix());
            },
            Written::Group { .. } => {
                assert(self.emitted() + self.held().reverse() =~= self.postfix());
            },
        }
    }

    /// The scan of a well-formed expression, begun between two tokens where
    /// the top of the holding stack stays, succeeds.
    proof fn lemma_scan(self, before: Scan)
        requires
            self.wf(),
            before.pending.len() == 0,
            self.leading_sign() ==> before.prefix,
            rests(before.holding, self.floor()),
        ensures
            before.scan(self.text()) matches Ok(end) && end.flush() == Ok::<Scan, EvalError>(
                self.read_from(before),
            ),
        decreases self,
    {
        assert(before.flush() == Ok::<Scan, EvalError>(before));
        match self {
            Written::Number { blanks, text } => {
                lemma_scan_concat(before, blanks, text);
                lemma_scan_blanks(before, blanks, before);
                assert(before.pending + text =~= text);
                lemma_scan_numeral(before, text);
                assert(before.output + self.emitted() =~= before.output.push(
                    TokenView::NumericLiteral(text),
                ));
                assert(before.holding + self.held() =~= before.holding);
            },
            Written::Signed { blanks, sign, operand } => {
                lemma_scan_concat(before, blanks + seq![sign], operand.text());
                lemma_scan_concat(before, blanks, seq![sign]);
                lemma_scan_blanks(before, blanks, before);
                lemma_scan_one(before, sign);
                let entry = Operator::lookup(sign).unwrap();
                let op = entry.as_prefix();
                assert(before.met(entry) == op);
                assert(before.unwind(op.precedence) == before);
                let shifted = before.shift(entry);
                assert(before.step(sign) == Ok::<Scan, EvalError>(shifted));
                operand.lemma_scan(shifted);
                assert(operand.read_from(shifted).holding =~= before.holding + self.held());
                assert(operand.read_from(shifted).output =~= before.output + self.emitted());
            },
            Written::Binary { left, blanks, symbol, right } => {
                lemma_scan_concat(before, left.text() + blanks + seq![symbol], right.text());
                lemma_scan_concat(before, left.text() + blanks, seq![symbol]);
                lemma_scan_concat(before, left.text(), blanks);
                left.lemma_scan(before);
                let after_left = before.scan(left.text())->Ok_0;
                let flushed = left.read_from(before);
                lemma_scan_blanks(after_left, blanks, flushed);
                let at_symbol = after_left.scan(blanks)->Ok_0;
                lemma_scan_one(at_symbol, symbol);
                let entry = Operator::lookup(symbol).unwrap();
                assert(flushed.met(entry) == entry);
                left.lemma_held();
                lemma_unwind_all(flushed, before.holding, left.held(), entry.precedence);
                let shifted = flushed.shift(entry);
                assert(at_symbol.step(symbol) == Ok::<Scan, EvalError>(shifted));
                assert(shifted.holding == before.holding.push(Written::binary_token(symbol)));
                assert(shifted.output == before.output + left.postfix()) by {
                    assert(before.output + left.emitted() + left.held().reverse()
                        =~= before.output + (left.emitted() + left.held().reverse()));
                }
                right.lemma_scan(shifted);
                assert(right.read_from(shifted).holding =~= before.holding + self.held());
                assert(right.read_from(shifted).output =~= before.output + self.emitted());
            },
            Written::Group { blanks, inner, closing } => {
                lemma_scan_concat(
                    before,
                    blanks + seq!['('] + inner.text() + closing,
                    seq![')'],
                );
                lemma_scan_concat(before, blanks + seq!['('] + inner.text(), closing);
                lemma_scan_concat(before, blanks + seq!['('], inner.text());
                lemma_scan_concat(before, blanks, seq!['(']);
                lemma_scan_blanks(before, blanks, before);
                lemma_scan_one(before, '(');
                let opened = before.open();
                assert(before.step('(') == Ok::<Scan, EvalError>(opened));
                inner.lemma_scan(opened);
                let after_inner = opened.scan(inner.text())->Ok_0;
                let flushed = inner.read_from(opened);
                lemma_scan_blanks(after_inner, closing, flushed);
                let at_paren = after_inner.scan(closing)->Ok_0;
                lemma_scan_one(at_paren, ')');
                inner.lemma_held();
                lemma_close_all(flushed, before.holding, inner.held());
                let closed = flushed.close()->Ok_0;
                assert(at_paren.step(')') == Ok::<Scan, EvalError>(closed));
                assert(closed.output =~= before.output + self.emitted()) by {
                    assert(before.output + inner.emitted() + inner.held().reverse()
                        =~= before.output + (inner.emitted() + inner.held().reverse()));
                }
                assert(closed.holding =~= before.holding + self.held());
            },
        }
    }
}

/// Reducing a queue is reducing its first part and then, on the stack that
/// this leaves, its second part.
pub proof fn lemma_reduce_concat(stack: Seq<Term>, first: Seq<TokenView>, second: Seq<TokenView>)
    ensures
        reduce_all(stack, first + second) == match reduce_all(stack, first) {
            Ok(middle) => reduce_all(middle, second),
            Err(error) => Err(error),
        },
    decreases first.len(),
{
    if first.len() == 0 {
        assert(first + second =~= second);
    } else {
        assert((first + second).drop_first() =~= first.drop_first() + second);
        assert((first + second)[0] == first[0]);
        if let Ok(next) = reduce(stack, first[0]) {
            lemma_reduce_concat(next, first.drop_first(), second);
        }
    }
}

proof fn lemma_reduce_one(stack: Seq<Term>, token: TokenView)
    ensures
        reduce_all(stack, seq![token]) == reduce(stack, token),
{
    reveal_with_fuel(reduce_all, 2);
    assert(seq![token].drop_first() =~= Seq::<TokenView>::empty());
}

impl Written {
    /// The postfix order of a well-formed expression reduces to one more
    /// operand on the stack: the value of the expression.
    proof fn lemma_reduce(self, stack: Seq<Term>)
        requires
            self.wf(),
        ensures
            reduce_all(stack, self.postfix()) == Ok::<Seq<Term>, EvalError>(
                stack.push(self.term()),
            ),
        decreases self,
    {
        match self {
            Written::Number { text, .. } => {
                lemma_reduce_one(stack, TokenView::NumericLiteral(text));
            },
            Written::Signed { sign, operand, .. } => {
                let token = Written::prefix_token(sign);
                assert(self.postfix() =~= operand.postfix() + seq![token]);
                lemma_reduce_concat(stack, operand.postfix(), seq![token]);
                operand.lemma_reduce(stack);
                let pushed = stack.push(operand.term());
                lemma_reduce_one(pushed, token);
                assert(pushed.drop_last() =~= stack);
            },
            Written::Binary { left, symbol, right, .. } => {
                let token = Written::binary_token(symbol);
                assert(self.postfix() =~= left.postfix() + right.postfix() + seq![token]);
                lemma_reduce_concat(stack, left.postfix() + right.postfix(), seq![token]);
                lemma_reduce_concat(stack, left.postfix(), right.postfix());
                left.lemma_reduce(stack);
                let first = stack.push(left.term());
                right.lemma_reduce(first);
                let second = first.push(right.term());
                lemma_reduce_one(second, token);
                assert(second.take(second.len() - 2) =~= stack);
            },
            Written::Group { inner, .. } => {
                inner.lemma_reduce(stack);
            },
        }
    }

    /// How the operators of ordinary arithmetic rank: `*` and `/` above `+`
    /// and `-`, and everything that is no binary operation above both.
    pub open spec fn rank(self) -> int {
        match self {
            Written::Binary { symbol, .. } => if symbol == '*' || symbol == '/' {
                2
            } else {
                1
            },
            _ => 3,
        }
    }

    /// The expression is built as ordinary arithmetic reads its text:
    /// operators of one rank group from the left, and those of the higher
    /// rank first.
    pub open spec fn conventional(self) -> bool
        decreases self,
    {
        match self {
            Written::Number { .. } => true,
            Written::Signed { operand, .. } => operand.conventional(),
            Written::Binary { left, right, .. } => {
                &&& left.conventional()
                &&& right.conventional()
                &&& left.rank() >= self.rank()
                &&& right.rank() > self.rank()
            },
            Written::Group { inner, .. } => inner.conventional(),
        }
    }
}

/// The scan turns a well-formed expression, with or without white space
/// after it, into its postfix order.
pub proof fn lemma_postfix_of_written(written: Written, trailing: Seq<char>)
    requires
        written.wf(),
        all_blank(trailing),
    ensures
        postfix(written.text() + trailing) == Ok::<Seq<TokenView>, EvalError>(written.postfix()),
{
    let start = Scan::start();
    lemma_scan_concat(start, written.text(), trailing);
    written.lemma_scan(start);
    let end = start.scan(written.text())->Ok_0;
    let flushed = written.read_from(start);
    lemma_scan_blanks(end, trailing, flushed);
    written.lemma_held();
    assert(flushed.output =~= written.emitted());
    assert(flushed.holding =~= written.held());
}

/// The evaluation of a well-formed expression reads every token of its
/// postfix order and leaves exactly one operand on the stack.
pub proof fn lemma_one_operand_left(written: Written, trailing: Seq<char>)
    requires
        written.wf(),
        all_blank(trailing),
    ensures
        postfix(written.text() + trailing) matches Ok(queue) && reduce_all(Seq::empty(), queue)
            matches Ok(stack) && stack.len() == 1,
{
    lemma_postfix_of_written(written, trailing);
    written.lemma_reduce(Seq::empty());
}

/// The value of a well-formed expression is the value of the expression as
/// it is built: each operator applied to the operands on its two sides, the
/// left one first, and each sign to the operand behind it.
pub proof fn lemma_value_of_written(written: Written, trailing: Seq<char>)
    requires
        written.wf(),
        all_blank(trailing),
    ensures
        value_of(written.text() + trailing) == Ok::<Term, EvalError>(written.term()),
{
    lemma_postfix_of_written(written, trailing);
    written.lemma_reduce(Seq::empty());
}

/// Where the table groups the operators of an expression as ordinary
/// arithmetic does, the value of the expression is the one that ordinary
/// arithmetic gives it: operators apply from left to right, `*` and `/`
/// before `+` and `-`, and a sign applies to the operand behind it.
///
/// The table ranks `/` above `*` and `+` above `-`. So an expression is left
/// out where a `+` follows a `-`, or a `/` follows a `*`, with no parenthesis
/// to group them: `1 - 2 + 3` has the value of `1 - (2 + 3)`.
pub proof fn lemma_matches_infix_arithmetic(written: Written, trailing: Seq<char>)
    requires
        written.wf(),
        written.conventional(),
        all_blank(trailing),
    ensures
        value_of(written.text() + trailing) == Ok::<Term, EvalError>(written.term()),
{
    lemma_value_of_written(written, trailing);
}

/// The text of a well-formed expression decides its postfix order and its
/// value: it can be built in one way only.
pub proof fn lemma_text_decides(first: Written, second: Written)
    requires
        first.wf(),
        second.wf(),
        first.text() == second.text(),
    ensures
        first.postfix() == second.postfix(),
        first.term() == second.term(),
{
    let nothing = Seq::<char>::empty();
    assert(first.text() + nothing =~= first.text());
    lemma_postfix_of_written(first, nothing);
    lemma_postfix_of_written(second, nothing);
    lemma_value_of_written(first, nothing);
    lemma_value_of_written(second, nothing);
}

proof fn lemma_close_keeps_pending(st: Scan)
    ensures
        st.close() matches Ok(closed) ==> closed.pending == st.pending,
    decreases st.holding.len(),
{
    if st.holding.len() > 0 && !(st.holding.last() is OpenParen) {
        lemma_close_keeps_pending(st.emit_top());
    }
}

proof fn lemma_unwind_keeps_pending(st: Scan, precedence: usize)
    ensures
        st.unwind(precedence).pending == st.pending,
    decreases st.holding.len(),
{
    if st.holding.len() > 0 && Scan::gives_way(st.holding.last(), precedence) {
        lemma_unwind_keeps_pending(st.emit_top(), precedence);
    }
}

/// After a character that belongs to no numeral, no numeral is being read.
proof fn lemma_step_ends_numeral(st: Scan, c: char)
    requires
        !is_numeral_char(c),
    ensures
        st.step(c) matches Ok(next) ==> next.pending.len() == 0,
{
    if let Ok(flushed) = st.flush() {
        lemma_close_keeps_pending(flushed);
        if let Some(entry) = Operator::lookup(c) {
            lemma_unwind_keeps_pending(flushed, flushed.met(entry).precedence);
        }
    }
}

/// White space between two characters of which one belongs to no numeral, at
/// the start or at the end of an expression changes nothing: the expression
/// has the same postfix order, or fails in the same way, without it.
pub proof fn lemma_blank_ignored(first: Seq<char>, blank: char, second: Seq<char>)
    requires
        is_blank(blank),
        first.len() == 0 || !is_numeral_char(first.last()) || second.len() == 0
            || !is_numeral_char(second[0]),
    ensures
        postfix(first + seq![blank] + second) == postfix(first + second),
        value_of(first + seq![blank] + second) == value_of(first + second),
{
    let start = Scan::start();
    lemma_scan_concat(start, first + seq![blank], second);
    lemma_scan_concat(start, first, seq![blank]);
    lemma_scan_concat(start, first, second);
    if let Ok(st) = start.scan(first) {
        lemma_scan_one(st, blank);
        if first.len() == 0 {
            assert(st == start);
        } else if !is_numeral_char(first.last()) {
            let front = first.drop_last();
            assert(first =~= front + seq![first.last()]);
            lemma_scan_concat(start, front, seq![first.last()]);
            let before = start.scan(front)->Ok_0;
            lemma_scan_one(before, first.last());
            lemma_step_ends_numeral(before, first.last());
        } else if second.len() == 0 {
        } else {
            assert(st.step(second[0]) == match st.flush() {
                Ok(flushed) => flushed.step(second[0]),
                Err(error) => Err(error),
            });
        }
    }
}

} // verus!
