//! Reading an expression in one pass: numerals are gathered character by
//! character, and operators wait on a holding stack until everything that
//! binds tighter has gone to the output queue.

use crate::operator::{is_sign, Operator, PREFIX_PRECEDENCE};
use crate::token::{
    agrees, all_wf, blank, digit, has_digit, is_blank, is_digit, only_numeral_chars, single_point,
    views, EvalError, Numeral, Token, TokenView,
};
use vstd::prelude::*;

verus! {

/// The state of a scan between two characters.
pub struct Scan {
    /// The numeral being read, empty between numerals.
    pub pending: Seq<char>,
    /// The holding stack, its top last.
    pub holding: Seq<TokenView>,
    /// The output queue, in postfix order.
    pub output: Seq<TokenView>,
    /// Whether a sign met now stands in front of an operand: at the start
    /// and right after an operator. After a numeral or a parenthesis,
    /// opening or closing, a sign is a binary operator.
    pub prefix: bool,
}

impl Scan {
    /// The state before the first character.
    pub open spec fn start() -> Scan {
        Scan { pending: Seq::empty(), holding: Seq::empty(), output: Seq::empty(), prefix: true }
    }

    /// Ends the numeral being read, if there is one: it goes to the output
    /// queue, unless it has no digit.
    pub open spec fn flush(self) -> Result<Scan, EvalError> {
        if self.pending.len() == 0 {
            Ok(self)
        } else if !has_digit(self.pending) {
            Err(EvalError::NumberParseError)
        } else {
            Ok(
                Scan {
                    pending: Seq::empty(),
                    output: self.output.push(TokenView::NumericLiteral(self.pending)),
                    prefix: false,
                    ..self
                },
            )
        }
    }

    /// An opening parenthesis goes on the holding stack.
    pub open spec fn open(self) -> Scan {
        Scan { holding: self.holding.push(TokenView::OpenParen), prefix: false, ..self }
    }

    /// The top of the holding stack moves to the output queue.
    pub open spec fn emit_top(self) -> Scan
        recommends
            self.holding.len() > 0,
    {
        Scan {
            holding: self.holding.drop_last(),
            output: self.output.push(self.holding.last()),
            ..self
        }
    }

    /// A closing parenthesis: what lies above the nearest opening parenthesis
    /// moves to the output queue, top first, and the parenthesis is dropped.
    pub open spec fn close(self) -> Result<Scan, EvalError>
        decreases self.holding.len(),
    {
        if self.holding.len() == 0 {
            Err(EvalError::MismatchedParenthesis)
        } else if self.holding.last() is OpenParen {
            Ok(Scan { holding: self.holding.drop_last(), prefix: false, ..self })
        } else {
            self.emit_top().close()
        }
    }

    /// A held token gives way to an operator of the given precedence if it is
    /// an operator that binds at least as tightly.
    pub open spec fn gives_way(top: TokenView, precedence: usize) -> bool {
        top matches TokenView::Operator(held) && held.precedence >= precedence
    }

    /// The operators on top of the holding stack that give way move to the
    /// output queue, top first.
    pub open spec fn unwind(self, precedence: usize) -> Scan
        decreases self.holding.len(),
    {
        if self.holding.len() > 0 && Scan::gives_way(self.holding.last(), precedence) {
            self.emit_top().unwind(precedence)
        } else {
            self
        }
    }

    /// The operator that an entry of the table becomes where it is met: a
    /// sign in prefix position takes its prefix form.
    pub open spec fn met(self, entry: Operator) -> Operator {
        if self.prefix && is_sign(entry.symbol) {
            entry.as_prefix()
        } else {
            entry
        }
    }

    /// An operator symbol: the operators that give way leave the holding
    /// stack, and the new operator goes on it.
    pub open spec fn shift(self, entry: Operator) -> Scan {
        let op = self.met(entry);
        let unwound = self.unwind(op.precedence);
        Scan { holding: unwound.holding.push(TokenView::Operator(op)), prefix: true, ..unwound }
    }

    /// One character.
    pub open spec fn step(self, c: char) -> Result<Scan, EvalError> {
        if is_digit(c) {
            Ok(Scan { pending: self.pending.push(c), ..self })
        } else if c == '.' {
            if self.pending.contains('.') {
                Err(EvalError::DuplicateDecimal)
            } else {
                Ok(Scan { pending: self.pending.push(c), ..self })
            }
        } else {
            match self.flush() {
                Err(error) => Err(error),
                Ok(flushed) => if c == '(' {
                    Ok(flushed.open())
                } else if c == ')' {
                    flushed.close()
                } else if is_blank(c) {
                    Ok(flushed)
                } else {
                    match Operator::lookup(c) {
                        Some(entry) => Ok(flushed.shift(entry)),
                        None => Err(EvalError::InvalidCharacter),
                    }
                },
            }
        }
    }

    /// The characters of `text`, one after the other, up to the first that
    /// fails.
    pub open spec fn scan(self, text: Seq<char>) -> Result<Scan, EvalError>
        decreases text.len(),
    {
        if text.len() == 0 {
            Ok(self)
        } else {
            match self.step(text[0]) {
                Err(error) => Err(error),
                Ok(next) => next.scan(text.drop_first()),
            }
        }
    }

    /// The end of the text: the last numeral is ended, and the holding stack
    /// is emptied into the output queue, top first.
    pub open spec fn finish(self) -> Result<Seq<TokenView>, EvalError> {
        match self.flush() {
            Err(error) => Err(error),
            Ok(flushed) => Ok(flushed.output + flushed.holding.reverse()),
        }
    }
}

impl Scan {
    /// What every state of a scan satisfies: the tokens gathered so far are
    /// well formed, and the numeral being read is written with digits and at
    /// most one decimal point.
    pub open spec fn wf(self) -> bool {
        &&& only_numeral_chars(self.pending)
        &&& single_point(self.pending)
        &&& all_wf(self.holding)
        &&& all_wf(self.output)
    }

    proof fn lemma_close_wf(self)
        requires
            self.wf(),
        ensures
            self.close() matches Ok(closed) ==> closed.wf(),
        decreases self.holding.len(),
    {
        if self.holding.len() > 0 && !(self.holding.last() is OpenParen) {
            self.emit_top().lemma_close_wf();
        }
    }

    proof fn lemma_unwind_wf(self, precedence: usize)
        requires
            self.wf(),
        ensures
            self.unwind(precedence).wf(),
        decreases self.holding.len(),
    {
        if self.holding.len() > 0 && Scan::gives_way(self.holding.last(), precedence) {
            self.emit_top().lemma_unwind_wf(precedence);
        }
    }

    /// A step leads from a well-formed state to a well-formed state.
    pub proof fn lemma_step_wf(self, c: char)
        requires
            self.wf(),
        ensures
            self.step(c) matches Ok(next) ==> next.wf(),
    {
        if is_digit(c) || c == '.' {
        } else if let Ok(flushed) = self.flush() {
            if c == '(' {
            } else if c == ')' {
                flushed.lemma_close_wf();
            } else if is_blank(c) {
            } else if let Some(entry) = Operator::lookup(c) {
                flushed.lemma_unwind_wf(flushed.met(entry).precedence);
            }
        }
    }

    /// A scan leads from a well-formed state to a well-formed state.
    pub proof fn lemma_scan_wf(self, text: Seq<char>)
        requires
            self.wf(),
        ensures
            self.scan(text) matches Ok(end) ==> end.wf(),
        decreases text.len(),
    {
        if text.len() > 0 {
            self.lemma_step_wf(text[0]);
            if let Ok(next) = self.step(text[0]) {
                next.lemma_scan_wf(text.drop_first());
            }
        }
    }
}

/// The postfix form of an expression, or the reason why it has none.
pub open spec fn postfix(text: Seq<char>) -> Result<Seq<TokenView>, EvalError> {
    match Scan::start().scan(text) {
        Err(error) => Err(error),
        Ok(end) => end.finish(),
    }
}

/// Every token of a postfix form is well formed: its literals denote
/// numbers, and its operators are entries of the table or prefix signs.
pub proof fn lemma_postfix_wf(text: Seq<char>)
    ensures
        postfix(text) matches Ok(queue) ==> all_wf(queue),
{
    Scan::start().lemma_scan_wf(text);
}

/// `got` is the queue `expected`, or the same error.
pub open spec fn agrees_queue(
    got: Result<Vec<Token>, EvalError>,
    expected: Result<Seq<TokenView>, EvalError>,
) -> bool {
    match expected {
        Ok(queue) => got matches Ok(tokens) && views(tokens@) == queue,
        Err(error) => got == Err::<Vec<Token>, EvalError>(error),
    }
}

proof fn lemma_views_push(tokens: Seq<Token>, token: Token)
    ensures
        views(tokens.push(token)) == views(tokens).push(token@),
{
    assert(views(tokens.push(token)) =~= views(tokens).push(token@));
}

proof fn lemma_views_drop_last(tokens: Seq<Token>)
    requires
        tokens.len() > 0,
    ensures
        views(tokens.drop_last()) == views(tokens).drop_last(),
        views(tokens).last() == tokens.last()@,
{
    assert(views(tokens.drop_last()) =~= views(tokens).drop_last());
}

fn has_point(text: &Vec<char>) -> (yes: bool)
    ensures
        yes == text@.contains('.'),
{
    let mut i: usize = 0;
    while i < text.len()
        invariant
            i <= text.len(),
            forall|j: int| 0 <= j < i ==> text@[j] != '.',
        decreases text.len() - i,
    {
        if text[i] == '.' {
            return true;
        }
        i += 1;
    }
    false
}

fn contains_digit(text: &Vec<char>) -> (yes: bool)
    ensures
        yes == has_digit(text@),
{
    let mut i: usize = 0;
    while i < text.len()
        invariant
            i <= text.len(),
            forall|j: int| 0 <= j < i ==> !is_digit(#[trigger] text@[j]),
        decreases text.len() - i,
    {
        if digit(text[i]) {
            return true;
        }
        i += 1;
    }
    false
}

/// A scan in progress.
pub struct Scanner {
    pending: Vec<char>,
    holding: Vec<Token>,
    output: Vec<Token>,
    prefix: bool,
}

impl View for Scanner {
    type V = Scan;

    closed spec fn view(&self) -> Scan {
        Scan {
            pending: self.pending@,
            holding: views(self.holding@),
            output: views(self.output@),
            prefix: self.prefix,
        }
    }
}

impl Scanner {
    /// A scanner that has read nothing.
    pub fn new() -> (scanner: Scanner)
        ensures
            scanner@ == Scan::start(),
    {
        let scanner = Scanner {
            pending: Vec::new(),
            holding: Vec::new(),
            output: Vec::new(),
            prefix: true,
        };
        assert(scanner@.holding =~= Seq::empty());
        assert(scanner@.output =~= Seq::empty());
        scanner
    }

    fn flush(self) -> (flushed: Result<Scanner, EvalError>)
        ensures
            agrees(flushed, self@.flush()),
    {
        if self.pending.len() == 0 {
            Ok(self)
        } else if !contains_digit(&self.pending) {
            Err(EvalError::NumberParseError)
        } else {
            let Scanner { pending, holding, mut output, prefix: _ } = self;
            proof {
                lemma_views_push(output@, Token::NumericLiteral(Numeral { text: pending }));
            }
            output.push(Token::NumericLiteral(Numeral { text: pending }));
            Ok(Scanner { pending: Vec::new(), holding, output, prefix: false })
        }
    }

    fn emit_top(&mut self)
        requires
            old(self).holding.len() > 0,
        ensures
            final(self)@ == old(self)@.emit_top(),
            final(self).holding.len() == old(self).holding.len() - 1,
    {
        proof {
            lemma_views_drop_last(self.holding@);
        }
        let top = self.holding.pop().unwrap();
        proof {
            lemma_views_push(self.output@, top);
        }
        self.output.push(top);
    }

    fn close(self) -> (closed: Result<Scanner, EvalError>)
        ensures
            agrees(closed, self@.close()),
    {
        let mut scanner = self;
        while scanner.holding.len() > 0
            invariant
                scanner@.close() == self@.close(),
            decreases scanner.holding.len(),
        {
            proof {
                lemma_views_drop_last(scanner.holding@);
            }
            let at_paren = match &scanner.holding[scanner.holding.len() - 1] {
                Token::OpenParen => true,
                _ => false,
            };
            if at_paren {
                scanner.holding.pop();
                scanner.prefix = false;
                return Ok(scanner);
            }
            scanner.emit_top();
        }
        Err(EvalError::MismatchedParenthesis)
    }

    fn top_gives_way(&self, precedence: usize) -> (yes: bool)
        ensures
            yes == (self@.holding.len() > 0 && Scan::gives_way(self@.holding.last(), precedence)),
            yes ==> self.holding.len() > 0,
    {
        if self.holding.len() == 0 {
            return false;
        }
        proof {
            lemma_views_drop_last(self.holding@);
        }
        match &self.holding[self.holding.len() - 1] {
            Token::Operator(held) => held.precedence >= precedence,
            _ => false,
        }
    }

    fn shift(self, entry: Operator) -> (shifted: Scanner)
        ensures
            shifted@ == self@.shift(entry),
    {
        let mut op = entry;
        if self.prefix && (op.symbol == '+' || op.symbol == '-') {
            op.argc = 1;
            op.precedence = PREFIX_PRECEDENCE;
        }
        assert(op == self@.met(entry));
        let mut scanner = self;
        while scanner.top_gives_way(op.precedence)
            invariant
                scanner@.unwind(op.precedence) == self@.unwind(op.precedence),
            decreases scanner.holding.len(),
        {
            scanner.emit_top();
        }
        proof {
            lemma_views_push(scanner.holding@, Token::Operator(op));
        }
        scanner.holding.push(Token::Operator(op));
        scanner.prefix = true;
        scanner
    }

    /// Reads one character.
    pub fn feed(self, c: char) -> (fed: Result<Scanner, EvalError>)
        ensures
            agrees(fed, self@.step(c)),
    {
        let mut scanner = self;
        if digit(c) {
            scanner.pending.push(c);
            Ok(scanner)
        } else if c == '.' {
            if has_point(&scanner.pending) {
                Err(EvalError::DuplicateDecimal)
            } else {
                scanner.pending.push(c);
                Ok(scanner)
            }
        } else {
            match scanner.flush() {
                Err(error) => Err(error),
                Ok(flushed) => {
                    let mut flushed = flushed;
                    if c == '(' {
                        proof {
                            lemma_views_push(flushed.holding@, Token::OpenParen);
                        }
                        flushed.holding.push(Token::OpenParen);
                        flushed.prefix = false;
                        Ok(flushed)
                    } else if c == ')' {
                        flushed.close()
                    } else if blank(c) {
                        Ok(flushed)
                    } else {
                        match Operator::by_char(c) {
                            Some(entry) => Ok(flushed.shift(entry)),
                            None => Err(EvalError::InvalidCharacter),
                        }
                    }
                },
            }
        }
    }

    /// Ends the scan and hands out the output queue.
    pub fn finish(self) -> (queue: Result<Vec<Token>, EvalError>)
        ensures
            agrees_queue(queue, self@.finish()),
    {
        match self.flush() {
            Err(error) => Err(error),
            Ok(flushed) => {
                let ghost end = flushed@;
                let mut holding = flushed.holding;
                let mut output = flushed.output;
                while holding.len() > 0
                    invariant
                        views(output@) + views(holding@).reverse() == end.output
                            + end.holding.reverse(),
                    decreases holding.len(),
                {
                    let ghost before = views(output@) + views(holding@).reverse();
                    proof {
                        lemma_views_drop_last(holding@);
                    }
                    let top = holding.pop().unwrap();
                    proof {
                        lemma_views_push(output@, top);
                    }
                    output.push(top);
                    assert(views(output@) + views(holding@).reverse() =~= before);
                }
                assert(views(output@) + views(holding@).reverse() =~= views(output@));
                Ok(output)
            },
        }
    }
}

/// Reads an expression into its postfix form.
pub fn to_postfix(expression: &str) -> (queue: Result<Vec<Token>, EvalError>)
    ensures
        agrees_queue(queue, postfix(expression@)),
        queue matches Ok(tokens) ==> all_wf(views(tokens@)),
{
    proof {
        lemma_postfix_wf(expression@);
    }
    let mut scanner = Scanner::new();
    let ghost mut rest = expression@;
    for c in it: expression.chars()
        invariant
            it.seq() == expression@,
            rest == expression@.skip(it.index()),
            scanner@.scan(rest) == Scan::start().scan(expression@),
    {
        assert(rest.len() > 0 && rest[0] == c);
        assert(rest.drop_first() =~= expression@.skip(it.index() + 1));
        match scanner.feed(c) {
            Err(error) => {
                return Err(error);
            },
            Ok(fed) => {
                scanner = fed;
            },
        }
        proof {
            rest = rest.drop_first();
        }
    }
    assert(rest.len() == 0);
    scanner.finish()
}

} // verus!
