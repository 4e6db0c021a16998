//! The operator table.

use crate::value::{Term, Value};
use vstd::prelude::*;

verus! {

/// What a binary operator does to its two operands.
#[derive(Copy, Clone, Debug, PartialEq, Eq, Structural)]
pub enum Reduction {
    Divide,
    Multiply,
    Add,
    Subtract,
}

/// The precedence given to `+` and `-` in prefix position. It is above every
/// entry of the table.
pub const PREFIX_PRECEDENCE: usize = 255;

/// An operator as it travels through a conversion: an entry of the table, or
/// the prefix form of the entry of `+` or `-`.
#[derive(Copy, Clone, Debug, PartialEq, Eq, Structural)]
pub struct Operator {
    pub symbol: char,
    /// How many operands the operator takes.
    pub argc: usize,
    /// A higher precedence binds tighter.
    pub precedence: usize,
    /// The reduction that the symbol stands for.
    pub reduce: Reduction,
}

/// `+` and `-`, the two symbols that can stand in front of an operand.
pub open spec fn is_sign(c: char) -> bool {
    c == '+' || c == '-'
}

impl Operator {
    /// The table, in the order of its symbols.
    pub open spec fn table() -> Seq<Operator> {
        seq![
            Operator { symbol: '*', argc: 2, precedence: 3, reduce: Reduction::Multiply },
            Operator { symbol: '+', argc: 2, precedence: 2, reduce: Reduction::Add },
            Operator { symbol: '-', argc: 2, precedence: 1, reduce: Reduction::Subtract },
            Operator { symbol: '/', argc: 2, precedence: 4, reduce: Reduction::Divide },
        ]
    }

    /// The table as a function of the symbol.
    pub open spec fn lookup(c: char) -> Option<Operator> {
        if c == '/' {
            Some(Operator { symbol: '/', argc: 2, precedence: 4, reduce: Reduction::Divide })
        } else if c == '*' {
            Some(Operator { symbol: '*', argc: 2, precedence: 3, reduce: Reduction::Multiply })
        } else if c == '+' {
            Some(Operator { symbol: '+', argc: 2, precedence: 2, reduce: Reduction::Add })
        } else if c == '-' {
            Some(Operator { symbol: '-', argc: 2, precedence: 1, reduce: Reduction::Subtract })
        } else {
            None
        }
    }

    /// The same operator in prefix position: one operand, and a precedence
    /// above every binary operator.
    pub open spec fn as_prefix(self) -> Operator {
        Operator { argc: 1, precedence: PREFIX_PRECEDENCE, ..self }
    }

    /// An operator is an entry of the table, or the prefix form of a sign.
    pub open spec fn wf(self) -> bool {
        Operator::lookup(self.symbol) matches Some(entry) && (self == entry || (is_sign(
            self.symbol,
        ) && self == entry.as_prefix()))
    }

    fn entries() -> (table: [Operator; 4])
        ensures
            table@ == Operator::table(),
    {
        let table = [
            Operator { symbol: '*', argc: 2, precedence: 3, reduce: Reduction::Multiply },
            Operator { symbol: '+', argc: 2, precedence: 2, reduce: Reduction::Add },
            Operator { symbol: '-', argc: 2, precedence: 1, reduce: Reduction::Subtract },
            Operator { symbol: '/', argc: 2, precedence: 4, reduce: Reduction::Divide },
        ];
        assert(table@ =~= Operator::table());
        table
    }

    /// Finds the entry of a symbol by binary search over the table.
    pub fn by_char(c: char) -> (found: Option<Operator>)
        ensures
            found == Operator::lookup(c),
            found matches Some(op) ==> op.symbol == c && op.wf(),
    {
        let table = Operator::entries();
        let mut low: usize = 0;
        let mut high: usize = 4;
        while low < high
            invariant
                low <= high <= 4,
                table@ == Operator::table(),
                forall|i: int| 0 <= i < low ==> (#[trigger] table@[i]).symbol < c,
                forall|i: int| high <= i < 4 ==> c < (#[trigger] table@[i]).symbol,
            decreases high - low,
        {
            let mid: usize = low + (high - low) / 2;
            let entry = table[mid];
            if entry.symbol == c {
                return Some(entry);
            } else if entry.symbol < c {
                low = mid + 1;
            } else {
                high = mid;
            }
        }
        None
    }

    /// Tells whether the operator is well formed.
    pub fn valid(&self) -> (yes: bool)
        ensures
            yes == self.wf(),
    {
        match Operator::by_char(self.symbol) {
            None => false,
            Some(entry) => {
                let same = self.reduce == entry.reduce;
                let binary = self.argc == entry.argc && self.precedence == entry.precedence;
                let prefix = (self.symbol == '+' || self.symbol == '-') && self.argc == 1
                    && self.precedence == PREFIX_PRECEDENCE;
                same && (binary || prefix)
            },
        }
    }

    /// Applies the operator's reduction to the operands in `args`, which
    /// holds them in the order in which they left the operand stack: the
    /// second is the left operand and the first the right one.
    pub fn resolve(&self, args: Vec<Value>) -> (reduced: Value)
        requires
            args.len() >= 2,
        ensures
            reduced@ == Term::Reduced(self.reduce, Box::new(args[1]@), Box::new(args[0]@)),
    {
        let mut args = args;
        args.truncate(2);
        let left = args.pop().unwrap();
        let right = args.pop().unwrap();
        Value::Reduced(self.reduce, Box::new(left), Box::new(right))
    }
}

/// Every entry of the table is found under its own symbol, and the symbols
/// rise along the table.
pub proof fn lemma_table_sorted()
    ensures
        forall|i: int, j: int|
            0 <= i < j < Operator::table().len() ==> (#[trigger] Operator::table()[i]).symbol < (
            #[trigger] Operator::table()[j]).symbol,
        forall|i: int|
            0 <= i < Operator::table().len() ==> Operator::lookup(
                (#[trigger] Operator::table()[i]).symbol,
            ) == Some(Operator::table()[i]),
        forall|c: char|
            (#[trigger] Operator::lookup(c)) is Some ==> Operator::table().contains(
                Operator::lookup(c).unwrap(),
            ),
{
    let t = Operator::table();
    assert(t[0].symbol == '*' && t[1].symbol == '+' && t[2].symbol == '-' && t[3].symbol == '/');
    assert forall|c: char| (#[trigger] Operator::lookup(c)) is Some implies t.contains(
        Operator::lookup(c).unwrap(),
    ) by {
        let op = Operator::lookup(c).unwrap();
        if c == '*' {
            assert(t[0] == op);
        } else if c == '+' {
            assert(t[1] == op);
        } else if c == '-' {
            assert(t[2] == op);
        } else {
            assert(t[3] == op);
        }
    }
}

} // verus!
