use infix_eval::{eval, evaluate, to_postfix, EvalError, Numeral, Operator, Reduction, Token, Value};

fn number(value: &Value) -> f64 {
    match value {
        Value::Number(numeral) => {
            let text: String = numeral.text.iter().collect();
            text.parse::<f64>().unwrap()
        }
        Value::Negated(inner) => -number(inner),
        Value::Reduced(reduce, left, right) => {
            let (a, b) = (number(left), number(right));
            match reduce {
                Reduction::Divide => a / b,
                Reduction::Multiply => a * b,
                Reduction::Add => a + b,
                Reduction::Subtract => a - b,
            }
        }
    }
}

fn compute(expression: &str) -> Result<f64, EvalError> {
    eval(expression).map(|value| number(&value))
}

fn tokens(value: &Value) -> usize {
    match value {
        Value::Number(_) => 1,
        Value::Negated(inner) => 1 + tokens(inner),
        Value::Reduced(_, left, right) => 1 + tokens(left) + tokens(right),
    }
}

fn numerals_parse(value: &Value) {
    match value {
        Value::Number(numeral) => {
            let text: String = numeral.text.iter().collect();
            assert!(text.parse::<f64>().is_ok(), "{}", text);
        }
        Value::Negated(inner) => numerals_parse(inner),
        Value::Reduced(_, left, right) => {
            numerals_parse(left);
            numerals_parse(right);
        }
    }
}

fn literal(text: &str) -> Token {
    Token::NumericLiteral(Numeral { text: text.chars().collect() })
}

fn binary(symbol: char) -> Token {
    Token::Operator(Operator::by_char(symbol).unwrap())
}

fn prefix(symbol: char) -> Token {
    let mut op = Operator::by_char(symbol).unwrap();
    op.argc = 1;
    op.precedence = 255;
    Token::Operator(op)
}

#[test]
fn multiplication_binds_tighter_than_addition() {
    assert_eq!(compute("3 + 4 * 2"), Ok(11.0));
}

#[test]
fn parentheses_group_first() {
    assert_eq!(compute("(3 + 4) * 2"), Ok(14.0));
}

#[test]
fn leading_minus_negates_the_first_operand() {
    assert_eq!(compute("-3 + 4"), Ok(1.0));
}

#[test]
fn minus_after_an_operator_is_a_sign() {
    assert_eq!(compute("2 - -3"), Ok(5.0));
}

#[test]
fn plus_after_an_operator_is_a_sign() {
    assert_eq!(compute("2 * +3"), Ok(6.0));
    assert_eq!(compute("+7"), Ok(7.0));
}

#[test]
fn division_by_zero_is_infinite() {
    assert_eq!(compute("1 / 0"), Ok(f64::INFINITY));
    assert_eq!(
        eval("1 / 0"),
        Ok(Value::Reduced(
            Reduction::Divide,
            Box::new(Value::Number(Numeral { text: vec!['1'] })),
            Box::new(Value::Number(Numeral { text: vec!['0'] })),
        ))
    );
}

#[test]
fn zero_by_zero_is_not_a_number() {
    assert!(compute("0 / 0").unwrap().is_nan());
}

#[test]
fn second_decimal_point_in_a_numeral() {
    assert_eq!(eval("3.5.2"), Err(EvalError::DuplicateDecimal));
    assert_eq!(eval("1 + 3..2"), Err(EvalError::DuplicateDecimal));
}

#[test]
fn decimal_point_alone_is_no_numeral() {
    assert_eq!(eval("."), Err(EvalError::NumberParseError));
    assert_eq!(eval("1 + . "), Err(EvalError::NumberParseError));
    // White space ends a numeral, so each point here is a numeral of its own.
    assert_eq!(eval("3 . 5 . 2"), Err(EvalError::NumberParseError));
}

#[test]
fn closing_parenthesis_alone() {
    assert_eq!(eval(")"), Err(EvalError::MismatchedParenthesis));
    assert_eq!(eval("(1 + 2))"), Err(EvalError::MismatchedParenthesis));
    assert_eq!(eval("1 + 2)"), Err(EvalError::MismatchedParenthesis));
}

#[test]
fn plus_alone_lacks_its_operand() {
    assert_eq!(eval("+"), Err(EvalError::NotEnoughArguments));
}

#[test]
fn operator_without_operands() {
    assert_eq!(eval("*"), Err(EvalError::NotEnoughArguments));
    assert_eq!(eval("1 *"), Err(EvalError::NotEnoughArguments));
    assert_eq!(eval("1 + * 2"), Err(EvalError::NotEnoughArguments));
}

#[test]
fn unknown_character() {
    assert_eq!(eval("3 # 4"), Err(EvalError::InvalidCharacter));
    assert_eq!(eval("x"), Err(EvalError::InvalidCharacter));
    assert_eq!(eval("2 ^ 3"), Err(EvalError::InvalidCharacter));
    assert_eq!(eval("1e5"), Err(EvalError::InvalidCharacter));
}

#[test]
fn first_failure_in_reading_order_is_reported() {
    assert_eq!(eval(") #"), Err(EvalError::MismatchedParenthesis));
    assert_eq!(eval("# )"), Err(EvalError::InvalidCharacter));
    assert_eq!(eval(". #"), Err(EvalError::NumberParseError));
    assert_eq!(eval("1..2 #"), Err(EvalError::DuplicateDecimal));
    // Reading fails before the evaluation begins.
    assert_eq!(eval("+ #"), Err(EvalError::InvalidCharacter));
}

#[test]
fn empty_expression_has_no_result() {
    assert_eq!(eval(""), Err(EvalError::NoResult));
    assert_eq!(eval("   \t\n"), Err(EvalError::NoResult));
    assert_eq!(eval("()"), Err(EvalError::NoResult));
}

#[test]
fn unclosed_parenthesis_reaches_the_evaluation() {
    assert_eq!(eval("(1 + 2"), Err(EvalError::UnexpectedToken(Token::OpenParen)));
    assert_eq!(eval("("), Err(EvalError::UnexpectedToken(Token::OpenParen)));
    assert_eq!(eval("2 * (3"), Err(EvalError::UnexpectedToken(Token::OpenParen)));
}

#[test]
fn same_expression_same_result() {
    for expression in ["3 + 4 * 2", "1 / 0", "3 # 4", "", "(1", "2 - -3", ")"] {
        assert_eq!(eval(expression), eval(expression));
    }
    assert_eq!(compute("3 + 4 * 2"), compute("3 + 4 * 2"));
}

#[test]
fn subtraction_and_division_keep_their_operand_order() {
    assert_eq!(compute("8 - 2"), Ok(6.0));
    assert_eq!(compute("8 / 2"), Ok(4.0));
    let queue = vec![literal("8"), literal("2"), binary('-')];
    assert_eq!(evaluate(queue).map(|value| number(&value)), Ok(6.0));
    let queue = vec![literal("8"), literal("2"), binary('/')];
    assert_eq!(evaluate(queue).map(|value| number(&value)), Ok(4.0));
}

#[test]
fn equal_precedence_groups_from_the_left() {
    assert_eq!(compute("10 - 4 - 3"), Ok(3.0));
    assert_eq!(compute("64 / 4 / 2"), Ok(8.0));
    assert_eq!(compute("2 * 3 * 4"), Ok(24.0));
    assert_eq!(compute("1 + 2 + 3"), Ok(6.0));
}

#[test]
fn table_precedence_decides_the_grouping() {
    // `+` binds tighter than `-`, and `/` tighter than `*`.
    assert_eq!(compute("1 - 2 + 3"), Ok(-4.0));
    assert_eq!(compute("1 + 2 - 3"), Ok(0.0));
    assert_eq!(compute("7 * 3 / 2"), Ok(10.5));
    assert_eq!(
        eval("7 * 3 / 2"),
        Ok(Value::Reduced(
            Reduction::Multiply,
            Box::new(Value::Number(Numeral { text: vec!['7'] })),
            Box::new(Value::Reduced(
                Reduction::Divide,
                Box::new(Value::Number(Numeral { text: vec!['3'] })),
                Box::new(Value::Number(Numeral { text: vec!['2'] })),
            )),
        ))
    );
    assert_eq!(compute("2 + 6 / 3 * 2 - 1"), Ok(5.0));
}

#[test]
fn sign_binds_tighter_than_any_operator() {
    assert_eq!(compute("-3 * 4"), Ok(-12.0));
    assert_eq!(compute("2 * -3 + 1"), Ok(-5.0));
    assert_eq!(compute("1 + -2 * 3"), Ok(-5.0));
    assert_eq!(compute("-(1 + 2)"), Ok(-3.0));
    assert_eq!(compute("6 / -(1 + 2)"), Ok(-2.0));
}

#[test]
fn sign_after_an_opening_parenthesis_is_binary() {
    assert_eq!(eval("(-3)"), Err(EvalError::NotEnoughArguments));
    assert_eq!(eval("2 * (+3)"), Err(EvalError::NotEnoughArguments));
}

#[test]
fn sign_after_a_sign_leaves_the_first_without_operand() {
    assert_eq!(eval("- -3"), Err(EvalError::NotEnoughArguments));
    assert_eq!(eval("--3"), Err(EvalError::NotEnoughArguments));
    // The first sign leaves the holding stack when the second arrives, and
    // negates what is on the operand stack by then.
    assert_eq!(
        to_postfix("1 - - -3"),
        Ok(vec![literal("1"), prefix('-'), literal("3"), prefix('-'), binary('-')])
    );
    assert_eq!(compute("1 - - -3"), Ok(2.0));
}

#[test]
fn sign_after_a_closing_parenthesis_is_binary() {
    assert_eq!(compute("(1 + 2) - 3"), Ok(0.0));
    assert_eq!(compute("(1) + (2)"), Ok(3.0));
}

#[test]
fn numerals_with_a_decimal_point() {
    assert_eq!(compute("3.5"), Ok(3.5));
    assert_eq!(compute("5."), Ok(5.0));
    assert_eq!(compute(".5"), Ok(0.5));
    assert_eq!(compute("1.5 + 2.25"), Ok(3.75));
    assert_eq!(compute("007"), Ok(7.0));
    assert_eq!(compute("0.1 + 0.2"), Ok(0.1 + 0.2));
}

#[test]
fn long_numerals_are_numbers() {
    let digits = "9".repeat(400);
    assert_eq!(compute(&digits), Ok(f64::INFINITY));
    let small = format!("0.{}1", "0".repeat(400));
    assert_eq!(compute(&small), Ok(0.0));
}

#[test]
fn white_space_separates_and_means_nothing() {
    assert_eq!(compute("3+4*2"), Ok(11.0));
    assert_eq!(compute("  3\t+\n4 *\r2  "), Ok(11.0));
    assert_eq!(compute("1\u{a0}+\u{2003}2\u{3000}"), Ok(3.0));
    assert_eq!(compute("( 1 + 2 ) * 3\n"), Ok(9.0));
}

#[test]
fn white_space_ends_a_numeral() {
    // Two numerals in a row: the last one is the top of the operand stack.
    assert_eq!(compute("1 2"), Ok(2.0));
    assert_eq!(compute("12"), Ok(12.0));
    assert_eq!(compute("1 2 +"), Ok(3.0));
    assert_eq!(compute("1 2 3 * 4"), Ok(12.0));
    assert_eq!(compute("(1)(2)"), Ok(2.0));
}

#[test]
fn nested_parentheses() {
    assert_eq!(compute("((2))"), Ok(2.0));
    assert_eq!(compute("2 * (3 + (4 - 1)) / 3"), Ok(4.0));
    assert_eq!(compute("(1 + 2) * (3 + 4)"), Ok(21.0));
}

#[test]
fn postfix_order_of_an_expression() {
    assert_eq!(
        to_postfix("3 + 4 * 2"),
        Ok(vec![literal("3"), literal("4"), literal("2"), binary('*'), binary('+')])
    );
    assert_eq!(
        to_postfix("(3 + 4) * 2"),
        Ok(vec![literal("3"), literal("4"), binary('+'), literal("2"), binary('*')])
    );
    assert_eq!(
        to_postfix("2 - -3"),
        Ok(vec![literal("2"), literal("3"), prefix('-'), binary('-')])
    );
    assert_eq!(
        to_postfix("1 - 2 - 3"),
        Ok(vec![literal("1"), literal("2"), binary('-'), literal("3"), binary('-')])
    );
    assert_eq!(to_postfix(""), Ok(vec![]));
}

#[test]
fn unclosed_parenthesis_goes_to_the_queue() {
    assert_eq!(to_postfix("(1"), Ok(vec![literal("1"), Token::OpenParen]));
    assert_eq!(
        to_postfix("2 * (3 + 4"),
        Ok(vec![
            literal("2"),
            literal("3"),
            literal("4"),
            binary('+'),
            Token::OpenParen,
            binary('*')
        ])
    );
}

#[test]
fn well_formed_expression_leaves_one_operand() {
    // Every token of the queue is part of the one value that is left.
    let expressions =
        ["3 + 4 * 2", "(3 + 4) * 2", "-3 + 4", "2 - -3", "1 / 0", "2 * (3 + (4 - 1)) / 3"];
    for expression in expressions {
        let queue = to_postfix(expression).unwrap();
        let count = queue.len();
        let value = evaluate(queue).unwrap();
        assert_eq!(tokens(&value), count, "{}", expression);
    }
}

#[test]
fn evaluation_of_a_queue() {
    assert_eq!(evaluate(vec![]), Err(EvalError::NoResult));
    assert_eq!(evaluate(vec![binary('+')]), Err(EvalError::NotEnoughArguments));
    assert_eq!(evaluate(vec![literal("1"), binary('+')]), Err(EvalError::NotEnoughArguments));
    assert_eq!(evaluate(vec![prefix('-')]), Err(EvalError::NotEnoughArguments));
    assert_eq!(
        evaluate(vec![literal("1"), Token::OpenParen]),
        Err(EvalError::UnexpectedToken(Token::OpenParen))
    );
    assert_eq!(
        evaluate(vec![literal("1"), prefix('+')]),
        Ok(Value::Number(Numeral { text: vec!['1'] }))
    );
    assert_eq!(
        evaluate(vec![literal("1"), prefix('-')]),
        Ok(Value::Negated(Box::new(Value::Number(Numeral { text: vec!['1'] }))))
    );
    assert_eq!(
        evaluate(vec![literal("1"), literal("2"), literal("3")]).map(|value| number(&value)),
        Ok(3.0)
    );
}

#[test]
fn numeral_is_a_number_exactly_when_it_has_a_digit() {
    let mut texts = vec![String::new()];
    for _ in 0..5 {
        let mut longer = Vec::new();
        for text in &texts {
            for c in ['0', '7', '.'] {
                if c != '.' || !text.contains('.') {
                    longer.push(format!("{}{}", text, c));
                }
            }
        }
        for text in &longer {
            let parsed = text.parse::<f64>();
            match compute(text) {
                Ok(number) => assert_eq!(Ok(number), parsed, "{}", text),
                Err(error) => {
                    assert_eq!(error, EvalError::NumberParseError, "{}", text);
                    assert!(parsed.is_err(), "{}", text);
                }
            }
        }
        texts = longer;
    }
}

#[test]
fn numerals_of_a_value_are_numbers() {
    for expression in ["5. + .5", "-(1.25 * 007) / 3.", "1 2 3", "0.000 - 99999999999999999999"] {
        numerals_parse(&eval(expression).unwrap());
    }
}

#[test]
fn blank_between_tokens_changes_nothing() {
    let pairs = [
        ("3+", "4"),
        ("3", "+4"),
        ("(", "1)"),
        ("", "1+2"),
        ("1+2", ""),
        ("1)", "+2"),
        ("#", "1"),
        ("1.", ".5"),
        (".", ""),
    ];
    for (first, second) in pairs {
        for blank in [' ', '\t', '\n', '\u{2028}'] {
            let spaced = format!("{}{}{}", first, blank, second);
            let joined = format!("{}{}", first, second);
            if first.ends_with(|c: char| c.is_ascii_digit() || c == '.')
                && second.starts_with(|c: char| c.is_ascii_digit() || c == '.')
            {
                continue;
            }
            assert_eq!(eval(&spaced), eval(&joined), "{:?}", spaced);
            assert_eq!(to_postfix(&spaced), to_postfix(&joined), "{:?}", spaced);
        }
    }
}
