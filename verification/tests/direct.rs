use infix_eval::{eval, EvalError, Reduction, Token, Value};
use std::collections::VecDeque;

fn number(value: &Value) -> f64 {
    match value {
        Value::Number(numeral) => {
            let text: String = numeral.text.iter().collect();
            text.parse::<f64>().unwrap()
        }
        Value::Negated(inner) => -number(inner),
        Value::Reduced(reduce, left, right) => {
            let (a, b) = (number(left), number(right));
            match reduce {
                Reduction::Divide => a / b,
                Reduction::Multiply => a * b,
                Reduction::Add => a + b,
                Reduction::Subtract => a - b,
            }
        }
    }
}

#[derive(Clone, Copy)]
enum Item {
    Number(f64),
    Operator { symbol: char, argc: usize, precedence: usize },
    OpenParen,
}

fn precedence(symbol: char) -> Option<usize> {
    match symbol {
        '/' => Some(4),
        '*' => Some(3),
        '+' => Some(2),
        '-' => Some(1),
        _ => None,
    }
}

fn flush(
    temp: &mut String,
    output: &mut VecDeque<Item>,
    last: &mut Option<Item>,
) -> Result<(), EvalError> {
    if !temp.is_empty() {
        let parsed = temp.parse::<f64>().map_err(|_| EvalError::NumberParseError)?;
        output.push_back(Item::Number(parsed));
        *last = output.back().cloned();
        temp.clear();
    }
    Ok(())
}

// The same evaluation with numbers on the stacks from the start.
fn direct(expression: &str) -> Result<f64, EvalError> {
    let mut holding: VecDeque<Item> = VecDeque::new();
    let mut output: VecDeque<Item> = VecDeque::new();
    let mut temp = String::new();
    let mut last: Option<Item> = None;
    for c in expression.chars() {
        if c.is_digit(10) {
            temp.push(c);
        } else if c == '.' {
            if temp.contains('.') {
                return Err(EvalError::DuplicateDecimal);
            }
            temp.push(c);
        } else {
            flush(&mut temp, &mut output, &mut last)?;
            if c == '(' {
                holding.push_front(Item::OpenParen);
                last = holding.front().cloned();
            } else if c == ')' {
                while let Some(Item::Number(_)) | Some(Item::Operator { .. }) = holding.front() {
                    output.push_back(holding.pop_front().unwrap());
                }
                if holding.is_empty() {
                    return Err(EvalError::MismatchedParenthesis);
                }
                last = holding.pop_front();
            } else if !c.is_whitespace() {
                let Some(table) = precedence(c) else {
                    return Err(EvalError::InvalidCharacter);
                };
                let sign = c == '+' || c == '-';
                let prefix = sign && matches!(last, Some(Item::Operator { .. }) | None);
                let (argc, precedence) = if prefix { (1, 255) } else { (2, table) };
                while let Some(Item::Operator { precedence: held, .. }) = holding.front() {
                    if *held < precedence {
                        break;
                    }
                    output.push_back(holding.pop_front().unwrap());
                }
                holding.push_front(Item::Operator { symbol: c, argc, precedence });
                last = holding.front().cloned();
            }
        }
    }
    flush(&mut temp, &mut output, &mut last)?;
    while let Some(item) = holding.pop_front() {
        output.push_back(item);
    }
    let mut solve: VecDeque<f64> = VecDeque::new();
    for item in output {
        match item {
            Item::Number(value) => solve.push_front(value),
            Item::Operator { symbol, argc, .. } => {
                if solve.len() < argc {
                    return Err(EvalError::NotEnoughArguments);
                }
                if argc == 1 {
                    if symbol == '-' {
                        let value = solve.pop_front().unwrap();
                        solve.push_front(-value);
                    }
                } else {
                    let right = solve.pop_front().unwrap();
                    let left = solve.pop_front().unwrap();
                    solve.push_front(match symbol {
                        '/' => left / right,
                        '*' => left * right,
                        '+' => left + right,
                        _ => left - right,
                    });
                }
            }
            Item::OpenParen => return Err(EvalError::UnexpectedToken(Token::OpenParen)),
        }
    }
    solve.front().copied().ok_or(EvalError::NoResult)
}

fn same(expression: &str) {
    let got = eval(expression).map(|value| number(&value).to_bits());
    let expected = direct(expression).map(f64::to_bits);
    assert_eq!(got, expected, "{:?}", expression);
}

fn every_text(alphabet: &[char], length: usize) -> Vec<String> {
    let mut texts = vec![String::new()];
    let mut from = 0;
    for _ in 0..length {
        let upto = texts.len();
        for i in from..upto {
            for c in alphabet {
                let mut text = texts[i].clone();
                text.push(*c);
                texts.push(text);
            }
        }
        from = upto;
    }
    texts
}

#[test]
fn values_are_the_numbers_of_a_direct_evaluation() {
    for expression in [
        "3 + 4 * 2",
        "(3 + 4) * 2",
        "-3 + 4",
        "2 - -3",
        "1 / 0",
        "0 / 0",
        "-1 / 0",
        "1 - 2 + 3",
        "7 * 3 / 2",
        "0.1 + 0.2 - 0.3",
        "1 - - -3",
        "2 * (3 + (4 - 1)) / 3",
        "1 2 3 * 4",
    ] {
        same(expression);
    }
}

#[test]
fn every_short_text_evaluates_as_directly() {
    let alphabet = ['0', '2', '.', '+', '-', '*', '/', '(', ')', ' ', '#'];
    let texts = every_text(&alphabet, 5);
    assert_eq!(texts.len(), 1 + 11 + 121 + 1331 + 14641 + 161051);
    for text in &texts {
        same(text);
    }
}

#[test]
fn longer_texts_of_operators_and_operands_evaluate_as_directly() {
    let alphabet = ['7', '+', '-', '/', '(', ')'];
    for text in every_text(&alphabet, 7) {
        same(&text);
    }
}
