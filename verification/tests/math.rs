use ello_rusty_collection::math::{parse, plan, render, MathError, MathOp, Step};

fn strings(words: &[&str]) -> Vec<String> {
    words.iter().map(|word| word.to_string()).collect()
}

fn tokenize(text: &str) -> Result<Vec<String>, MathError> {
    parse(text.to_string())
}

fn number(token: &str) -> Result<f64, MathError> {
    match token.parse::<f64>() {
        Ok(value) => Ok(value),
        Err(_) => Err(MathError::InvalidNumber(token.to_string())),
    }
}

fn evaluate(words: &[&str]) -> Result<f64, MathError> {
    let tokens = strings(words);
    let steps = plan(&tokens)?;
    let mut accumulator = number(&tokens[0])?;
    for step in steps {
        let value = number(&tokens[step.index])?;
        accumulator = match step.op {
            MathOp::Add => accumulator + value,
            MathOp::Sub => accumulator - value,
            MathOp::Mul => accumulator * value,
            MathOp::Div => accumulator / value,
        };
    }
    Ok(accumulator)
}

fn calculate(text: &str) -> Result<f64, MathError> {
    let tokens = tokenize(text)?;
    let words: Vec<&str> = tokens.iter().map(|token| token.as_str()).collect();
    evaluate(&words)
}

#[test]
fn tokenize_spaced_sum() {
    assert_eq!(tokenize("1 + 2"), Ok(strings(&["1", "+", "2"])));
}

#[test]
fn tokenize_operator_without_spaces() {
    assert_eq!(tokenize("3.5*2"), Ok(strings(&["3.5", "*", "2"])));
}

#[test]
fn tokenize_repeated_spaces_collapse() {
    assert_eq!(tokenize("1   2"), Ok(strings(&["1", "2"])));
}

#[test]
fn tokenize_rejects_ampersand() {
    assert_eq!(tokenize("1&2"), Err(MathError::InvalidCharacter('&')));
}

#[test]
fn tokenize_names_the_first_rejected_character() {
    assert_eq!(tokenize("1 ? 2 & 3"), Err(MathError::InvalidCharacter('?')));
    assert_eq!(tokenize("12a"), Err(MathError::InvalidCharacter('a')));
    assert_eq!(tokenize("\t1"), Err(MathError::InvalidCharacter('\t')));
    assert_eq!(tokenize("1 + (2)"), Err(MathError::InvalidCharacter('(')));
    assert_eq!(tokenize("1 + ٣"), Err(MathError::InvalidCharacter('٣')));
}

#[test]
fn tokenize_empty_and_blank_text() {
    assert_eq!(tokenize(""), Ok(strings(&[])));
    assert_eq!(tokenize("    "), Ok(strings(&[])));
}

#[test]
fn tokenize_keeps_malformed_numerals_whole() {
    assert_eq!(tokenize("1.2.3"), Ok(strings(&["1.2.3"])));
    assert_eq!(tokenize("."), Ok(strings(&["."])));
    assert_eq!(tokenize("..5 ."), Ok(strings(&["..5", "."])));
}

#[test]
fn tokenize_consecutive_operators() {
    assert_eq!(tokenize("+-*/"), Ok(strings(&["+", "-", "*", "/"])));
    assert_eq!(tokenize("1+-2"), Ok(strings(&["1", "+", "-", "2"])));
    assert_eq!(tokenize("--"), Ok(strings(&["-", "-"])));
}

#[test]
fn tokenize_leading_and_trailing_parts() {
    assert_eq!(tokenize("  12  "), Ok(strings(&["12"])));
    assert_eq!(tokenize("12"), Ok(strings(&["12"])));
    assert_eq!(tokenize("-7"), Ok(strings(&["-", "7"])));
    assert_eq!(tokenize("7 /"), Ok(strings(&["7", "/"])));
    assert_eq!(tokenize("10/2-3"), Ok(strings(&["10", "/", "2", "-", "3"])));
}

#[test]
fn tokenize_long_numeral_is_one_token() {
    assert_eq!(tokenize("1234567890.0987654321"), Ok(strings(&["1234567890.0987654321"])));
}

#[test]
fn operator_from_token() {
    assert_eq!(MathOp::from_token("+"), Some(MathOp::Add));
    assert_eq!(MathOp::from_token("-"), Some(MathOp::Sub));
    assert_eq!(MathOp::from_token("*"), Some(MathOp::Mul));
    assert_eq!(MathOp::from_token("/"), Some(MathOp::Div));
    assert_eq!(MathOp::from_token(""), None);
    assert_eq!(MathOp::from_token("1"), None);
    assert_eq!(MathOp::from_token("++"), None);
    assert_eq!(MathOp::from_token("+1"), None);
    assert_eq!(MathOp::from_token(" "), None);
}

#[test]
fn plan_of_a_sum() {
    assert_eq!(
        plan(&strings(&["1", "+", "2"])),
        Ok(vec![Step { op: MathOp::Add, index: 2 }])
    );
}

#[test]
fn plan_of_adjacent_numerals_multiplies() {
    assert_eq!(
        plan(&strings(&["2", "3"])),
        Ok(vec![Step { op: MathOp::Mul, index: 1 }])
    );
    assert_eq!(
        plan(&strings(&["2", "+", "3", "4"])),
        Ok(vec![Step { op: MathOp::Add, index: 2 }, Step { op: MathOp::Mul, index: 3 }])
    );
}

#[test]
fn plan_goes_left_to_right() {
    assert_eq!(
        plan(&strings(&["10", "/", "2", "-", "3"])),
        Ok(vec![Step { op: MathOp::Div, index: 2 }, Step { op: MathOp::Sub, index: 4 }])
    );
}

#[test]
fn plan_keeps_the_last_operator() {
    assert_eq!(
        plan(&strings(&["1", "+", "-", "2"])),
        Ok(vec![Step { op: MathOp::Sub, index: 3 }])
    );
    assert_eq!(
        plan(&strings(&["1", "/", "-", "+", "*", "2"])),
        Ok(vec![Step { op: MathOp::Mul, index: 5 }])
    );
}

#[test]
fn plan_of_one_numeral_is_empty() {
    assert_eq!(plan(&strings(&["42"])), Ok(vec![]));
}

#[test]
fn plan_drops_a_trailing_operator() {
    assert_eq!(
        plan(&strings(&["1", "+", "2", "-"])),
        Ok(vec![Step { op: MathOp::Add, index: 2 }])
    );
    assert_eq!(plan(&strings(&["1", "+"])), Ok(vec![]));
}

#[test]
fn plan_takes_any_other_token_as_operand() {
    assert_eq!(
        plan(&strings(&["1", "x", "+", "1.2.3"])),
        Ok(vec![Step { op: MathOp::Mul, index: 1 }, Step { op: MathOp::Add, index: 3 }])
    );
    assert_eq!(plan(&strings(&["abc"])), Ok(vec![]));
}

#[test]
fn plan_of_nothing_fails() {
    assert_eq!(plan(&strings(&[])), Err(MathError::EmptyExpression));
}

#[test]
fn plan_with_leading_operator_fails() {
    assert_eq!(
        plan(&strings(&["+", "2"])),
        Err(MathError::InvalidNumber("+".to_string()))
    );
    assert_eq!(
        plan(&strings(&["/"])),
        Err(MathError::InvalidNumber("/".to_string()))
    );
}

#[test]
fn evaluate_sum() {
    assert_eq!(evaluate(&["1", "+", "2"]), Ok(3.0));
}

#[test]
fn evaluate_implicit_multiplication() {
    assert_eq!(evaluate(&["2", "3"]), Ok(6.0));
}

#[test]
fn evaluate_without_precedence() {
    assert_eq!(evaluate(&["10", "/", "2", "-", "3"]), Ok(2.0));
    assert_eq!(evaluate(&["1", "+", "2", "*", "3"]), Ok(9.0));
}

#[test]
fn evaluate_last_operator_wins() {
    assert_eq!(evaluate(&["1", "+", "-", "2"]), Ok(-1.0));
}

#[test]
fn evaluate_empty_fails() {
    assert_eq!(evaluate(&[]), Err(MathError::EmptyExpression));
}

#[test]
fn evaluate_leading_operator_fails() {
    assert_eq!(evaluate(&["+", "2"]), Err(MathError::InvalidNumber("+".to_string())));
}

#[test]
fn evaluate_malformed_numeral_fails() {
    assert_eq!(evaluate(&["1.2.3"]), Err(MathError::InvalidNumber("1.2.3".to_string())));
    assert_eq!(
        evaluate(&["1", "+", ".", "2"]),
        Err(MathError::InvalidNumber(".".to_string()))
    );
}

#[test]
fn evaluate_division_by_zero_is_no_error() {
    assert_eq!(evaluate(&["1", "/", "0"]), Ok(f64::INFINITY));
    assert_eq!(evaluate(&["0", "-", "1", "/", "0"]), Ok(f64::NEG_INFINITY));
    assert!(evaluate(&["0", "/", "0"]).unwrap().is_nan());
}

#[test]
fn calculate_from_text() {
    assert_eq!(calculate("1 + 2"), Ok(3.0));
    assert_eq!(calculate("3.5*2"), Ok(7.0));
    assert_eq!(calculate("2 3"), Ok(6.0));
    assert_eq!(calculate("10/2-3"), Ok(2.0));
    assert_eq!(calculate("1 + - 2"), Ok(-1.0));
    assert_eq!(calculate("7"), Ok(7.0));
    assert_eq!(calculate(""), Err(MathError::EmptyExpression));
    assert_eq!(calculate("-2"), Err(MathError::InvalidNumber("-".to_string())));
    assert_eq!(calculate("1 & 2"), Err(MathError::InvalidCharacter('&')));
}

#[test]
fn calculate_is_reproducible() {
    for text in ["1 + 2", "3.5*2 - 1 /4", "2 3 4", "9 / 3 / 3", "1 + - 2 * 8"] {
        let first = calculate(text);
        let second = calculate(text);
        assert!(first.is_ok());
        assert_eq!(first, second);
        assert_eq!(tokenize(text), tokenize(text));
    }
}

#[test]
fn render_joins_with_single_spaces() {
    assert_eq!(render(&strings(&["1", "+", "2"])), "1 + 2");
    assert_eq!(render(&strings(&["3.5"])), "3.5");
    assert_eq!(render(&strings(&[])), "");
    assert_eq!(render(&strings(&["1", "2"])), "1 2");
}

#[test]
fn render_gives_a_normal_form() {
    for text in ["1 + 2", "3.5*2", "1   2", "  10/2-3 ", "+-*/", "", "1.2.3 ..", "7"] {
        let tokens = tokenize(text).unwrap();
        let line = render(&tokens);
        assert_eq!(tokenize(&line), Ok(tokens));
        assert_eq!(render(&tokenize(&line).unwrap()), line);
    }
    assert_eq!(render(&tokenize("3.5*2").unwrap()), "3.5 * 2");
    assert_eq!(render(&tokenize("  1   2 ").unwrap()), "1 2");
}

#[test]
fn tokens_keep_everything_but_spaces() {
    for text in ["1 + 2", "3.5*2", "1   2", "  10/2-3 ", "+-*/", "", "1.2.3 .."] {
        let tokens = tokenize(text).unwrap();
        let kept: String = text.chars().filter(|c| *c != ' ').collect();
        assert_eq!(tokens.concat(), kept);
    }
}
