use formulas::token::{Token, Tokenizer};

#[test]
fn test_operator_tokens() {
    let input = "+-*/".chars().collect::<Vec<_>>();
    let mut tokenizer = Tokenizer::new(&input);

    assert_eq!(tokenizer.next(), Token::Operator('+'));
    assert_eq!(tokenizer.next(), Token::Operator('-'));
    assert_eq!(tokenizer.next(), Token::Operator('*'));
    assert_eq!(tokenizer.next(), Token::Operator('/'));
    assert_eq!(tokenizer.next(), Token::EndOfFile);
}

#[test]
fn test_bracket_tokens() {
    let input = "()".chars().collect::<Vec<_>>();
    let mut tokenizer = Tokenizer::new(&input);

    assert_eq!(tokenizer.next(), Token::OpenBracket);
    assert_eq!(tokenizer.next(), Token::CloseBracket);
    assert_eq!(tokenizer.next(), Token::EndOfFile);
}

#[test]
fn test_text_token() {
    let input = "hello".chars().collect::<Vec<_>>();
    let mut tokenizer = Tokenizer::new(&input);

    assert_eq!(tokenizer.next(), Token::Text(&input));
    assert_eq!(tokenizer.next(), Token::EndOfFile);
}

#[test]
fn test_mixed_tokens() {
    let input = "(A1:B2)".chars().collect::<Vec<_>>();
    let mut tokenizer = Tokenizer::new(&input);
    assert_eq!(tokenizer.next(), Token::OpenBracket);
    assert_eq!(tokenizer.next(), Token::Text(&['A', '1']));
    assert_eq!(tokenizer.next(), Token::RangeDelimiter);
    assert_eq!(tokenizer.next(), Token::Text(&['B', '2']));
    assert_eq!(tokenizer.next(), Token::CloseBracket);
    assert_eq!(tokenizer.next(), Token::EndOfFile);
}

#[test]
fn test_functions() {
    let input = "SUM(A1:C1)".chars().collect::<Vec<_>>();
    let mut tokenizer = Tokenizer::new(&input);
    assert_eq!(tokenizer.next(), Token::Text(&['S', 'U', 'M']));
    assert_eq!(tokenizer.next(), Token::OpenBracket);
    assert_eq!(tokenizer.next(), Token::Text(&['A', '1']));
    assert_eq!(tokenizer.next(), Token::RangeDelimiter);
    assert_eq!(tokenizer.next(), Token::Text(&['C', '1']));
    assert_eq!(tokenizer.next(), Token::CloseBracket);
    assert_eq!(tokenizer.next(), Token::EndOfFile);
}

#[test]
fn test_whitespace_is_skipped() {
    let input = " A1  + 2 ".chars().collect::<Vec<_>>();
    let mut tokenizer = Tokenizer::new(&input);
    assert_eq!(tokenizer.next(), Token::Text(&['A', '1']));
    assert_eq!(tokenizer.next(), Token::Operator('+'));
    assert_eq!(tokenizer.next(), Token::Text(&['2']));
    assert_eq!(tokenizer.next(), Token::EndOfFile);
}

#[test]
fn test_text_qualifier_tokens() {
    let input = "\"ab\"\"cd\"".chars().collect::<Vec<_>>();
    let mut tokenizer = Tokenizer::new(&input);
    assert_eq!(tokenizer.next(), Token::TextQualifier);
    assert_eq!(tokenizer.next(), Token::Text(&['a', 'b']));
    assert_eq!(tokenizer.next(), Token::TextQualifier);
    assert_eq!(tokenizer.next(), Token::TextQualifier);
    assert_eq!(tokenizer.next(), Token::Text(&['c', 'd']));
    assert_eq!(tokenizer.next(), Token::TextQualifier);
    assert_eq!(tokenizer.next(), Token::EndOfFile);
}

#[test]
fn test_lookahead_does_not_advance() {
    let input = "SUM(1)".chars().collect::<Vec<_>>();
    let mut tokenizer = Tokenizer::new(&input);
    assert_eq!(tokenizer.lookahead(1), Token::Text(&['S', 'U', 'M']));
    assert_eq!(tokenizer.lookahead(2), Token::OpenBracket);
    assert_eq!(tokenizer.lookahead(3), Token::Text(&['1']));
    // The position is restored exactly: the next token is still the first.
    assert_eq!(tokenizer.next(), Token::Text(&['S', 'U', 'M']));
    assert_eq!(tokenizer.next(), Token::OpenBracket);
}
