use formulas::ast::{Node, Operator, ParseError};
use formulas::parser::Ast;

fn names() -> Vec<String> {
    ["MAX", "IF", "SUM", "AVERAGE", "AND", "NOT", "OR", "GREATER"]
        .iter()
        .map(|s| s.to_string())
        .collect()
}

/// Unwraps one Expression/Term/Factor pass with no operator, yielding the
/// primary inside.
fn peel(node: &Node) -> &Node {
    let term = match node {
        Node::Expression { lhs, op: None, rhs: None } => lhs,
        other => panic!("expected a plain expression, got {:?}", other),
    };
    let factor = match &**term {
        Node::Term { lhs, op: None, rhs: None } => lhs,
        other => panic!("expected a plain term, got {:?}", other),
    };
    match &**factor {
        Node::Factor { lhs, op: None, rhs: None } => lhs,
        other => panic!("expected a plain factor, got {:?}", other),
    }
}

fn root(node: &Node) -> &Node {
    match node {
        Node::Formula { expr } => expr,
        other => panic!("expected the formula root, got {:?}", other),
    }
}

#[test]
fn test_parser_addition() {
    // the string
    let input = "=IF(GREATER(a1, b1), SUM(a1, b1), 0)".to_string();
    let parser = Ast::new(&input, names());
    let ast = parser.parse().unwrap();
    println!("{:#?}", ast);
}

#[test]
fn missing_marker_is_invalid_expression() {
    let parser = Ast::new("IF(a1,b1)", names());
    assert_eq!(parser.parse(), Err(ParseError::InvalidExpression));
    let parser = Ast::new("1+2", names());
    assert_eq!(parser.parse(), Err(ParseError::InvalidExpression));
    let parser = Ast::new("", names());
    assert_eq!(parser.parse(), Err(ParseError::InvalidExpression));
}

#[test]
fn nested_brackets_parse_to_wrapped_literal() {
    for depth in 0..=8 {
        let mut text = String::from("=");
        for _ in 0..depth {
            text.push('(');
        }
        text.push('1');
        for _ in 0..depth {
            text.push(')');
        }
        let parser = Ast::new(&text, names());
        let ast = parser.parse().unwrap();
        let mut inner = root(&ast);
        for _ in 0..depth {
            inner = peel(inner);
        }
        assert_eq!(*peel(inner), Node::Primitive("1".to_string()));
    }
}

#[test]
fn doubled_quote_collapses_to_one() {
    let parser = Ast::new("=\"he_said_\"\"hi\"\"\"", names());
    let ast = parser.parse().unwrap();
    assert_eq!(
        *peel(root(&ast)),
        Node::Primitive("he_said_\"hi\"".to_string())
    );
}

#[test]
fn spaces_inside_quoted_strings_are_dropped() {
    // The lexer consumes spaces transparently: they never surface as tokens,
    // so the string routine cannot see them even between quotes.
    let parser = Ast::new("=\"he said \"\"hi\"\"\"", names());
    let ast = parser.parse().unwrap();
    assert_eq!(
        *peel(root(&ast)),
        Node::Primitive("hesaid\"hi\"".to_string())
    );
}

#[test]
fn cell_reference_shapes() {
    let accepted = ["A1", "AZ99", "a1", "B12"];
    for text in accepted {
        let input = format!("={}", text);
        let parser = Ast::new(&input, names());
        let ast = parser.parse().unwrap();
        assert_eq!(*peel(root(&ast)), Node::CellRef(text.to_string()));
    }
    // `1` is numeric text, not a cell reference.
    let parser = Ast::new("=1", names());
    assert_eq!(*peel(root(&parser.parse().unwrap())), Node::Primitive("1".to_string()));
    // The rest match no literal class and no known function name.
    for text in ["1A", "A", "A1B"] {
        let input = format!("={}", text);
        let parser = Ast::new(&input, names());
        assert_eq!(parser.parse(), Err(ParseError::InvalidExpression));
    }
}

#[test]
fn function_name_gating() {
    let parser = Ast::new("=SUM(1,2)", names());
    let ast = parser.parse().unwrap();
    match peel(root(&ast)) {
        Node::Function { name, args } => {
            assert_eq!(name, "SUM");
            assert_eq!(args.len(), 2);
        }
        other => panic!("expected a function call, got {:?}", other),
    }

    let parser = Ast::new("=XYZ(1,2)", names());
    assert_eq!(parser.parse(), Err(ParseError::InvalidExpression));
}

#[test]
fn range_delimiter_in_arguments_is_rejected() {
    // The lexer emits a range-delimiter token, but the function-argument
    // grammar parses comma-separated expressions only, so the bare `:` in
    // the argument list is a token mismatch.
    let parser = Ast::new("=SUM(A1:C1)", names());
    assert_eq!(
        parser.parse(),
        Err(ParseError::UnexpectedToken {
            expected: "Comma or CloseBracket".to_string(),
            found: "RangeDelimiter".to_string(),
        })
    );
}

#[test]
fn nested_function_calls() {
    let parser = Ast::new("=IF(GREATER(A1,B1),SUM(A1,B1),0)", names());
    let ast = parser.parse().unwrap();
    match peel(root(&ast)) {
        Node::Function { name, args } => {
            assert_eq!(name, "IF");
            assert_eq!(args.len(), 3);
            match peel(&args[0]) {
                Node::Function { name, args } => {
                    assert_eq!(name, "GREATER");
                    assert_eq!(args.len(), 2);
                }
                other => panic!("expected GREATER, got {:?}", other),
            }
            match peel(&args[1]) {
                Node::Function { name, args } => {
                    assert_eq!(name, "SUM");
                    assert_eq!(args.len(), 2);
                }
                other => panic!("expected SUM, got {:?}", other),
            }
            assert_eq!(*peel(&args[2]), Node::Primitive("0".to_string()));
        }
        other => panic!("expected IF, got {:?}", other),
    }
}

#[test]
fn reparsing_yields_identical_tree() {
    let input = "=IF(GREATER(A1,B1),SUM(A1,B1),0)";
    let first = Ast::new(input, names()).parse();
    let second = Ast::new(input, names()).parse();
    assert_eq!(first, second);
}

#[test]
fn empty_argument_list() {
    let parser = Ast::new("=SUM()", names());
    let ast = parser.parse().unwrap();
    match peel(root(&ast)) {
        Node::Function { name, args } => {
            assert_eq!(name, "SUM");
            assert!(args.is_empty());
        }
        other => panic!("expected a function call, got {:?}", other),
    }
}

#[test]
fn boolean_literals() {
    let parser = Ast::new("=TRUE", names());
    assert_eq!(*peel(root(&parser.parse().unwrap())), Node::Primitive("TRUE".to_string()));
    let parser = Ast::new("=FALSE", names());
    assert_eq!(*peel(root(&parser.parse().unwrap())), Node::Primitive("FALSE".to_string()));
}

#[test]
fn unterminated_string_is_unexpected_end_of_file() {
    let parser = Ast::new("=\"abc", names());
    assert_eq!(parser.parse(), Err(ParseError::UnexpectedEndOfFile));
}

#[test]
fn unterminated_bracket_is_unexpected_token() {
    let parser = Ast::new("=(1", names());
    assert_eq!(
        parser.parse(),
        Err(ParseError::UnexpectedToken {
            expected: "CloseBracket".to_string(),
            found: "EndOfFile".to_string(),
        })
    );
}

#[test]
fn residual_token_is_unexpected() {
    let parser = Ast::new("=1)", names());
    assert_eq!(
        parser.parse(),
        Err(ParseError::UnexpectedToken {
            expected: "EndOfFile".to_string(),
            found: "CloseBracket".to_string(),
        })
    );
}

#[test]
fn operator_in_primary_position_is_unexpected() {
    let parser = Ast::new("=+", names());
    assert_eq!(
        parser.parse(),
        Err(ParseError::UnexpectedToken {
            expected: "Text or OpenBracket".to_string(),
            found: "Operator".to_string(),
        })
    );
}

#[test]
fn precedence_of_multiplication() {
    let parser = Ast::new("=1+2*3", names());
    let ast = parser.parse().unwrap();
    match root(&ast) {
        Node::Expression { lhs, op: None, rhs: None } => match &**lhs {
            Node::Term { lhs, op: Some(Operator::Addition), rhs: Some(rhs) } => {
                match &**lhs {
                    Node::Factor { lhs, op: None, rhs: None } => {
                        assert_eq!(**lhs, Node::Primitive("1".to_string()));
                    }
                    other => panic!("expected a plain factor, got {:?}", other),
                }
                match &**rhs {
                    Node::Factor { lhs, op: Some(Operator::Multiplication), rhs: Some(rhs) } => {
                        assert_eq!(**lhs, Node::Primitive("2".to_string()));
                        assert_eq!(**rhs, Node::Primitive("3".to_string()));
                    }
                    other => panic!("expected a multiplication factor, got {:?}", other),
                }
            }
            other => panic!("expected an addition term, got {:?}", other),
        },
        other => panic!("expected the root expression, got {:?}", other),
    }
}

#[test]
fn operator_helpers() {
    assert_eq!(Operator::new('+'), Operator::Addition);
    assert_eq!(Operator::new('-'), Operator::Subtraction);
    assert_eq!(Operator::new('*'), Operator::Multiplication);
    assert_eq!(Operator::new('/'), Operator::Division);
    assert_eq!(Operator::new('%'), Operator::Invalid);
    assert!(Operator::Addition.is_addition());
    assert!(Operator::Subtraction.is_subtraction());
    assert!(Operator::Division.is_division());
    assert!(Operator::Multiplication.is_multiplication());
    assert!(!Operator::Addition.is_subtraction());

    assert_eq!(Operator::Addition.apply(2, 3), Some(5));
    assert_eq!(Operator::Subtraction.apply(7, 3), Some(4));
    assert_eq!(Operator::Multiplication.apply(4, 5), Some(20));
    assert_eq!(Operator::Division.apply(9, 2), Some(4));
    assert_eq!(Operator::Invalid.apply(1, 1), None);
}
