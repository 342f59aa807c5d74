use formulas::csv::Parser;

fn parse(text: &str) -> Vec<Vec<String>> {
    let chars: Vec<char> = text.chars().collect();
    let mut parser = Parser::new(&chars);
    parser.parse()
}

fn owned(rows: &[&[&str]]) -> Vec<Vec<String>> {
    rows.iter()
        .map(|row| row.iter().map(|s| s.to_string()).collect())
        .collect()
}

#[test]
fn simple_rows_and_fields() {
    assert_eq!(
        parse("a,b\nc,d\n"),
        owned(&[&["a", "b"], &["c", "d"]])
    );
}

#[test]
fn carriage_return_newlines() {
    assert_eq!(
        parse("a,b\r\nc,d\r\n"),
        owned(&[&["a", "b"], &["c", "d"]])
    );
}

#[test]
fn last_row_without_newline_is_kept() {
    assert_eq!(parse("a,b\nc"), owned(&[&["a", "b"], &["c"]]));
}

#[test]
fn qualified_field_keeps_delimiters() {
    assert_eq!(
        parse("\"x, y\",z\n"),
        owned(&[&["x, y", "z"]])
    );
}

#[test]
fn escaped_quote_inside_qualified_field() {
    assert_eq!(
        parse("\"he said \"\"hi\"\"\",2\n"),
        owned(&[&["he said \"hi\"", "2"]])
    );
}

#[test]
fn spaces_outside_qualifier_are_dropped() {
    assert_eq!(parse("a b,c\n"), owned(&[&["ab", "c"]]));
    assert_eq!(parse("\"a b\",c\n"), owned(&[&["a b", "c"]]));
}

#[test]
fn newline_inside_qualifier_stays_in_field() {
    assert_eq!(parse("\"a\nb\",c\n"), owned(&[&["a\nb", "c"]]));
}

#[test]
fn empty_input_has_no_rows() {
    assert_eq!(parse(""), Vec::<Vec<String>>::new());
}
