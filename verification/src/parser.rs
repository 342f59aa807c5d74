//! The recursive-descent formula parser.
//!
//! The grammar, lowest to highest precedence, with at most one trailing
//! operator application per level:
//!
//! ```text
//! formula    := '=' expression EOF
//! expression := term ( ('+'|'-') term )?
//! term       := factor ( ('+'|'-') factor )?
//! factor     := primary ( ('*'|'/') primary )?
//! primary    := text-literal | quoted-string | '(' expression ')'
//! ```
//!
//! The whole grammar is first written down as ghost functions over character
//! sequences (`sp_expression` and friends); every executable parsing routine
//! is then proved to return exactly what the ghost grammar says, so parsing
//! is a pure, deterministic function of the formula text and the set of
//! recognized function names.

use vstd::prelude::*;
use vstd::slice::slice_subrange;
use vstd::string::StrSliceExecFns;

use crate::ast::{
    lemma_nodes_view_push, node_view, nodes_view, operator_of_char, ErrorModel, Node, NodeModel,
    Operator, ParseError,
};
use crate::token::{
    kind_name, lemma_lex_rest_le, lemma_lex_rest_lt, lex_rest, lex_token, same_kind, Token,
    TokenModel, Tokenizer,
};

verus! {

/// What a parse returns: either a completed tree or the first error met.
pub type ParseResult = Result<Node, ParseError>;

/// Whether `c` is a decimal digit.
pub open spec fn is_digit(c: char) -> bool {
    '0' as u32 <= c as u32 && c as u32 <= '9' as u32
}

/// Whether `c` is a column letter.
pub open spec fn is_letter(c: char) -> bool {
    ('A' as u32 <= c as u32 && c as u32 <= 'Z' as u32) || ('a' as u32 <= c as u32 && c as u32
        <= 'z' as u32)
}

/// Whether every character of `s` is a decimal digit.
pub open spec fn spec_is_numeric(s: Seq<char>) -> bool {
    forall|i: int| 0 <= i < s.len() ==> is_digit(#[trigger] s[i])
}

/// Whether `s` is boolean text.
pub open spec fn spec_is_boolean(s: Seq<char>) -> bool {
    s == "TRUE"@ || s == "FALSE"@
}

/// Whether `s` splits at `k` into a non-empty column part (letters) followed
/// by a non-empty row part (digits).
pub open spec fn cell_split_at(s: Seq<char>, k: int) -> bool {
    1 <= k < s.len() && (forall|i: int| 0 <= i < k ==> is_letter(#[trigger] s[i])) && (forall|
        i: int,
    | k <= i < s.len() ==> is_digit(#[trigger] s[i]))
}

/// The cell-reference shape: one or more letters forming a column,
/// immediately followed by one or more digits forming a row, with no other
/// characters and no letter after the first digit.
pub open spec fn spec_is_cell_ref(s: Seq<char>) -> bool {
    exists|k: int| #[trigger] cell_split_at(s, k)
}

/// The ghost recursive-descent grammar. Each function takes the recognized
/// names and the characters still to be lexed, and returns either the parsed
/// model node together with the characters left over, or the first error.
///
/// The `rest.len() < s.len()` tests guard recursion for the termination
/// checker; they always hold, because every consumed token shrinks the input
/// (`lemma_lex_rest_lt`), so the `InvalidExpression` they guard is never the
/// result.
pub open spec fn sp_expression(names: Set<Seq<char>>, s: Seq<char>) -> Result<
    (NodeModel, Seq<char>),
    ErrorModel,
>
    decreases s.len(), 4int,
{
    match sp_term(names, s) {
        Err(e) => Err(e),
        Ok((lhs, s1)) => match lex_token(s1) {
            TokenModel::Operator(op) => {
                if op == '+' || op == '-' {
                    let s2 = lex_rest(s1);
                    if s2.len() < s.len() {
                        match sp_term(names, s2) {
                            Err(e) => Err(e),
                            Ok((rhs, s3)) => Ok(
                                (
                                    NodeModel::Expression {
                                        lhs: Box::new(lhs),
                                        op: Some(operator_of_char(op)),
                                        rhs: Some(Box::new(rhs)),
                                    },
                                    s3,
                                ),
                            ),
                        }
                    } else {
                        Err(ErrorModel::InvalidExpression)
                    }
                } else {
                    Ok((NodeModel::Expression { lhs: Box::new(lhs), op: None, rhs: None }, s1))
                }
            },
            _ => Ok((NodeModel::Expression { lhs: Box::new(lhs), op: None, rhs: None }, s1)),
        },
    }
}

pub open spec fn sp_term(names: Set<Seq<char>>, s: Seq<char>) -> Result<
    (NodeModel, Seq<char>),
    ErrorModel,
>
    decreases s.len(), 3int,
{
    match sp_factor(names, s) {
        Err(e) => Err(e),
        Ok((lhs, s1)) => match lex_token(s1) {
            TokenModel::Operator(op) => {
                if op == '+' || op == '-' {
                    let s2 = lex_rest(s1);
                    if s2.len() < s.len() {
                        match sp_factor(names, s2) {
                            Err(e) => Err(e),
                            Ok((rhs, s3)) => Ok(
                                (
                                    NodeModel::Term {
                                        lhs: Box::new(lhs),
                                        op: Some(operator_of_char(op)),
                                        rhs: Some(Box::new(rhs)),
                                    },
                                    s3,
                                ),
                            ),
                        }
                    } else {
                        Err(ErrorModel::InvalidExpression)
                    }
                } else {
                    Ok((NodeModel::Term { lhs: Box::new(lhs), op: None, rhs: None }, s1))
                }
            },
            _ => Ok((NodeModel::Term { lhs: Box::new(lhs), op: None, rhs: None }, s1)),
        },
    }
}

pub open spec fn sp_factor(names: Set<Seq<char>>, s: Seq<char>) -> Result<
    (NodeModel, Seq<char>),
    ErrorModel,
>
    decreases s.len(), 2int,
{
    match sp_primary(names, s) {
        Err(e) => Err(e),
        Ok((lhs, s1)) => match lex_token(s1) {
            TokenModel::Operator(op) => {
                if op == '/' || op == '*' {
                    let s2 = lex_rest(s1);
                    if s2.len() < s.len() {
                        match sp_primary(names, s2) {
                            Err(e) => Err(e),
                            Ok((rhs, s3)) => Ok(
                                (
                                    NodeModel::Factor {
                                        lhs: Box::new(lhs),
                                        op: Some(operator_of_char(op)),
                                        rhs: Some(Box::new(rhs)),
                                    },
                                    s3,
                                ),
                            ),
                        }
                    } else {
                        Err(ErrorModel::InvalidExpression)
                    }
                } else {
                    Ok((NodeModel::Factor { lhs: Box::new(lhs), op: None, rhs: None }, s1))
                }
            },
            _ => Ok((NodeModel::Factor { lhs: Box::new(lhs), op: None, rhs: None }, s1)),
        },
    }
}

pub open spec fn sp_primary(names: Set<Seq<char>>, s: Seq<char>) -> Result<
    (NodeModel, Seq<char>),
    ErrorModel,
>
    decreases s.len(), 1int,
{
    let t = lex_token(s);
    let s1 = lex_rest(s);
    match t {
        TokenModel::Text(text) => {
            if spec_is_numeric(text) || spec_is_boolean(text) {
                Ok((NodeModel::Primitive(text), s1))
            } else if spec_is_cell_ref(text) {
                Ok((NodeModel::CellRef(text), s1))
            } else if s1.len() < s.len() {
                sp_function(names, text, s1)
            } else {
                Err(ErrorModel::InvalidExpression)
            }
        },
        TokenModel::TextQualifier => {
            if s1.len() < s.len() {
                match sp_string(s1) {
                    Err(e) => Err(e),
                    Ok((acc, rest)) => Ok((NodeModel::Primitive(acc), rest)),
                }
            } else {
                Err(ErrorModel::InvalidExpression)
            }
        },
        TokenModel::OpenBracket => {
            if s1.len() < s.len() {
                match sp_expression(names, s1) {
                    Err(e) => Err(e),
                    Ok((m, s2)) => {
                        if same_kind(lex_token(s2), TokenModel::CloseBracket) {
                            Ok((m, lex_rest(s2)))
                        } else {
                            Err(
                                ErrorModel::UnexpectedToken {
                                    expected: "CloseBracket"@,
                                    found: kind_name(lex_token(s2)),
                                },
                            )
                        }
                    },
                }
            } else {
                Err(ErrorModel::InvalidExpression)
            }
        },
        _ => Err(
            ErrorModel::UnexpectedToken { expected: "Text or OpenBracket"@, found: kind_name(t) },
        ),
    }
}

/// The quoted-string routine: accumulates text runs until an unescaped text
/// qualifier closes the string; a doubled qualifier contributes one literal
/// `"`. Called with the opening qualifier already consumed; returns the
/// accumulated contents and the characters left over.
pub open spec fn sp_string(s: Seq<char>) -> Result<(Seq<char>, Seq<char>), ErrorModel>
    decreases s.len(), 0int,
{
    let t = lex_token(s);
    let s1 = lex_rest(s);
    match t {
        TokenModel::TextQualifier => {
            if same_kind(lex_token(s1), TokenModel::TextQualifier) {
                let s2 = lex_rest(s1);
                if s2.len() < s.len() {
                    match sp_string(s2) {
                        Err(e) => Err(e),
                        Ok((acc, rest)) => Ok((seq!['"'] + acc, rest)),
                    }
                } else {
                    Err(ErrorModel::InvalidExpression)
                }
            } else {
                Ok((Seq::empty(), s1))
            }
        },
        TokenModel::Text(text) => {
            if s1.len() < s.len() {
                match sp_string(s1) {
                    Err(e) => Err(e),
                    Ok((acc, rest)) => Ok((text + acc, rest)),
                }
            } else {
                Err(ErrorModel::InvalidExpression)
            }
        },
        TokenModel::EndOfFile => Err(ErrorModel::UnexpectedEndOfFile),
        _ => Err(ErrorModel::InvalidExpression),
    }
}

/// The function-call routine, called with the candidate name already
/// consumed: the name must be recognized, an open bracket must follow, and
/// the arguments are a comma-separated sequence of expressions; an open
/// bracket immediately followed by a close bracket is an empty argument list.
pub open spec fn sp_function(names: Set<Seq<char>>, name: Seq<char>, s: Seq<char>) -> Result<
    (NodeModel, Seq<char>),
    ErrorModel,
>
    decreases s.len(), 0int,
{
    if !names.contains(name) {
        Err(ErrorModel::InvalidExpression)
    } else {
        let t = lex_token(s);
        let s1 = lex_rest(s);
        match t {
            TokenModel::OpenBracket => {
                if same_kind(lex_token(s1), TokenModel::CloseBracket) {
                    Ok((NodeModel::Function { name, args: Seq::empty() }, lex_rest(s1)))
                } else if s1.len() < s.len() {
                    match sp_arguments(names, s1) {
                        Err(e) => Err(e),
                        Ok((args, rest)) => Ok((NodeModel::Function { name, args }, rest)),
                    }
                } else {
                    Err(ErrorModel::InvalidExpression)
                }
            },
            _ => Err(ErrorModel::UnexpectedToken { expected: "OpenBracket"@, found: kind_name(t) }),
        }
    }
}

/// One or more comma-separated expression arguments followed by a close
/// bracket; after each argument the next token must be a comma (continue) or
/// a close bracket (stop).
pub open spec fn sp_arguments(names: Set<Seq<char>>, s: Seq<char>) -> Result<
    (Seq<NodeModel>, Seq<char>),
    ErrorModel,
>
    decreases s.len(), 5int,
{
    match sp_expression(names, s) {
        Err(e) => Err(e),
        Ok((arg, s1)) => {
            let t = lex_token(s1);
            let s2 = lex_rest(s1);
            match t {
                TokenModel::Comma => {
                    if s2.len() < s.len() {
                        match sp_arguments(names, s2) {
                            Err(e) => Err(e),
                            Ok((more, rest)) => Ok((seq![arg] + more, rest)),
                        }
                    } else {
                        Err(ErrorModel::InvalidExpression)
                    }
                },
                TokenModel::CloseBracket => Ok((seq![arg], s2)),
                _ => Err(
                    ErrorModel::UnexpectedToken {
                        expected: "Comma or CloseBracket"@,
                        found: kind_name(t),
                    },
                ),
            }
        },
    }
}

/// The whole parse: the input must begin with `=` (absence is
/// `InvalidExpression`), the rest is parsed as one expression wrapped in the
/// `Formula` root, and the lexer must then be at end-of-file.
pub open spec fn sp_parse(names: Set<Seq<char>>, s: Seq<char>) -> Result<NodeModel, ErrorModel> {
    if s.len() == 0 || s[0] != '=' {
        Err(ErrorModel::InvalidExpression)
    } else {
        match sp_expression(names, s.skip(1)) {
            Err(e) => Err(e),
            Ok((m, rest)) => {
                if same_kind(lex_token(rest), TokenModel::EndOfFile) {
                    Ok(NodeModel::Formula { expr: Box::new(m) })
                } else {
                    Err(
                        ErrorModel::UnexpectedToken {
                            expected: "EndOfFile"@,
                            found: kind_name(lex_token(rest)),
                        },
                    )
                }
            },
        }
    }
}

/// Whether the executable outcome `r`, leaving `rest` unconsumed, is exactly
/// what the ghost grammar result `sp` prescribes.
pub open spec fn matches_parse(
    r: ParseResult,
    sp: Result<(NodeModel, Seq<char>), ErrorModel>,
    rest: Seq<char>,
) -> bool {
    match r {
        Ok(n) => sp matches Ok((m, srest)) && node_view(n) == m && rest == srest,
        Err(e) => sp matches Err(em) && e@ == em,
    }
}

/// `r` with the string contents `prefix` accumulated in front.
pub open spec fn sp_string_join(
    prefix: Seq<char>,
    r: Result<(Seq<char>, Seq<char>), ErrorModel>,
) -> Result<(Seq<char>, Seq<char>), ErrorModel> {
    match r {
        Ok((acc, rest)) => Ok((prefix + acc, rest)),
        Err(e) => Err(e),
    }
}

proof fn lemma_string_join_empty(r: Result<(Seq<char>, Seq<char>), ErrorModel>)
    ensures
        sp_string_join(Seq::empty(), r) == r,
{
    if let Ok((acc, rest)) = r {
        assert(Seq::empty() + acc =~= acc);
    }
}

proof fn lemma_string_join_concat(
    p: Seq<char>,
    q: Seq<char>,
    r: Result<(Seq<char>, Seq<char>), ErrorModel>,
)
    ensures
        sp_string_join(p, sp_string_join(q, r)) == sp_string_join(p + q, r),
{
    if let Ok((acc, rest)) = r {
        assert(p + (q + acc) =~= (p + q) + acc);
    }
}

/// `r` with the argument list `prefix` accumulated in front.
pub open spec fn sp_args_join(
    prefix: Seq<NodeModel>,
    r: Result<(Seq<NodeModel>, Seq<char>), ErrorModel>,
) -> Result<(Seq<NodeModel>, Seq<char>), ErrorModel> {
    match r {
        Ok((more, rest)) => Ok((prefix + more, rest)),
        Err(e) => Err(e),
    }
}

proof fn lemma_args_join_empty(r: Result<(Seq<NodeModel>, Seq<char>), ErrorModel>)
    ensures
        sp_args_join(Seq::empty(), r) == r,
{
    if let Ok((more, rest)) = r {
        assert(Seq::empty() + more =~= more);
    }
}

proof fn lemma_args_join_push(
    prefix: Seq<NodeModel>,
    x: NodeModel,
    r: Result<(Seq<NodeModel>, Seq<char>), ErrorModel>,
)
    ensures
        sp_args_join(prefix, sp_args_join(seq![x], r)) == sp_args_join(prefix.push(x), r),
{
    if let Ok((more, rest)) = r {
        assert(prefix + (seq![x] + more) =~= prefix.push(x) + more);
    }
}

/// Relies on `String::push`: appends exactly one character to the string.
#[verifier::external_body]
pub(crate) fn push_char(s: &mut String, c: char)
    ensures
        final(s)@ == old(s)@.push(c),
{
    s.push(c);
}

/// Appends every character of `chars` to `s`, in order.
pub(crate) fn push_chars(s: &mut String, chars: &[char])
    ensures
        final(s)@ == old(s)@ + chars@,
{
    let mut i: usize = 0;
    while i < chars.len()
        invariant
            i <= chars@.len(),
            s@ == old(s)@ + chars@.take(i as int),
        decreases chars@.len() - i,
    {
        assert(old(s)@ + chars@.take(i as int).push(chars@[i as int]) =~= (old(s)@ + chars@.take(
            i as int,
        )).push(chars@[i as int]));
        assert(chars@.take(i + 1) =~= chars@.take(i as int).push(chars@[i as int]));
        push_char(s, chars[i]);
        i += 1;
    }
    assert(chars@.take(chars@.len() as int) =~= chars@);
}

/// The characters of `chars` collected into an owned string.
fn chars_to_string(chars: &[char]) -> (r: String)
    ensures
        r@ == chars@,
{
    let mut r = String::new();
    push_chars(&mut r, chars);
    assert(Seq::<char>::empty() + chars@ =~= chars@);
    r
}

/// The characters of `s` collected into a vector.
fn str_to_chars(s: &str) -> (r: Vec<char>)
    ensures
        r@ == s@,
{
    let n = s.unicode_len();
    let mut r: Vec<char> = Vec::new();
    let mut i: usize = 0;
    while i < n
        invariant
            i <= n,
            n == s@.len(),
            r@ == s@.take(i as int),
        decreases n - i,
    {
        assert(s@.take(i + 1) =~= s@.take(i as int).push(s@[i as int]));
        r.push(s.get_char(i));
        i += 1;
    }
    assert(s@.take(n as int) =~= s@);
    r
}

/// Whether two tokens have the same kind, payloads not compared.
fn token_kind_eq(a: &Token<'_>, b: &Token<'_>) -> (r: bool)
    ensures
        r == same_kind(a@, b@),
{
    match (a, b) {
        (Token::OpenBracket, Token::OpenBracket) => true,
        (Token::CloseBracket, Token::CloseBracket) => true,
        (Token::RangeDelimiter, Token::RangeDelimiter) => true,
        (Token::TextQualifier, Token::TextQualifier) => true,
        (Token::Comma, Token::Comma) => true,
        (Token::Operator(_), Token::Operator(_)) => true,
        (Token::Text(_), Token::Text(_)) => true,
        (Token::EndOfFile, Token::EndOfFile) => true,
        _ => false,
    }
}

/// The parser: holds the formula text and the externally supplied set of
/// recognized function names, and builds the syntax tree on demand.
pub struct Ast<'a> {
    src: &'a str,
    func_names: Vec<String>,
}

impl<'a> Ast<'a> {
    /// The formula text, as a character sequence.
    pub closed spec fn src_text(&self) -> Seq<char> {
        self.src@
    }

    /// The recognized function names, as a set of character sequences.
    pub closed spec fn names(&self) -> Set<Seq<char>> {
        self.func_names.deep_view().to_set()
    }

    pub fn new(src: &'a str, func_names: Vec<String>) -> (r: Self)
        ensures
            r.src_text() == src@,
            r.names() == func_names.deep_view().to_set(),
    {
        Self { src, func_names }
    }

    /// Whether `name` is one of the recognized function names.
    fn contains_name(&self, name: &String) -> (r: bool)
        ensures
            r == self.names().contains(name@),
    {
        let mut i: usize = 0;
        while i < self.func_names.len()
            invariant
                i <= self.func_names.len(),
                forall|j: int| 0 <= j < i ==> self.func_names.deep_view()[j] != name@,
            decreases self.func_names.len() - i,
        {
            if self.func_names[i].eq(name) {
                assert(self.func_names.deep_view()[i as int] == name@);
                assert(self.func_names.deep_view().contains(name@));
                return true;
            }
            i += 1;
        }
        assert(!self.func_names.deep_view().contains(name@));
        false
    }

    /// Whether every character of `chars` is a decimal digit.
    fn is_numeric(&self, chars: &[char]) -> (r: bool)
        ensures
            r == spec_is_numeric(chars@),
    {
        let mut i: usize = 0;
        while i < chars.len()
            invariant
                i <= chars@.len(),
                forall|j: int| 0 <= j < i ==> is_digit(#[trigger] chars@[j]),
            decreases chars@.len() - i,
        {
            let u = chars[i] as u32;
            if !(u >= '0' as u32 && u <= '9' as u32) {
                return false;
            }
            i += 1;
        }
        true
    }

    /// Whether `chars` is boolean text, `TRUE` or `FALSE`.
    fn is_boolean(&self, chars: &[char]) -> (r: bool)
        ensures
            r == spec_is_boolean(chars@),
    {
        proof {
            reveal_strlit("TRUE");
            reveal_strlit("FALSE");
        }
        if chars.len() == 4 && chars[0] == 'T' && chars[1] == 'R' && chars[2] == 'U' && chars[3]
            == 'E' {
            assert(chars@ =~= "TRUE"@);
            true
        } else if chars.len() == 5 && chars[0] == 'F' && chars[1] == 'A' && chars[2] == 'L'
            && chars[3] == 'S' && chars[4] == 'E' {
            assert(chars@ =~= "FALSE"@);
            true
        } else {
            assert(chars@ != "TRUE"@ && chars@ != "FALSE"@) by {
                if chars@ == "TRUE"@ || chars@ == "FALSE"@ {
                    assert(false);
                }
            }
            false
        }
    }

    /// Whether `chars` begins a quoted string literal.
    fn is_string_literal(&self, chars: &[char]) -> (r: bool)
        ensures
            r == (chars@.len() > 0 && chars@[0] == '"'),
    {
        chars.len() > 0 && chars[0] == '"'
    }

    /// Whether `chars` has the cell-reference shape: column letters, then
    /// row digits, nothing else.
    fn is_cell_ref(&self, chars: &[char]) -> (r: bool)
        ensures
            r == spec_is_cell_ref(chars@),
    {
        let mut has_column = false;
        let mut has_row = false;
        let ghost mut col: int = 0;
        let mut i: usize = 0;
        while i < chars.len()
            invariant
                i <= chars@.len(),
                !has_column ==> i == 0,
                has_column ==> 1 <= i,
                has_row ==> has_column,
                (has_column && !has_row) ==> forall|j: int|
                    0 <= j < i ==> is_letter(#[trigger] chars@[j]),
                has_row ==> 1 <= col < i,
                has_row ==> forall|j: int| 0 <= j < col ==> is_letter(#[trigger] chars@[j]),
                has_row ==> forall|j: int| col <= j < i ==> is_digit(#[trigger] chars@[j]),
            decreases chars@.len() - i,
        {
            let u = chars[i] as u32;
            let letter = (u >= 'A' as u32 && u <= 'Z' as u32) || (u >= 'a' as u32 && u
                <= 'z' as u32);
            let digit = u >= '0' as u32 && u <= '9' as u32;
            if letter && !has_row {
                has_column = true;
            } else if digit && has_column {
                if !has_row {
                    proof {
                        col = i as int;
                    }
                    has_row = true;
                }
            } else {
                proof {
                    assert forall|k: int| !cell_split_at(chars@, k) by {
                        if cell_split_at(chars@, k) {
                            if k <= i {
                                assert(is_digit(chars@[i as int]));
                            } else {
                                if has_row {
                                    assert(is_letter(chars@[col]));
                                    assert(is_digit(chars@[col]));
                                } else {
                                    assert(is_letter(chars@[i as int]));
                                }
                            }
                        }
                    }
                }
                return false;
            }
            i += 1;
        }
        if has_column && has_row {
            assert(cell_split_at(chars@, col));
            true
        } else {
            proof {
                assert forall|k: int| !cell_split_at(chars@, k) by {
                    if cell_split_at(chars@, k) {
                        if has_column {
                            assert(is_letter(chars@[k]));
                            assert(is_digit(chars@[k]));
                        }
                    }
                }
            }
            false
        }
    }

    /// Parses the whole formula text: the leading `=` is required, the rest
    /// is one expression, and no tokens may remain.
    pub fn parse(&self) -> (r: ParseResult)
        ensures
            (match sp_parse(self.names(), self.src_text()) {
                Ok(m) => r matches Ok(n) && node_view(n) == m,
                Err(em) => r matches Err(e) && e@ == em,
            }),
    {
        let chars = str_to_chars(self.src);
        if chars.len() == 0 {
            return Err(ParseError::InvalidExpression);
        }
        if chars[0] != '=' {
            return Err(ParseError::InvalidExpression);
        }
        let rest = slice_subrange(chars.as_slice(), 1, chars.len());
        assert(rest@ =~= self.src_text().skip(1));
        let mut tokenizer = Tokenizer::new(rest);
        match self.parse_expression(&mut tokenizer) {
            Err(e) => Err(e),
            Ok(expr) => self.expect(
                &mut tokenizer,
                Token::EndOfFile,
                Node::Formula { expr: Box::new(expr) },
            ),
        }
    }

    fn parse_expression(&self, tokenizer: &mut Tokenizer<'_>) -> (r: ParseResult)
        ensures
            final(tokenizer).remaining().len() <= old(tokenizer).remaining().len(),
            matches_parse(
                r,
                sp_expression(self.names(), old(tokenizer).remaining()),
                final(tokenizer).remaining(),
            ),
        decreases old(tokenizer).remaining().len(), 4int,
    {
        let ghost s0 = tokenizer.remaining();
        let lhs = match self.parse_term(tokenizer) {
            Ok(n) => n,
            Err(e) => {
                return Err(e);
            },
        };
        let ghost s1 = tokenizer.remaining();
        let la = tokenizer.lookahead(1);
        let op_char: Option<char> = match la {
            Token::Operator(op) => {
                if op == '+' || op == '-' {
                    Some(op)
                } else {
                    None
                }
            },
            _ => None,
        };
        if let Some(op) = op_char {
            proof {
                lemma_lex_rest_lt(s1);
            }
            let operator = Operator::new(op);
            let _ = tokenizer.next();
            match self.parse_term(tokenizer) {
                Err(e) => Err(e),
                Ok(rhs) => Ok(
                    Node::Expression {
                        lhs: Box::new(lhs),
                        op: Some(operator),
                        rhs: Some(Box::new(rhs)),
                    },
                ),
            }
        } else {
            Ok(Node::Expression { lhs: Box::new(lhs), op: None, rhs: None })
        }
    }

    fn parse_term(&self, tokenizer: &mut Tokenizer<'_>) -> (r: ParseResult)
        ensures
            final(tokenizer).remaining().len() <= old(tokenizer).remaining().len(),
            matches_parse(
                r,
                sp_term(self.names(), old(tokenizer).remaining()),
                final(tokenizer).remaining(),
            ),
        decreases old(tokenizer).remaining().len(), 3int,
    {
        let ghost s0 = tokenizer.remaining();
        let lhs = match self.parse_factor(tokenizer) {
            Ok(n) => n,
            Err(e) => {
                return Err(e);
            },
        };
        let ghost s1 = tokenizer.remaining();
        let la = tokenizer.lookahead(1);
        let op_char: Option<char> = match la {
            Token::Operator(op) => {
                if op == '+' || op == '-' {
                    Some(op)
                } else {
                    None
                }
            },
            _ => None,
        };
        if let Some(op) = op_char {
            proof {
                lemma_lex_rest_lt(s1);
            }
            let operator = Operator::new(op);
            let _ = tokenizer.next();
            match self.parse_factor(tokenizer) {
                Err(e) => Err(e),
                Ok(rhs) => Ok(
                    Node::Term {
                        lhs: Box::new(lhs),
                        op: Some(operator),
                        rhs: Some(Box::new(rhs)),
                    },
                ),
            }
        } else {
            Ok(Node::Term { lhs: Box::new(lhs), op: None, rhs: None })
        }
    }

    fn parse_factor(&self, tokenizer: &mut Tokenizer<'_>) -> (r: ParseResult)
        ensures
            final(tokenizer).remaining().len() <= old(tokenizer).remaining().len(),
            matches_parse(
                r,
                sp_factor(self.names(), old(tokenizer).remaining()),
                final(tokenizer).remaining(),
            ),
        decreases old(tokenizer).remaining().len(), 2int,
    {
        let ghost s0 = tokenizer.remaining();
        let lhs = match self.parse_primary(tokenizer) {
            Ok(n) => n,
            Err(e) => {
                return Err(e);
            },
        };
        let ghost s1 = tokenizer.remaining();
        let la = tokenizer.lookahead(1);
        let op_char: Option<char> = match la {
            Token::Operator(op) => {
                if op == '/' || op == '*' {
                    Some(op)
                } else {
                    None
                }
            },
            _ => None,
        };
        if let Some(op) = op_char {
            proof {
                lemma_lex_rest_lt(s1);
            }
            let operator = Operator::new(op);
            let _ = tokenizer.next();
            match self.parse_primary(tokenizer) {
                Err(e) => Err(e),
                Ok(rhs) => Ok(
                    Node::Factor {
                        lhs: Box::new(lhs),
                        op: Some(operator),
                        rhs: Some(Box::new(rhs)),
                    },
                ),
            }
        } else {
            Ok(Node::Factor { lhs: Box::new(lhs), op: None, rhs: None })
        }
    }

    fn parse_primary(&self, tokenizer: &mut Tokenizer<'_>) -> (r: ParseResult)
        ensures
            final(tokenizer).remaining().len() <= old(tokenizer).remaining().len(),
            matches_parse(
                r,
                sp_primary(self.names(), old(tokenizer).remaining()),
                final(tokenizer).remaining(),
            ),
        decreases old(tokenizer).remaining().len(), 1int,
    {
        let ghost s0 = tokenizer.remaining();
        proof {
            lemma_lex_rest_lt(s0);
            lemma_lex_rest_le(s0);
        }
        let tok = tokenizer.next();
        match tok {
            Token::Text(text) => {
                let as_string = chars_to_string(text);
                if self.is_numeric(text) || self.is_boolean(text) {
                    Ok(Node::Primitive(as_string))
                } else if self.is_cell_ref(text) {
                    Ok(Node::CellRef(as_string))
                } else {
                    self.parse_function(tokenizer, as_string)
                }
            },
            Token::TextQualifier => self.parse_string(tokenizer),
            Token::OpenBracket => {
                match self.parse_expression(tokenizer) {
                    Err(e) => Err(e),
                    Ok(expr) => self.expect(tokenizer, Token::CloseBracket, expr),
                }
            },
            token => Err(
                ParseError::UnexpectedToken {
                    expected: "Text or OpenBracket".to_owned(),
                    found: token.describe(),
                },
            ),
        }
    }

    /// Parses a quoted string literal, the opening qualifier already
    /// consumed: text runs accumulate verbatim, a doubled qualifier yields
    /// one literal `"`, and an unescaped qualifier closes the string.
    #[verifier::loop_isolation(false)]
    fn parse_string(&self, tokenizer: &mut Tokenizer<'_>) -> (r: ParseResult)
        ensures
            final(tokenizer).remaining().len() <= old(tokenizer).remaining().len(),
            (match sp_string(old(tokenizer).remaining()) {
                Ok((acc, rest)) => r matches Ok(n) && node_view(n) == NodeModel::Primitive(acc)
                    && final(tokenizer).remaining() == rest,
                Err(em) => r matches Err(e) && e@ == em,
            }),
        decreases old(tokenizer).remaining().len(), 0int,
    {
        let ghost s0 = tokenizer.remaining();
        let mut string = String::new();
        proof {
            lemma_string_join_empty(sp_string(s0));
        }
        loop
            invariant
                tokenizer.remaining().len() <= s0.len(),
                sp_string(s0) == sp_string_join(string@, sp_string(tokenizer.remaining())),
            decreases tokenizer.remaining().len(),
        {
            let ghost cur = tokenizer.remaining();
            proof {
                lemma_lex_rest_lt(cur);
            }
            let next_token = tokenizer.next();
            match next_token {
                Token::TextQualifier => {
                    let ghost s1 = tokenizer.remaining();
                    let la = tokenizer.lookahead(1);
                    if token_kind_eq(&la, &Token::TextQualifier) {
                        proof {
                            lemma_lex_rest_lt(s1);
                        }
                        let ghost pre = string@;
                        push_char(&mut string, '"');
                        let _ = tokenizer.next();
                        proof {
                            let s2 = tokenizer.remaining();
                            assert(sp_string(cur) == sp_string_join(seq!['"'], sp_string(s2)));
                            lemma_string_join_concat(pre, seq!['"'], sp_string(s2));
                            assert(pre + seq!['"'] =~= string@);
                        }
                    } else {
                        return Ok(Node::Primitive(string));
                    }
                },
                Token::Text(text) => {
                    let ghost pre = string@;
                    push_chars(&mut string, text);
                    proof {
                        let s1 = tokenizer.remaining();
                        assert(sp_string(cur) == sp_string_join(text@, sp_string(s1)));
                        lemma_string_join_concat(pre, text@, sp_string(s1));
                    }
                },
                Token::EndOfFile => {
                    return Err(ParseError::UnexpectedEndOfFile);
                },
                _ => {
                    return Err(ParseError::InvalidExpression);
                },
            }
        }
    }

    /// Parses a function call, the candidate name already consumed: the name
    /// must be recognized, an open bracket must follow, and the arguments
    /// are comma-separated expressions up to the closing bracket. An open
    /// bracket immediately followed by a close bracket is an empty argument
    /// list.
    #[verifier::loop_isolation(false)]
    #[verifier::rlimit(60)]
    fn parse_function(&self, tokenizer: &mut Tokenizer<'_>, name: String) -> (r: ParseResult)
        ensures
            final(tokenizer).remaining().len() <= old(tokenizer).remaining().len(),
            matches_parse(
                r,
                sp_function(self.names(), name@, old(tokenizer).remaining()),
                final(tokenizer).remaining(),
            ),
        decreases old(tokenizer).remaining().len(), 0int,
    {
        let ghost s0 = tokenizer.remaining();
        if !self.contains_name(&name) {
            return Err(ParseError::InvalidExpression);
        }
        proof {
            lemma_lex_rest_lt(s0);
        }
        let next_token = tokenizer.next();
        if !token_kind_eq(&next_token, &Token::OpenBracket) {
            return Err(
                ParseError::UnexpectedToken {
                    expected: "OpenBracket".to_owned(),
                    found: next_token.describe(),
                },
            );
        }
        let ghost s1 = tokenizer.remaining();
        let la = tokenizer.lookahead(1);
        if token_kind_eq(&la, &Token::CloseBracket) {
            proof {
                lemma_lex_rest_le(s1);
            }
            let _ = tokenizer.next();
            let empty_args: Vec<Node> = Vec::new();
            assert(nodes_view(empty_args@) =~= Seq::<NodeModel>::empty());
            return Ok(Node::Function { name, args: empty_args });
        }
        let mut args: Vec<Node> = Vec::new();
        proof {
            lemma_args_join_empty(sp_arguments(self.names(), s1));
        }
        loop
            invariant
                tokenizer.remaining().len() <= s1.len(),
                s1.len() < s0.len(),
                sp_arguments(self.names(), s1) == sp_args_join(
                    nodes_view(args@),
                    sp_arguments(self.names(), tokenizer.remaining()),
                ),
                sp_function(self.names(), name@, s0) == (match sp_arguments(
                    self.names(),
                    s1,
                ) {
                    Err(e) => Err::<(NodeModel, Seq<char>), ErrorModel>(e),
                    Ok((a, rest)) => Ok((NodeModel::Function { name: name@, args: a }, rest)),
                }),
            decreases tokenizer.remaining().len(),
        {
            let ghost cur = tokenizer.remaining();
            let arg = match self.parse_expression(tokenizer) {
                Ok(n) => n,
                Err(e) => {
                    return Err(e);
                },
            };
            let ghost prev_args = args@;
            args.push(arg);
            proof {
                lemma_nodes_view_push(prev_args, arg);
                assert(nodes_view(args@) == nodes_view(prev_args).push(node_view(arg)));
            }
            let ghost s_arg = tokenizer.remaining();
            proof {
                lemma_lex_rest_lt(s_arg);
            }
            let next_token = tokenizer.next();
            match next_token {
                Token::Comma => {
                    proof {
                        let s2 = tokenizer.remaining();
                        assert(sp_arguments(self.names(), cur) == sp_args_join(
                            seq![node_view(arg)],
                            sp_arguments(self.names(), s2),
                        ));
                        lemma_args_join_push(
                            nodes_view(prev_args),
                            node_view(arg),
                            sp_arguments(self.names(), s2),
                        );
                    }
                },
                Token::CloseBracket => {
                    proof {
                        let s2 = tokenizer.remaining();
                        assert(sp_arguments(self.names(), cur) matches Ok((a, rest)) && a
                            =~= seq![node_view(arg)] && rest == s2);
                        assert(nodes_view(prev_args) + seq![node_view(arg)] =~= nodes_view(args@));
                    }
                    return Ok(Node::Function { name, args });
                },
                other => {
                    return Err(
                        ParseError::UnexpectedToken {
                            expected: "Comma or CloseBracket".to_owned(),
                            found: other.describe(),
                        },
                    );
                },
            }
        }
    }

    /// Consumes one token and hands `result` back if the token's kind
    /// matches `expected`; payloads are not compared.
    fn expect(&self, tokenizer: &mut Tokenizer<'_>, expected: Token<'_>, result: Node) -> (r:
        ParseResult)
        ensures
            final(tokenizer).remaining() == lex_rest(old(tokenizer).remaining()),
            final(tokenizer).remaining().len() <= old(tokenizer).remaining().len(),
            same_kind(lex_token(old(tokenizer).remaining()), expected@) ==> (r matches Ok(n) && n
                == result),
            !same_kind(lex_token(old(tokenizer).remaining()), expected@) ==> (r matches Err(e)
                && e@ == (ErrorModel::UnexpectedToken {
                expected: kind_name(expected@),
                found: kind_name(lex_token(old(tokenizer).remaining())),
            })),
    {
        proof {
            lemma_lex_rest_le(tokenizer.remaining());
        }
        let next_token = tokenizer.next();
        if token_kind_eq(&next_token, &expected) {
            Ok(result)
        } else {
            Err(
                ParseError::UnexpectedToken {
                    expected: expected.describe(),
                    found: next_token.describe(),
                },
            )
        }
    }
}

} // verus!
