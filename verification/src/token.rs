//! The formula lexer: a pull-based tokenizer over a borrowed character
//! buffer, with exact single-token lookahead and no allocation.
//!
//! The lexer is specified against a character-level model: [`lex_token`] gives
//! the next token of a character sequence and [`lex_rest`] the characters that
//! remain once it is consumed. Whitespace outside a text run is skipped
//! silently and never surfaces as a token.

use vstd::prelude::*;
use vstd::slice::slice_subrange;

verus! {

/// The smallest lexical unit of a formula. Text tokens borrow from the input
/// buffer and do not outlive it.
#[derive(Debug)]
pub enum Token<'a> {
    /// `(`
    OpenBracket,
    /// `)`
    CloseBracket,
    /// `:`
    RangeDelimiter,
    /// `"`
    TextQualifier,
    /// `,`
    Comma,
    /// One of `+ - * /`.
    Operator(char),
    /// A maximal run of characters outside the breaking set.
    Text(&'a [char]),
    EndOfFile,
}

/// The mathematical model of a [`Token`]: the same tagged value with the
/// borrowed text replaced by the character sequence it holds.
#[verifier::ext_equal]
pub enum TokenModel {
    OpenBracket,
    CloseBracket,
    RangeDelimiter,
    TextQualifier,
    Comma,
    Operator(char),
    Text(Seq<char>),
    EndOfFile,
}

impl<'a> View for Token<'a> {
    type V = TokenModel;

    open spec fn view(&self) -> TokenModel {
        match self {
            Token::OpenBracket => TokenModel::OpenBracket,
            Token::CloseBracket => TokenModel::CloseBracket,
            Token::RangeDelimiter => TokenModel::RangeDelimiter,
            Token::TextQualifier => TokenModel::TextQualifier,
            Token::Comma => TokenModel::Comma,
            Token::Operator(c) => TokenModel::Operator(*c),
            Token::Text(t) => TokenModel::Text(t@),
            Token::EndOfFile => TokenModel::EndOfFile,
        }
    }
}

/// Whether two tokens have the same kind, payloads not compared.
pub open spec fn same_kind(a: TokenModel, b: TokenModel) -> bool {
    match (a, b) {
        (TokenModel::OpenBracket, TokenModel::OpenBracket) => true,
        (TokenModel::CloseBracket, TokenModel::CloseBracket) => true,
        (TokenModel::RangeDelimiter, TokenModel::RangeDelimiter) => true,
        (TokenModel::TextQualifier, TokenModel::TextQualifier) => true,
        (TokenModel::Comma, TokenModel::Comma) => true,
        (TokenModel::Operator(_), TokenModel::Operator(_)) => true,
        (TokenModel::Text(_), TokenModel::Text(_)) => true,
        (TokenModel::EndOfFile, TokenModel::EndOfFile) => true,
        _ => false,
    }
}

/// The descriptive name of a token's kind, as carried by unexpected-token
/// errors.
pub open spec fn kind_name(t: TokenModel) -> Seq<char> {
    match t {
        TokenModel::OpenBracket => "OpenBracket"@,
        TokenModel::CloseBracket => "CloseBracket"@,
        TokenModel::RangeDelimiter => "RangeDelimiter"@,
        TokenModel::TextQualifier => "TextQualifier"@,
        TokenModel::Comma => "Comma"@,
        TokenModel::Operator(_) => "Operator"@,
        TokenModel::Text(_) => "Text"@,
        TokenModel::EndOfFile => "EndOfFile"@,
    }
}

impl<'a> Token<'a> {
    /// The descriptive name of this token's kind, for diagnostics.
    pub fn describe(&self) -> (r: String)
        ensures
            r@ == kind_name(self@),
    {
        match self {
            Token::OpenBracket => "OpenBracket".to_owned(),
            Token::CloseBracket => "CloseBracket".to_owned(),
            Token::RangeDelimiter => "RangeDelimiter".to_owned(),
            Token::TextQualifier => "TextQualifier".to_owned(),
            Token::Comma => "Comma".to_owned(),
            Token::Operator(_) => "Operator".to_owned(),
            Token::Text(_) => "Text".to_owned(),
            Token::EndOfFile => "EndOfFile".to_owned(),
        }
    }
}

/// Compares two character slices element by element.
fn char_slices_eq(a: &[char], b: &[char]) -> (r: bool)
    ensures
        r == (a@ == b@),
{
    if a.len() != b.len() {
        assert(a@.len() != b@.len());
        return false;
    }
    let mut i: usize = 0;
    while i < a.len()
        invariant
            i <= a.len(),
            a.len() == b.len(),
            forall|j: int| 0 <= j < i ==> a@[j] == b@[j],
        decreases a.len() - i,
    {
        if a[i] != b[i] {
            return false;
        }
        i += 1;
    }
    assert(a@ =~= b@);
    true
}

impl<'a> PartialEq for Token<'a> {
    fn eq(&self, other: &Self) -> (r: bool) {
        match (self, other) {
            (Token::OpenBracket, Token::OpenBracket) => true,
            (Token::CloseBracket, Token::CloseBracket) => true,
            (Token::RangeDelimiter, Token::RangeDelimiter) => true,
            (Token::TextQualifier, Token::TextQualifier) => true,
            (Token::Comma, Token::Comma) => true,
            (Token::EndOfFile, Token::EndOfFile) => true,
            (Token::Text(a), Token::Text(b)) => char_slices_eq(a, b),
            (Token::Operator(a), Token::Operator(b)) => a == b,
            _ => false,
        }
    }
}

impl<'a> vstd::std_specs::cmp::PartialEqSpecImpl for Token<'a> {
    open spec fn obeys_eq_spec() -> bool {
        true
    }

    open spec fn eq_spec(&self, other: &Self) -> bool {
        self@ == other@
    }
}

/// The characters that end a text run: operators, brackets, the range
/// delimiter, the text qualifier, the comma and the space.
pub open spec fn is_breaking(c: char) -> bool {
    c == '+' || c == '-' || c == '/' || c == '*' || c == ':' || c == '(' || c == ')' || c == '"'
        || c == ',' || c == ' '
}

/// The length of the maximal prefix of `s` made of non-breaking characters.
pub open spec fn text_run_len(s: Seq<char>) -> nat
    decreases s.len(),
{
    if s.len() == 0 || is_breaking(s[0]) {
        0
    } else {
        1 + text_run_len(s.skip(1))
    }
}

/// `s` with its leading spaces removed.
pub open spec fn skip_spaces(s: Seq<char>) -> Seq<char>
    decreases s.len(),
{
    if s.len() > 0 && s[0] == ' ' {
        skip_spaces(s.skip(1))
    } else {
        s
    }
}

/// The next token of `s`: end-of-file on an exhausted buffer, a
/// single-character token on a breaking character, and otherwise the maximal
/// text run. Leading spaces are skipped.
pub open spec fn lex_token(s: Seq<char>) -> TokenModel {
    let t = skip_spaces(s);
    if t.len() == 0 {
        TokenModel::EndOfFile
    } else if t[0] == '+' || t[0] == '-' || t[0] == '/' || t[0] == '*' {
        TokenModel::Operator(t[0])
    } else if t[0] == '(' {
        TokenModel::OpenBracket
    } else if t[0] == ')' {
        TokenModel::CloseBracket
    } else if t[0] == ':' {
        TokenModel::RangeDelimiter
    } else if t[0] == '"' {
        TokenModel::TextQualifier
    } else if t[0] == ',' {
        TokenModel::Comma
    } else {
        TokenModel::Text(t.take(text_run_len(t) as int))
    }
}

/// What remains of `s` once its next token is consumed.
pub open spec fn lex_rest(s: Seq<char>) -> Seq<char> {
    let t = skip_spaces(s);
    if t.len() == 0 {
        t
    } else if is_breaking(t[0]) {
        t.skip(1)
    } else {
        t.skip(text_run_len(t) as int)
    }
}

/// What remains of `s` once its first `n` tokens are consumed.
pub open spec fn lex_rest_n(s: Seq<char>, n: nat) -> Seq<char>
    decreases n,
{
    if n == 0 {
        s
    } else {
        lex_rest(lex_rest_n(s, (n - 1) as nat))
    }
}

/// The `n`-th upcoming token of `s`; for `n <= 1` this is the next token.
pub open spec fn lex_nth(s: Seq<char>, n: nat) -> TokenModel {
    if n <= 1 {
        lex_token(s)
    } else {
        lex_token(lex_rest_n(s, (n - 1) as nat))
    }
}

pub proof fn lemma_skip_spaces_len(s: Seq<char>)
    ensures
        skip_spaces(s).len() <= s.len(),
    decreases s.len(),
{
    if s.len() > 0 && s[0] == ' ' {
        lemma_skip_spaces_len(s.skip(1));
    }
}

pub proof fn lemma_text_run_len_le(s: Seq<char>)
    ensures
        text_run_len(s) <= s.len(),
    decreases s.len(),
{
    if !(s.len() == 0 || is_breaking(s[0])) {
        lemma_text_run_len_le(s.skip(1));
    }
}

/// Consuming a token never grows the remaining input.
pub proof fn lemma_lex_rest_le(s: Seq<char>)
    ensures
        lex_rest(s).len() <= s.len(),
{
    lemma_skip_spaces_len(s);
    lemma_text_run_len_le(skip_spaces(s));
}

/// Consuming any token but end-of-file strictly shrinks the remaining input.
pub proof fn lemma_lex_rest_lt(s: Seq<char>)
    ensures
        lex_token(s) != TokenModel::EndOfFile ==> lex_rest(s).len() < s.len(),
{
    lemma_skip_spaces_len(s);
    let t = skip_spaces(s);
    if t.len() > 0 && !is_breaking(t[0]) {
        lemma_text_run_len_le(t.skip(1));
    }
}

/// The pull-based token stream over a borrowed character buffer.
pub struct Tokenizer<'a> {
    view: &'a [char],
}

impl<'a> Tokenizer<'a> {
    /// The characters not yet consumed.
    pub closed spec fn remaining(&self) -> Seq<char> {
        self.view@
    }

    pub fn new(view: &'a [char]) -> (t: Self)
        ensures
            t.remaining() == view@,
    {
        Self { view }
    }

    fn skip(&mut self, n: usize)
        ensures
            final(self).remaining() == old(self).remaining().skip(
                vstd::math::min(n as int, old(self).remaining().len() as int),
            ),
    {
        let m = if n < self.view.len() {
            n
        } else {
            self.view.len()
        };
        self.view = slice_subrange(self.view, m, self.view.len());
        assert(final(self).remaining() =~= old(self).remaining().skip(m as int));
    }

    fn peek(&self) -> (r: Option<&char>)
        ensures
            match r {
                Some(c) => self.remaining().len() > 0 && *c == self.remaining()[0],
                None => self.remaining().len() == 0,
            },
    {
        self.view.get(0)
    }

    fn next_is(&self, cmp: char) -> (r: bool)
        ensures
            r == (self.remaining().len() > 0 && self.remaining()[0] == cmp),
    {
        if let Some(c) = self.peek() {
            return *c == cmp;
        }
        false
    }

    fn next_is_one_of(&self, sp_cmp: &[char]) -> (r: bool)
        ensures
            r == (self.remaining().len() > 0 && sp_cmp@.contains(self.remaining()[0])),
    {
        if let Some(c) = self.peek() {
            let mut i: usize = 0;
            while i < sp_cmp.len()
                invariant
                    i <= sp_cmp.len(),
                    self.remaining().len() > 0,
                    *c == self.remaining()[0],
                    forall|j: int| 0 <= j < i ==> sp_cmp@[j] != *c,
                decreases sp_cmp.len() - i,
            {
                if sp_cmp[i] == *c {
                    return true;
                }
                i += 1;
            }
            assert(!sp_cmp@.contains(self.remaining()[0]));
        }
        false
    }

    fn empty(&self) -> (r: bool)
        ensures
            r == (self.remaining().len() == 0),
    {
        self.view.is_empty()
    }

    /// Returns the `n`-th upcoming token without advancing the position; for
    /// `n <= 1` this peeks one token ahead.
    pub fn lookahead(&mut self, n: usize) -> (r: Token<'a>)
        ensures
            final(self).remaining() == old(self).remaining(),
            r@ == lex_nth(old(self).remaining(), n as nat),
    {
        let original = self.view;
        if n <= 1 {
            let toke = self.next();
            self.view = original;
            return toke;
        } else {
            let mut toke = self.next();
            let mut i: usize = 1;
            while i < n
                invariant
                    1 <= i <= n,
                    self.remaining() == lex_rest_n(original@, i as nat),
                    toke@ == lex_token(lex_rest_n(original@, (i - 1) as nat)),
                decreases n - i,
            {
                assert(lex_rest_n(original@, (i + 1) as nat) == lex_rest(
                    lex_rest_n(original@, i as nat),
                ));
                toke = self.next();
                i += 1;
            }
            self.view = original;
            return toke;
        }
    }

    /// Consumes and returns the next token; end-of-file once the buffer is
    /// exhausted. Never fails: characters outside the breaking set fold into
    /// a text run, and spaces are skipped silently.
    pub fn next(&mut self) -> (r: Token<'a>)
        ensures
            r@ == lex_token(old(self).remaining()),
            final(self).remaining() == lex_rest(old(self).remaining()),
        decreases self.remaining().len(),
    {
        if self.empty() {
            return Token::EndOfFile;
        }

        let c = *(self.view.get(0).unwrap());
        if c == '+' || c == '-' || c == '/' || c == '*' {
            self.skip(1);
            Token::Operator(c)
        } else if c == '(' {
            self.skip(1);
            Token::OpenBracket
        } else if c == ')' {
            self.skip(1);
            Token::CloseBracket
        } else if c == ':' {
            self.skip(1);
            Token::RangeDelimiter
        } else if c == '"' {
            self.skip(1);
            Token::TextQualifier
        } else if c == ',' {
            self.skip(1);
            Token::Comma
        } else if c == ' ' {
            self.skip(1);
            self.next()
        } else {
            let tmp = self.view;
            let total = tmp.len();
            let mut idx: usize = 0;
            let sp_c: [char; 10] = ['+', '-', '/', '*', ':', '(', ')', '"', ',', ' '];
            proof {
                assert(forall|d: char| sp_c@.contains(d) == is_breaking(d)) by {
                    assert(forall|d: char| is_breaking(d) ==> sp_c@.contains(d)) by {
                        assert(sp_c@[0] == '+' && sp_c@[1] == '-' && sp_c@[2] == '/' && sp_c@[3]
                            == '*' && sp_c@[4] == ':' && sp_c@[5] == '(' && sp_c@[6] == ')'
                            && sp_c@[7] == '"' && sp_c@[8] == ',' && sp_c@[9] == ' ');
                    }
                }
            }
            while !self.next_is_one_of(sp_c.as_slice()) && !self.empty()
                invariant
                    tmp@.len() == total,
                    idx <= tmp@.len(),
                    self.remaining() == tmp@.skip(idx as int),
                    forall|j: int| 0 <= j < idx ==> !is_breaking(tmp@[j]),
                    forall|d: char| sp_c@.contains(d) == is_breaking(d),
                decreases self.remaining().len(),
            {
                assert(tmp@.skip(idx as int).skip(1) =~= tmp@.skip(idx + 1));
                self.skip(1);
                idx += 1;
            }
            proof {
                lemma_text_run_exact(tmp@, idx as int);
            }
            Token::Text(slice_subrange(tmp, 0, idx))
        }
    }
}

/// If the first `k` characters of `s` are non-breaking and either the input
/// ends there or a breaking character follows, the text run is exactly `k`.
pub proof fn lemma_text_run_exact(s: Seq<char>, k: int)
    requires
        0 <= k <= s.len(),
        forall|j: int| 0 <= j < k ==> !is_breaking(s[j]),
        k == s.len() || is_breaking(s[k]),
    ensures
        text_run_len(s) == k,
    decreases k,
{
    if k > 0 {
        lemma_text_run_exact(s.skip(1), k - 1);
    }
}

} // verus!
