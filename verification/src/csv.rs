//! The delimited-text scanner: a tokenizer that splits a borrowed character
//! buffer into values, delimiters, newlines and qualifier marks, and a parser
//! that folds that token stream into rows of owned fields.
//!
//! The parser is specified against a token-driven state machine over
//! character sequences: [`csv_token`] and [`csv_rest`] model the tokenizer,
//! [`csv_step`] the effect of one token on the scanning state, and
//! [`csv_rows`] the rows that a whole input yields.

use vstd::prelude::*;
use vstd::slice::slice_subrange;

use crate::parser::{push_char, push_chars};

verus! {

/// The smallest lexical unit of delimited text.
#[derive(Debug)]
enum Token<'a> {
    /// A full field's worth of plain characters.
    Value(&'a [char]),
    /// The comma between fields.
    Delimiter,
    /// `\n` or `\r\n`.
    Newline,
    /// A lone `"`.
    TextQualifier,
    /// A space outside a qualified string.
    WhiteSpace,
    /// `""`, a quotation mark inside a qualified string.
    Escaped,
    EndOfFile,
}

/// The mathematical model of a [`Token`].
#[verifier::ext_equal]
pub enum CsvTokenModel {
    Value(Seq<char>),
    Delimiter,
    Newline,
    TextQualifier,
    WhiteSpace,
    Escaped,
    EndOfFile,
}

impl<'a> View for Token<'a> {
    type V = CsvTokenModel;

    closed spec fn view(&self) -> CsvTokenModel {
        match self {
            Token::Value(v) => CsvTokenModel::Value(v@),
            Token::Delimiter => CsvTokenModel::Delimiter,
            Token::Newline => CsvTokenModel::Newline,
            Token::TextQualifier => CsvTokenModel::TextQualifier,
            Token::WhiteSpace => CsvTokenModel::WhiteSpace,
            Token::Escaped => CsvTokenModel::Escaped,
            Token::EndOfFile => CsvTokenModel::EndOfFile,
        }
    }
}

/// The characters that end a run of value characters.
pub open spec fn csv_is_special(c: char) -> bool {
    c == '\n' || c == '\r' || c == ',' || c == '"' || c == ' '
}

/// The length of the maximal prefix of `s` made of value characters.
pub open spec fn csv_run_len(s: Seq<char>) -> nat
    decreases s.len(),
{
    if s.len() == 0 || csv_is_special(s[0]) {
        0
    } else {
        1 + csv_run_len(s.skip(1))
    }
}

/// The next token of `s`.
pub open spec fn csv_token(s: Seq<char>) -> CsvTokenModel {
    if s.len() == 0 {
        CsvTokenModel::EndOfFile
    } else if s[0] == '"' {
        if s.len() > 1 && s[1] == '"' {
            CsvTokenModel::Escaped
        } else {
            CsvTokenModel::TextQualifier
        }
    } else if s[0] == ',' {
        CsvTokenModel::Delimiter
    } else if s[0] == ' ' {
        CsvTokenModel::WhiteSpace
    } else if s[0] == '\r' {
        CsvTokenModel::Newline
    } else if s[0] == '\n' {
        CsvTokenModel::Newline
    } else {
        CsvTokenModel::Value(s.take(csv_run_len(s) as int))
    }
}

/// What remains of `s` once its next token is consumed. A `\r` consumes two
/// characters, taking the character after it — ordinarily its `\n` — with it.
pub open spec fn csv_rest(s: Seq<char>) -> Seq<char> {
    if s.len() == 0 {
        s
    } else if s[0] == '"' {
        if s.len() > 1 && s[1] == '"' {
            s.skip(2)
        } else {
            s.skip(1)
        }
    } else if s[0] == ',' || s[0] == ' ' || s[0] == '\n' {
        s.skip(1)
    } else if s[0] == '\r' {
        if s.len() >= 2 {
            s.skip(2)
        } else {
            s.skip(1)
        }
    } else {
        s.skip(csv_run_len(s) as int)
    }
}

pub proof fn lemma_csv_run_len_le(s: Seq<char>)
    ensures
        csv_run_len(s) <= s.len(),
    decreases s.len(),
{
    if !(s.len() == 0 || csv_is_special(s[0])) {
        lemma_csv_run_len_le(s.skip(1));
    }
}

/// Consuming any token but end-of-file strictly shrinks the remaining input.
pub proof fn lemma_csv_rest_lt(s: Seq<char>)
    ensures
        csv_rest(s).len() <= s.len(),
        csv_token(s) != CsvTokenModel::EndOfFile ==> csv_rest(s).len() < s.len(),
{
    if s.len() > 0 && !csv_is_special(s[0]) {
        lemma_csv_run_len_le(s.skip(1));
    }
}

/// The scanning state: completed rows, the row and field being accumulated,
/// and whether the scanner stands inside a qualified string.
#[verifier::ext_equal]
pub struct ScanState {
    pub rows: Seq<Seq<Seq<char>>>,
    pub row: Seq<Seq<char>>,
    pub field: Seq<char>,
    pub quoted: bool,
}

pub open spec fn initial_state() -> ScanState {
    ScanState { rows: Seq::empty(), row: Seq::empty(), field: Seq::empty(), quoted: false }
}

/// The effect of one token on the scanning state: values extend the current
/// field; delimiters and newlines close a field or a row unless a qualifier
/// is open, in which case they are taken verbatim; a qualifier toggles that
/// openness; spaces and escaped quotes count only inside a qualifier.
pub open spec fn csv_step(st: ScanState, t: CsvTokenModel) -> ScanState {
    match t {
        CsvTokenModel::Value(v) => ScanState { field: st.field + v, ..st },
        CsvTokenModel::Delimiter => {
            if !st.quoted {
                ScanState { row: st.row.push(st.field), field: Seq::empty(), ..st }
            } else {
                ScanState { field: st.field.push(','), ..st }
            }
        },
        CsvTokenModel::Newline => {
            if !st.quoted {
                ScanState {
                    rows: st.rows.push(st.row.push(st.field)),
                    row: Seq::empty(),
                    field: Seq::empty(),
                    ..st
                }
            } else {
                ScanState { field: st.field.push('\n'), ..st }
            }
        },
        CsvTokenModel::TextQualifier => ScanState { quoted: !st.quoted, ..st },
        CsvTokenModel::WhiteSpace => {
            if st.quoted {
                ScanState { field: st.field.push(' '), ..st }
            } else {
                st
            }
        },
        CsvTokenModel::Escaped => {
            if st.quoted {
                ScanState { field: st.field.push('"'), ..st }
            } else {
                st
            }
        },
        CsvTokenModel::EndOfFile => st,
    }
}

/// Scans `s` to its end, folding every token into the state. The length test
/// guards recursion for the termination checker; it always holds
/// (`lemma_csv_rest_lt`).
pub open spec fn csv_scan(s: Seq<char>, st: ScanState) -> ScanState
    decreases s.len(),
{
    if csv_token(s) is EndOfFile {
        st
    } else {
        let s1 = csv_rest(s);
        if s1.len() < s.len() {
            csv_scan(s1, csv_step(st, csv_token(s)))
        } else {
            st
        }
    }
}

/// The final state's rows, with a last unfinished field and row appended
/// when they are non-empty.
pub open spec fn csv_finish(st: ScanState) -> Seq<Seq<Seq<char>>> {
    let row = if st.field.len() > 0 {
        st.row.push(st.field)
    } else {
        st.row
    };
    if row.len() > 0 {
        st.rows.push(row)
    } else {
        st.rows
    }
}

/// The rows of fields that scanning a whole input yields.
pub open spec fn csv_rows(s: Seq<char>) -> Seq<Seq<Seq<char>>> {
    csv_finish(csv_scan(s, initial_state()))
}

/// The pull-based token stream over a borrowed character buffer.
pub struct Tokenizer<'a> {
    view: &'a [char],
}

impl<'a> Tokenizer<'a> {
    /// The characters not yet consumed.
    pub closed spec fn remaining(&self) -> Seq<char> {
        self.view@
    }

    pub fn new(view: &'a [char]) -> (t: Self)
        ensures
            t.remaining() == view@,
    {
        Self { view }
    }

    fn skip(&mut self, n: usize)
        ensures
            final(self).remaining() == old(self).remaining().skip(
                vstd::math::min(n as int, old(self).remaining().len() as int),
            ),
    {
        let m = if n < self.view.len() {
            n
        } else {
            self.view.len()
        };
        self.view = slice_subrange(self.view, m, self.view.len());
        assert(final(self).remaining() =~= old(self).remaining().skip(m as int));
    }

    fn peek(&self) -> (r: Option<&char>)
        ensures
            match r {
                Some(c) => self.remaining().len() > 0 && *c == self.remaining()[0],
                None => self.remaining().len() == 0,
            },
    {
        self.view.get(0)
    }

    fn next_is(&self, cmp: char) -> (r: bool)
        ensures
            r == (self.remaining().len() > 0 && self.remaining()[0] == cmp),
    {
        if let Some(c) = self.peek() {
            return *c == cmp;
        }
        false
    }

    fn next_is_one_of(&self, sp_cmp: &[char]) -> (r: bool)
        ensures
            r == (self.remaining().len() > 0 && sp_cmp@.contains(self.remaining()[0])),
    {
        if let Some(c) = self.peek() {
            let mut i: usize = 0;
            while i < sp_cmp.len()
                invariant
                    i <= sp_cmp.len(),
                    self.remaining().len() > 0,
                    *c == self.remaining()[0],
                    forall|j: int| 0 <= j < i ==> sp_cmp@[j] != *c,
                decreases sp_cmp.len() - i,
            {
                if sp_cmp[i] == *c {
                    return true;
                }
                i += 1;
            }
            assert(!sp_cmp@.contains(self.remaining()[0]));
        }
        false
    }

    fn empty(&self) -> (r: bool)
        ensures
            r == (self.remaining().len() == 0),
    {
        self.view.is_empty()
    }

    /// Consumes and returns the next token; end-of-file once the buffer is
    /// exhausted.
    fn get_csv_token(&mut self) -> (r: Token<'a>)
        ensures
            r@ == csv_token(old(self).remaining()),
            final(self).remaining() == csv_rest(old(self).remaining()),
    {
        if self.empty() {
            return Token::EndOfFile;
        }

        let c = *(self.view.get(0).unwrap());
        if c == '"' {
            self.skip(1);
            if self.next_is('"') {
                self.skip(1);
                proof {
                    assert(final(self).remaining() =~= csv_rest(old(self).remaining()));
                }
                return Token::Escaped;
            }
            return Token::TextQualifier;
        } else if c == ',' {
            self.skip(1);
            return Token::Delimiter;
        } else if c == ' ' {
            self.skip(1);
            return Token::WhiteSpace;
        } else if c == '\r' {
            self.skip(2);
            return Token::Newline;
        } else if c == '\n' {
            self.skip(1);
            return Token::Newline;
        } else {
            let tmp = self.view;
            let total = tmp.len();
            let mut idx: usize = 0;
            let sp_c: [char; 5] = ['\n', '\r', ',', '"', ' '];
            proof {
                assert(forall|d: char| sp_c@.contains(d) == csv_is_special(d)) by {
                    assert(forall|d: char| csv_is_special(d) ==> sp_c@.contains(d)) by {
                        assert(sp_c@[0] == '\n' && sp_c@[1] == '\r' && sp_c@[2] == ',' && sp_c@[3]
                            == '"' && sp_c@[4] == ' ');
                    }
                }
            }
            while !self.next_is_one_of(sp_c.as_slice()) && !self.empty()
                invariant
                    tmp@.len() == total,
                    idx <= tmp@.len(),
                    self.remaining() == tmp@.skip(idx as int),
                    forall|j: int| 0 <= j < idx ==> !csv_is_special(tmp@[j]),
                    forall|d: char| sp_c@.contains(d) == csv_is_special(d),
                decreases self.remaining().len(),
            {
                assert(tmp@.skip(idx as int).skip(1) =~= tmp@.skip(idx + 1));
                self.skip(1);
                idx += 1;
            }
            proof {
                lemma_csv_run_exact(tmp@, idx as int);
            }
            return Token::Value(slice_subrange(tmp, 0, idx));
        }
    }
}

/// If the first `k` characters of `s` are value characters and either the
/// input ends there or a special character follows, the run is exactly `k`.
proof fn lemma_csv_run_exact(s: Seq<char>, k: int)
    requires
        0 <= k <= s.len(),
        forall|j: int| 0 <= j < k ==> !csv_is_special(s[j]),
        k == s.len() || csv_is_special(s[k]),
    ensures
        csv_run_len(s) == k,
    decreases k,
{
    if k > 0 {
        lemma_csv_run_exact(s.skip(1), k - 1);
    }
}

/// The scanning state that the accumulated executable values stand for.
pub open spec fn scan_state_of(
    rows: Vec<Vec<String>>,
    row: Vec<String>,
    field: String,
    quoted: bool,
) -> ScanState {
    ScanState { rows: rows.deep_view(), row: row.deep_view(), field: field@, quoted }
}

/// The row parser: drives the tokenizer over the whole input and folds the
/// tokens into rows of owned fields.
pub struct Parser<'a> {
    tokenizer: Tokenizer<'a>,
}

impl<'a> Parser<'a> {
    /// The characters not yet consumed.
    pub closed spec fn remaining(&self) -> Seq<char> {
        self.tokenizer.remaining()
    }

    pub fn new(source: &'a [char]) -> (r: Self)
        ensures
            r.remaining() == source@,
    {
        Self { tokenizer: Tokenizer::new(source) }
    }

    /// Scans the whole input into rows of fields, as the token-driven state
    /// machine [`csv_rows`] prescribes.
    #[verifier::loop_isolation(false)]
    pub fn parse(&mut self) -> (rows: Vec<Vec<String>>)
        ensures
            rows.deep_view() == csv_rows(old(self).remaining()),
    {
        let ghost s0 = self.tokenizer.remaining();
        let mut rows: Vec<Vec<String>> = Vec::new();
        let mut current_row: Vec<String> = Vec::new();
        let mut current_field = String::new();
        let mut in_qualifier = false;

        proof {
            assert(scan_state_of(rows, current_row, current_field, in_qualifier)
                =~= initial_state());
        }
        loop
            invariant
                csv_scan(s0, initial_state()) == csv_scan(
                    self.tokenizer.remaining(),
                    scan_state_of(rows, current_row, current_field, in_qualifier),
                ),
            decreases self.tokenizer.remaining().len(),
        {
            let ghost cur = self.tokenizer.remaining();
            let ghost st = scan_state_of(rows, current_row, current_field, in_qualifier);
            proof {
                lemma_csv_rest_lt(cur);
            }
            let token = self.tokenizer.get_csv_token();
            match token {
                Token::Value(val) => {
                    push_chars(&mut current_field, val);
                },
                Token::Delimiter => {
                    if !in_qualifier {
                        let ghost prev = current_row.deep_view();
                        current_row.push(current_field);
                        current_field = String::new();
                        proof {
                            assert(current_row.deep_view() =~= prev.push(st.field));
                        }
                    } else {
                        push_char(&mut current_field, ',');
                    }
                },
                Token::Newline => {
                    if !in_qualifier {
                        let ghost prev_row = current_row.deep_view();
                        let ghost prev_rows = rows.deep_view();
                        current_row.push(current_field);
                        proof {
                            assert(current_row.deep_view() =~= prev_row.push(st.field));
                        }
                        rows.push(current_row);
                        current_row = Vec::new();
                        current_field = String::new();
                        proof {
                            assert(rows.deep_view() =~= prev_rows.push(prev_row.push(st.field)));
                            assert(current_row.deep_view() =~= Seq::<Seq<char>>::empty());
                        }
                    } else {
                        push_char(&mut current_field, '\n');
                    }
                },
                Token::TextQualifier => {
                    in_qualifier = !in_qualifier;
                },
                Token::WhiteSpace => {
                    if in_qualifier {
                        push_char(&mut current_field, ' ');
                    }
                },
                Token::Escaped => {
                    if in_qualifier {
                        push_char(&mut current_field, '"');
                    }
                },
                Token::EndOfFile => {
                    break;
                },
            }
            proof {
                assert(scan_state_of(rows, current_row, current_field, in_qualifier) =~= csv_step(
                    st,
                    csv_token(cur),
                ));
            }
        }

        // Handle the last field and row if not empty.
        let ghost st_end = scan_state_of(rows, current_row, current_field, in_qualifier);
        if !current_field.as_str().is_empty() {
            let ghost prev = current_row.deep_view();
            current_row.push(current_field);
            proof {
                assert(current_row.deep_view() =~= prev.push(st_end.field));
            }
        }
        if current_row.len() > 0 {
            let ghost prev_rows = rows.deep_view();
            let ghost row_view = current_row.deep_view();
            rows.push(current_row);
            proof {
                assert(rows.deep_view() =~= prev_rows.push(row_view));
            }
        }
        proof {
            assert(rows.deep_view() =~= csv_finish(st_end));
        }
        rows
    }
}

} // verus!
