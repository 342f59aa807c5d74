//! Laws of the parser, proved once and for all against the ghost grammar.
//!
//! Every executable entry point is proved equal to the ghost grammar
//! (`sp_parse` and friends), so each law stated here about the ghost grammar
//! holds of the executable parser as well.

use vstd::prelude::*;

use crate::ast::{ErrorModel, NodeModel};
use crate::parser::{
    is_digit, sp_expression, sp_factor, sp_function, sp_parse, sp_primary, sp_term,
    spec_is_numeric,
};
use crate::parser::sp_string;
use crate::token::{
    is_breaking, lemma_text_run_exact, lex_rest, lex_token, same_kind, skip_spaces, text_run_len,
    TokenModel,
};

verus! {

/// Every input lacking a leading `=` is rejected with `InvalidExpression`,
/// whatever the recognized function names are.
pub proof fn lemma_missing_marker_rejected(names: Set<Seq<char>>, s: Seq<char>)
    requires
        s.len() == 0 || s[0] != '=',
    ensures
        sp_parse(names, s) == Err::<NodeModel, ErrorModel>(ErrorModel::InvalidExpression),
{
}

/// A text run whose name is not in the recognized set never parses as a
/// function call: it is rejected with `InvalidExpression`. When a call does
/// parse, its node carries exactly the recognized name it was called with.
pub proof fn lemma_function_name_gating(names: Set<Seq<char>>, name: Seq<char>, s: Seq<char>)
    ensures
        !names.contains(name) ==> sp_function(names, name, s) == Err::<
            (NodeModel, Seq<char>),
            ErrorModel,
        >(ErrorModel::InvalidExpression),
        sp_function(names, name, s) matches Ok((m, rest)) ==> (names.contains(name) && (
        m matches NodeModel::Function { name: n, args } && n == name)),
{
}

/// Parsing is a pure, deterministic function of its two inputs, the formula
/// text and the recognized-name set: two parses of the same inputs always
/// yield structurally identical results.
pub proof fn lemma_parse_deterministic(
    names: Set<Seq<char>>,
    s: Seq<char>,
    r1: Result<NodeModel, ErrorModel>,
    r2: Result<NodeModel, ErrorModel>,
)
    requires
        r1 == sp_parse(names, s),
        r2 == sp_parse(names, s),
    ensures
        r1 == r2,
{
}

/// The formula text `(((...1...)))` with `n` levels of brackets around the
/// literal, without the leading `=`.
pub open spec fn nested_text(n: nat) -> Seq<char>
    decreases n,
{
    if n == 0 {
        seq!['1']
    } else {
        seq!['('] + nested_text((n - 1) as nat) + seq![')']
    }
}

/// One pass through the three precedence levels with no trailing operator:
/// the tree a bare primary is wrapped in.
pub open spec fn wrapped(x: NodeModel) -> NodeModel {
    NodeModel::Expression {
        lhs: Box::new(
            NodeModel::Term {
                lhs: Box::new(NodeModel::Factor { lhs: Box::new(x), op: None, rhs: None }),
                op: None,
                rhs: None,
            },
        ),
        op: None,
        rhs: None,
    }
}

/// The tree that `(((...1...)))` with `n` bracket levels parses to.
pub open spec fn nested_tree(n: nat) -> NodeModel
    decreases n,
{
    if n == 0 {
        wrapped(NodeModel::Primitive(seq!['1']))
    } else {
        wrapped(nested_tree((n - 1) as nat))
    }
}

/// When the next token closes a construct (a close bracket or end-of-file),
/// the input's head is either exhausted or a breaking character.
proof fn lemma_head_breaking(rest: Seq<char>)
    requires
        lex_token(rest) is CloseBracket || lex_token(rest) is EndOfFile,
    ensures
        rest.len() == 0 || is_breaking(rest[0]),
{
    if rest.len() > 0 && !is_breaking(rest[0]) {
        assert(skip_spaces(rest) == rest);
        assert(lex_token(rest) is Text);
    }
}

/// Wrapping a parsed primary in the three precedence levels: when no
/// operator follows, `factor`, `term` and `expression` each pass the result
/// through with one more layer and consume nothing.
proof fn lemma_wrap_layers(names: Set<Seq<char>>, s: Seq<char>, x: NodeModel, rest: Seq<char>)
    requires
        sp_primary(names, s) == Ok::<(NodeModel, Seq<char>), ErrorModel>((x, rest)),
        lex_token(rest) is CloseBracket || lex_token(rest) is EndOfFile,
    ensures
        sp_expression(names, s) == Ok::<(NodeModel, Seq<char>), ErrorModel>((wrapped(x), rest)),
{
    assert(sp_factor(names, s) == Ok::<(NodeModel, Seq<char>), ErrorModel>(
        (NodeModel::Factor { lhs: Box::new(x), op: None, rhs: None }, rest),
    ));
    assert(sp_term(names, s) == Ok::<(NodeModel, Seq<char>), ErrorModel>(
        (
            NodeModel::Term {
                lhs: Box::new(NodeModel::Factor { lhs: Box::new(x), op: None, rhs: None }),
                op: None,
                rhs: None,
            },
            rest,
        ),
    ));
}

/// Parsing `nested_text(n)` followed by a closing context yields the nested
/// tree and leaves that context untouched.
proof fn lemma_nested_expression(names: Set<Seq<char>>, n: nat, rest: Seq<char>)
    requires
        lex_token(rest) is CloseBracket || lex_token(rest) is EndOfFile,
    ensures
        sp_expression(names, nested_text(n) + rest) == Ok::<(NodeModel, Seq<char>), ErrorModel>(
            (nested_tree(n), rest),
        ),
    decreases n,
{
    lemma_head_breaking(rest);
    if n == 0 {
        let s = nested_text(0) + rest;
        assert(s[0] == '1');
        assert(skip_spaces(s) == s);
        assert(s.skip(1) =~= rest);
        assert(text_run_len(s) == 1) by {
            assert(text_run_len(rest) == 0);
        }
        assert(s.take(1) =~= seq!['1']);
        assert(lex_token(s) == TokenModel::Text(seq!['1']));
        assert(lex_rest(s) == rest);
        assert(spec_is_numeric(seq!['1'])) by {
            assert(seq!['1'][0] == '1' && is_digit('1'));
        }
        assert(sp_primary(names, s) == Ok::<(NodeModel, Seq<char>), ErrorModel>(
            (NodeModel::Primitive(seq!['1']), rest),
        ));
        lemma_wrap_layers(names, s, NodeModel::Primitive(seq!['1']), rest);
    } else {
        let s = nested_text(n) + rest;
        let inner_rest = seq![')'] + rest;
        let s1 = nested_text((n - 1) as nat) + inner_rest;
        assert(s =~= seq!['('] + s1);
        assert(s[0] == '(');
        assert(skip_spaces(s) == s);
        assert(lex_token(s) == TokenModel::OpenBracket);
        assert(lex_rest(s) =~= s1);
        assert(inner_rest[0] == ')');
        assert(skip_spaces(inner_rest) == inner_rest);
        assert(lex_token(inner_rest) == TokenModel::CloseBracket);
        lemma_nested_expression(names, (n - 1) as nat, inner_rest);
        assert(lex_rest(inner_rest) =~= rest);
        assert(sp_primary(names, s) == Ok::<(NodeModel, Seq<char>), ErrorModel>(
            (nested_tree((n - 1) as nat), rest),
        ));
        lemma_wrap_layers(names, s, nested_tree((n - 1) as nat), rest);
    }
}

/// For every bracket nesting depth, `=(((...1...)))` parses without error to
/// the numeric literal wrapped in one precedence pass per level, with no
/// residual tokens.
pub proof fn lemma_nested_brackets(names: Set<Seq<char>>, n: nat)
    ensures
        sp_parse(names, seq!['='] + nested_text(n)) == Ok::<NodeModel, ErrorModel>(
            NodeModel::Formula { expr: Box::new(nested_tree(n)) },
        ),
{
    let s = seq!['='] + nested_text(n);
    assert(s[0] == '=');
    assert(s.skip(1) =~= nested_text(n) + Seq::<char>::empty());
    assert(lex_token(Seq::<char>::empty()) is EndOfFile);
    lemma_nested_expression(names, n, Seq::empty());
}

/// A character that can stand inside a quoted string literal and survive the
/// round trip: the qualifier itself (spelled doubled), or any character the
/// lexer folds into a text run. A breaking character other than the
/// qualifier cannot: the lexer surfaces it as a token of its own, and the
/// space it drops silently.
pub open spec fn quotable(c: char) -> bool {
    c == '"' || !is_breaking(c)
}

/// The quote-doubled spelling of string contents: every `"` appears twice.
pub open spec fn doubled(c: Seq<char>) -> Seq<char>
    decreases c.len(),
{
    if c.len() == 0 {
        Seq::empty()
    } else if c[0] == '"' {
        seq!['"', '"'] + doubled(c.skip(1))
    } else {
        seq![c[0]] + doubled(c.skip(1))
    }
}

/// The length of the leading run of non-qualifier characters.
spec fn non_quote_run(c: Seq<char>) -> nat
    decreases c.len(),
{
    if c.len() == 0 || c[0] == '"' {
        0
    } else {
        1 + non_quote_run(c.skip(1))
    }
}

proof fn lemma_non_quote_run_facts(c: Seq<char>)
    ensures
        non_quote_run(c) <= c.len(),
        forall|i: int| 0 <= i < non_quote_run(c) ==> #[trigger] c[i] != '"',
        non_quote_run(c) == c.len() || c[non_quote_run(c) as int] == '"',
    decreases c.len(),
{
    if c.len() > 0 && c[0] != '"' {
        lemma_non_quote_run_facts(c.skip(1));
        assert forall|i: int| 0 <= i < non_quote_run(c) implies #[trigger] c[i] != '"' by {
            if i > 0 {
                assert(c.skip(1)[i - 1] != '"');
            }
        }
    }
}

/// A run of non-qualifier characters passes through the doubling unchanged.
proof fn lemma_doubled_split(c: Seq<char>, k: int)
    requires
        0 <= k <= c.len(),
        forall|i: int| 0 <= i < k ==> #[trigger] c[i] != '"',
    ensures
        doubled(c) == c.take(k) + doubled(c.skip(k)),
    decreases k,
{
    if k == 0 {
        assert(c.skip(0) =~= c);
        assert(c.take(0) + doubled(c) =~= doubled(c));
    } else {
        lemma_doubled_split(c.skip(1), k - 1);
        assert(c.skip(1).take(k - 1) =~= c.take(k).skip(1));
        assert(c.skip(1).skip(k - 1) =~= c.skip(k));
        assert(seq![c[0]] + c.skip(1).take(k - 1) =~= c.take(k));
        assert(seq![c[0]] + (c.skip(1).take(k - 1) + doubled(c.skip(k))) =~= (seq![c[0]] + c.skip(
            1,
        ).take(k - 1)) + doubled(c.skip(k)));
    }
}

/// The string routine undoes the quote-doubled spelling exactly: it
/// accumulates the contents, collapses each doubled qualifier to one, stops
/// at the closing qualifier, and leaves everything after it untouched.
proof fn lemma_string_round_trip_rest(c: Seq<char>, rest: Seq<char>)
    requires
        forall|i: int| 0 <= i < c.len() ==> quotable(#[trigger] c[i]),
        !(lex_token(rest) is TextQualifier),
    ensures
        sp_string(doubled(c) + (seq!['"'] + rest)) == Ok::<(Seq<char>, Seq<char>), ErrorModel>(
            (c, rest),
        ),
    decreases c.len(),
{
    let s = doubled(c) + (seq!['"'] + rest);
    if c.len() == 0 {
        assert(s =~= seq!['"'] + rest);
        assert(s[0] == '"');
        assert(skip_spaces(s) == s);
        assert(lex_token(s) == TokenModel::TextQualifier);
        assert(lex_rest(s) =~= rest);
        assert(!same_kind(lex_token(rest), TokenModel::TextQualifier));
        assert(c =~= Seq::<char>::empty());
    } else if c[0] == '"' {
        let c1 = c.skip(1);
        let s1 = seq!['"'] + (doubled(c1) + (seq!['"'] + rest));
        let s2 = doubled(c1) + (seq!['"'] + rest);
        assert(s =~= seq!['"'] + s1);
        assert(s1 =~= seq!['"'] + s2);
        assert(s[0] == '"' && s1[0] == '"');
        assert(skip_spaces(s) == s && skip_spaces(s1) == s1);
        assert(lex_token(s) == TokenModel::TextQualifier);
        assert(lex_rest(s) =~= s1);
        assert(lex_token(s1) == TokenModel::TextQualifier);
        assert(lex_rest(s1) =~= s2);
        assert(s2.len() < s.len());
        assert forall|i: int| 0 <= i < c1.len() implies quotable(#[trigger] c1[i]) by {
            assert(quotable(c[i + 1]));
        }
        lemma_string_round_trip_rest(c1, rest);
        assert(seq!['"'] + c1 =~= c);
    } else {
        let k = non_quote_run(c) as int;
        lemma_non_quote_run_facts(c);
        assert(k >= 1);
        lemma_doubled_split(c, k);
        let tail = doubled(c.skip(k)) + (seq!['"'] + rest);
        assert(s =~= c.take(k) + tail);
        assert(tail[0] == '"') by {
            if k < c.len() {
                assert(c.skip(k)[0] == '"');
            } else {
                assert(doubled(c.skip(k)) =~= Seq::<char>::empty());
            }
        }
        assert forall|j: int| 0 <= j < k implies !is_breaking(s[j]) by {
            assert(s[j] == c[j]);
            assert(quotable(c[j]) && c[j] != '"');
        }
        assert(s[k] == tail[0] && is_breaking(s[k]));
        lemma_text_run_exact(s, k);
        assert(s[0] == c[0] && !is_breaking(c[0]));
        assert(skip_spaces(s) == s);
        assert(lex_token(s) == TokenModel::Text(s.take(k)));
        assert(lex_rest(s) =~= tail);
        assert(s.take(k) =~= c.take(k));
        assert(tail.len() < s.len());
        assert forall|i: int| 0 <= i < c.skip(k).len() implies quotable(
            #[trigger] c.skip(k)[i],
        ) by {
            assert(quotable(c[i + k]));
        }
        lemma_string_round_trip_rest(c.skip(k), rest);
        assert(c.take(k) + c.skip(k) =~= c);
    }
}

/// Round trip on quoted strings: spelling any quotable contents with each
/// inner qualifier doubled and the whole wrapped in qualifiers parses back,
/// after the `=` marker, to a `Primitive` holding exactly those contents —
/// quote-doubling collapses to one quote and the outer qualifiers are
/// stripped — with no residual tokens.
pub proof fn lemma_quoted_string_round_trip(names: Set<Seq<char>>, c: Seq<char>)
    requires
        forall|i: int| 0 <= i < c.len() ==> quotable(#[trigger] c[i]),
    ensures
        sp_parse(names, seq!['='] + (seq!['"'] + (doubled(c) + seq!['"']))) == Ok::<
            NodeModel,
            ErrorModel,
        >(NodeModel::Formula { expr: Box::new(wrapped(NodeModel::Primitive(c))) }),
{
    let s = seq!['='] + (seq!['"'] + (doubled(c) + seq!['"']));
    let q = seq!['"'] + (doubled(c) + seq!['"']);
    let q1 = doubled(c) + (seq!['"'] + Seq::<char>::empty());
    assert(s[0] == '=');
    assert(s.skip(1) =~= q);
    assert(q[0] == '"');
    assert(skip_spaces(q) == q);
    assert(lex_token(q) == TokenModel::TextQualifier);
    assert(lex_rest(q) =~= q1);
    assert(lex_token(Seq::<char>::empty()) is EndOfFile);
    lemma_string_round_trip_rest(c, Seq::empty());
    assert(sp_primary(names, q) == Ok::<(NodeModel, Seq<char>), ErrorModel>(
        (NodeModel::Primitive(c), Seq::empty()),
    ));
    lemma_wrap_layers(names, q, NodeModel::Primitive(c), Seq::empty());
}

} // verus!
