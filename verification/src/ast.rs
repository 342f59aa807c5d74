//! The typed abstract syntax tree produced by the formula parser, the
//! operators its nodes carry, and the structured parse errors, together with
//! the ghost models that the parser's contracts are stated over.

use vstd::prelude::*;

verus! {

/// An arithmetic operator carried by an operator token or an inner AST node.
#[derive(Debug, Clone, Copy, PartialEq, Eq, Structural)]
pub enum Operator {
    Addition,
    Subtraction,
    Division,
    Multiplication,
    Invalid,
}

/// The operator that a given operator character denotes; any character
/// outside `+ - * /` denotes `Invalid`.
pub open spec fn operator_of_char(c: char) -> Operator {
    if c == '+' {
        Operator::Addition
    } else if c == '-' {
        Operator::Subtraction
    } else if c == '*' {
        Operator::Multiplication
    } else if c == '/' {
        Operator::Division
    } else {
        Operator::Invalid
    }
}

impl Operator {
    pub fn new(op: char) -> (r: Self)
        ensures
            r == operator_of_char(op),
    {
        if op == '+' {
            Operator::Addition
        } else if op == '-' {
            Operator::Subtraction
        } else if op == '*' {
            Operator::Multiplication
        } else if op == '/' {
            Operator::Division
        } else {
            Operator::Invalid
        }
    }

    /// The value an operator computes on two numbers, `None` for `Invalid`.
    pub open spec fn spec_apply(self, lhs: u64, rhs: u64) -> Option<u64> {
        match self {
            Operator::Addition => Some((lhs + rhs) as u64),
            Operator::Subtraction => Some((lhs - rhs) as u64),
            Operator::Multiplication => Some((lhs * rhs) as u64),
            Operator::Division => Some(lhs / rhs),
            Operator::Invalid => None,
        }
    }

    pub fn apply(&self, lhs: u64, rhs: u64) -> (r: Option<u64>)
        requires
            *self is Addition ==> lhs + rhs <= u64::MAX,
            *self is Subtraction ==> rhs <= lhs,
            *self is Multiplication ==> lhs * rhs <= u64::MAX,
            *self is Division ==> rhs > 0,
        ensures
            r == self.spec_apply(lhs, rhs),
    {
        match self {
            Operator::Addition => Some(lhs + rhs),
            Operator::Subtraction => Some(lhs - rhs),
            Operator::Multiplication => Some(lhs * rhs),
            Operator::Division => Some(lhs / rhs),
            Operator::Invalid => None,
        }
    }

    pub fn is_addition(&self) -> (r: bool)
        ensures
            r == (*self is Addition),
    {
        match self {
            Operator::Addition => true,
            _ => false,
        }
    }

    pub fn is_subtraction(&self) -> (r: bool)
        ensures
            r == (*self is Subtraction),
    {
        match self {
            Operator::Subtraction => true,
            _ => false,
        }
    }

    pub fn is_division(&self) -> (r: bool)
        ensures
            r == (*self is Division),
    {
        match self {
            Operator::Division => true,
            _ => false,
        }
    }

    pub fn is_multiplication(&self) -> (r: bool)
        ensures
            r == (*self is Multiplication),
    {
        match self {
            Operator::Multiplication => true,
            _ => false,
        }
    }
}

/// A node of the syntax tree. Every node owns its children exclusively: the
/// tree is strict, with no sharing and no cycles, and is immutable once built.
///
/// In every `Expression`, `Term` and `Factor` node produced by the parser,
/// `op` and `rhs` are both present or both absent.
#[derive(Debug, PartialEq)]
pub enum Node {
    /// The tree root, wrapping one expression.
    Formula { expr: Box<Node> },
    /// The lowest precedence level: an optional `+`/`-` across terms.
    Expression { lhs: Box<Node>, op: Option<Operator>, rhs: Option<Box<Node>> },
    /// The intermediate precedence level: an optional `+`/`-` across factors.
    Term { lhs: Box<Node>, op: Option<Operator>, rhs: Option<Box<Node>> },
    /// The highest precedence level: an optional `*`/`/` across primaries.
    Factor { lhs: Box<Node>, op: Option<Operator>, rhs: Option<Box<Node>> },
    /// A literal: numeric text, boolean text, or a quoted string's contents.
    Primitive(String),
    /// A validated column-letters-then-row-digits cell reference.
    CellRef(String),
    /// Two cell references bounding a range. The grammar recognizes the
    /// range-delimiter token but does not yet wire ranges into the
    /// function-argument rules, so the parser never produces this node;
    /// it is part of the data model for consumers of the tree.
    CellRange(Box<Node>, Box<Node>),
    /// A call to a recognized function name with expression arguments.
    Function { name: String, args: Vec<Node> },
}

/// The mathematical model of a [`Node`]: the same tree shape with every
/// owned string replaced by the sequence of characters it holds.
#[verifier::ext_equal]
pub enum NodeModel {
    Formula { expr: Box<NodeModel> },
    Expression { lhs: Box<NodeModel>, op: Option<Operator>, rhs: Option<Box<NodeModel>> },
    Term { lhs: Box<NodeModel>, op: Option<Operator>, rhs: Option<Box<NodeModel>> },
    Factor { lhs: Box<NodeModel>, op: Option<Operator>, rhs: Option<Box<NodeModel>> },
    Primitive(Seq<char>),
    CellRef(Seq<char>),
    CellRange(Box<NodeModel>, Box<NodeModel>),
    Function { name: Seq<char>, args: Seq<NodeModel> },
}

pub open spec fn node_view(n: Node) -> NodeModel
    decreases n,
{
    match n {
        Node::Formula { expr } => NodeModel::Formula { expr: Box::new(node_view(*expr)) },
        Node::Expression { lhs, op, rhs } => NodeModel::Expression {
            lhs: Box::new(node_view(*lhs)),
            op,
            rhs: match rhs {
                Some(b) => Some(Box::new(node_view(*b))),
                None => None,
            },
        },
        Node::Term { lhs, op, rhs } => NodeModel::Term {
            lhs: Box::new(node_view(*lhs)),
            op,
            rhs: match rhs {
                Some(b) => Some(Box::new(node_view(*b))),
                None => None,
            },
        },
        Node::Factor { lhs, op, rhs } => NodeModel::Factor {
            lhs: Box::new(node_view(*lhs)),
            op,
            rhs: match rhs {
                Some(b) => Some(Box::new(node_view(*b))),
                None => None,
            },
        },
        Node::Primitive(s) => NodeModel::Primitive(s@),
        Node::CellRef(s) => NodeModel::CellRef(s@),
        Node::CellRange(a, b) => NodeModel::CellRange(
            Box::new(node_view(*a)),
            Box::new(node_view(*b)),
        ),
        Node::Function { name, args } => NodeModel::Function {
            name: name@,
            args: nodes_view(args@),
        },
    }
}

pub open spec fn nodes_view(s: Seq<Node>) -> Seq<NodeModel>
    decreases s,
{
    if s.len() == 0 {
        Seq::empty()
    } else {
        nodes_view(s.drop_last()).push(node_view(s.last()))
    }
}

impl View for Node {
    type V = NodeModel;

    open spec fn view(&self) -> NodeModel {
        node_view(*self)
    }
}

pub proof fn lemma_nodes_view_push(s: Seq<Node>, n: Node)
    ensures
        nodes_view(s.push(n)) == nodes_view(s).push(node_view(n)),
{
    assert(s.push(n).drop_last() =~= s);
    assert(s.push(n).last() == n);
}

/// A structured parse error. Every parsing routine returns the first error it
/// meets: there is no recovery and no partial tree.
#[derive(Debug, Clone, PartialEq)]
pub enum ParseError {
    /// The input ran out inside a construct that required more tokens.
    UnexpectedEndOfFile,
    /// A specific required token kind was not the one encountered; both sides
    /// are rendered as descriptive text for diagnostics.
    UnexpectedToken { expected: String, found: String },
    /// The leading `=` is missing, or a primary position's text matches none
    /// of the literal, cell-reference or known-function shapes.
    InvalidExpression,
}

/// The mathematical model of a [`ParseError`].
#[verifier::ext_equal]
pub enum ErrorModel {
    UnexpectedEndOfFile,
    UnexpectedToken { expected: Seq<char>, found: Seq<char> },
    InvalidExpression,
}

impl View for ParseError {
    type V = ErrorModel;

    open spec fn view(&self) -> ErrorModel {
        match self {
            ParseError::UnexpectedEndOfFile => ErrorModel::UnexpectedEndOfFile,
            ParseError::UnexpectedToken { expected, found } => ErrorModel::UnexpectedToken {
                expected: expected@,
                found: found@,
            },
            ParseError::InvalidExpression => ErrorModel::InvalidExpression,
        }
    }
}

/// The human-readable message of a parse error.
pub open spec fn error_message(e: ErrorModel) -> Seq<char> {
    match e {
        ErrorModel::UnexpectedEndOfFile => "Unexpected end of file"@,
        ErrorModel::UnexpectedToken { expected, found } => "Expected token '"@ + expected
            + "', but found '"@ + found + "'"@,
        ErrorModel::InvalidExpression => "Invalid expression"@,
    }
}

impl ParseError {
    /// Renders this error as a human-readable message.
    pub fn describe(&self) -> (r: String)
        ensures
            r@ == error_message(self@),
    {
        match self {
            ParseError::UnexpectedEndOfFile => "Unexpected end of file".to_owned(),
            ParseError::UnexpectedToken { expected, found } => {
                let mut s = "Expected token '".to_owned();
                s.append(expected.as_str());
                s.append("', but found '");
                s.append(found.as_str());
                s.append("'");
                proof {
                    assert(s@ =~= "Expected token '"@ + expected@ + "', but found '"@ + found@
                        + "'"@);
                }
                s
            },
            ParseError::InvalidExpression => "Invalid expression".to_owned(),
        }
    }
}

} // verus!
