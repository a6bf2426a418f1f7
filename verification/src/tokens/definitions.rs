//! The closed token-kind enumeration and its published legend: the wire-level
//! id of a kind is its index in the legend, fixed for the life of a session.

use vstd::prelude::*;

verus! {

/// The closed set of token kinds the encoder emits.
#[derive(Clone, Copy, PartialEq, Eq, Structural, Debug)]
pub enum TokenKind {
    Variable,
    Parameter,
    Number,
    Operator,
    Comment,
}

/// Wire-level id of a kind: its index in the published legend.
pub open spec fn token_index_spec(kind: TokenKind) -> u32 {
    match kind {
        TokenKind::Variable => 0,
        TokenKind::Parameter => 1,
        TokenKind::Number => 2,
        TokenKind::Operator => 3,
        TokenKind::Comment => 4,
    }
}

/// Number of kinds in the legend.
pub open spec fn legend_len() -> int {
    5
}

/// Wire-level id of a kind.
pub fn token_index(kind: TokenKind) -> (r: u32)
    ensures
        r == token_index_spec(kind),
{
    match kind {
        TokenKind::Variable => 0,
        TokenKind::Parameter => 1,
        TokenKind::Number => 2,
        TokenKind::Operator => 3,
        TokenKind::Comment => 4,
    }
}

/// The legend announced once per session: the kind names, in the order that
/// gives each kind its wire-level id.
pub fn token_types() -> (r: Vec<&'static str>)
    ensures
        r@.len() == legend_len(),
        r@[token_index_spec(TokenKind::Variable) as int]@ == "variable"@,
        r@[token_index_spec(TokenKind::Parameter) as int]@ == "parameter"@,
        r@[token_index_spec(TokenKind::Number) as int]@ == "number"@,
        r@[token_index_spec(TokenKind::Operator) as int]@ == "operator"@,
        r@[token_index_spec(TokenKind::Comment) as int]@ == "comment"@,
{
    let mut names: Vec<&'static str> = Vec::new();
    names.push("variable");
    names.push("parameter");
    names.push("number");
    names.push("operator");
    names.push("comment");
    names
}

/// Wire-level id of the variable kind.
pub fn variable() -> (r: u32)
    ensures
        r == token_index_spec(TokenKind::Variable),
{
    token_index(TokenKind::Variable)
}

/// Wire-level id of the parameter kind.
pub fn parameter() -> (r: u32)
    ensures
        r == token_index_spec(TokenKind::Parameter),
{
    token_index(TokenKind::Parameter)
}

/// Wire-level id of the number kind.
pub fn number() -> (r: u32)
    ensures
        r == token_index_spec(TokenKind::Number),
{
    token_index(TokenKind::Number)
}

/// Wire-level id of the operator kind.
pub fn operator() -> (r: u32)
    ensures
        r == token_index_spec(TokenKind::Operator),
{
    token_index(TokenKind::Operator)
}

/// Wire-level id of the comment kind.
pub fn comment() -> (r: u32)
    ensures
        r == token_index_spec(TokenKind::Comment),
{
    token_index(TokenKind::Comment)
}

} // verus!
