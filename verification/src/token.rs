//! Tokens: the unit handed from the lexer to the automaton and the parser.

use vstd::prelude::*;

verus! {

/// The category of a token.
#[derive(Debug, PartialEq, Eq, Structural, Clone, Copy, Hash)]
pub enum TokenType {
    KeyWord,
    Var,
    If,
    EndIf,
    While,
    EndWhile,
    IntLiteral,
    AssignmentOperator,
    BinaryOperator,
    ComparisonOperator,
    NegationOperator,
    SemiColon,
    Colon,
    Comma,
    OpenBracket,
    CloseBracket,
    OpenArray,
    CloseArray,
    Variable,
    Func,
    Endfunc,
    Call,
    Print,
    Error,
}

/// A token: its category and, where it carries one, its text.
#[derive(Debug, PartialEq, Eq)]
pub struct Token {
    pub ttype: TokenType,
    pub value: Option<String>,
}

/// The mathematical value of a token: its category and its text as a
/// sequence of characters.
pub struct TokenView {
    pub ttype: TokenType,
    pub value: Option<Seq<char>>,
}

impl View for Token {
    type V = TokenView;

    open spec fn view(&self) -> TokenView {
        TokenView {
            ttype: self.ttype,
            value: match self.value {
                Some(s) => Some(s@),
                None => None,
            },
        }
    }
}

impl Clone for Token {
    fn clone(&self) -> (copy: Self)
        ensures
            copy@ == self@,
    {
        Token {
            ttype: self.ttype,
            value: match &self.value {
                Some(text) => Some(text.clone()),
                None => None,
            },
        }
    }
}

impl Token {
    /// A token of the given category and text.
    pub fn new(ttype: TokenType, value: Option<String>) -> (token: Self)
        ensures
            token.ttype == ttype,
            token.value == value,
    {
        Token { ttype, value }
    }
}

} // verus!
