//! The two capabilities that a concrete lexer supplies to the parser core.
use std::rc::Rc;
use vstd::prelude::*;

verus! {

/// A value-like position in a token stream.
///
/// Every operation that moves the position returns a new state, so a parser can
/// rewind by keeping an earlier snapshot.
pub trait Scanner: Sized {
    type Token: Token;

    /// Whether the input is exhausted.
    spec fn finished(&self) -> bool;

    /// The token at the current, already consumed, position.
    spec fn current(&self) -> Rc<Self::Token>;

    /// The token that the next advance consumes. Once the input is finished
    /// this is the scanner's designated end-of-input token; `check` and
    /// `matches` never look at it there, they report no match.
    spec fn upcoming(&self) -> Rc<Self::Token>;

    /// The state after consuming one token.
    spec fn advanced(&self) -> Self;

    /// An independent copy of `scanner`, at the same position.
    fn from_scanner(scanner: &Self) -> (r: Self)
        ensures
            r == *scanner,
    ;

    fn scan_token(self) -> (r: Self)
        ensures
            r == self.advanced(),
    ;

    fn is_finished(&self) -> (r: bool)
        ensures
            r == self.finished(),
    ;

    fn current_token(&self) -> (r: Rc<Self::Token>)
        ensures
            r == self.current(),
    ;

    /// The upcoming token; at the end of input, the end-of-input token.
    fn next_token(&self) -> (r: Rc<Self::Token>)
        ensures
            r == self.upcoming(),
    ;
}

/// A unit of the token stream, tagged with a comparable type.
pub trait Token {
    type TokenType: PartialEq;

    /// The type tag of this token.
    spec fn kind(&self) -> Self::TokenType;

    fn t_type(&self) -> (r: Self::TokenType)
        ensures
            r == self.kind(),
    ;
}

} // verus!
