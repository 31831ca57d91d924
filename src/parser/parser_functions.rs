//! The token-stream primitives that grammar rules are written with.
use super::{exactly, joined, lemma_sequenced_exact, sequenced, yields, Behavior, Model, Parser, Step};
use crate::scanner::{Scanner, Token};
use std::rc::Rc;
use vstd::prelude::*;
use vstd::std_specs::cmp::PartialEqSpec;

verus! {

/// The `==` of the scanner's token types is a lawful equality, described by
/// its `eq_spec`.
pub open spec fn lawful_token_types<S: Scanner>() -> bool {
    <<S::Token as Token>::TokenType as PartialEqSpec>::obeys_eq_spec()
}

/// Whether token `t` has type `ty`.
pub open spec fn has_type<K: Token>(t: Rc<K>, ty: K::TokenType) -> bool {
    t.kind().eq_spec(&ty)
}

/// Gives whether the input is exhausted; moves nothing.
pub open spec fn at_end<S: Scanner>() -> Model<S, bool> {
    |s: S| (s.finished(), s, Seq::<String>::empty())
}

/// Gives the token at the current position; moves nothing.
pub open spec fn last_token<S: Scanner>() -> Model<S, Rc<S::Token>> {
    |s: S| (s.current(), s, Seq::<String>::empty())
}

/// Gives the upcoming token; moves nothing.
pub open spec fn next_token<S: Scanner>() -> Model<S, Rc<S::Token>> {
    |s: S| (s.upcoming(), s, Seq::<String>::empty())
}

/// Moves one token on and gives the token just consumed.
pub open spec fn consumed<S: Scanner>() -> Model<S, Rc<S::Token>> {
    |s: S| (s.advanced().current(), s.advanced(), Seq::<String>::empty())
}

/// Whether the upcoming token of `s` exists and has type `ty`.
pub open spec fn upcoming_is<S: Scanner>(s: S, ty: <S::Token as Token>::TokenType) -> bool {
    !s.finished() && has_type(s.upcoming(), ty)
}

/// Gives whether the upcoming token has type `ty`, without asking whether the
/// input is exhausted; moves nothing.
pub open spec fn compares<S: Scanner>(ty: <S::Token as Token>::TokenType) -> Model<S, bool> {
    |s: S| (has_type(s.upcoming(), ty), s, Seq::<String>::empty())
}

/// Gives whether the upcoming token has type `ty`; moves nothing.
pub open spec fn checked<S: Scanner>(ty: <S::Token as Token>::TokenType) -> Model<S, bool> {
    |s: S| (upcoming_is(s, ty), s, Seq::<String>::empty())
}

/// Consumes the upcoming token and gives true if it has type `ty`; else gives
/// false and moves nothing.
pub open spec fn matched<S: Scanner>(ty: <S::Token as Token>::TokenType) -> Model<S, bool> {
    |s: S|
        if upcoming_is(s, ty) {
            (true, s.advanced(), Seq::<String>::empty())
        } else {
            (false, s, Seq::<String>::empty())
        }
}

/// How the primitives thread the scanner: `peek`, `previous`, `check` and
/// `is_at_end` leave it where it is; `advance` moves it one token on and gives
/// the token that is current there; `matches` moves it exactly when the
/// upcoming token has the asked type. Where advancing consumes the upcoming
/// token, `advance` gives what `peek` gave before, and that token is what
/// `previous` gives afterwards.
pub proof fn lemma_scanner_threading<S: Scanner>(s: S, ty: <S::Token as Token>::TokenType)
    ensures
        next_token::<S>()(s).1 == s,
        last_token::<S>()(s).1 == s,
        checked::<S>(ty)(s).1 == s,
        at_end::<S>()(s).1 == s,
        consumed::<S>()(s).1 == s.advanced(),
        consumed::<S>()(s).0 == last_token::<S>()(s.advanced()).0,
        matched::<S>(ty)(s).1 == (if upcoming_is(s, ty) { s.advanced() } else { s }),
        matched::<S>(ty)(s).0 == checked::<S>(ty)(s).0,
        s.advanced().current() == s.upcoming() ==> consumed::<S>()(s).0 == next_token::<S>()(s).0,
{
}

/// `is_at_end` gives exactly whether the input is exhausted, moves nothing
/// and records nothing: it is false while the scanner reports tokens left.
pub proof fn lemma_end_of_input<S: Scanner>(s: S)
    ensures
        at_end::<S>()(s) == (s.finished(), s, Seq::<String>::empty()),
{
}

/// Reports whether the input is exhausted.
struct AtEnd;

impl<S: Scanner> Step<S, bool> for AtEnd {
    closed spec fn outcomes(&self) -> Behavior<S, bool> {
        exactly(at_end())
    }

    fn apply(self: Box<Self>, s: S) -> (r: (bool, S, Vec<String>)) {
        let scanner = S::from_scanner(&s);
        (scanner.is_finished(), s, Vec::new())
    }
}

/// Gives the current token.
struct Previous;

impl<S: Scanner> Step<S, Rc<S::Token>> for Previous {
    closed spec fn outcomes(&self) -> Behavior<S, Rc<S::Token>> {
        exactly(last_token())
    }

    fn apply(self: Box<Self>, s: S) -> (r: (Rc<S::Token>, S, Vec<String>)) {
        let scanner = S::from_scanner(&s);
        (scanner.current_token(), s, Vec::new())
    }
}

/// Gives the upcoming token.
struct Peek;

impl<S: Scanner> Step<S, Rc<S::Token>> for Peek {
    closed spec fn outcomes(&self) -> Behavior<S, Rc<S::Token>> {
        exactly(next_token())
    }

    fn apply(self: Box<Self>, s: S) -> (r: (Rc<S::Token>, S, Vec<String>)) {
        let scanner = S::from_scanner(&s);
        (scanner.next_token(), s, Vec::new())
    }
}

/// Moves one token on and gives the token now current.
struct Advance;

impl<S: Scanner> Step<S, Rc<S::Token>> for Advance {
    closed spec fn outcomes(&self) -> Behavior<S, Rc<S::Token>> {
        exactly(consumed())
    }

    fn apply(self: Box<Self>, s: S) -> (r: (Rc<S::Token>, S, Vec<String>)) {
        let scanner = S::from_scanner(&s);
        let moved = scanner.scan_token();
        let token = moved.current_token();
        (token, moved, Vec::new())
    }
}

/// Compares the type of the upcoming token with `ty`.
struct TypeIs<Ty: PartialEq> {
    ty: Ty,
}

impl<Ty: PartialEq> TypeIs<Ty> {
    #[verifier::type_invariant]
    spec fn lawful(&self) -> bool {
        Ty::obeys_eq_spec()
    }
}

impl<S: Scanner> Step<S, bool> for TypeIs<<S::Token as Token>::TokenType> {
    closed spec fn outcomes(&self) -> Behavior<S, bool> {
        exactly(compares::<S>(self.ty))
    }

    fn apply(self: Box<Self>, s: S) -> (r: (bool, S, Vec<String>)) {
        proof {
            use_type_invariant(&*self);
        }
        let TypeIs { ty } = *self;
        let token = s.next_token();
        let same = token.t_type() == ty;
        (same, s, Vec::new())
    }
}

/// Runs `first`, drops its value, then runs `second`.
#[verifier::reject_recursive_types(S)]
#[verifier::reject_recursive_types(A)]
#[verifier::reject_recursive_types(B)]
struct Skip<S, A, B> {
    first: Parser<S, A>,
    second: Parser<S, B>,
}

impl<S, A, B> Step<S, B> for Skip<S, A, B> {
    closed spec fn outcomes(&self) -> Behavior<S, B> {
        sequenced(self.first.outcomes(), |a: A| self.second.outcomes())
    }

    fn apply(self: Box<Self>, s: S) -> (r: (B, S, Vec<String>)) {
        let Skip { first, second } = *self;
        let (x, scanner, mut errors) = first.evaluate(s);
        let (v, s2, mut other_errors) = second.evaluate(scanner);
        proof {
            let a = (x, scanner, errors@);
            let b = (v, s2, other_errors@);
            let k = |y: A| second.outcomes();
            assert(first.outcomes()(s, a) && k(a.0)(a.1, b) && joined(a, b) == joined(a, b));
        }
        errors.append(&mut other_errors);
        (v, s2, errors)
    }
}

/// Gives true exactly when the input is exhausted.
pub fn is_at_end<S: Scanner + 'static>() -> (p: Parser<S, bool>)
    ensures
        p.outcomes() == exactly(at_end::<S>()),
{
    Parser { step: Box::new(AtEnd) }
}

/// Gives the token at the current, already consumed, position.
pub fn previous<S: Scanner + 'static>() -> (p: Parser<S, Rc<S::Token>>)
    ensures
        p.outcomes() == exactly(last_token::<S>()),
{
    Parser { step: Box::new(Previous) }
}

/// Gives the upcoming token without consuming it.
pub fn peek<S: Scanner + 'static>() -> (p: Parser<S, Rc<S::Token>>)
    ensures
        p.outcomes() == exactly(next_token::<S>()),
{
    Parser { step: Box::new(Peek) }
}

/// Consumes one token and gives it: the upcoming token becomes the current one.
pub fn advance<S: Scanner + 'static>() -> (p: Parser<S, Rc<S::Token>>)
    ensures
        p.outcomes() == exactly(consumed::<S>()),
{
    Parser { step: Box::new(Advance) }
}

/// Gives false at the end of input, without looking further; otherwise whether
/// the upcoming token has type `t_type`. Never consumes.
pub fn check<S: Scanner + 'static>(t_type: <S::Token as Token>::TokenType) -> (p: Parser<S, bool>)
    requires
        lawful_token_types::<S>(),
    ensures
        p.outcomes() == exactly(checked::<S>(t_type)),
{
    let compare = Parser { step: Box::new(TypeIs { ty: t_type }) };
    let p = is_at_end().if_else(Parser::result(false), compare);
    proof {
        let n = |b: bool| if b { yields::<S, bool>(false) } else { compares::<S>(t_type) };
        let k = |b: bool| if b { exactly(yields::<S, bool>(false)) } else { exactly(compares::<S>(t_type)) };
        assert forall|b: bool| #[trigger] k(b) == exactly(n(b)) by {}
        lemma_sequenced_exact(at_end::<S>(), k, n);
        let m = at_end::<S>();
        assert((|s: S| joined(m(s), n(m(s).0)(m(s).1))) =~= checked::<S>(t_type));
    }
    p
}

/// Consumes the upcoming token and gives true when it has type `t_type`;
/// otherwise gives false and leaves the position unchanged.
pub fn matches<S: Scanner + 'static>(t_type: <S::Token as Token>::TokenType) -> (p: Parser<S, bool>)
    requires
        lawful_token_types::<S>(),
    ensures
        p.outcomes() == exactly(matched::<S>(t_type)),
{
    let consume = Parser { step: Box::new(Skip { first: advance(), second: Parser::result(true) }) };
    let p = check(t_type).if_else(consume, Parser::result(false));
    proof {
        let c = consumed::<S>();
        let after = |t: Rc<S::Token>| yields::<S, bool>(true);
        lemma_sequenced_exact(c, |t: Rc<S::Token>| exactly(yields::<S, bool>(true)), after);
        let taken = |s: S| joined(c(s), after(c(s).0)(c(s).1));
        let n = |b: bool| if b { taken } else { yields::<S, bool>(false) };
        let k = |b: bool| if b { exactly(taken) } else { exactly(yields::<S, bool>(false)) };
        assert forall|b: bool| #[trigger] k(b) == exactly(n(b)) by {}
        lemma_sequenced_exact(checked::<S>(t_type), k, n);
        let m = checked::<S>(t_type);
        assert forall|s: S| #[trigger] joined(m(s), n(m(s).0)(m(s).1)) == matched::<S>(t_type)(s) by {
            assert(Seq::<String>::empty() + Seq::<String>::empty() =~= Seq::<String>::empty());
        }
        assert((|s: S| joined(m(s), n(m(s).0)(m(s).1))) =~= matched::<S>(t_type));
    }
    p
}

} // verus!
