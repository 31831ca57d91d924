//! The parser type, its constructors, sequencing, and the boolean combinators.
pub mod parser_functions;

use crate::scanner::Scanner;
use vstd::prelude::*;

verus! {

/// What running a parser from a scanner state yields: its value, the scanner
/// state it leaves behind, and the diagnostics it recorded, oldest first.
pub type Outcome<S, T> = (T, S, Seq<String>);

/// A parser whose outcome is fixed by its starting state.
pub type Model<S, T> = spec_fn(S) -> Outcome<S, T>;

/// What a parser may do: whether it can end in a given outcome when run from
/// a given state.
pub type Behavior<S, T> = spec_fn(S, Outcome<S, T>) -> bool;

/// The behavior of a parser that always ends in `m`'s outcome.
pub open spec fn exactly<S, T>(m: Model<S, T>) -> Behavior<S, T> {
    |s: S, o: Outcome<S, T>| o == m(s)
}

/// The outcome of two steps run one after the other: the second's value and
/// state, and both logs, the first's in front.
pub open spec fn joined<S, T, U>(a: Outcome<S, T>, b: Outcome<S, U>) -> Outcome<S, U> {
    (b.0, b.1, a.2 + b.2)
}

/// Gives `v`, leaves the scanner alone, records nothing.
pub open spec fn yields<S, T>(v: T) -> Model<S, T> {
    |s: S| (v, s, Seq::<String>::empty())
}

/// Gives `v`, leaves the scanner alone, records `message`.
pub open spec fn reports<S, T>(v: T, message: String) -> Model<S, T> {
    |s: S| (v, s, seq![message])
}

/// Gives the scanner state itself as the value, and leaves it in place.
pub open spec fn snapshot<S>() -> Model<S, S> {
    |s: S| (s, s, Seq::<String>::empty())
}

/// Puts `state` in place of whatever scanner state it is run from.
pub open spec fn replaces<S>(state: S) -> Model<S, ()> {
    |s: S| ((), state, Seq::<String>::empty())
}

/// Runs `m`, hands its value to `k`, runs what `k` gives from the scanner
/// state that `m` left, and appends the second log to the first.
pub open spec fn sequenced<S, T, U>(m: Behavior<S, T>, k: spec_fn(T) -> Behavior<S, U>) -> Behavior<S, U> {
    |s: S, o: Outcome<S, U>|
        exists|a: Outcome<S, T>, b: Outcome<S, U>| m(s, a) && k(a.0)(a.1, b) && o == #[trigger] joined(a, b)
}

/// Runs `cond`, then exactly one of `yes` or `no`, from where `cond` left off.
pub open spec fn branches<S, T>(cond: Behavior<S, bool>, yes: Behavior<S, T>, no: Behavior<S, T>) -> Behavior<S, T> {
    sequenced(cond, |b: bool| if b { yes } else { no })
}

/// Runs both sides in turn and gives the disjunction of their values.
pub open spec fn either<S>(left: Behavior<S, bool>, right: Behavior<S, bool>) -> Behavior<S, bool> {
    sequenced(left, |a: bool| sequenced(right, |b: bool| exactly(yields::<S, bool>(a || b))))
}

/// A chain of branches tried front to back: the first condition that holds
/// selects its consequence, and `otherwise` is taken when none does.
pub open spec fn first_match<S, T>(
    arms: Seq<(Behavior<S, bool>, Behavior<S, T>)>,
    otherwise: Behavior<S, T>,
) -> Behavior<S, T>
    decreases arms.len(),
{
    if arms.len() == 0 {
        otherwise
    } else {
        branches(arms[0].0, arms[0].1, first_match(arms.drop_first(), otherwise))
    }
}

/// What `run` reports for an outcome: its value when no diagnostic was
/// recorded, else every diagnostic in order.
pub open spec fn reported<S, T>(o: Outcome<S, T>) -> Result<T, Seq<String>> {
    if o.2.len() == 0 {
        Ok(o.0)
    } else {
        Err(o.2)
    }
}

/// `r` is what `run` returns for outcome `o`.
pub open spec fn run_gives<S, T>(r: Result<T, Vec<String>>, o: Outcome<S, T>) -> bool {
    match r {
        Ok(v) => reported(o) == Ok::<T, Seq<String>>(v),
        Err(e) => reported(o) == Err::<T, Seq<String>>(e@),
    }
}

/// Sequencing exact steps is exact: the outcome is the two outcomes joined.
pub proof fn lemma_sequenced_exact<S, T, U>(m: Model<S, T>, k: spec_fn(T) -> Behavior<S, U>, n: spec_fn(T) -> Model<S, U>)
    requires
        forall|t: T| #[trigger] k(t) == exactly(n(t)),
    ensures
        sequenced(exactly(m), k) == exactly(|s: S| joined(m(s), n(m(s).0)(m(s).1))),
{
    let whole = |s: S| joined(m(s), n(m(s).0)(m(s).1));
    assert forall|s: S, o: Outcome<S, U>| #[trigger] sequenced(exactly(m), k)(s, o) == exactly(whole)(s, o) by {
        let a = m(s);
        let b = n(a.0)(a.1);
        assert(k(a.0) == exactly(n(a.0)));
        if exactly(whole)(s, o) {
            assert(exactly(m)(s, a) && k(a.0)(a.1, b) && o == joined(a, b));
        }
    }
    assert(sequenced(exactly(m), k) =~= exactly(whole));
}

/// Sequencing a plain value into `k` behaves as what `k` gives for that value.
pub proof fn lemma_left_identity<S, T, U>(v: T, k: spec_fn(T) -> Behavior<S, U>)
    ensures
        sequenced(exactly(yields::<S, T>(v)), k) == k(v),
{
    assert forall|s: S, o: Outcome<S, U>| #[trigger] sequenced(exactly(yields::<S, T>(v)), k)(s, o) == k(v)(s, o) by {
        let a = yields::<S, T>(v)(s);
        assert(Seq::<String>::empty() + o.2 =~= o.2);
        if k(v)(s, o) {
            assert(exactly(yields::<S, T>(v))(s, a) && k(a.0)(a.1, o) && o == joined(a, o));
        }
        if sequenced(exactly(yields::<S, T>(v)), k)(s, o) {
            let (a2, b2) = choose|a2: Outcome<S, T>, b2: Outcome<S, U>|
                exactly(yields::<S, T>(v))(s, a2) && k(a2.0)(a2.1, b2) && o == #[trigger] joined(a2, b2);
            assert(Seq::<String>::empty() + b2.2 =~= b2.2);
        }
    }
    assert(sequenced(exactly(yields::<S, T>(v)), k) =~= k(v));
}

/// Sequencing into `yields` behaves as the first step alone.
pub proof fn lemma_right_identity<S, T>(m: Behavior<S, T>)
    ensures
        sequenced(m, |t: T| exactly(yields::<S, T>(t))) == m,
{
    let both = sequenced(m, |t: T| exactly(yields::<S, T>(t)));
    assert forall|s: S, o: Outcome<S, T>| #[trigger] both(s, o) == m(s, o) by {
        assert(o.2 + Seq::<String>::empty() =~= o.2);
        if m(s, o) {
            let b = yields::<S, T>(o.0)(o.1);
            assert(m(s, o) && exactly(yields::<S, T>(o.0))(o.1, b) && o == joined(o, b));
        }
        if both(s, o) {
            let (a, b) = choose|a: Outcome<S, T>, b: Outcome<S, T>|
                m(s, a) && exactly(yields::<S, T>(a.0))(a.1, b) && o == #[trigger] joined(a, b);
            assert(a.2 + Seq::<String>::empty() =~= a.2);
            assert(o == a);
        }
    }
    assert(both =~= m);
}

/// Sequencing is associative: regrouping a chain of continuations changes
/// neither values, scanner states nor diagnostics.
pub proof fn lemma_associative<S, T, U, W>(
    m: Behavior<S, T>,
    k: spec_fn(T) -> Behavior<S, U>,
    h: spec_fn(U) -> Behavior<S, W>,
)
    ensures
        sequenced(sequenced(m, k), h) == sequenced(m, |t: T| sequenced(k(t), h)),
{
    let left = sequenced(sequenced(m, k), h);
    let right = sequenced(m, |t: T| sequenced(k(t), h));
    assert forall|s: S, o: Outcome<S, W>| #[trigger] left(s, o) == right(s, o) by {
        if left(s, o) {
            let (ab, c) = choose|ab: Outcome<S, U>, c: Outcome<S, W>|
                sequenced(m, k)(s, ab) && h(ab.0)(ab.1, c) && o == #[trigger] joined(ab, c);
            let (a, b) = choose|a: Outcome<S, T>, b: Outcome<S, U>|
                m(s, a) && k(a.0)(a.1, b) && ab == #[trigger] joined(a, b);
            let bc = joined(b, c);
            assert(k(a.0)(a.1, b) && h(b.0)(b.1, c) && bc == joined(b, c));
            assert(sequenced(k(a.0), h)(a.1, bc));
            assert((a.2 + b.2) + c.2 =~= a.2 + (b.2 + c.2));
            assert(m(s, a) && sequenced(k(a.0), h)(a.1, bc) && o == joined(a, bc));
        }
        if right(s, o) {
            let (a, bc) = choose|a: Outcome<S, T>, bc: Outcome<S, W>|
                m(s, a) && sequenced(k(a.0), h)(a.1, bc) && o == #[trigger] joined(a, bc);
            let (b, c) = choose|b: Outcome<S, U>, c: Outcome<S, W>|
                k(a.0)(a.1, b) && h(b.0)(b.1, c) && bc == #[trigger] joined(b, c);
            let ab = joined(a, b);
            assert(m(s, a) && k(a.0)(a.1, b) && ab == joined(a, b));
            assert(sequenced(m, k)(s, ab));
            assert((a.2 + b.2) + c.2 =~= a.2 + (b.2 + c.2));
            assert(sequenced(m, k)(s, ab) && h(ab.0)(ab.1, c) && o == joined(ab, c));
        }
    }
    assert(left =~= right);
}

/// One suspended step of a parser, consumed when it runs.
trait Step<S, T> {
    spec fn outcomes(&self) -> Behavior<S, T>;

    fn apply(self: Box<Self>, s: S) -> (r: (T, S, Vec<String>))
        ensures
            (self.outcomes())(s, (r.0, r.1, r.2@)),
    ;
}

/// A suspended, one-shot computation from a scanner state to a value, a new
/// scanner state and a log of diagnostics.
#[verifier::reject_recursive_types(S)]
#[verifier::reject_recursive_types(T)]
pub struct Parser<S, T> {
    step: Box<dyn Step<S, T>>,
}

/// What the parsers that `next` gives for `t` may do: the behavior of some
/// parser that `next` can return for `t`.
pub open spec fn continuation<S, T, U, G: FnOnce(T) -> Parser<S, U>>(next: G) -> spec_fn(T) -> Behavior<S, U> {
    |t: T| |s: S, o: Outcome<S, U>| exists|q: Parser<S, U>| #[trigger] next.ensures((t,), q) && (q.outcomes())(s, o)
}

/// Binding `result(v)` to `next` behaves as a parser that `next` gives for `v`.
pub proof fn lemma_result_then<S, T, U, G: FnOnce(T) -> Parser<S, U>>(v: T, next: G)
    ensures
        sequenced(exactly(yields::<S, T>(v)), continuation(next)) == continuation(next)(v),
{
    lemma_left_identity(v, continuation(next));
}

/// Binding `m` to a continuation that wraps each value in `result` can only
/// end as `m` itself ends.
pub proof fn lemma_then_result<S, T, G: FnOnce(T) -> Parser<S, T>>(m: Behavior<S, T>, next: G)
    requires
        forall|t: T, q: Parser<S, T>| #[trigger] next.ensures((t,), q) ==> q.outcomes() == exactly(yields::<S, T>(t)),
    ensures
        forall|s: S, o: Outcome<S, T>| #[trigger] sequenced(m, continuation(next))(s, o) ==> m(s, o),
{
    assert forall|s: S, o: Outcome<S, T>| #[trigger] sequenced(m, continuation(next))(s, o) implies m(s, o) by {
        let (a, b) = choose|a: Outcome<S, T>, b: Outcome<S, T>|
            m(s, a) && continuation(next)(a.0)(a.1, b) && o == #[trigger] joined(a, b);
        let q = choose|q: Parser<S, T>| #[trigger] next.ensures((a.0,), q) && (q.outcomes())(a.1, b);
        assert(a.2 + Seq::<String>::empty() =~= a.2);
    }
}

/// Diagnostics of two sequenced steps come out in the order the steps ran:
/// `error(_, first)` bound to a continuation that records `second` runs to
/// exactly those two messages.
pub proof fn lemma_errors_in_order<S, G: FnOnce(()) -> Parser<S, ()>>(first: String, second: String, next: G)
    requires
        forall|q: Parser<S, ()>| #[trigger] next.ensures(((),), q) ==> q.outcomes() == exactly(reports::<S, ()>((), second)),
    ensures
        forall|s: S, o: Outcome<S, ()>| #[trigger] sequenced(exactly(reports::<S, ()>((), first)), continuation(next))(s, o)
            ==> reported(o) == Err::<(), Seq<String>>(seq![first, second]),
{
    assert forall|s: S, o: Outcome<S, ()>| #[trigger] sequenced(exactly(reports::<S, ()>((), first)), continuation(next))(s, o)
        implies reported(o) == Err::<(), Seq<String>>(seq![first, second]) by {
        let (a, b) = choose|a: Outcome<S, ()>, b: Outcome<S, ()>|
            exactly(reports::<S, ()>((), first))(s, a) && continuation(next)(a.0)(a.1, b) && o == #[trigger] joined(a, b);
        let q = choose|q: Parser<S, ()>| #[trigger] next.ensures((a.0,), q) && (q.outcomes())(a.1, b);
        assert(o.2 =~= seq![first, second]);
    }
}

/// A recorded diagnostic does not stop the parse: the continuation still
/// runs, and its value is dropped by `run` only because the log is not empty.
pub proof fn lemma_no_short_circuit<S, T, G: FnOnce(()) -> Parser<S, T>>(message: String, v: T, next: G)
    requires
        forall|q: Parser<S, T>| #[trigger] next.ensures(((),), q) ==> q.outcomes() == exactly(yields::<S, T>(v)),
    ensures
        forall|s: S, o: Outcome<S, T>| #[trigger] sequenced(exactly(reports::<S, ()>((), message)), continuation(next))(s, o)
            ==> o == (v, s, seq![message]) && reported(o) == Err::<T, Seq<String>>(seq![message]),
{
    assert forall|s: S, o: Outcome<S, T>| #[trigger] sequenced(exactly(reports::<S, ()>((), message)), continuation(next))(s, o)
        implies o == (v, s, seq![message]) && reported(o) == Err::<T, Seq<String>>(seq![message]) by {
        let (a, b) = choose|a: Outcome<S, ()>, b: Outcome<S, T>|
            exactly(reports::<S, ()>((), message))(s, a) && continuation(next)(a.0)(a.1, b) && o == #[trigger] joined(a, b);
        let q = choose|q: Parser<S, T>| #[trigger] next.ensures((a.0,), q) && (q.outcomes())(a.1, b);
        assert(o.2 =~= seq![message]);
    }
}

/// `or` of two constant parsers gives the disjunction of the constants, with
/// the scanner untouched and nothing recorded.
pub proof fn lemma_or_truth_table<S>(a: bool, b: bool)
    ensures
        either(exactly(yields::<S, bool>(a)), exactly(yields::<S, bool>(b))) == exactly(yields::<S, bool>(a || b)),
{
    let inner = |x: bool| sequenced(exactly(yields::<S, bool>(b)), |y: bool| exactly(yields::<S, bool>(x || y)));
    assert forall|x: bool| #[trigger] inner(x) == exactly(yields::<S, bool>(x || b)) by {
        lemma_left_identity(b, |y: bool| exactly(yields::<S, bool>(x || y)));
    }
    lemma_left_identity(a, inner);
}

/// A constant condition selects exactly one branch: the behavior is the
/// chosen branch's own, so the other branch has no effect.
pub proof fn lemma_if_else_selects<S, T>(c: bool, yes: Behavior<S, T>, no: Behavior<S, T>)
    ensures
        branches(exactly(yields::<S, bool>(c)), yes, no) == (if c { yes } else { no }),
{
    lemma_left_identity(c, |b: bool| if b { yes } else { no });
}

/// First match wins: when the first `i` conditions are constantly false and
/// the next is constantly true, the chain behaves as the consequence of arm
/// `i`; when every condition is constantly false, as `otherwise`.
pub proof fn lemma_first_match_wins<S, T>(arms: Seq<(Behavior<S, bool>, Behavior<S, T>)>, otherwise: Behavior<S, T>, i: int)
    requires
        0 <= i <= arms.len(),
        forall|j: int| 0 <= j < i ==> #[trigger] arms[j].0 == exactly(yields::<S, bool>(false)),
        i < arms.len() ==> arms[i].0 == exactly(yields::<S, bool>(true)),
    ensures
        first_match(arms, otherwise) == (if i < arms.len() { arms[i].1 } else { otherwise }),
    decreases i,
{
    if i == 0 {
        if arms.len() > 0 {
            lemma_if_else_selects(true, arms[0].1, first_match(arms.drop_first(), otherwise));
        }
    } else {
        let rest = arms.drop_first();
        assert forall|j: int| 0 <= j < i - 1 implies #[trigger] rest[j].0 == exactly(yields::<S, bool>(false)) by {
            assert(arms[j + 1].0 == exactly(yields::<S, bool>(false)));
        }
        if i < arms.len() {
            assert(rest[i - 1] == arms[i]);
        }
        lemma_first_match_wins(rest, otherwise, i - 1);
        assert(arms[0].0 == exactly(yields::<S, bool>(false)));
        lemma_if_else_selects(false, arms[0].1, first_match(rest, otherwise));
    }
}

/// Gives a fixed value and a fixed log.
struct Constant<T> {
    value: T,
    log: Vec<String>,
}

impl<S, T> Step<S, T> for Constant<T> {
    closed spec fn outcomes(&self) -> Behavior<S, T> {
        exactly(|s: S| (self.value, s, self.log@))
    }

    fn apply(self: Box<Self>, s: S) -> (r: (T, S, Vec<String>)) {
        let Constant { value, log } = *self;
        (value, s, log)
    }
}

/// Gives a copy of the scanner state.
struct Snapshot;

impl<S: Scanner> Step<S, S> for Snapshot {
    closed spec fn outcomes(&self) -> Behavior<S, S> {
        exactly(snapshot())
    }

    fn apply(self: Box<Self>, s: S) -> (r: (S, S, Vec<String>)) {
        (S::from_scanner(&s), s, Vec::new())
    }
}

/// Swaps in a given scanner state.
struct Replace<S> {
    state: S,
}

impl<S: Scanner> Step<S, ()> for Replace<S> {
    closed spec fn outcomes(&self) -> Behavior<S, ()> {
        exactly(replaces(self.state))
    }

    fn apply(self: Box<Self>, s: S) -> (r: ((), S, Vec<String>)) {
        let Replace { state } = *self;
        ((), S::from_scanner(&state), Vec::new())
    }
}

/// Runs `first`, then the parser that `next` makes of its value.
#[verifier::reject_recursive_types(S)]
#[verifier::reject_recursive_types(T)]
#[verifier::reject_recursive_types(U)]
#[verifier::reject_recursive_types(G)]
struct Then<S, T, U, G: FnOnce(T) -> Parser<S, U>> {
    first: Parser<S, T>,
    next: G,
}

impl<S, T, U, G: FnOnce(T) -> Parser<S, U>> Then<S, T, U, G> {
    #[verifier::type_invariant]
    spec fn well_formed(&self) -> bool {
        forall|t: T| #[trigger] self.next.requires((t,))
    }
}

impl<S, T, U, G: FnOnce(T) -> Parser<S, U>> Step<S, U> for Then<S, T, U, G> {
    closed spec fn outcomes(&self) -> Behavior<S, U> {
        sequenced(self.first.outcomes(), continuation(self.next))
    }

    fn apply(self: Box<Self>, s: S) -> (r: (U, S, Vec<String>)) {
        proof {
            use_type_invariant(&*self);
        }
        let Then { first, next } = *self;
        let ghost k = continuation(next);
        let (value, scanner, mut errors) = first.evaluate(s);
        let ghost a = (value, scanner, errors@);
        let following = next(value);
        let (v, s2, mut other_errors) = following.evaluate(scanner);
        let ghost b = (v, s2, other_errors@);
        proof {
            assert(next.ensures((value,), following) && (following.outcomes())(scanner, b));
            assert(k(a.0)(a.1, b));
            assert(first.outcomes()(s, a) && k(a.0)(a.1, b) && joined(a, b) == joined(a, b));
        }
        errors.append(&mut other_errors);
        (v, s2, errors)
    }
}

/// Runs `cond`, then one of the two branches.
#[verifier::reject_recursive_types(S)]
#[verifier::reject_recursive_types(T)]
struct Branch<S, T> {
    cond: Parser<S, bool>,
    yes: Parser<S, T>,
    no: Parser<S, T>,
}

impl<S, T> Step<S, T> for Branch<S, T> {
    closed spec fn outcomes(&self) -> Behavior<S, T> {
        branches(self.cond.outcomes(), self.yes.outcomes(), self.no.outcomes())
    }

    fn apply(self: Box<Self>, s: S) -> (r: (T, S, Vec<String>)) {
        let Branch { cond, yes, no } = *self;
        let ghost k = |b: bool| if b { yes.outcomes() } else { no.outcomes() };
        let (is_true, scanner, mut errors) = cond.evaluate(s);
        let ghost a = (is_true, scanner, errors@);
        let (v, s2, mut other_errors) = if is_true {
            yes.evaluate(scanner)
        } else {
            no.evaluate(scanner)
        };
        let ghost b = (v, s2, other_errors@);
        proof {
            assert(cond.outcomes()(s, a) && k(a.0)(a.1, b) && joined(a, b) == joined(a, b));
        }
        errors.append(&mut other_errors);
        (v, s2, errors)
    }
}

/// Runs both sides and gives the disjunction.
#[verifier::reject_recursive_types(S)]
struct Both<S> {
    left: Parser<S, bool>,
    right: Parser<S, bool>,
}

impl<S> Step<S, bool> for Both<S> {
    closed spec fn outcomes(&self) -> Behavior<S, bool> {
        either(self.left.outcomes(), self.right.outcomes())
    }

    fn apply(self: Box<Self>, s: S) -> (r: (bool, S, Vec<String>)) {
        let Both { left, right } = *self;
        let (a, scanner, mut errors) = left.evaluate(s);
        let (b, s2, mut other_errors) = right.evaluate(scanner);
        proof {
            let first = (a, scanner, errors@);
            let second = (b, s2, other_errors@);
            let last = (a || b, s2, Seq::<String>::empty());
            let k = |y: bool| exactly(yields::<S, bool>(a || y));
            assert(k(b)(s2, last));
            assert(right.outcomes()(scanner, second) && k(second.0)(second.1, last) && joined(second, last) == joined(second, last));
            assert(other_errors@ + Seq::<String>::empty() =~= other_errors@);
            let inner = joined(second, last);
            let outer = |x: bool| sequenced(right.outcomes(), |y: bool| exactly(yields::<S, bool>(x || y)));
            assert(outer(a)(scanner, inner));
            assert(left.outcomes()(s, first) && outer(first.0)(first.1, inner) && joined(first, inner) == joined(first, inner));
        }
        errors.append(&mut other_errors);
        (a || b, s2, errors)
    }
}

impl<S, T> Parser<S, T> {
    /// What this parser may do when run.
    pub closed spec fn outcomes(&self) -> Behavior<S, T> {
        self.step.outcomes()
    }

    /// Runs the parser from `scanner`, giving its value, the scanner state it
    /// leaves, and its diagnostics.
    pub fn evaluate(self, scanner: S) -> (r: (T, S, Vec<String>))
        ensures
            (self.outcomes())(scanner, (r.0, r.1, r.2@)),
    {
        self.step.apply(scanner)
    }

    /// Runs the parser from `scanner`: its value if it recorded no diagnostic,
    /// else all of them in order.
    pub fn run(self, scanner: S) -> (r: Result<T, Vec<String>>)
        ensures
            exists|o: Outcome<S, T>| #[trigger] (self.outcomes())(scanner, o) && run_gives(r, o),
    {
        let (value, rest, errors) = self.evaluate(scanner);
        let ghost o = (value, rest, errors@);
        if errors.len() == 0 {
            assert(run_gives(Ok::<T, Vec<String>>(value), o));
            Ok(value)
        } else {
            assert(run_gives(Err::<T, Vec<String>>(errors), o));
            Err(errors)
        }
    }
}

impl<S: 'static, T: 'static> Parser<S, T> {
    /// Gives `value`, leaves the scanner unchanged, records nothing.
    pub fn result(value: T) -> (p: Self)
        ensures
            p.outcomes() == exactly(yields::<S, T>(value)),
    {
        let log = Vec::new();
        let p = Parser { step: Box::new(Constant { value, log }) };
        assert(log@ =~= Seq::<String>::empty());
        assert((|s: S| (value, s, log@)) =~= yields::<S, T>(value));
        p
    }

    /// Gives `value` and records `error`; the parse goes on.
    pub fn error(value: T, error: String) -> (p: Self)
        ensures
            p.outcomes() == exactly(reports::<S, T>(value, error)),
    {
        let mut log = Vec::new();
        log.push(error);
        let p = Parser { step: Box::new(Constant { value, log }) };
        assert((|s: S| (value, s, log@)) =~= reports::<S, T>(value, error));
        p
    }

    /// Runs this parser, hands its value to `next`, and runs the parser that
    /// `next` gives from where this one left off. The diagnostics of both are
    /// kept, in order; the second step runs whether or not the first recorded
    /// any.
    pub fn bind<U: 'static, G: FnOnce(T) -> Parser<S, U> + 'static>(self, next: G) -> (p: Parser<S, U>)
        requires
            forall|t: T| #[trigger] next.requires((t,)),
        ensures
            p.outcomes() == sequenced(self.outcomes(), continuation(next)),
    {
        let step = Then { first: self, next };
        Parser { step: Box::new(step) }
    }
}

impl<S: Scanner + 'static> Parser<S, S> {
    /// Gives an independent snapshot of the scanner state as the value, and
    /// leaves the state in place.
    pub fn get_scanner() -> (p: Self)
        ensures
            p.outcomes() == exactly(snapshot::<S>()),
    {
        Parser { step: Box::new(Snapshot) }
    }
}

impl<S: Scanner + 'static> Parser<S, ()> {
    /// Puts `scanner` in place of the state it is run from.
    pub fn set_scanner(scanner: S) -> (p: Self)
        ensures
            p.outcomes() == exactly(replaces(scanner)),
    {
        Parser { step: Box::new(Replace { state: scanner }) }
    }
}

impl<S: 'static> Parser<S, bool> {
    /// Runs this parser and then `other`, from where this one left off, and
    /// gives the disjunction of their values: both always run.
    pub fn or(self, other: Self) -> (p: Self)
        ensures
            p.outcomes() == either(self.outcomes(), other.outcomes()),
    {
        Parser { step: Box::new(Both { left: self, right: other }) }
    }

    /// Runs this parser, then `t` if its value is true and `f` if not, from
    /// where it left off. The branch not taken never runs.
    pub fn if_else<T: 'static>(self, t: Parser<S, T>, f: Parser<S, T>) -> (p: Parser<S, T>)
        ensures
            p.outcomes() == branches(self.outcomes(), t.outcomes(), f.outcomes()),
    {
        Parser { step: Box::new(Branch { cond: self, yes: t, no: f }) }
    }
}

/// The behaviors of a list of (condition, consequence) parsers.
pub open spec fn arm_behaviors<S, T>(arms: Seq<(Parser<S, bool>, Parser<S, T>)>) -> Seq<(Behavior<S, bool>, Behavior<S, T>)> {
    arms.map_values(|a: (Parser<S, bool>, Parser<S, T>)| (a.0.outcomes(), a.1.outcomes()))
}

/// Tries the conditions in order: the first that gives true selects its
/// consequence, and `otherwise` runs when none does. Each condition runs only
/// when all before it gave false.
pub fn multi_if<S: 'static, T: 'static>(
    branches: Vec<(Parser<S, bool>, Parser<S, T>)>,
    otherwise: Parser<S, T>,
) -> (p: Parser<S, T>)
    ensures
        p.outcomes() == first_match(arm_behaviors(branches@), otherwise.outcomes()),
{
    let ghost arms = arm_behaviors(branches@);
    let mut branches = branches;
    let mut chain = otherwise;
    while branches.len() > 0
        invariant
            arms.len() >= branches@.len(),
            arm_behaviors(branches@) == arms.subrange(0, branches@.len() as int),
            chain.outcomes() == first_match(arms.subrange(branches@.len() as int, arms.len() as int), otherwise.outcomes()),
        decreases branches.len(),
    {
        let ghost n = branches@.len() as int;
        let ghost before = branches@;
        let (cond, t) = branches.pop().unwrap();
        proof {
            assert(before[n - 1] == (cond, t));
            assert(arm_behaviors(before)[n - 1] == arms.subrange(0, n)[n - 1]);
            assert(branches@ =~= before.subrange(0, n - 1));
            let rest = arms.subrange(n, arms.len() as int);
            let more = arms.subrange(n - 1, arms.len() as int);
            assert(more.drop_first() =~= rest);
            assert(arm_behaviors(branches@) =~= arms.subrange(0, n - 1));
            assert(arms[n - 1] == (cond.outcomes(), t.outcomes()));
        }
        chain = cond.if_else(t, chain);
    }
    proof {
        assert(arms.subrange(0, arms.len() as int) =~= arms);
    }
    chain
}

} // verus!
