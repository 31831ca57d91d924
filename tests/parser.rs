use parser_core::parser::{multi_if, Parser};
use parser_core::scanner::{Scanner, Token};
use std::rc::Rc;

type TestParser<T> = Parser<TestScanner, T>;

#[derive(Debug, PartialEq)]
struct TestScanner {
    code: String,
}

impl TestScanner {
    fn new(code: &str) -> Self {
        TestScanner { code: code.to_string() }
    }

    fn next_token(&self) -> String {
        self.code.to_owned()
    }
}

impl Scanner for TestScanner {
    type Token = TestToken;

    fn finished(&self) -> bool {
        self.is_finished()
    }

    fn current(&self) -> Rc<Self::Token> {
        self.current_token()
    }

    fn upcoming(&self) -> Rc<Self::Token> {
        Scanner::next_token(self)
    }

    fn advanced(&self) -> Self {
        Self::from_scanner(self).scan_token()
    }

    fn from_scanner(other: &Self) -> Self {
        TestScanner { code: other.code.to_owned() }
    }

    fn scan_token(self) -> Self {
        self
    }

    fn is_finished(&self) -> bool {
        false
    }

    fn current_token(&self) -> Rc<Self::Token> {
        Rc::new(TestToken {})
    }

    fn next_token(&self) -> Rc<Self::Token> {
        Rc::new(TestToken {})
    }
}

struct TestToken {}

impl Token for TestToken {
    type TokenType = ();
    fn kind(&self) -> Self::TokenType {}
    fn t_type(&self) -> Self::TokenType {}
}

#[test]
fn parser_monad() {
    let parser = TestParser::result(0);
    assert_eq!(Ok(0), parser.run(TestScanner::new("")));

    let parser = TestParser::get_scanner();
    assert_eq!(Ok(TestScanner::new("")), parser.run(TestScanner::new("")));

    let parser = TestParser::set_scanner(TestScanner::new("a"));
    assert_eq!(((), TestScanner::new("a"), vec![]), parser.evaluate(TestScanner::new("")));

    let parser = TestParser::get_scanner().bind(|scanner| TestParser::result(scanner.next_token()));
    let token = TestScanner::new("a").next_token();
    assert_eq!(Ok(token), parser.run(TestScanner::new("a")));
}

#[test]
fn if_else_test() {
    let parser = TestParser::result(true).if_else(
        TestParser::result("success"),
        TestParser::result("fail"),
    );
    assert_eq!(Ok("success"), parser.run(TestScanner::new("")));

    let parser = TestParser::result(false).if_else(
        TestParser::result("fail"),
        TestParser::result("success"),
    );
    assert_eq!(Ok("success"), parser.run(TestScanner::new("")));
}

#[test]
fn or_test() {
    let parser = TestParser::result(false).or(TestParser::result(false));
    assert!(!parser.run(TestScanner::new("")).unwrap());

    let parser = TestParser::result(true).or(TestParser::result(false));
    assert!(parser.run(TestScanner::new("")).unwrap());

    let parser = TestParser::result(false).or(TestParser::result(true));
    assert!(parser.run(TestScanner::new("")).unwrap());

    let parser = TestParser::result(true).or(TestParser::result(true));
    assert!(parser.run(TestScanner::new("")).unwrap());
}

#[test]
fn multi_if_test() {
    let parser = multi_if(
        vec![
            (TestParser::result(false), TestParser::result("fail 1")),
            (TestParser::result(true), TestParser::result("success")),
        ],
        TestParser::result("fail 2"),
    );

    assert_eq!(Ok("success"), parser.run(TestScanner::new("")));
}

#[test]
fn error() {
    let parser = TestParser::error((), "success".to_string());
    assert_eq!(Err(vec!["success".to_string()]), parser.run(TestScanner::new("")));

    let parser = TestParser::error((), "success".to_string()).bind(|_| TestParser::result("failed"));
    assert_eq!(Err(vec!["success".to_string()]), parser.run(TestScanner::new("")));

    let parser = TestParser::error((), "success 1".to_string()).bind(|_| {
        TestParser::result("ignored").bind(|_| TestParser::error((), "success 2".to_string()))
    });
    assert_eq!(
        Err(vec!["success 1".to_string(), "success 2".to_string()]),
        parser.run(TestScanner::new(""))
    );
}

#[test]
fn errors_keep_their_order() {
    let parser = TestParser::error((), "a".to_string()).bind(|_| TestParser::error((), "b".to_string()));
    assert_eq!(Err(vec!["a".to_string(), "b".to_string()]), parser.run(TestScanner::new("xyz")));
}

#[test]
fn error_does_not_stop_the_next_step() {
    let parser = TestParser::error((), "e".to_string()).bind(|_| TestParser::result("x"));
    assert_eq!(Err(vec!["e".to_string()]), parser.run(TestScanner::new("")));

    let parser = TestParser::error((), "e".to_string()).bind(|_| TestParser::error("x", "f".to_string()));
    let (value, _, errors) = parser.evaluate(TestScanner::new(""));
    assert_eq!("x", value);
    assert_eq!(vec!["e".to_string(), "f".to_string()], errors);
}

#[test]
fn error_keeps_its_value() {
    let (value, scanner, errors) = TestParser::error(7, "bad".to_string()).evaluate(TestScanner::new("q"));
    assert_eq!(7, value);
    assert_eq!(TestScanner::new("q"), scanner);
    assert_eq!(vec!["bad".to_string()], errors);
}

#[test]
fn result_then_continuation_is_the_continuation() {
    let bound = TestParser::result(5).bind(|v| TestParser::result(v * 2));
    let direct = TestParser::result(5 * 2);
    assert_eq!(direct.run(TestScanner::new("s")), bound.run(TestScanner::new("s")));

    let bound = TestParser::error(1, "m".to_string()).bind(TestParser::result);
    let direct = TestParser::error(1, "m".to_string());
    assert_eq!(direct.run(TestScanner::new("s")), bound.run(TestScanner::new("s")));
}

#[test]
fn bind_threads_the_scanner() {
    let parser = TestParser::set_scanner(TestScanner::new("moved"))
        .bind(|_| TestParser::get_scanner())
        .bind(|s| TestParser::result(s.next_token()));
    assert_eq!(Ok("moved".to_string()), parser.run(TestScanner::new("start")));
}

#[test]
fn if_else_runs_only_the_chosen_branch() {
    let parser = TestParser::result(true)
        .if_else(TestParser::result("A"), TestParser::error("B", "not taken".to_string()));
    assert_eq!(Ok("A"), parser.run(TestScanner::new("")));

    let parser = TestParser::result(false)
        .if_else(TestParser::error("A", "not taken".to_string()), TestParser::result("B"));
    assert_eq!(Ok("B"), parser.run(TestScanner::new("")));

    let parser = TestParser::result(false).if_else(
        TestParser::set_scanner(TestScanner::new("moved")),
        TestParser::result(()),
    );
    let (_, scanner, _) = parser.evaluate(TestScanner::new("here"));
    assert_eq!(TestScanner::new("here"), scanner);
}

#[test]
fn or_runs_both_sides() {
    let parser = TestParser::result(true).or(TestParser::error(false, "right".to_string()));
    assert_eq!(Err(vec!["right".to_string()]), parser.run(TestScanner::new("")));
}

#[test]
fn multi_if_falls_back() {
    let parser = multi_if(
        vec![
            (TestParser::result(false), TestParser::result("one")),
            (TestParser::result(false), TestParser::result("two")),
        ],
        TestParser::result("otherwise"),
    );
    assert_eq!(Ok("otherwise"), parser.run(TestScanner::new("")));

    let parser = multi_if(Vec::new(), TestParser::result("only"));
    assert_eq!(Ok("only"), parser.run(TestScanner::new("")));
}

#[test]
fn multi_if_stops_at_the_first_match() {
    let parser = multi_if(
        vec![
            (TestParser::result(true), TestParser::result("first")),
            (TestParser::error(true, "never".to_string()), TestParser::result("second")),
        ],
        TestParser::result("otherwise"),
    );
    assert_eq!(Ok("first"), parser.run(TestScanner::new("")));
}
