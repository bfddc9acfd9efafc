use formally::smt::backend::{Error, ErrorKind, Level};
use formally::span::{Location, Span};
use formally::smt::decl::{Associativity, Declaration};
use formally::smt::macros::{Constant, Quantifier, UnboundHead};
use formally::smt::requirements::{Arith, Constant as TermConstant, Head, Linear, NoUF, NotAdmitted, QuantifierFree, Term};

#[test]
fn function_declarations() {
    let f: Declaration<&str, &str> = Declaration::function("f", vec!["Int"], "Real");
    assert_eq!(f.name, "f");
    assert_eq!(f.domain, vec!["Int"]);
    assert_eq!(f.range, "Real");
    let c: Declaration<&str, &str> = Declaration::function("c", vec![], "Bool");
    assert!(c.domain.is_empty());
}

#[test]
fn no_uninterpreted_functions() {
    let f: Declaration<&str, &str> = Declaration::function("f", vec!["Int"], "Int");
    let c: Declaration<&str, &str> = Declaration::function("c", vec![], "Int");
    assert_eq!(NoUF::check_function(&f), Err(NotAdmitted));
    assert_eq!(NoUF::check_function(&c), Ok(()));
}

#[test]
fn backend_errors() {
    let e = Error::new("z3", ErrorKind::Unsupported { msg: "push".to_string(), span: None });
    assert_eq!(e.backend, "z3");
    assert_eq!(e.level(), Level::Error);
    match *e.kind {
        ErrorKind::Unsupported { ref msg, .. } => assert_eq!(msg, "push"),
        _ => panic!("wrong kind"),
    }
    let e = Error::new("cvc5", ErrorKind::Internal("crash".to_string()));
    assert_eq!(e.backend, "cvc5");
    assert_eq!(e.level(), Level::Internal);
    let e = Error::new("cvc5", ErrorKind::UnsupportedLogic("QF_XYZ".to_string()));
    assert_eq!(e.level(), Level::Internal);
}

#[test]
fn term_pieces() {
    assert_ne!(Quantifier::Forall, Quantifier::Exists);
    assert_ne!(Associativity::LeftAssoc, Associativity::Chainable);
    assert_eq!(Constant::Integer { value: 42 }, Constant::Integer { value: 42 });
    assert_ne!(Constant::Rational { value: "1.5" }, Constant::Integer { value: 1 });
    let head = UnboundHead { name: "g".to_string() };
    assert_eq!(head.clone(), head);
}

#[test]
fn backend_error_messages() {
    let e = Error::new("z3", ErrorKind::Unsupported { msg: "push".to_string(), span: None });
    assert_eq!(e.message(), "SMT backend `z3`: unsupported feature: push");
    let e = Error::new("cvc5", ErrorKind::UnsupportedLogic("QF_BV".to_string()));
    assert_eq!(e.message(), "SMT backend `cvc5`: unsupported logic: QF_BV");
    let e = Error::new("z3", ErrorKind::ViolatedPrecondition("sat".to_string()));
    assert_eq!(e.message(), "SMT backend `z3`: violated precondition: sat");
    let e = Error::new("z3", ErrorKind::Internal("crash".to_string()));
    assert_eq!(e.message(), "SMT backend `z3`: crash");
    let e = Error::new("z3", ErrorKind::Other("odd".to_string()));
    assert_eq!(e.message(), "SMT backend `z3`: odd");
    let e = Error::new("z3", ErrorKind::IO("closed pipe".to_string()));
    assert_eq!(e.message(), "SMT backend `z3`: input/output error: closed pipe");
}

fn var() -> Term {
    Term::Constant(TermConstant::Other)
}

fn num() -> Term {
    Term::Constant(TermConstant::Numeral)
}

fn apply(head: Head, arguments: Vec<Term>) -> Term {
    Term::Atom { head, arguments }
}

#[test]
fn linear_terms() {
    let scaled = apply(Head::Restricted(Arith::IntsMult), vec![num(), var()]);
    assert_eq!(Linear::check_term(&scaled), Ok(()));
    let product = apply(Head::Restricted(Arith::RealsMult), vec![var(), var()]);
    assert_eq!(Linear::check_term(&product), Err(NotAdmitted));
    let sum = apply(Head::Other, vec![var(), var(), var()]);
    assert_eq!(Linear::check_term(&sum), Ok(()));
    let nested = apply(Head::Other, vec![var(), apply(Head::Restricted(Arith::IntsMod), vec![var(), var()])]);
    assert_eq!(Linear::check_term(&nested), Err(NotAdmitted));
    let constants = apply(Head::Restricted(Arith::IntsDiv), vec![num(), num()]);
    assert_eq!(Linear::check_term(&constants), Ok(()));
    let quantified = Term::Quantified { body: Box::new(apply(Head::Restricted(Arith::IntsAbs), vec![var()])) };
    assert_eq!(Linear::check_term(&quantified), Ok(()));
    let bad_definition = Term::Let {
        definitions: vec![apply(Head::Restricted(Arith::RealsDiv), vec![var(), var()])],
        body: Box::new(var()),
    };
    assert_eq!(Linear::check_term(&bad_definition), Err(NotAdmitted));
    let bad_body = Term::Let { definitions: vec![num()], body: Box::new(product) };
    assert_eq!(Linear::check_term(&bad_body), Err(NotAdmitted));
}

#[test]
fn quantifier_free_terms() {
    let atom = apply(Head::Other, vec![var(), num()]);
    assert_eq!(QuantifierFree::check_term(&atom), Ok(()));
    let quantified = Term::Quantified { body: Box::new(var()) };
    assert_eq!(QuantifierFree::check_term(&quantified), Err(NotAdmitted));
    let inside = apply(Head::Other, vec![var(), Term::Quantified { body: Box::new(var()) }]);
    assert_eq!(QuantifierFree::check_term(&inside), Err(NotAdmitted));
    let in_let = Term::Let { definitions: vec![Term::Quantified { body: Box::new(num()) }], body: Box::new(var()) };
    assert_eq!(QuantifierFree::check_term(&in_let), Err(NotAdmitted));
    let plain_let = Term::Let { definitions: vec![num()], body: Box::new(atom) };
    assert_eq!(QuantifierFree::check_term(&plain_let), Ok(()));
}

#[test]
fn spans_of_errors_and_declarations() {
    let here = Span {
        begin: Location { position: 3, line: 0, column: 3 },
        end: Location { position: 7, line: 0, column: 7 },
    };
    let u = Error::new("b", ErrorKind::Unsupported { msg: "m".to_string(), span: None });
    assert_eq!(u.level(), Level::Error);
    assert!(u.span().is_none());
    let located = Error::new("b", ErrorKind::Unsupported { msg: "m".to_string(), span: Some(here) });
    assert_eq!(located.span(), Some(here));
    assert_eq!(located.message(), "SMT backend `b`: unsupported feature: m");
    let v = Error::new("b", ErrorKind::ViolatedPrecondition("p".to_string()));
    assert_eq!(v.level(), Level::Internal);
    assert!(v.span().is_none());
    let d: Declaration<&str, &str> = Declaration::function("f", vec!["Int"], "Real");
    assert!(d.span.is_none());
    let d = d.over(here);
    assert_eq!(d.span, Some(here));
    assert_eq!(d.name, "f");
    assert_eq!(d.domain, vec!["Int"]);
    assert_eq!(d.range, "Real");
}
