use amoeba::error::Failure;
use amoeba::syntax::ast::{Arith, Atom, Clause, Constant, IO, Operator, Rule, Term, Variable};
use amoeba::syntax::parser::parse_program;

fn var(name: &str) -> Term {
    Term::Variable(Variable::Undistinguished(name.to_string()))
}

fn sym(name: &str) -> Term {
    Term::Constant(Constant::Symbol(name.to_string()))
}

fn num(text: &str) -> Term {
    Term::Constant(Constant::Float(text.to_string()))
}

fn whole(value: i64) -> Term {
    Term::Constant(Constant::Integer(value))
}

fn atom(predicate: &str, terms: Vec<Term>) -> Atom {
    Atom { negation: false, predicate: predicate.to_string(), terms }
}

fn leaf(term: Term) -> Arith {
    Arith { operator: Operator::Leaf(term), lhs: None, rhs: None }
}

fn binary(operator: Operator, lhs: Arith, rhs: Arith) -> Arith {
    Arith { operator, lhs: Some(Box::new(lhs)), rhs: Some(Box::new(rhs)) }
}

#[test]
fn parses_the_closure_program() {
    let text = "% edges\n@input edge(int, int).\nreach(X, Y) :- edge(X, Y).\nreach(X, Z) :- edge(X, Y), reach(Y, Z).\n@output reach(X, Y)\n";
    let program = parse_program(text).unwrap();
    assert_eq!(
        program,
        vec![
            Rule { io: IO::Read(None), head: atom("edge", vec![sym("int"), sym("int")]), body: vec![] },
            Rule {
                io: IO::Silent,
                head: atom("reach", vec![var("X"), var("Y")]),
                body: vec![Clause::Atom(atom("edge", vec![var("X"), var("Y")]))],
            },
            Rule {
                io: IO::Silent,
                head: atom("reach", vec![var("X"), var("Z")]),
                body: vec![
                    Clause::Atom(atom("edge", vec![var("X"), var("Y")])),
                    Clause::Atom(atom("reach", vec![var("Y"), var("Z")])),
                ],
            },
            Rule { io: IO::Write(None), head: atom("reach", vec![var("X"), var("Y")]), body: vec![] },
        ]
    );
}

#[test]
fn the_full_stop_is_optional() {
    let with = parse_program("a(X) :- b(X).\nc(X) :- a(X).").unwrap();
    let without = parse_program("a(X) :- b(X)\nc(X) :- a(X)").unwrap();
    assert_eq!(with, without);
    assert_eq!(with.len(), 2);
}

#[test]
fn parses_terms_of_each_kind() {
    let program = parse_program("p(X, _, 12, 3.50, abc, _y)").unwrap();
    assert_eq!(
        program[0].head.terms,
        vec![var("X"), Term::Variable(Variable::Free), whole(12), num("3.50"), sym("abc"), var("_y")]
    );
}

#[test]
fn a_number_keeps_no_point_without_digits() {
    match parse_program("p(1.)") {
        Err(Failure::ParseError(at)) => assert_eq!(at, 0),
        other => panic!("unexpected {:?}", other),
    }
}

#[test]
fn parses_negated_atoms() {
    let program = parse_program("p(X) :- q(X), Not r(X)").unwrap();
    match &program[0].body[1] {
        Clause::Atom(a) => {
            assert!(a.negation);
            assert_eq!(a.predicate, "r");
        }
        _ => panic!("expected an atom"),
    }
    match &program[0].body[0] {
        Clause::Atom(a) => assert!(!a.negation),
        _ => panic!("expected an atom"),
    }
}

#[test]
fn parses_arithmetic_clauses() {
    let program = parse_program("p(X) :- q(X, Y), X < Y + 1").unwrap();
    assert_eq!(
        program[0].body[1],
        Clause::Arithmetic(binary(
            Operator::Less,
            leaf(var("X")),
            binary(Operator::Add, leaf(var("Y")), leaf(whole(1)))
        ))
    );
}

#[test]
fn parses_each_level_of_precedence() {
    let program = parse_program("p(X) :- A == B && C != D || ! E * (F) >= - G / 2").unwrap();
    let left = binary(
        Operator::And,
        binary(Operator::Unifier, leaf(var("A")), leaf(var("B"))),
        binary(Operator::Disunifier, leaf(var("C")), leaf(var("D"))),
    );
    let not_e = Arith { operator: Operator::Neg, lhs: None, rhs: Some(Box::new(leaf(var("E")))) };
    let minus_g = Arith { operator: Operator::Sub, lhs: None, rhs: Some(Box::new(leaf(var("G")))) };
    let right = binary(
        Operator::GreaterEqual,
        binary(Operator::Mul, not_e, leaf(var("F"))),
        binary(Operator::Div, minus_g, leaf(whole(2))),
    );
    assert_eq!(program[0].body[0], Clause::Arithmetic(binary(Operator::Or, left, right)));
}

#[test]
fn a_comment_needs_its_line_end() {
    assert_eq!(parse_program("% only a comment\n").unwrap(), vec![]);
    match parse_program("p(X)\n% no line end") {
        Err(Failure::ParseError(at)) => assert_eq!(at, 5),
        other => panic!("unexpected {:?}", other),
    }
}

#[test]
fn trailing_text_is_a_parse_error() {
    match parse_program("p(X) :- q(X) ;") {
        Err(Failure::ParseError(at)) => assert_eq!(at, 13),
        other => panic!("unexpected {:?}", other),
    }
    match parse_program("p(X) :- ") {
        Err(Failure::ParseError(at)) => assert_eq!(at, 0),
        other => panic!("unexpected {:?}", other),
    }
}

#[test]
fn the_empty_text_is_the_empty_program() {
    assert_eq!(parse_program("").unwrap(), vec![]);
    assert_eq!(parse_program("  \n\t ").unwrap(), vec![]);
}

#[test]
fn numbers_without_a_fraction_are_integers() {
    let program = parse_program("p(0, 007, 9223372036854775807, 9223372036854775808, 1.0, 10.25)\n").unwrap();
    assert_eq!(
        program[0].head.terms,
        vec![
            whole(0),
            whole(7),
            whole(9223372036854775807),
            num("9223372036854775808"),
            num("1.0"),
            num("10.25"),
        ]
    );
}

#[test]
fn true_and_false_are_truth_values() {
    let program = parse_program("p(true, false, truth, falsehood, true_, t)\n").unwrap();
    assert_eq!(
        program[0].head.terms,
        vec![
            Term::Constant(Constant::Boolean(true)),
            Term::Constant(Constant::Boolean(false)),
            sym("truth"),
            sym("falsehood"),
            sym("true_"),
            sym("t"),
        ]
    );
}
