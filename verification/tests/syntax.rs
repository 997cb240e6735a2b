use amoeba::error::{Failure, Violation};
use amoeba::syntax::ast::{Arith, Atom, Clause, Constant, IO, Operator, Rule, Term, Variable};
use amoeba::syntax::context::Context;
use amoeba::syntax::stratify::Stratum;
use amoeba::text::{join_strings, render_i64, render_usize};

fn var(name: &str) -> Term {
    Term::Variable(Variable::Undistinguished(name.to_string()))
}

fn dist(name: &str) -> Term {
    Term::Variable(Variable::Distinguished(name.to_string()))
}

fn sym(name: &str) -> Term {
    Term::Constant(Constant::Symbol(name.to_string()))
}

fn atom(predicate: &str, terms: Vec<Term>) -> Atom {
    Atom { negation: false, predicate: predicate.to_string(), terms }
}

fn not(predicate: &str, terms: Vec<Term>) -> Atom {
    Atom { negation: true, predicate: predicate.to_string(), terms }
}

fn rule(head: Atom, body: Vec<Atom>) -> Rule {
    Rule { io: IO::Silent, head, body: body.into_iter().map(Clause::Atom).collect() }
}

fn input(head: Atom) -> Rule {
    Rule { io: IO::Read(None), head, body: Vec::new() }
}

fn output(head: Atom) -> Rule {
    Rule { io: IO::Write(None), head, body: Vec::new() }
}

fn leaf(term: Term) -> Arith {
    Arith { operator: Operator::Leaf(term), lhs: None, rhs: None }
}

fn names(list: &[&str]) -> Vec<String> {
    list.iter().map(|s| s.to_string()).collect()
}

#[test]
fn numbers_are_written_in_decimal() {
    assert_eq!(render_usize(0), "0");
    assert_eq!(render_usize(7), "7");
    assert_eq!(render_usize(10), "10");
    assert_eq!(render_usize(1234567890), "1234567890");
    assert_eq!(render_i64(0), "0");
    assert_eq!(render_i64(-42), "-42");
    assert_eq!(render_i64(i64::MIN), "-9223372036854775808");
    assert_eq!(render_i64(i64::MAX), "9223372036854775807");
}

#[test]
fn joining_writes_the_separator_between_neighbours() {
    assert_eq!(join_strings(&names(&[]), ", "), "");
    assert_eq!(join_strings(&names(&["a"]), ", "), "a");
    assert_eq!(join_strings(&names(&["a", "b", "c"]), " AND "), "a AND b AND c");
}

#[test]
fn nontrivial_variables_have_a_name() {
    assert_eq!(var("X").is_nontrivial_variable(), Some("X".to_string()));
    assert_eq!(dist("Y").is_nontrivial_variable(), Some("Y".to_string()));
    assert_eq!(Term::Variable(Variable::Free).is_nontrivial_variable(), None);
    assert_eq!(sym("a").is_nontrivial_variable(), None);
    assert_eq!(Term::Constant(Constant::Integer(3)).is_nontrivial_variable(), None);
}

#[test]
fn atoms_are_written_as_tables_and_as_text() {
    let a = atom("path", vec![var("X"), sym("b"), Term::Constant(Constant::Integer(-3))]);
    assert_eq!(a.to_string(), "path(column_0, column_1, column_2)");
    assert_eq!(a.display(), "path(X, 'b', -3)");
    let n = not("q", vec![
        Term::Variable(Variable::Free),
        Term::Constant(Constant::Boolean(true)),
        Term::Constant(Constant::Float("2.5".to_string())),
    ]);
    assert_eq!(n.display(), "not q(_, true, 2.5)");
    assert_eq!(atom("z", vec![]).to_string(), "z()");
}

#[test]
fn clauses_have_short_names() {
    assert_eq!(Clause::Atom(atom("edge", vec![var("X")])).to_string(), "edge");
    assert_eq!(Clause::Arithmetic(leaf(var("X"))).to_string(), "arith");
}

#[test]
fn leaves_are_listed_from_left_to_right() {
    let tree = Arith {
        operator: Operator::Add,
        lhs: Some(Box::new(Arith {
            operator: Operator::Mul,
            lhs: Some(Box::new(leaf(var("A")))),
            rhs: Some(Box::new(leaf(sym("b")))),
        })),
        rhs: Some(Box::new(Arith {
            operator: Operator::Neg,
            lhs: None,
            rhs: Some(Box::new(leaf(var("C")))),
        })),
    };
    assert_eq!(tree.get_leaves(), vec![var("A"), sym("b"), var("C")]);
    assert_eq!(leaf(var("X")).get_leaves(), vec![var("X")]);
}

#[test]
fn annotation_marks_every_occurrence_of_a_head_variable() {
    let mut r = Rule {
        io: IO::Silent,
        head: atom("p", vec![var("X"), sym("k"), Term::Variable(Variable::Free)]),
        body: vec![
            Clause::Atom(atom("q", vec![var("X"), var("Y")])),
            Clause::Arithmetic(Arith {
                operator: Operator::Less,
                lhs: Some(Box::new(leaf(var("X")))),
                rhs: Some(Box::new(leaf(var("Y")))),
            }),
        ],
    };
    r.annotate_variable();
    assert_eq!(r.head.terms, vec![dist("X"), sym("k"), Term::Variable(Variable::Free)]);
    assert_eq!(r.body[0], Clause::Atom(atom("q", vec![dist("X"), var("Y")])));
    assert_eq!(
        r.body[1],
        Clause::Arithmetic(Arith {
            operator: Operator::Less,
            lhs: Some(Box::new(leaf(dist("X")))),
            rhs: Some(Box::new(leaf(var("Y")))),
        })
    );
}

#[test]
fn base_cases_are_over_known_predicates_only() {
    let r = rule(atom("p", vec![var("X")]), vec![atom("q", vec![var("X")]), atom("r", vec![var("X")])]);
    assert!(r.is_base_case(&names(&["q", "r", "s"])));
    assert!(!r.is_base_case(&names(&["q"])));
    let fact = rule(atom("p", vec![sym("a")]), vec![]);
    assert!(fact.is_base_case(&names(&[])));
    let arithmetic = Rule {
        io: IO::Silent,
        head: atom("p", vec![var("X")]),
        body: vec![Clause::Atom(atom("q", vec![var("X")])), Clause::Arithmetic(leaf(var("X")))],
    };
    assert!(!arithmetic.is_base_case(&names(&["q"])));
}

#[test]
fn strata_put_dependencies_first() {
    let relations = names(&["edge"]);
    let dependencies = vec![
        ("reach".to_string(), "edge".to_string()),
        ("reach".to_string(), "reach".to_string()),
        ("far".to_string(), "reach".to_string()),
    ];
    let stratum = Stratum::new(&relations, &dependencies);
    assert_eq!(stratum.strata, vec![names(&["edge"]), names(&["reach"]), names(&["far"])]);
    assert_eq!(stratum.get_level(&"edge".to_string()), 0);
    assert_eq!(stratum.get_level(&"reach".to_string()), 1);
    assert_eq!(stratum.get_level(&"far".to_string()), 2);
    assert_eq!(stratum.level(&"none".to_string()), None);
}

#[test]
fn mutually_dependent_predicates_share_a_stratum() {
    let dependencies = vec![
        ("a".to_string(), "b".to_string()),
        ("b".to_string(), "a".to_string()),
        ("c".to_string(), "a".to_string()),
    ];
    let stratum = Stratum::new(&names(&[]), &dependencies);
    assert_eq!(stratum.strata.len(), 2);
    let mut first = stratum.strata[0].clone();
    first.sort();
    assert_eq!(first, names(&["a", "b"]));
    assert_eq!(stratum.strata[1], names(&["c"]));
    assert_eq!(stratum.level(&"a".to_string()), stratum.level(&"b".to_string()));
    assert_eq!(stratum.level(&"c".to_string()), Some(1));
}

#[test]
fn strata_from_components_name_each_node() {
    let stratum = Stratum::from_components(&names(&["x", "y", "z"]), &vec![vec![2], vec![0, 1]]);
    assert_eq!(stratum.strata, vec![names(&["z"]), names(&["x", "y"])]);
    assert_eq!(
        stratum.levels,
        vec![("z".to_string(), 0), ("x".to_string(), 1), ("y".to_string(), 1)]
    );
}

#[test]
fn the_context_sorts_and_annotates_the_rules() {
    let program = vec![
        input(atom("edge", vec![sym("int"), sym("int")])),
        rule(atom("reach", vec![var("X"), var("Y")]), vec![atom("edge", vec![var("X"), var("Y")])]),
        output(atom("reach", vec![var("A"), sym("b")])),
        rule(
            atom("reach", vec![var("X"), var("Z")]),
            vec![atom("edge", vec![var("X"), var("Y")]), atom("reach", vec![var("Y"), var("Z")])],
        ),
        output(atom("reach", vec![var("X"), var("Y")])),
    ];
    let context = Context::new(&program).unwrap();
    assert_eq!(context.edbs, vec![program[0].clone()]);
    assert_eq!(context.idbs.len(), 1);
    assert_eq!(context.idbs[0].0, "reach");
    assert_eq!(
        context.idbs[0].1,
        vec![
            rule(atom("reach", vec![dist("X"), dist("Y")]), vec![atom("edge", vec![dist("X"), dist("Y")])]),
            rule(
                atom("reach", vec![dist("X"), dist("Z")]),
                vec![atom("edge", vec![dist("X"), var("Y")]), atom("reach", vec![var("Y"), dist("Z")])],
            ),
        ]
    );
    assert_eq!(context.queries, vec![program[4].clone()]);
    assert_eq!(context.queries(), names(&["reach"]));
    assert_eq!(context.edb_names(), names(&["edge"]));
    assert_eq!(context.ordered_idbs(), names(&["reach"]));
    assert_eq!(context.stratum.level(&"edge".to_string()), Some(0));
    assert_eq!(context.stratum.level(&"reach".to_string()), Some(1));
}

#[test]
fn a_duplicate_base_relation_is_rejected() {
    let program = vec![input(atom("e", vec![sym("int")])), input(atom("e", vec![sym("sym")]))];
    assert_eq!(Context::new(&program), Err(Failure::DuplicatePredicate("e".to_string())));
}

#[test]
fn a_name_cannot_be_base_and_derived() {
    let program = vec![
        rule(atom("e", vec![var("X")]), vec![atom("e", vec![var("X")])]),
        input(atom("e", vec![sym("int")])),
    ];
    assert_eq!(Context::new(&program), Err(Failure::DuplicatePredicate("e".to_string())));
}

#[test]
fn a_free_variable_in_a_head_is_rejected() {
    let program = vec![
        input(atom("e", vec![sym("int")])),
        rule(atom("p", vec![Term::Variable(Variable::Free)]), vec![atom("e", vec![var("X")])]),
    ];
    assert_eq!(Context::new(&program), Err(Failure::FreeVarInHead("p".to_string())));
}

#[test]
fn an_undefined_predicate_is_rejected() {
    let program = vec![
        input(atom("e", vec![sym("int")])),
        rule(atom("p", vec![var("X")]), vec![atom("e", vec![var("X")]), atom("ghost", vec![var("X")])]),
    ];
    assert_eq!(Context::new(&program), Err(Failure::UndefinedPredicate("ghost".to_string())));
}

#[test]
fn the_first_wrong_rule_decides_the_failure() {
    let program = vec![
        input(atom("e", vec![sym("int")])),
        rule(atom("p", vec![var("X")]), vec![atom("ghost", vec![var("X")])]),
        input(atom("e", vec![sym("int")])),
    ];
    assert_eq!(Context::new(&program), Err(Failure::UndefinedPredicate("ghost".to_string())));
}

#[test]
fn negation_within_a_stratum_is_rejected() {
    let program = vec![
        input(atom("e", vec![sym("int")])),
        rule(atom("p", vec![var("X")]), vec![atom("e", vec![var("X")]), not("q", vec![var("X")])]),
        rule(atom("q", vec![var("X")]), vec![atom("e", vec![var("X")]), atom("p", vec![var("X")])]),
    ];
    assert_eq!(
        Context::new(&program),
        Err(Failure::StratificationViolation { predicate: "q".to_string(), kind: Violation::Mutual })
    );
}

#[test]
fn negation_of_a_lower_stratum_is_accepted() {
    let program = vec![
        input(atom("e", vec![sym("int")])),
        input(atom("f", vec![sym("int")])),
        rule(atom("q", vec![var("X")]), vec![atom("f", vec![var("X")])]),
        rule(atom("p", vec![var("X")]), vec![atom("e", vec![var("X")]), not("q", vec![var("X")])]),
    ];
    let context = Context::new(&program).unwrap();
    let p = context.stratum.get_level(&"p".to_string());
    let q = context.stratum.get_level(&"q".to_string());
    assert!(q < p);
    for (_, rules) in context.idbs.iter() {
        for r in rules.iter() {
            let head = context.stratum.get_level(&r.head.predicate);
            for clause in r.body.iter() {
                if let Clause::Atom(a) = clause {
                    if a.negation {
                        assert!(context.stratum.get_level(&a.predicate) < head);
                    }
                }
            }
        }
    }
}

#[test]
fn assembling_under_given_strata_tells_cyclic_from_mutual() {
    let program = vec![
        input(atom("e", vec![sym("int")])),
        rule(atom("p", vec![var("X")]), vec![not("e", vec![var("X")])]),
    ];
    let upward = Stratum::from_components(&names(&["e", "p"]), &vec![vec![1], vec![0]]);
    assert_eq!(
        Context::assemble(&program, upward),
        Err(Failure::StratificationViolation { predicate: "e".to_string(), kind: Violation::Cyclic })
    );
    let level = Stratum::from_components(&names(&["e", "p"]), &vec![vec![0, 1]]);
    assert_eq!(
        Context::assemble(&program, level),
        Err(Failure::StratificationViolation { predicate: "e".to_string(), kind: Violation::Mutual })
    );
    let downward = Stratum::from_components(&names(&["e", "p"]), &vec![vec![0], vec![1]]);
    assert!(Context::assemble(&program, downward).is_ok());
    let partial = Stratum::from_components(&names(&["e", "p"]), &vec![vec![1]]);
    assert_eq!(
        Context::assemble(&program, partial),
        Err(Failure::UndefinedPredicate("e".to_string()))
    );
}

#[test]
fn failures_have_messages() {
    assert_eq!(Failure::ParseError(12).message(), "Parsing error at character 12");
    assert_eq!(Failure::DuplicatePredicate("e".to_string()).message(), "Duplicated predicate: e");
    assert_eq!(Failure::UndefinedPredicate("g".to_string()).message(), "Undefined predicate: g");
    assert_eq!(Failure::FreeVarInHead("p".to_string()).message(), "Free variable in head of idb: p");
    assert_eq!(
        Failure::StratificationViolation { predicate: "q".to_string(), kind: Violation::Cyclic }.message(),
        "Cyclic dependency: q"
    );
    assert_eq!(
        Failure::StratificationViolation { predicate: "q".to_string(), kind: Violation::Mutual }.message(),
        "Mutual dependency: q"
    );
    assert_eq!(Failure::UnknownType("bool".to_string()).message(), "Invalid type: bool");
    assert_eq!(
        Failure::UnwitnessedHeadVar { variable: "X".to_string(), predicate: "p".to_string() }.message(),
        "Term `X` in `p` should be annotated"
    );
    assert_eq!(Failure::MissingBaseTable("e".to_string()).message(), "EDB e is not present in database");
    assert_eq!(Failure::ArityMismatch("e".to_string()).message(), "Arity mismatch: e");
    assert_eq!(Failure::BackendError("boom".to_string()).message(), "Backend error: boom");
    assert_eq!(Failure::IterationOverflow("p".to_string()).message(), "Too many steps: p");
}

#[test]
fn a_relation_of_facts_alone_has_a_level() {
    let fact = rule(atom("p", vec![Term::Constant(Constant::Integer(1))]), vec![]);
    let context = Context::new(&vec![fact.clone()]).unwrap();
    assert_eq!(context.edbs, vec![]);
    assert_eq!(context.idbs, vec![("p".to_string(), vec![fact])]);
    assert_eq!(context.stratum.strata, vec![names(&["p"])]);
    assert_eq!(context.stratum.level(&"p".to_string()), Some(0));
    assert_eq!(context.ordered_idbs(), names(&["p"]));
}

#[test]
fn a_program_without_a_wrong_rule_or_negation_is_accepted() {
    let program = vec![
        input(atom("e", vec![sym("int")])),
        rule(atom("p", vec![var("X")]), vec![atom("e", vec![var("X")])]),
    ];
    let context = Context::new(&program).unwrap();
    assert_eq!(context.stratum.strata, vec![names(&["e"]), names(&["p"])]);
}

#[test]
fn the_strata_part_the_predicates() {
    let program = vec![
        input(atom("e", vec![sym("int")])),
        input(atom("lone", vec![sym("int")])),
        rule(atom("a", vec![var("X")]), vec![atom("e", vec![var("X")]), atom("b", vec![var("X")])]),
        rule(atom("b", vec![var("X")]), vec![atom("a", vec![var("X")])]),
        rule(atom("a", vec![var("X")]), vec![atom("e", vec![var("X")])]),
        rule(atom("c", vec![var("X")]), vec![atom("b", vec![var("X")])]),
        rule(atom("fact", vec![Term::Constant(Constant::Integer(3))]), vec![]),
    ];
    let context = Context::new(&program).unwrap();
    let mut seen: Vec<String> = Vec::new();
    for stratum in context.stratum.strata.iter() {
        assert!(!stratum.is_empty());
        for name in stratum.iter() {
            assert!(!seen.contains(name));
            seen.push(name.clone());
        }
    }
    seen.sort();
    assert_eq!(seen, names(&["a", "b", "c", "e", "fact", "lone"]));
    let queue = context.ordered_idbs();
    let mut sorted = queue.clone();
    sorted.sort();
    sorted.dedup();
    assert_eq!(sorted, names(&["a", "b", "c", "fact"]));
    assert_eq!(queue.len(), 4);
    let level = |name: &str| context.stratum.level(&name.to_string()).unwrap();
    assert_eq!(level("a"), level("b"));
    assert!(level("e") < level("a"));
    assert!(level("b") < level("c"));
}
