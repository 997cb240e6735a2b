use amoeba::engine::analysis::{Analyzer, DataType, VarDict, VarGroup};
use amoeba::engine::compile::{affirm, compile, select};
use amoeba::engine::query::{Column, Condition, Join, Projection, Selection};
use amoeba::engine::runtime::{
    check_base_table, checks_of, database_path, insertion_of, lines_of, Plan, QueryReport,
};
use amoeba::engine::statement::{Check, Statement};
use amoeba::error::Failure;
use amoeba::syntax::ast::{Arith, Atom, Clause, Constant, IO, Operator, Rule, Term, Variable};
use amoeba::syntax::context::Context;

fn var(name: &str) -> Term {
    Term::Variable(Variable::Undistinguished(name.to_string()))
}

fn sym(name: &str) -> Term {
    Term::Constant(Constant::Symbol(name.to_string()))
}

fn number(value: i64) -> Term {
    Term::Constant(Constant::Integer(value))
}

fn atom(predicate: &str, terms: Vec<Term>) -> Atom {
    Atom { negation: false, predicate: predicate.to_string(), terms }
}

fn rule(head: Atom, body: Vec<Atom>) -> Rule {
    Rule { io: IO::Silent, head, body: body.into_iter().map(Clause::Atom).collect() }
}

fn input(head: Atom) -> Rule {
    Rule { io: IO::Read(None), head, body: Vec::new() }
}

fn leaf(term: Term) -> Arith {
    Arith { operator: Operator::Leaf(term), lhs: None, rhs: None }
}

fn column(clause: usize, index: usize) -> Column {
    Column { clause, index }
}

fn names(list: &[&str]) -> Vec<String> {
    list.iter().map(|s| s.to_string()).collect()
}

fn step_rule() -> Rule {
    rule(
        atom("reach", vec![var("X"), var("Z")]),
        vec![atom("edge", vec![var("X"), var("Y")]), atom("reach", vec![var("Y"), var("Z")])],
    )
}

#[test]
fn the_index_groups_occurrences_by_clause() {
    let r = Rule {
        io: IO::Silent,
        head: atom("p", vec![var("X"), var("Y"), var("X")]),
        body: vec![
            Clause::Atom(atom("q", vec![var("Y"), var("X"), var("Y")])),
            Clause::Arithmetic(Arith {
                operator: Operator::Less,
                lhs: Some(Box::new(leaf(var("Z")))),
                rhs: Some(Box::new(leaf(var("X")))),
            }),
            Clause::Atom(atom("r", vec![sym("a"), var("X")])),
        ],
    };
    let dict = VarDict::new(&r);
    assert_eq!(
        dict.head_dict,
        vec![("X".to_string(), vec![0, 2]), ("Y".to_string(), vec![1])]
    );
    assert_eq!(
        dict.clause_dict,
        vec![
            ("Y".to_string(), vec![VarGroup { is_arith: false, clause_index: 0, term_indexes: vec![0, 2] }]),
            (
                "X".to_string(),
                vec![
                    VarGroup { is_arith: false, clause_index: 0, term_indexes: vec![1] },
                    VarGroup { is_arith: true, clause_index: 1, term_indexes: vec![1] },
                    VarGroup { is_arith: false, clause_index: 2, term_indexes: vec![1] },
                ]
            ),
            ("Z".to_string(), vec![VarGroup { is_arith: true, clause_index: 1, term_indexes: vec![0] }]),
        ]
    );
    assert_eq!(dict.allocate(&"X".to_string()), vec![(0, 1), (1, 1), (2, 1)]);
    assert_eq!(dict.allocate(&"Y".to_string()), vec![(0, 0), (0, 2)]);
    assert_eq!(dict.allocate(&"W".to_string()), vec![]);
    assert!(dict.clause_dict[0].1[0].contain_duplicate());
    assert!(!dict.clause_dict[1].1[0].contain_duplicate());
}

#[test]
fn an_arithmetic_clause_gets_a_group_of_its_own_after_an_atom() {
    let r = Rule {
        io: IO::Silent,
        head: atom("p", vec![var("X")]),
        body: vec![
            Clause::Atom(atom("q", vec![var("X")])),
            Clause::Arithmetic(leaf(var("X"))),
        ],
    };
    let dict = VarDict::new(&r);
    assert_eq!(dict.clause_dict[0].1.len(), 2);
    assert!(dict.clause_dict[0].1[1].is_arith);
}

#[test]
fn the_step_rule_compiles_to_a_join() {
    let naive = compile(&step_rule(), false).unwrap();
    assert_eq!(
        naive,
        Selection {
            projection: vec![
                Projection::Column(column(0, 0)),
                Projection::Column(column(1, 1)),
            ],
            from: Some(("edge".to_string(), 0)),
            joins: vec![Join {
                table: "reach".to_string(),
                clause: 1,
                on: vec![Condition::Columns(column(0, 1), column(1, 0))],
            }],
            filters: vec![],
            absent: vec![],
        }
    );
    let semi = compile(&step_rule(), true).unwrap();
    assert_eq!(semi.projection[1], Projection::Column(column(1, 1)));
    assert_eq!(semi.from, Some(("edge".to_string(), 0)));
    assert_eq!(semi.joins[0].table, "delta_reach");
    assert_eq!(semi.joins[0].clause, 1);
    assert_eq!(semi.joins[0].on, vec![Condition::Columns(column(0, 1), column(1, 0))]);
}

#[test]
fn the_source_has_the_smallest_term_position() {
    let r = rule(
        atom("p", vec![var("X")]),
        vec![atom("a", vec![var("Y"), var("X")]), atom("b", vec![var("X"), var("Y")])],
    );
    let selection = compile(&r, false).unwrap();
    assert_eq!(selection.projection, vec![Projection::Column(column(1, 0))]);
    assert_eq!(selection.from, Some(("b".to_string(), 1)));
    assert_eq!(selection.joins.len(), 1);
    assert_eq!(selection.joins[0].table, "a");
    assert_eq!(selection.joins[0].clause, 0);
    assert_eq!(
        selection.joins[0].on,
        vec![
            Condition::Columns(column(0, 0), column(1, 1)),
            Condition::Columns(column(0, 1), column(1, 0)),
        ]
    );
}

#[test]
fn ties_between_sources_go_to_the_earlier_clause() {
    let r = rule(
        atom("p", vec![var("X")]),
        vec![atom("a", vec![var("X")]), atom("b", vec![var("X")])],
    );
    let selection = compile(&r, false).unwrap();
    assert_eq!(selection.projection, vec![Projection::Column(column(0, 0))]);
}

#[test]
fn repeated_variables_and_constants_become_filters() {
    let r = rule(
        atom("p", vec![var("X"), sym("k")]),
        vec![atom("q", vec![var("X"), number(7), var("X"), sym("a"), var("X")])],
    );
    let selection = compile(&r, false).unwrap();
    assert_eq!(
        selection.projection,
        vec![
            Projection::Column(column(0, 0)),
            Projection::Literal(Constant::Symbol("k".to_string())),
        ]
    );
    assert_eq!(selection.joins, vec![]);
    assert_eq!(
        selection.filters,
        vec![
            Condition::Columns(column(0, 0), column(0, 2)),
            Condition::Columns(column(0, 0), column(0, 4)),
            Condition::Constant(column(0, 1), Constant::Integer(7)),
            Condition::Constant(column(0, 3), Constant::Symbol("a".to_string())),
        ]
    );
}

#[test]
fn a_head_variable_without_source_does_not_compile() {
    let r = rule(atom("p", vec![var("X"), var("W")]), vec![atom("q", vec![var("X")])]);
    assert_eq!(
        compile(&r, false),
        Err(Failure::UnwitnessedHeadVar { variable: "W".to_string(), predicate: "p".to_string() })
    );
    let free = rule(atom("p", vec![Term::Variable(Variable::Free)]), vec![atom("q", vec![var("X")])]);
    assert_eq!(compile(&free, false), Err(Failure::FreeVarInHead("p".to_string())));
    let arithmetic = Rule {
        io: IO::Silent,
        head: atom("p", vec![var("X")]),
        body: vec![Clause::Arithmetic(leaf(var("X")))],
    };
    assert_eq!(
        compile(&arithmetic, true),
        Err(Failure::UnwitnessedHeadVar { variable: "X".to_string(), predicate: "p".to_string() })
    );
}

#[test]
fn a_fact_selects_its_constants() {
    let fact = rule(atom("p", vec![number(1), sym("a")]), vec![]);
    let selection = compile(&fact, false).unwrap();
    assert_eq!(selection.from, None);
    let statement = insertion_of(&fact, false).unwrap();
    assert_eq!(
        statement.to_sql(),
        "INSERT OR IGNORE INTO p(column_0, column_1)\n         SELECT 1 AS column_0, 'a' AS column_1"
    );
}

#[test]
fn statements_are_worded_in_sql() {
    let semi = insertion_of(&step_rule(), true).unwrap();
    assert_eq!(
        semi.to_sql(),
        "INSERT OR IGNORE INTO temp_reach(column_0, column_1)\n         SELECT t0.column_0 AS column_0, t1.column_1 AS column_1\n         FROM edge AS t0\n         JOIN delta_reach AS t1 ON t0.column_1 = t1.column_0"
    );
    let filtered = insertion_of(
        &rule(atom("p", vec![var("X")]), vec![atom("q", vec![var("X"), number(7), var("X")])]),
        false,
    )
    .unwrap();
    assert_eq!(
        filtered.to_sql(),
        "INSERT OR IGNORE INTO p(column_0)\n         SELECT t0.column_0 AS column_0\n         FROM q AS t0\n         WHERE t0.column_0 = t0.column_2 AND t0.column_1 = 7"
    );
    let create = Statement::CreateTable {
        table: "t".to_string(),
        types: vec![DataType::Integer, DataType::Symbol, DataType::Float],
    };
    assert_eq!(
        create.to_sql(),
        "CREATE TABLE IF NOT EXISTS t (column_0 INTEGER, column_1 TEXT, column_2 REAL, UNIQUE(column_0, column_1, column_2));"
    );
    let select = Statement::Select {
        table: "q".to_string(),
        arity: 3,
        checks: vec![Check::Constant(1, Constant::Symbol("a".to_string())), Check::Same(0, 2)],
    };
    assert_eq!(
        select.to_sql(),
        "SELECT CAST(column_0 AS TEXT), CAST(column_1 AS TEXT), CAST(column_2 AS TEXT) FROM q WHERE column_1 = 'a' AND column_0 = column_2;"
    );
    assert_eq!(
        Statement::Select { table: "q".to_string(), arity: 1, checks: vec![] }.to_sql(),
        "SELECT CAST(column_0 AS TEXT) FROM q;"
    );
    assert_eq!(Statement::Clear { table: "d".to_string() }.to_sql(), "DELETE FROM d");
    assert_eq!(Statement::Drop { table: "d".to_string() }.to_sql(), "DROP TABLE d;");
    assert_eq!(Statement::Count { table: "d".to_string() }.to_sql(), "SELECT COUNT(*) FROM d");
    assert_eq!(
        Statement::Union { dest: "p".to_string(), source: "d".to_string() }.to_sql(),
        "INSERT OR IGNORE INTO p\n         SELECT * FROM d;"
    );
}

#[test]
fn the_checks_of_a_query_follow_its_head() {
    let query = Rule {
        io: IO::Write(None),
        head: atom("q", vec![var("X"), sym("a"), var("Y"), var("X"), number(3), var("X")]),
        body: vec![],
    };
    assert_eq!(
        checks_of(&query),
        vec![
            Check::Constant(1, Constant::Symbol("a".to_string())),
            Check::Constant(4, Constant::Integer(3)),
            Check::Same(0, 3),
            Check::Same(0, 5),
        ]
    );
}

#[test]
fn few_rows_are_reported_in_full() {
    let rows: Vec<Vec<String>> = (0..20).map(|i| vec![i.to_string(), "x".to_string()]).collect();
    let lines = lines_of(&rows);
    assert_eq!(lines.len(), 20);
    assert_eq!(lines[0], "0, x");
    assert_eq!(lines[19], "19, x");
    assert_eq!(lines_of(&vec![]), Vec::<String>::new());
}

#[test]
fn many_rows_are_reported_by_their_ends() {
    let rows: Vec<Vec<String>> = (0..21).map(|i| vec![i.to_string()]).collect();
    let lines = lines_of(&rows);
    assert_eq!(
        lines,
        vec![
            "0", "1", "2", "3", "4", "5", "6", "7", "8", "9", "...", "11", "12", "13", "14", "15",
            "16", "17", "18", "19", "20"
        ]
    );
    let query = Rule { io: IO::Write(None), head: atom("q", vec![var("X")]), body: vec![] };
    let report = QueryReport::new(&query, &rows);
    assert_eq!(report.head, "q(X)");
    assert_eq!(report.count, 21);
    assert_eq!(report.lines, lines);
}

#[test]
fn the_store_stands_beside_the_source() {
    assert_eq!(database_path("examples/graph.amo"), "examples/graph.db");
    assert_eq!(database_path("graph.txt"), "graph.txt");
    assert_eq!(database_path("amo"), "amo");
    assert_eq!(database_path(".amo"), ".db");
    assert_eq!(database_path("a.amo.amo"), "a.amo.db");
}

#[test]
fn base_tables_are_checked_against_their_declaration() {
    let declared = input(atom("edge", vec![sym("int"), sym("int")]));
    assert_eq!(check_base_table(&declared, 1, 2), Ok(()));
    assert_eq!(check_base_table(&declared, 0, 0), Err(Failure::MissingBaseTable("edge".to_string())));
    assert_eq!(check_base_table(&declared, 0, 2), Err(Failure::MissingBaseTable("edge".to_string())));
    assert_eq!(check_base_table(&declared, 1, 3), Err(Failure::ArityMismatch("edge".to_string())));
}

fn typed(program: &Vec<Rule>) -> Result<Analyzer, Failure> {
    let context = Context::new(program)?;
    let mut analyzer = Analyzer::new();
    analyzer.type_inference(&context)?;
    Ok(analyzer)
}

#[test]
fn types_flow_from_base_relations_to_derived_ones() {
    let program = vec![
        input(atom("person", vec![sym("sym"), sym("int"), sym("float")])),
        rule(atom("age", vec![var("A"), var("N")]), vec![atom("person", vec![var("N"), var("A"), var("W")])]),
        rule(atom("old", vec![var("N")]), vec![atom("age", vec![var("A"), var("N")])]),
    ];
    let analyzer = typed(&program).unwrap();
    assert_eq!(
        analyzer.data_types,
        vec![
            ("person".to_string(), vec![DataType::Symbol, DataType::Integer, DataType::Float]),
            ("age".to_string(), vec![DataType::Integer, DataType::Symbol]),
            ("old".to_string(), vec![DataType::Symbol]),
        ]
    );
    for (name, types) in analyzer.data_types.iter() {
        let arity = program.iter().find(|r| &r.head.predicate == name).unwrap().head.terms.len();
        assert_eq!(types.len(), arity);
    }
}

#[test]
fn an_unknown_type_name_is_rejected() {
    let program = vec![input(atom("e", vec![sym("int"), sym("bool")]))];
    assert_eq!(typed(&program).err(), Some(Failure::UnknownType("bool".to_string())));
    let numbered = vec![input(atom("e", vec![number(3)]))];
    assert_eq!(typed(&numbered).err(), Some(Failure::UnknownType("3".to_string())));
}

#[test]
fn an_unwitnessed_head_variable_is_rejected() {
    let program = vec![
        input(atom("e", vec![sym("int")])),
        rule(atom("p", vec![var("X"), var("Y")]), vec![atom("e", vec![var("X")])]),
    ];
    assert_eq!(
        typed(&program).err(),
        Some(Failure::UnwitnessedHeadVar { variable: "Y".to_string(), predicate: "p".to_string() })
    );
}

#[test]
fn an_atom_with_too_many_terms_is_rejected() {
    let program = vec![
        input(atom("e", vec![sym("int")])),
        rule(atom("p", vec![var("X")]), vec![atom("e", vec![var("Y"), var("X")])]),
    ];
    assert_eq!(typed(&program).err(), Some(Failure::ArityMismatch("e".to_string())));
}

#[test]
fn a_later_insert_takes_the_place_of_an_earlier() {
    let mut analyzer = Analyzer::new();
    analyzer.insert("a".to_string(), vec![DataType::Integer]);
    analyzer.insert("b".to_string(), vec![DataType::Symbol]);
    analyzer.insert("a".to_string(), vec![DataType::Float, DataType::Float]);
    assert_eq!(
        analyzer.data_types,
        vec![
            ("a".to_string(), vec![DataType::Float, DataType::Float]),
            ("b".to_string(), vec![DataType::Symbol]),
        ]
    );
    assert_eq!(analyzer.find(&"b".to_string()), 1);
    assert_eq!(analyzer.find(&"c".to_string()), 2);
}

#[test]
fn a_plan_has_seeds_and_steps() {
    let mut analyzer = Analyzer::new();
    analyzer.insert("reach".to_string(), vec![DataType::Integer, DataType::Integer]);
    let rules = vec![
        rule(atom("reach", vec![var("X"), var("Y")]), vec![atom("edge", vec![var("X"), var("Y")])]),
        step_rule(),
    ];
    let plan = Plan::new(&analyzer, &"reach".to_string(), &rules, &names(&["edge"])).unwrap();
    assert_eq!(plan.predicate, "reach");
    assert_eq!(plan.arity, 2);
    assert_eq!(plan.seeds, vec![insertion_of(&rules[0], false).unwrap()]);
    assert_eq!(plan.steps, vec![insertion_of(&rules[1], true).unwrap()]);
    assert_eq!(
        plan.create,
        Statement::CreateTable {
            table: "reach".to_string(),
            types: vec![DataType::Integer, DataType::Integer]
        }
    );
}

#[test]
fn a_relation_without_types_or_with_another_arity_has_no_plan() {
    let rules = vec![step_rule()];
    let empty = Analyzer::new();
    assert_eq!(
        Plan::new(&empty, &"reach".to_string(), &rules, &names(&["edge"])).err(),
        Some(Failure::UnknownType("reach".to_string()))
    );
    let mut narrow = Analyzer::new();
    narrow.insert("reach".to_string(), vec![DataType::Integer]);
    assert_eq!(
        Plan::new(&narrow, &"reach".to_string(), &rules, &names(&["edge"])).err(),
        Some(Failure::ArityMismatch("reach".to_string()))
    );
}

#[test]
fn two_atoms_over_one_relation_are_read_under_two_names() {
    let r = rule(
        atom("path2", vec![var("X"), var("Z")]),
        vec![atom("edge", vec![var("X"), var("Y")]), atom("edge", vec![var("Y"), var("Z")])],
    );
    let selection = compile(&r, false).unwrap();
    assert_eq!(
        selection,
        Selection {
            projection: vec![
                Projection::Column(column(0, 0)),
                Projection::Column(column(1, 1)),
            ],
            from: Some(("edge".to_string(), 0)),
            joins: vec![Join {
                table: "edge".to_string(),
                clause: 1,
                on: vec![Condition::Columns(column(0, 1), column(1, 0))],
            }],
            filters: vec![],
            absent: vec![],
        }
    );
    assert_eq!(
        insertion_of(&r, false).unwrap().to_sql(),
        "INSERT OR IGNORE INTO path2(column_0, column_1)\n         SELECT t0.column_0 AS column_0, t1.column_1 AS column_1\n         FROM edge AS t0\n         JOIN edge AS t1 ON t0.column_1 = t1.column_0"
    );
}

#[test]
fn a_clause_is_named_by_its_position() {
    assert_eq!(amoeba::engine::query::render_alias(0), "t0");
    assert_eq!(amoeba::engine::query::render_alias(12), "t12");
    let far = Column { clause: 10, index: 3 };
    assert_eq!(far.to_sql(), "t10.column_3");
}

fn not(predicate: &str, terms: Vec<Term>) -> Clause {
    Clause::Atom(Atom { negation: true, predicate: predicate.to_string(), terms })
}

#[test]
fn a_negated_atom_asks_that_no_row_stands_against_the_rule() {
    let r = Rule {
        io: IO::Silent,
        head: atom("p", vec![var("X")]),
        body: vec![
            Clause::Atom(atom("a", vec![var("X")])),
            not("b", vec![var("X"), number(7), var("W"), var("W"), Term::Variable(Variable::Free)]),
        ],
    };
    let selection = compile(&r, false).unwrap();
    assert_eq!(selection.projection, vec![Projection::Column(column(0, 0))]);
    assert_eq!(selection.from, Some(("a".to_string(), 0)));
    assert_eq!(selection.joins, vec![]);
    assert_eq!(selection.filters, vec![]);
    assert_eq!(
        selection.absent,
        vec![Join {
            table: "b".to_string(),
            clause: 1,
            on: vec![
                Condition::Columns(column(0, 0), column(1, 0)),
                Condition::Constant(column(1, 1), Constant::Integer(7)),
                Condition::Columns(column(1, 2), column(1, 3)),
            ],
        }]
    );
    assert_eq!(
        insertion_of(&r, false).unwrap().to_sql(),
        "INSERT OR IGNORE INTO p(column_0)\n         SELECT t0.column_0 AS column_0\n         FROM a AS t0\n         WHERE NOT EXISTS (SELECT 1 FROM b AS t1 WHERE t0.column_0 = t1.column_0 AND t1.column_1 = 7 AND t1.column_2 = t1.column_3)"
    );
}

#[test]
fn a_negated_atom_is_no_source_and_no_anchor() {
    let r = Rule {
        io: IO::Silent,
        head: atom("p", vec![var("X")]),
        body: vec![not("b", vec![var("X")]), Clause::Atom(atom("a", vec![var("Y"), var("X")]))],
    };
    let selection = compile(&r, false).unwrap();
    assert_eq!(selection.projection, vec![Projection::Column(column(1, 1))]);
    assert_eq!(selection.from, Some(("a".to_string(), 1)));
    assert_eq!(selection.absent.len(), 1);
    assert_eq!(selection.absent[0].on, vec![Condition::Columns(column(1, 1), column(0, 0))]);
    let only = Rule {
        io: IO::Silent,
        head: atom("p", vec![var("X")]),
        body: vec![not("b", vec![var("X")])],
    };
    assert_eq!(
        compile(&only, false),
        Err(Failure::UnwitnessedHeadVar { variable: "X".to_string(), predicate: "p".to_string() })
    );
    let fact = Rule {
        io: IO::Silent,
        head: atom("p", vec![number(1)]),
        body: vec![not("b", vec![Term::Variable(Variable::Free)])],
    };
    assert_eq!(
        insertion_of(&fact, false).unwrap().to_sql(),
        "INSERT OR IGNORE INTO p(column_0)\n         SELECT 1 AS column_0\n         WHERE NOT EXISTS (SELECT 1 FROM b AS t0)"
    );
}

#[test]
fn an_atom_without_a_shared_variable_is_joined_without_a_condition() {
    let r = rule(
        atom("p", vec![var("X")]),
        vec![atom("a", vec![var("X")]), atom("b", vec![var("Y"), number(3)])],
    );
    let selection = compile(&r, false).unwrap();
    assert_eq!(
        selection.joins,
        vec![Join { table: "b".to_string(), clause: 1, on: vec![] }]
    );
    assert_eq!(
        insertion_of(&r, false).unwrap().to_sql(),
        "INSERT OR IGNORE INTO p(column_0)\n         SELECT t0.column_0 AS column_0\n         FROM a AS t0\n         JOIN b AS t1\n         WHERE t1.column_1 = 3"
    );
}

#[test]
fn the_rule_without_its_negated_atoms_keeps_the_places() {
    let r = Rule {
        io: IO::Silent,
        head: atom("p", vec![var("X")]),
        body: vec![not("b", vec![var("X")]), Clause::Atom(atom("a", vec![var("X")]))],
    };
    let plain = affirm(&r);
    assert_eq!(plain.head, r.head);
    assert_eq!(plain.body.len(), 2);
    assert_eq!(plain.body[1], r.body[1]);
    assert!(matches!(plain.body[0], Clause::Arithmetic(_)));
    assert_eq!(select(&plain, false).map(|s| s.absent.len()), Ok(0));
    assert_eq!(select(&plain, false).unwrap().projection, compile(&r, false).unwrap().projection);
}
