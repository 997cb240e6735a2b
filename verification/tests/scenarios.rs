use amoeba::engine::runtime::Runtime;
use amoeba::error::Failure;
use amoeba::syntax::ast::{Atom, Clause, Constant, IO, Rule, Term, Variable};
use amoeba::syntax::context::Context;

fn var(name: &str) -> Term {
    Term::Variable(Variable::Undistinguished(name.to_string()))
}

fn sym(name: &str) -> Term {
    Term::Constant(Constant::Symbol(name.to_string()))
}

fn number(value: i64) -> Term {
    Term::Constant(Constant::Integer(value))
}

fn atom(predicate: &str, terms: Vec<Term>) -> Atom {
    Atom { negation: false, predicate: predicate.to_string(), terms }
}

fn rule(head: Atom, body: Vec<Atom>) -> Rule {
    Rule { io: IO::Silent, head, body: body.into_iter().map(Clause::Atom).collect() }
}

fn input(head: Atom) -> Rule {
    Rule { io: IO::Read(None), head, body: Vec::new() }
}

fn output(head: Atom) -> Rule {
    Rule { io: IO::Write(None), head, body: Vec::new() }
}

fn edge_store(edges: &[(i64, i64)]) -> rusqlite::Connection {
    let store = rusqlite::Connection::open_in_memory().unwrap();
    store.execute("CREATE TABLE edge (column_0 INTEGER, column_1 INTEGER, UNIQUE(column_0, column_1))", ()).unwrap();
    for (a, b) in edges {
        store.execute("INSERT INTO edge VALUES (?1, ?2)", (a, b)).unwrap();
    }
    store
}

fn pairs(store: &rusqlite::Connection, table: &str) -> Vec<(i64, i64)> {
    let sql = format!("SELECT column_0, column_1 FROM {} ORDER BY column_0, column_1", table);
    let mut statement = store.prepare(&sql).unwrap();
    let rows = statement.query_map((), |row| Ok((row.get(0)?, row.get(1)?))).unwrap();
    rows.map(|r| r.unwrap()).collect()
}

fn singles(store: &rusqlite::Connection, table: &str) -> Vec<i64> {
    let sql = format!("SELECT column_0 FROM {} ORDER BY column_0", table);
    let mut statement = store.prepare(&sql).unwrap();
    let rows = statement.query_map((), |row| row.get(0)).unwrap();
    rows.map(|r| r.unwrap()).collect()
}

fn closure_program() -> Vec<Rule> {
    vec![
        input(atom("edge", vec![sym("int"), sym("int")])),
        rule(atom("reach", vec![var("X"), var("Y")]), vec![atom("edge", vec![var("X"), var("Y")])]),
        rule(
            atom("reach", vec![var("X"), var("Z")]),
            vec![atom("edge", vec![var("X"), var("Y")]), atom("reach", vec![var("Y"), var("Z")])],
        ),
    ]
}

fn evaluate(program: Vec<Rule>, store: rusqlite::Connection) -> (Runtime, amoeba::engine::runtime::Evaluation) {
    let context = Context::new(&program).unwrap();
    let mut runtime = Runtime::new(context, store).unwrap();
    let done = runtime.eval().unwrap();
    (runtime, done)
}

#[test]
fn transitive_closure_of_a_chain() {
    let (runtime, done) = evaluate(closure_program(), edge_store(&[(1, 2), (2, 3), (3, 4)]));
    assert_eq!(
        pairs(&runtime.database, "reach"),
        vec![(1, 2), (1, 3), (1, 4), (2, 3), (2, 4), (3, 4)]
    );
    assert_eq!(done.iterations, vec![3]);
    assert_eq!(runtime.counts, vec![2, 1, 0]);
}

#[test]
fn transitive_closure_of_a_cycle() {
    let (runtime, _) = evaluate(closure_program(), edge_store(&[(1, 2), (2, 1)]));
    assert_eq!(pairs(&runtime.database, "reach"), vec![(1, 1), (1, 2), (2, 1), (2, 2)]);
}

#[test]
fn self_equality_filter() {
    let program = vec![
        input(atom("edge", vec![sym("int"), sym("int")])),
        rule(atom("same", vec![var("X")]), vec![atom("edge", vec![var("X"), var("X")])]),
    ];
    let (runtime, _) = evaluate(program, edge_store(&[(1, 1), (1, 2), (2, 2)]));
    assert_eq!(singles(&runtime.database, "same"), vec![1, 2]);
}

#[test]
fn constant_filter() {
    let program = vec![
        input(atom("edge", vec![sym("int"), sym("int")])),
        rule(atom("from1", vec![var("Y")]), vec![atom("edge", vec![number(1), var("Y")])]),
    ];
    let (runtime, _) = evaluate(program, edge_store(&[(1, 2), (1, 3), (2, 3)]));
    assert_eq!(singles(&runtime.database, "from1"), vec![2, 3]);
}

#[test]
fn two_level_stratum() {
    let program = vec![
        input(atom("edge", vec![sym("int"), sym("int")])),
        rule(
            atom("a", vec![var("X")]),
            vec![atom("edge", vec![var("X"), Term::Variable(Variable::Free)])],
        ),
        rule(atom("b", vec![var("X")]), vec![atom("a", vec![var("X")])]),
        output(atom("b", vec![var("X")])),
    ];
    let (runtime, done) = evaluate(program, edge_store(&[(1, 2), (1, 3), (2, 3), (5, 1)]));
    assert_eq!(singles(&runtime.database, "b"), vec![1, 2, 5]);
    assert_eq!(done.reports.len(), 1);
    assert_eq!(done.reports[0].head, "b(X)");
    assert_eq!(done.reports[0].count, 3);
    let mut lines = done.reports[0].lines.clone();
    lines.sort();
    assert_eq!(lines, vec!["1", "2", "5"]);
    assert_eq!(done.iterations, vec![0, 0]);
}

#[test]
fn empty_fixpoint() {
    let (runtime, done) = evaluate(closure_program(), edge_store(&[]));
    assert_eq!(pairs(&runtime.database, "reach"), Vec::<(i64, i64)>::new());
    assert_eq!(done.iterations, vec![1]);
    assert_eq!(runtime.counts, vec![0]);
}

#[test]
fn working_tables_are_dropped() {
    let (runtime, _) = evaluate(closure_program(), edge_store(&[(1, 2), (2, 3)]));
    let tables: i64 = runtime
        .database
        .query_row(
            "SELECT COUNT(*) FROM sqlite_master WHERE name IN ('delta_reach', 'temp_reach')",
            (),
            |row| row.get(0),
        )
        .unwrap();
    assert_eq!(tables, 0);
}

#[test]
fn missing_base_table_is_reported() {
    let program = vec![input(atom("node", vec![sym("int")]))];
    let context = Context::new(&program).unwrap();
    match Runtime::new(context, edge_store(&[])) {
        Err(Failure::MissingBaseTable(name)) => assert_eq!(name, "node"),
        _ => panic!("expected a missing base table"),
    }
}

#[test]
fn arity_mismatch_is_reported() {
    let program = vec![input(atom("edge", vec![sym("int")]))];
    let context = Context::new(&program).unwrap();
    match Runtime::new(context, edge_store(&[])) {
        Err(Failure::ArityMismatch(name)) => assert_eq!(name, "edge"),
        _ => panic!("expected an arity mismatch"),
    }
}

#[test]
fn log_of_the_closure() {
    let (runtime, _) = evaluate(closure_program(), edge_store(&[]));
    let expected = vec![
        "SELECT name FROM sqlite_master WHERE type='table' AND name='edge';",
        "SELECT name FROM pragma_table_info('edge')",
        "CREATE TABLE IF NOT EXISTS reach (column_0 INTEGER, column_1 INTEGER, UNIQUE(column_0, column_1));",
        "INSERT OR IGNORE INTO reach(column_0, column_1)\n         SELECT t0.column_0 AS column_0, t0.column_1 AS column_1\n         FROM edge AS t0",
        "CREATE TABLE delta_reach AS SELECT * FROM reach",
        "CREATE TABLE temp_reach AS SELECT * FROM reach WHERE 1 = 0",
        "INSERT OR IGNORE INTO temp_reach(column_0, column_1)\n         SELECT t0.column_0 AS column_0, t1.column_1 AS column_1\n         FROM edge AS t0\n         JOIN delta_reach AS t1 ON t0.column_1 = t1.column_0",
        "DELETE FROM delta_reach",
        "INSERT OR IGNORE INTO delta_reach\n         SELECT temp_reach.* FROM temp_reach\n         LEFT JOIN reach ON temp_reach.column_0 = reach.column_0 AND temp_reach.column_1 = reach.column_1\n         WHERE reach.column_0 IS NULL AND reach.column_1 IS NULL",
        "INSERT OR IGNORE INTO reach\n         SELECT * FROM delta_reach;",
        "SELECT COUNT(*) FROM delta_reach",
        "DROP TABLE delta_reach;",
        "DROP TABLE temp_reach;",
    ];
    assert_eq!(runtime.log, expected);
}

#[test]
fn stratified_negation() {
    let store = rusqlite::Connection::open_in_memory().unwrap();
    store.execute("CREATE TABLE a (column_0 INTEGER, UNIQUE(column_0))", ()).unwrap();
    store.execute("CREATE TABLE b (column_0 INTEGER, UNIQUE(column_0))", ()).unwrap();
    for value in [1, 2, 3] {
        store.execute("INSERT INTO a VALUES (?1)", [value]).unwrap();
    }
    store.execute("INSERT INTO b VALUES (2)", ()).unwrap();
    let negated = Atom { negation: true, predicate: "b".to_string(), terms: vec![var("X")] };
    let program = vec![
        input(atom("a", vec![sym("int")])),
        input(atom("b", vec![sym("int")])),
        Rule {
            io: IO::Silent,
            head: atom("p", vec![var("X")]),
            body: vec![Clause::Atom(atom("a", vec![var("X")])), Clause::Atom(negated)],
        },
    ];
    let (runtime, done) = evaluate(program, store);
    assert_eq!(done.iterations, vec![0]);
    assert_eq!(singles(&runtime.database, "p"), vec![1, 3]);
}

#[test]
fn unconnected_atoms_are_both_read() {
    let store = edge_store(&[(1, 2), (3, 4)]);
    store.execute("CREATE TABLE gate (column_0 INTEGER, UNIQUE(column_0))", ()).unwrap();
    let program = vec![
        input(atom("edge", vec![sym("int"), sym("int")])),
        input(atom("gate", vec![sym("int")])),
        rule(
            atom("open", vec![var("X")]),
            vec![atom("edge", vec![var("X"), var("Y")]), atom("gate", vec![var("G")])],
        ),
    ];
    let (runtime, _) = evaluate(program, store);
    assert_eq!(singles(&runtime.database, "open"), Vec::<i64>::new());
    runtime.database.execute("INSERT INTO gate VALUES (9)", ()).unwrap();
    let context = Context::new(&vec![
        input(atom("edge", vec![sym("int"), sym("int")])),
        input(atom("gate", vec![sym("int")])),
        rule(
            atom("open", vec![var("X")]),
            vec![atom("edge", vec![var("X"), var("Y")]), atom("gate", vec![var("G")])],
        ),
    ])
    .unwrap();
    let mut again = Runtime::new(context, runtime.database).unwrap();
    again.eval().unwrap();
    assert_eq!(singles(&again.database, "open"), vec![1, 3]);
}
