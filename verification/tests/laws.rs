use amoeba::engine::analysis::DataType;
use amoeba::engine::compile::compile;
use amoeba::engine::runtime::{insertion_of, Runtime};
use amoeba::engine::statement::Statement;
use amoeba::syntax::ast::Rule;
use amoeba::syntax::context::Context;
use amoeba::syntax::parser::parse_program;
use std::collections::BTreeSet;

const CLOSURE: &str = "@input edge(int, int)\nreach(X, Y) :- edge(X, Y)\nreach(X, Z) :- edge(X, Y), reach(Y, Z)\n";

fn edge_store(edges: &[(i64, i64)]) -> rusqlite::Connection {
    let store = rusqlite::Connection::open_in_memory().unwrap();
    store
        .execute("CREATE TABLE edge (column_0 INTEGER, column_1 INTEGER, UNIQUE(column_0, column_1))", ())
        .unwrap();
    for (a, b) in edges {
        store.execute("INSERT INTO edge VALUES (?1, ?2)", (a, b)).unwrap();
    }
    store
}

fn pairs_of(store: &rusqlite::Connection, sql: &str) -> BTreeSet<(i64, i64)> {
    let mut statement = store.prepare(sql).unwrap();
    let rows = statement.query_map((), |row| Ok((row.get(0)?, row.get(1)?))).unwrap();
    rows.map(|r| r.unwrap()).collect()
}

fn pairs(store: &rusqlite::Connection, table: &str) -> BTreeSet<(i64, i64)> {
    pairs_of(store, &format!("SELECT column_0, column_1 FROM {}", table))
}

fn started(text: &str, store: rusqlite::Connection) -> Runtime {
    let program = parse_program(text).unwrap();
    let context = Context::new(&program).unwrap();
    Runtime::new(context, store).unwrap()
}

fn yielded(store: &rusqlite::Connection, rule: &Rule) -> BTreeSet<(i64, i64)> {
    let sql = insertion_of(rule, false).unwrap().to_sql();
    let select = sql.split_once('\n').unwrap().1;
    pairs_of(store, select)
}

#[test]
fn each_step_keeps_the_rows_of_the_relation() {
    let mut runtime = started(CLOSURE, edge_store(&[(1, 2), (2, 3), (3, 4), (4, 5)]));
    let rules = runtime.context.idbs[0].1.clone();
    let reach = "reach".to_string();
    let create = Statement::CreateTable {
        table: reach.clone(),
        types: vec![DataType::Integer, DataType::Integer],
    };
    runtime.run(&create).unwrap();
    runtime.init_base(&rules[0]).unwrap();
    runtime.run(&Statement::Copy { dest: "delta_reach".to_string(), source: reach.clone() }).unwrap();
    runtime
        .run(&Statement::CopyEmpty { dest: "temp_reach".to_string(), source: reach.clone() })
        .unwrap();
    let inserts = vec![insertion_of(&rules[1], true).unwrap()];
    let mut before = pairs(&runtime.database, "reach");
    let mut sizes = vec![before.len()];
    for _ in 0..5 {
        runtime.iteration(&reach, 2, &inserts).unwrap();
        let after = pairs(&runtime.database, "reach");
        assert!(before.is_subset(&after));
        let delta = pairs(&runtime.database, "delta_reach");
        assert!(delta.is_subset(&after));
        sizes.push(after.len());
        before = after;
    }
    assert_eq!(sizes, vec![4, 7, 9, 10, 10, 10]);
}

#[test]
fn the_fixpoint_is_sound_and_complete() {
    let mut runtime = started(CLOSURE, edge_store(&[(1, 2), (2, 3), (3, 1), (3, 4)]));
    runtime.eval().unwrap();
    let reach = pairs(&runtime.database, "reach");
    let rules = runtime.context.idbs[0].1.clone();
    let mut derivable = BTreeSet::new();
    for rule in rules.iter() {
        let rows = yielded(&runtime.database, rule);
        assert!(rows.is_subset(&reach));
        derivable.extend(rows);
    }
    assert_eq!(derivable, reach);
    assert_eq!(reach.len(), 12);
}

#[test]
fn the_order_of_the_body_does_not_matter() {
    let swapped = "@input edge(int, int)\nreach(X, Y) :- edge(X, Y)\nreach(X, Z) :- reach(Y, Z), edge(X, Y)\n";
    let edges = [(1, 2), (2, 3), (3, 4), (7, 1)];
    let mut first = started(CLOSURE, edge_store(&edges));
    first.eval().unwrap();
    let mut second = started(swapped, edge_store(&edges));
    second.eval().unwrap();
    assert_eq!(pairs(&first.database, "reach"), pairs(&second.database, "reach"));
    assert_ne!(first.log, second.log);
}

#[test]
fn a_second_evaluation_adds_nothing() {
    let mut first = started(CLOSURE, edge_store(&[(1, 2), (2, 3), (3, 4)]));
    first.eval().unwrap();
    let reach = pairs(&first.database, "reach");
    let program = parse_program(CLOSURE).unwrap();
    let context = Context::new(&program).unwrap();
    let mut second = Runtime::new(context, first.database).unwrap();
    let done = second.eval().unwrap();
    assert_eq!(pairs(&second.database, "reach"), reach);
    assert_eq!(done.iterations, vec![1]);
    assert_eq!(second.counts, vec![0]);
}

#[test]
fn tables_are_created_with_the_inferred_types() {
    let text = "@input person(sym, int, float)\nage(A, N) :- person(N, A, W)\n";
    let store = rusqlite::Connection::open_in_memory().unwrap();
    store
        .execute("CREATE TABLE person (column_0 TEXT, column_1 INTEGER, column_2 REAL)", ())
        .unwrap();
    store.execute("INSERT INTO person VALUES ('ann', 31, 62.5)", ()).unwrap();
    let mut runtime = started(text, store);
    runtime.eval().unwrap();
    let mut statement = runtime.database.prepare("SELECT type FROM pragma_table_info('age')").unwrap();
    let types: Vec<String> = statement.query_map((), |row| row.get(0)).unwrap().map(|r| r.unwrap()).collect();
    assert_eq!(types, vec!["INTEGER", "TEXT"]);
    let kinds: (String, String) = runtime
        .database
        .query_row("SELECT typeof(column_0), typeof(column_1) FROM age", (), |row| {
            Ok((row.get(0)?, row.get(1)?))
        })
        .unwrap();
    assert_eq!(kinds, ("integer".to_string(), "text".to_string()));
}

#[test]
fn compiling_is_a_function_of_the_rule() {
    let program = parse_program(CLOSURE).unwrap();
    assert_eq!(compile(&program[2], true), compile(&program[2], true));
    assert_ne!(compile(&program[2], true), compile(&program[2], false));
}

#[test]
fn a_relation_read_twice_is_joined_with_itself() {
    let text = "@input edge(int, int)\npath2(X, Z) :- edge(X, Y), edge(Y, Z)\n";
    let mut runtime = started(text, edge_store(&[(1, 2), (2, 3), (3, 4)]));
    let done = runtime.eval().unwrap();
    assert_eq!(done.iterations, vec![0]);
    assert_eq!(pairs(&runtime.database, "path2"), [(1, 3), (2, 4)].into_iter().collect());
}

#[test]
fn a_step_with_two_recursive_atoms_joins_the_delta_with_itself() {
    let text = "@input edge(int, int)\nreach(X, Y) :- edge(X, Y)\nreach(X, Z) :- reach(X, Y), reach(Y, Z)\n";
    let mut runtime = started(text, edge_store(&[(1, 2), (2, 3), (3, 4), (4, 5)]));
    let done = runtime.eval().unwrap();
    assert_eq!(done.iterations, vec![3]);
    assert_eq!(runtime.counts, vec![3, 1, 0]);
    let reach = pairs(&runtime.database, "reach");
    let expected: BTreeSet<(i64, i64)> =
        [(1, 2), (2, 3), (3, 4), (4, 5), (1, 3), (2, 4), (3, 5), (1, 5)].into_iter().collect();
    assert_eq!(reach, expected);
    assert!(runtime.log.iter().any(|sql| sql.ends_with(
        "FROM delta_reach AS t0\n         JOIN delta_reach AS t1 ON t0.column_1 = t1.column_0"
    )));
}

#[test]
fn a_query_reports_rows_of_every_type() {
    let text = "@input person(sym, int, float)\n@output person(N, A, W)\n@output person(N, 31, W)\n@output person(X, Y, X)\n";
    let store = rusqlite::Connection::open_in_memory().unwrap();
    store
        .execute("CREATE TABLE person (column_0 TEXT, column_1 INTEGER, column_2 REAL)", ())
        .unwrap();
    store.execute("INSERT INTO person VALUES ('ann', 31, 62.5)", ()).unwrap();
    store.execute("INSERT INTO person VALUES ('bob', 40, 80.0)", ()).unwrap();
    let mut runtime = started(text, store);
    let reports = runtime.write_queries().unwrap();
    assert_eq!(reports.len(), 1);
    assert_eq!(reports[0].head, "person(X, Y, X)");
    assert_eq!(reports[0].count, 0);
    assert_eq!(
        runtime.log.last().unwrap(),
        "SELECT CAST(column_0 AS TEXT), CAST(column_1 AS TEXT), CAST(column_2 AS TEXT) FROM person WHERE column_0 = column_2;"
    );
}

#[test]
fn a_query_filters_by_its_constants() {
    let text = "@input person(sym, int, float)\n@output person(N, 31, W)\n";
    let store = rusqlite::Connection::open_in_memory().unwrap();
    store
        .execute("CREATE TABLE person (column_0 TEXT, column_1 INTEGER, column_2 REAL)", ())
        .unwrap();
    store.execute("INSERT INTO person VALUES ('ann', 31, 62.5)", ()).unwrap();
    store.execute("INSERT INTO person VALUES ('bob', 40, 80.0)", ()).unwrap();
    let mut runtime = started(text, store);
    let reports = runtime.write_queries().unwrap();
    assert_eq!(reports[0].head, "person(N, 31, W)");
    assert_eq!(reports[0].lines, vec!["ann, 31, 62.5"]);
    assert_eq!(reports[0].count, 1);
}

#[test]
fn a_query_of_a_missing_relation_fails() {
    let text = "@input edge(int, int)\n@output ghost(X)\n";
    let mut runtime = started(text, edge_store(&[]));
    assert_eq!(
        runtime.write_queries().err(),
        Some(amoeba::error::Failure::UndefinedPredicate("ghost".to_string()))
    );
}

#[test]
fn nothing_is_sent_where_a_relation_cannot_be_planned() {
    let text = "@input edge(int, int)\nfar(X, W) :- far(X, Y), edge(Y, W)\n";
    let mut runtime = started(text, edge_store(&[(1, 2)]));
    let sent = runtime.log.len();
    assert_eq!(
        runtime.eval().err(),
        Some(amoeba::error::Failure::UnknownType("far".to_string()))
    );
    assert_eq!(runtime.log.len(), sent);
}

#[test]
fn a_loop_makes_no_more_steps_than_rows_can_be_added() {
    let mut runtime = started(CLOSURE, edge_store(&[(1, 2), (2, 3), (3, 1)]));
    let done = runtime.eval().unwrap();
    let reach = pairs(&runtime.database, "reach");
    assert_eq!(reach.len(), 9);
    let added = runtime.counts.iter().filter(|count| **count != 0).count();
    assert_eq!(added as u64, done.iterations[0] - 1);
    assert!(added <= 9 - 3);
    assert_eq!(runtime.counts.iter().sum::<i64>(), 9 - 3);
}

#[test]
fn a_whole_evaluation_is_sound_and_complete() {
    let text = "@input edge(int, int)\nreach(X, Y) :- edge(X, Y)\nreach(X, Z) :- edge(X, Y), reach(Y, Z)\nboth(X, Y) :- reach(X, Y), reach(Y, X)\n";
    let mut runtime = started(text, edge_store(&[(1, 2), (2, 1), (2, 3), (3, 4)]));
    runtime.eval().unwrap();
    for (name, rules) in runtime.context.idbs.iter() {
        let table = pairs(&runtime.database, name);
        let mut derivable = BTreeSet::new();
        for rule in rules.iter() {
            let rows = yielded(&runtime.database, rule);
            assert!(rows.is_subset(&table));
            derivable.extend(rows);
        }
        assert_eq!(derivable, table);
    }
    let both: BTreeSet<(i64, i64)> = [(1, 1), (1, 2), (2, 1), (2, 2)].into_iter().collect();
    assert_eq!(pairs(&runtime.database, "both"), both);
}

#[test]
fn a_relation_without_a_rule_over_typed_relations_has_no_types() {
    let text = "@input edge(int, int)\nodd(X, Y) :- edge(X, Y)\nodd(X, Z) :- even(X, Y), edge(Y, Z)\neven(X, Z) :- odd(X, Y), edge(Y, Z)\n";
    let program = parse_program(text).unwrap();
    let context = Context::new(&program).unwrap();
    assert_eq!(context.stratum.level(&"odd".to_string()), context.stratum.level(&"even".to_string()));
    assert_eq!(context.ordered_idbs(), vec!["even".to_string(), "odd".to_string()]);
    let store = edge_store(&[(1, 2), (2, 3), (3, 4)]);
    assert_eq!(
        Runtime::new(context, store).err(),
        Some(amoeba::error::Failure::UnknownType("even".to_string()))
    );
}

fn singles_of(store: &rusqlite::Connection, table: &str) -> Vec<i64> {
    let sql = format!("SELECT column_0 FROM {} ORDER BY column_0", table);
    let mut statement = store.prepare(&sql).unwrap();
    let rows = statement.query_map((), |row| row.get(0)).unwrap();
    rows.map(|row| row.unwrap()).collect()
}

fn unary_store(tables: &[(&str, &[i64])]) -> rusqlite::Connection {
    let store = rusqlite::Connection::open_in_memory().unwrap();
    for (name, values) in tables.iter() {
        store
            .execute(&format!("CREATE TABLE {} (column_0 INTEGER, UNIQUE(column_0))", name), ())
            .unwrap();
        for value in values.iter() {
            store.execute(&format!("INSERT INTO {} VALUES (?1)", name), [*value]).unwrap();
        }
    }
    store
}

#[test]
fn a_negated_atom_holds_where_the_row_is_absent() {
    let text = "@input a(int)\n@input b(int)\np(X) :- a(X), Not b(X)\n";
    let mut runtime = started(text, unary_store(&[("a", &[1, 2, 3]), ("b", &[2])]));
    runtime.eval().unwrap();
    assert_eq!(singles_of(&runtime.database, "p"), vec![1, 3]);
}

#[test]
fn the_order_of_the_body_does_not_matter_under_negation() {
    let first = "@input a(int)\n@input b(int)\n@input c(int)\np(X) :- a(X), Not b(X), c(X)\n";
    let second = "@input a(int)\n@input b(int)\n@input c(int)\np(X) :- Not b(X), c(X), a(X)\n";
    let tables: [(&str, &[i64]); 3] = [("a", &[1, 2, 3, 4]), ("b", &[2, 9]), ("c", &[1, 2, 4, 7])];
    let mut one = started(first, unary_store(&tables));
    one.eval().unwrap();
    let mut other = started(second, unary_store(&tables));
    other.eval().unwrap();
    assert_eq!(singles_of(&one.database, "p"), vec![1, 4]);
    assert_eq!(singles_of(&other.database, "p"), vec![1, 4]);
}

#[test]
fn negation_over_a_derived_relation_waits_for_it() {
    let text = "@input edge(int, int)\n@input node(int)\nreach(X, Y) :- edge(X, Y)\nreach(X, Z) :- edge(X, Y), reach(Y, Z)\napart(X) :- node(X), Not reach(1, X)\n";
    let store = edge_store(&[(1, 2), (2, 3), (4, 5)]);
    store.execute("CREATE TABLE node (column_0 INTEGER, UNIQUE(column_0))", ()).unwrap();
    for value in [1, 2, 3, 4, 5] {
        store.execute("INSERT INTO node VALUES (?1)", [value]).unwrap();
    }
    let mut runtime = started(text, store);
    assert_eq!(runtime.context.ordered_idbs(), vec!["reach".to_string(), "apart".to_string()]);
    runtime.eval().unwrap();
    assert_eq!(singles_of(&runtime.database, "apart"), vec![1, 4, 5]);
}

#[test]
fn a_constant_in_a_head_is_typed_by_its_kind() {
    let text = "@input edge(int, int)\nmarked(X, 7, tag, 2.5) :- edge(X, Y)\n";
    let mut runtime = started(text, edge_store(&[(1, 2)]));
    assert_eq!(
        runtime.analyzer.data_types[1],
        (
            "marked".to_string(),
            vec![DataType::Integer, DataType::Integer, DataType::Symbol, DataType::Float]
        )
    );
    runtime.eval().unwrap();
    let row: (i64, i64, String, f64) = runtime
        .database
        .query_row("SELECT column_0, column_1, column_2, column_3 FROM marked", (), |row| {
            Ok((row.get(0)?, row.get(1)?, row.get(2)?, row.get(3)?))
        })
        .unwrap();
    assert_eq!(row, (1, 7, "tag".to_string(), 2.5));
}

#[test]
fn a_join_may_name_a_clause_that_is_joined_after_it() {
    let text = "@input a(int)\n@input b(int)\n@input edge(int, int)\np(X) :- a(X), b(Y), edge(X, Y)\n";
    let store = edge_store(&[(1, 2), (1, 5), (3, 2), (4, 4)]);
    for (name, values) in [("a", vec![1, 4]), ("b", vec![2, 4])] {
        store
            .execute(&format!("CREATE TABLE {} (column_0 INTEGER, UNIQUE(column_0))", name), ())
            .unwrap();
        for value in values {
            store.execute(&format!("INSERT INTO {} VALUES (?1)", name), [value]).unwrap();
        }
    }
    let mut runtime = started(text, store);
    runtime.eval().unwrap();
    assert!(runtime.log.iter().any(|sql| sql.contains("JOIN b AS t1 ON t1.column_0 = t2.column_1")));
    assert_eq!(singles_of(&runtime.database, "p"), vec![1, 4]);
}

#[test]
fn a_difference_rule_yields_the_difference() {
    let text = "@input a(int)\n@input b(int)\nonly(X) :- a(X), Not b(X)\n";
    for (left, right, expected) in [
        (vec![1, 2, 3], vec![2], vec![1, 3]),
        (vec![1, 2, 3], vec![], vec![1, 2, 3]),
        (vec![], vec![2], vec![]),
        (vec![5, 6], vec![5, 6, 7], vec![]),
    ] {
        let mut runtime = started(text, unary_store(&[("a", &left), ("b", &right)]));
        runtime.eval().unwrap();
        assert_eq!(singles_of(&runtime.database, "only"), expected);
    }
}
