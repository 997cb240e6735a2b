use amoeba::engine::analysis::{Analyzer, DataType};
use amoeba::engine::account::{account, Note};
use amoeba::engine::runtime::{
    check_query_table, course_after, insertion_of, Course, Plan, Runtime,
};
use amoeba::engine::statement::Statement;
use amoeba::error::Failure;
use amoeba::syntax::context::Context;
use amoeba::syntax::parser::parse_program;

const CLOSURE: &str = "@input edge(int, int)\nreach(X, Y) :- edge(X, Y)\nreach(X, Z) :- edge(X, Y), reach(Y, Z)\n";

fn edge_store(edges: &[(i64, i64)]) -> rusqlite::Connection {
    let store = rusqlite::Connection::open_in_memory().unwrap();
    store
        .execute("CREATE TABLE edge (column_0 INTEGER, column_1 INTEGER, UNIQUE(column_0, column_1))", ())
        .unwrap();
    for (a, b) in edges {
        store.execute("INSERT INTO edge VALUES (?1, ?2)", (a, b)).unwrap();
    }
    store
}

fn started(text: &str, store: rusqlite::Connection) -> Runtime {
    let program = parse_program(text).unwrap();
    let context = Context::new(&program).unwrap();
    Runtime::new(context, store).unwrap()
}

fn size(runtime: &Runtime, table: &str) -> i64 {
    runtime
        .database
        .query_row(&format!("SELECT COUNT(*) FROM {}", table), (), |row| row.get(0))
        .unwrap()
}

#[test]
fn a_new_run_has_checked_the_base_tables_and_typed_the_relations() {
    let runtime = started(CLOSURE, edge_store(&[(1, 2)]));
    assert_eq!(
        runtime.log,
        vec![
            "SELECT name FROM sqlite_master WHERE type='table' AND name='edge';",
            "SELECT name FROM pragma_table_info('edge')",
        ]
    );
    assert_eq!(runtime.counts, Vec::<i64>::new());
    assert_eq!(
        runtime.analyzer.data_types,
        vec![
            ("edge".to_string(), vec![DataType::Integer, DataType::Integer]),
            ("reach".to_string(), vec![DataType::Integer, DataType::Integer]),
        ]
    );
}

#[test]
fn statements_are_sent_and_logged_in_order() {
    let mut runtime = started(CLOSURE, edge_store(&[(1, 2), (2, 3)]));
    let sent = runtime.log.len();
    let statements = vec![
        Statement::Copy { dest: "copy".to_string(), source: "edge".to_string() },
        Statement::Clear { table: "copy".to_string() },
        Statement::Union { dest: "copy".to_string(), source: "edge".to_string() },
    ];
    runtime.run_all(&statements).unwrap();
    assert_eq!(runtime.log.len(), sent + 3);
    assert_eq!(runtime.log[sent], "CREATE TABLE copy AS SELECT * FROM edge");
    assert_eq!(runtime.count(&"copy".to_string()), Ok(2));
    assert_eq!(runtime.counts, vec![2]);
    assert_eq!(runtime.log.last().unwrap(), "SELECT COUNT(*) FROM copy");
    let rows = runtime
        .fetch(&Statement::Select { table: "copy".to_string(), arity: 2, checks: vec![] }, 2)
        .unwrap();
    assert_eq!(rows.len(), 2);
    assert!(rows.contains(&vec!["1".to_string(), "2".to_string()]));
}

#[test]
fn a_failing_statement_stops_the_list_and_is_logged() {
    let mut runtime = started(CLOSURE, edge_store(&[]));
    let sent = runtime.log.len();
    let statements = vec![
        Statement::Clear { table: "edge".to_string() },
        Statement::Drop { table: "ghost".to_string() },
        Statement::Clear { table: "edge".to_string() },
    ];
    match runtime.run_all(&statements) {
        Err(Failure::BackendError(message)) => assert!(message.contains("ghost")),
        other => panic!("unexpected {:?}", other),
    }
    assert_eq!(runtime.log.len(), sent + 2);
    assert_eq!(runtime.log.last().unwrap(), "DROP TABLE ghost;");
    match runtime.count(&"ghost".to_string()) {
        Err(Failure::BackendError(_)) => {}
        other => panic!("unexpected {:?}", other),
    }
    assert_eq!(runtime.counts, Vec::<i64>::new());
}

#[test]
fn applying_the_rules_of_a_relation_runs_its_plan() {
    let mut runtime = started(CLOSURE, edge_store(&[(1, 2), (2, 3), (3, 4)]));
    let rules = runtime.context.idbs[0].1.clone();
    let previous = vec!["edge".to_string()];
    let steps = runtime.apply_rules(&"reach".to_string(), &rules, &previous).unwrap();
    assert_eq!(steps, 3);
    assert_eq!(size(&runtime, "reach"), 6);
    assert_eq!(runtime.counts, vec![2, 1, 0]);
}

#[test]
fn a_plan_without_steps_makes_no_loop() {
    let text = "@input edge(int, int)\nstart(X) :- edge(X, Y)\n";
    let mut runtime = started(text, edge_store(&[(1, 2), (1, 3), (4, 1)]));
    let plans = runtime.plan_all().unwrap();
    assert_eq!(plans.len(), 1);
    assert_eq!(plans[0].steps.len(), 0);
    let sent = runtime.log.len();
    assert_eq!(runtime.execute_plan(&plans[0]), Ok(0));
    assert_eq!(runtime.log.len(), sent + 2);
    assert_eq!(size(&runtime, "start"), 2);
    assert_eq!(runtime.counts, Vec::<i64>::new());
}

#[test]
fn the_loop_drops_its_tables_after_a_failure() {
    let mut runtime = started(CLOSURE, edge_store(&[(1, 2)]));
    let rules = runtime.context.idbs[0].1.clone();
    let inserts = vec![insertion_of(&rules[1], true).unwrap()];
    match runtime.semi_naive_evaluate(&"reach".to_string(), 2, &inserts) {
        Err(Failure::BackendError(_)) => {}
        other => panic!("unexpected {:?}", other),
    }
    let n = runtime.log.len();
    assert_eq!(runtime.log[n - 2], "DROP TABLE delta_reach;");
    assert_eq!(runtime.log[n - 1], "DROP TABLE temp_reach;");
}

#[test]
fn the_loop_counts_its_steps() {
    let mut runtime = started(CLOSURE, edge_store(&[(1, 2), (2, 3), (3, 4), (4, 5)]));
    let rules = runtime.context.idbs[0].1.clone();
    let mut analyzer = Analyzer::new();
    analyzer.insert("reach".to_string(), vec![DataType::Integer, DataType::Integer]);
    let plan = Plan::new(&analyzer, &"reach".to_string(), &rules, &vec!["edge".to_string()]).unwrap();
    runtime.run(&plan.create).unwrap();
    runtime.run_all(&plan.seeds).unwrap();
    assert_eq!(runtime.semi_naive_evaluate(&"reach".to_string(), 2, &plan.steps), Ok(4));
    assert_eq!(runtime.counts, vec![3, 2, 1, 0]);
    assert_eq!(size(&runtime, "reach"), 10);
}

#[test]
fn relations_are_evaluated_stratum_by_stratum() {
    let text = "@input edge(int, int)\nfar(X, Z) :- reach(X, Y), edge(Y, Z)\nreach(X, Y) :- edge(X, Y)\nreach(X, Z) :- edge(X, Y), reach(Y, Z)\n@output far(X, Y)\n";
    let mut runtime = started(text, edge_store(&[(1, 2), (2, 3), (3, 4)]));
    assert_eq!(runtime.context.ordered_idbs(), vec!["reach".to_string(), "far".to_string()]);
    let done = runtime.eval().unwrap();
    assert_eq!(done.iterations, vec![3, 0]);
    assert_eq!(size(&runtime, "far"), 3);
    assert_eq!(done.reports.len(), 1);
    assert_eq!(done.reports[0].head, "far(X, Y)");
    assert_eq!(done.reports[0].count, 3);
    let mut lines = done.reports[0].lines.clone();
    lines.sort();
    assert_eq!(lines, vec!["1, 3", "1, 4", "2, 4"]);
}

#[test]
fn long_reports_leave_out_the_middle() {
    let text = "@input edge(int, int)\n@output edge(X, Y)\n";
    let edges: Vec<(i64, i64)> = (0..25).map(|i| (i, i + 100)).collect();
    let mut runtime = started(text, edge_store(&edges));
    let reports = runtime.write_queries().unwrap();
    assert_eq!(reports[0].count, 25);
    assert_eq!(reports[0].lines.len(), 21);
    assert_eq!(reports[0].lines[10], "...");
}

#[test]
fn a_query_needs_the_table_of_its_relation() {
    let program = parse_program("@output ghost(X)\n").unwrap();
    assert_eq!(check_query_table(&program[0], 1), Ok(()));
    assert_eq!(check_query_table(&program[0], 2), Ok(()));
    assert_eq!(
        check_query_table(&program[0], 0),
        Err(Failure::UndefinedPredicate("ghost".to_string()))
    );
}

#[test]
fn a_missing_relation_ends_the_queries_at_its_question() {
    let text = "@input edge(int, int)\n@output edge(X, Y)\n@output ghost(X)\n@output edge(X, X)\n";
    let mut runtime = started(text, edge_store(&[(1, 2)]));
    let sent = runtime.log.len();
    assert_eq!(
        runtime.write_queries().err(),
        Some(Failure::UndefinedPredicate("ghost".to_string()))
    );
    assert_eq!(runtime.log.len(), sent + 3);
    assert_eq!(
        runtime.log.last().unwrap(),
        "SELECT name FROM sqlite_master WHERE type='table' AND name='ghost';"
    );
}

#[test]
fn nothing_to_do_succeeds() {
    let store = rusqlite::Connection::open_in_memory().unwrap();
    let context = Context::new(&Vec::new()).unwrap();
    let mut runtime = Runtime::new(context, store).unwrap();
    assert_eq!(runtime.log, Vec::<String>::new());
    assert_eq!(runtime.run_all(&Vec::new()), Ok(()));
    assert_eq!(runtime.write_queries().map(|found| found.len()), Ok(0));
    let done = runtime.eval().unwrap();
    assert_eq!(done.iterations, Vec::<u64>::new());
    assert_eq!(done.reports.len(), 0);
    assert_eq!(runtime.log, Vec::<String>::new());
    assert_eq!(runtime.counts, Vec::<i64>::new());
}

#[test]
fn the_counts_of_an_evaluation_are_those_of_its_loops() {
    let text = "@input edge(int, int)\nnode(X) :- edge(X, Y)\nreach(X, Y) :- edge(X, Y)\nreach(X, Z) :- edge(X, Y), reach(Y, Z)\n";
    let mut runtime = started(text, edge_store(&[(1, 2), (2, 3), (3, 4)]));
    let done = runtime.eval().unwrap();
    let steps: u64 = done.iterations.iter().sum();
    assert_eq!(runtime.counts.len() as u64, steps);
    let mut at = 0;
    for n in done.iterations.iter() {
        let block = &runtime.counts[at..at + *n as usize];
        if *n > 0 {
            assert_eq!(*block.last().unwrap(), 0);
            assert!(block[..block.len() - 1].iter().all(|c| *c != 0));
        }
        at += *n as usize;
    }
    let mut sorted = done.iterations.clone();
    sorted.sort();
    assert_eq!(sorted, vec![0, 3]);
}

#[test]
fn the_account_names_the_statements_and_the_steps() {
    let text = "@input edge(int, int)\nreach(X, Y) :- edge(X, Y)\nreach(X, Z) :- edge(X, Y), reach(Y, Z)\n@output reach(1, X)\n";
    let mut runtime = started(text, edge_store(&[(1, 2), (2, 3)]));
    let sent = runtime.log.len();
    let done = runtime.eval().unwrap();
    assert_eq!(done.iterations, vec![2]);
    let executed: Vec<String> = done
        .notes
        .iter()
        .filter_map(|note| match note {
            Note::Execute(sql) => Some(sql.clone()),
            _ => None,
        })
        .collect();
    assert_eq!(executed, runtime.log[sent..].to_vec());
    let marks: Vec<(usize, &Note)> = done
        .notes
        .iter()
        .enumerate()
        .filter(|(_, note)| !matches!(note, Note::Execute(_)))
        .collect();
    assert_eq!(
        marks,
        vec![
            (4, &Note::Iterate("reach".to_string(), 0)),
            (10, &Note::Iterate("reach".to_string(), 1)),
            (16, &Note::Fixpoint("reach".to_string(), 1)),
        ]
    );
    assert_eq!(done.notes.len(), 21);
    let plans = runtime.plan_all().unwrap();
    assert_eq!(account(&plans, &done.iterations, &runtime.context.queries), done.notes);
}

#[test]
fn the_account_of_a_relation_without_a_loop_has_no_marks() {
    let text = "@input edge(int, int)\nnode(X) :- edge(X, Y)\n";
    let mut runtime = started(text, edge_store(&[(1, 2)]));
    let done = runtime.eval().unwrap();
    assert_eq!(
        done.notes,
        vec![
            Note::Execute(
                "CREATE TABLE IF NOT EXISTS node (column_0 INTEGER, UNIQUE(column_0));".to_string()
            ),
            Note::Execute(
                "INSERT OR IGNORE INTO node(column_0)\n         SELECT t0.column_0 AS column_0\n         FROM edge AS t0"
                    .to_string()
            ),
        ]
    );
}

#[test]
fn a_loop_goes_on_while_steps_add_rows() {
    assert_eq!(course_after(1, 0), Course::Done);
    assert_eq!(course_after(u64::MAX, 0), Course::Done);
    assert_eq!(course_after(1, 5), Course::Again);
    assert_eq!(course_after(u64::MAX - 1, 1), Course::Again);
    assert_eq!(course_after(u64::MAX, 1), Course::Overflow);
    assert!(Course::Again.goes_on());
    assert!(!Course::Done.goes_on());
    assert!(!Course::Overflow.goes_on());
    assert!(Course::Done.has_ended());
    assert!(!Course::Overflow.has_ended());
}

#[test]
fn a_loop_that_fails_in_a_step_has_sent_the_steps_before_and_drops_its_tables() {
    let mut runtime = started(CLOSURE, edge_store(&[(1, 2), (2, 3)]));
    let rules = runtime.context.idbs[0].1.clone();
    let reach = "reach".to_string();
    let inserts = vec![insertion_of(&rules[1], true).unwrap()];
    let sent = runtime.log.len();
    let outcome = runtime.semi_naive_evaluate(&reach, 2, &inserts);
    assert!(matches!(outcome, Err(Failure::BackendError(_))));
    let log = &runtime.log[sent..];
    assert_eq!(log.len(), 3);
    assert_eq!(log[0], "CREATE TABLE delta_reach AS SELECT * FROM reach");
    assert_eq!(log[1], "DROP TABLE delta_reach;");
    assert_eq!(log[2], "DROP TABLE temp_reach;");
}
