//! The fixpoint driver: it creates the table of each derived relation,
//! seeds it from the base cases, and repeats the semi-naive step until a
//! step adds nothing. The store does the relational work; the driver
//! decides which statements it gets, and keeps a log of them.

use vstd::prelude::*;
use crate::engine::analysis::{
    Analyzer, DataType, head_entries, inferred, ints, lookup, Types, var_dict, VarDict,
};
use crate::engine::account::{account, account_of, Note};
use crate::engine::compile::{compile, compiled, destination, result_view};
use crate::engine::statement::{Check, CheckView, Statement, StatementView};
use crate::engine::store::{store_count, store_execute, store_message, store_rows};
use crate::error::{Failure, FailureView};
use crate::syntax::ast::{Rule, RuleView, Term, TermView};
use crate::syntax::context::{Context, ContextView};
use crate::text::{find_key, join, join_strings, key_views, keys, lemma_entry_index_keys, views};

verus! {

/// The error of the library for an error of the store.
fn backend_error(error: rusqlite::Error) -> (e: Failure)
    ensures
        e is BackendError,
{
    Failure::BackendError(store_message(&error))
}

/// The state of a run: the program, the column types of its relations, the
/// store, and what was sent to the store so far.
pub struct Runtime {
    pub context: Context,
    pub analyzer: Analyzer,
    pub database: rusqlite::Connection,
    /// The statements that were sent to the store, in order, in SQL.
    pub log: Vec<String>,
    /// The answers of the store to the statements that count rows, in
    /// order.
    pub counts: Vec<i64>,
}

/// The wording of each of `statements`.
pub open spec fn sqls(statements: Seq<StatementView>) -> Seq<Seq<char>> {
    Seq::new(statements.len(), |i: int| statements[i].sql())
}

impl Runtime {
    /// The statements that were sent to the store, in SQL.
    pub open spec fn sent(&self) -> Seq<Seq<char>> {
        views(self.log@)
    }

    /// Whether `self` differs from `before` in its logs at most.
    pub open spec fn same_run(&self, before: &Runtime) -> bool {
        &&& self.context == before.context
        &&& self.analyzer == before.analyzer
    }

    /// Sends a statement that returns no rows.
    pub fn run(&mut self, statement: &Statement) -> (r: Result<(), Failure>)
        ensures
            final(self).same_run(old(self)),
            final(self).sent() == old(self).sent().push(statement@.sql()),
            final(self).counts@ == old(self).counts@,
            r is Err ==> r->Err_0 is BackendError,
    {
        let sql = statement.to_sql();
        let answer = store_execute(&self.database, sql.as_str());
        let ghost before = views(self.log@);
        self.log.push(sql);
        assert(views(self.log@) =~= before.push(statement@.sql()));
        match answer {
            Ok(_) => Ok(()),
            Err(e) => Err(backend_error(e)),
        }
    }

    /// Asks for the number of rows of `table`.
    pub fn count(&mut self, table: &String) -> (r: Result<i64, Failure>)
        ensures
            final(self).same_run(old(self)),
            final(self).sent() == old(self).sent().push(
                (StatementView::Count { table: table@ }).sql(),
            ),
            match r {
                Ok(n) => final(self).counts@ == old(self).counts@.push(n),
                Err(e) => e is BackendError && final(self).counts@ == old(self).counts@,
            },
    {
        let statement = Statement::Count { table: table.clone() };
        let sql = statement.to_sql();
        let answer = store_count(&self.database, sql.as_str());
        let ghost before = views(self.log@);
        self.log.push(sql);
        assert(views(self.log@) =~= before.push(statement@.sql()));
        match answer {
            Ok(n) => {
                self.counts.push(n);
                Ok(n)
            },
            Err(e) => Err(backend_error(e)),
        }
    }

    /// Sends a statement that returns rows, and reads the first `columns`
    /// columns of each as text: each row that comes back has so many texts.
    pub fn fetch(&mut self, statement: &Statement, columns: usize) -> (r: Result<
        Vec<Vec<String>>,
        Failure,
    >)
        ensures
            final(self).same_run(old(self)),
            final(self).sent() == old(self).sent().push(statement@.sql()),
            final(self).counts@ == old(self).counts@,
            r is Err ==> r->Err_0 is BackendError,
            r matches Ok(rows) ==> forall|i: int|
                0 <= i < rows@.len() ==> (#[trigger] rows@[i])@.len() == columns,
    {
        let sql = statement.to_sql();
        let answer = store_rows(&self.database, sql.as_str(), columns);
        let ghost before = views(self.log@);
        self.log.push(sql);
        assert(views(self.log@) =~= before.push(statement@.sql()));
        match answer {
            Ok(rows) => Ok(rows),
            Err(e) => Err(backend_error(e)),
        }
    }
}


/// The table of the rows that the last step added to `predicate`.
pub open spec fn delta_table(predicate: Seq<char>) -> Seq<char> {
    "delta_"@ + predicate
}

/// The table of the rows that the steps have produced for `predicate`.
pub open spec fn temp_table(predicate: Seq<char>) -> Seq<char> {
    "temp_"@ + predicate
}

/// The statement that adds the rows that `rule` derives to its
/// destination.
pub open spec fn insertion(rule: RuleView, semi_naive: bool) -> Result<StatementView, FailureView> {
    match compiled(rule, semi_naive) {
        Err(e) => Err(e),
        Ok(s) => Ok(
            StatementView::Insert {
                dest: destination(rule, semi_naive),
                arity: rule.head.terms.len() as int,
                selection: s,
            },
        ),
    }
}

/// The insertions of the first `n` rules, or the failure of the first rule
/// that does not compile.
pub open spec fn insertions(rules: Seq<RuleView>, semi_naive: bool, n: int) -> Result<
    Seq<StatementView>,
    FailureView,
>
    decreases n,
{
    if n <= 0 {
        Ok(Seq::empty())
    } else {
        match insertions(rules, semi_naive, n - 1) {
            Err(e) => Err(e),
            Ok(before) => match insertion(rules[n - 1], semi_naive) {
                Err(e) => Err(e),
                Ok(s) => Ok(before.push(s)),
            },
        }
    }
}

/// What follows the insertions of a step: the rows that the step produced
/// and the relation lacks become the new delta, and join the relation.
pub open spec fn update_statements(predicate: Seq<char>, arity: int) -> Seq<StatementView> {
    seq![
        StatementView::Clear { table: delta_table(predicate) },
        StatementView::Difference {
            dest: delta_table(predicate),
            source: temp_table(predicate),
            minus: predicate,
            arity,
        },
        StatementView::Union { dest: predicate, source: delta_table(predicate) },
    ]
}

/// The statements of one step: the insertions of the recursive rules, the
/// update, and the count of the new delta.
pub open spec fn step_statements(
    predicate: Seq<char>,
    arity: int,
    inserts: Seq<StatementView>,
) -> Seq<StatementView> {
    inserts + update_statements(predicate, arity) + seq![
        StatementView::Count { table: delta_table(predicate) },
    ]
}

/// The statements of `n` steps.
pub open spec fn steps_statements(
    predicate: Seq<char>,
    arity: int,
    inserts: Seq<StatementView>,
    n: nat,
) -> Seq<StatementView>
    decreases n,
{
    if n == 0 {
        Seq::empty()
    } else {
        steps_statements(predicate, arity, inserts, (n - 1) as nat) + step_statements(
            predicate,
            arity,
            inserts,
        )
    }
}

/// The statements that open the loop of a relation: the delta starts as a
/// copy of the relation, the table of produced rows empty.
pub open spec fn opening_statements(predicate: Seq<char>) -> Seq<StatementView> {
    seq![
        StatementView::Copy { dest: delta_table(predicate), source: predicate },
        StatementView::CopyEmpty { dest: temp_table(predicate), source: predicate },
    ]
}

/// The statements that close the loop of a relation: both working tables
/// are dropped.
pub open spec fn closing_statements(predicate: Seq<char>) -> Seq<StatementView> {
    seq![
        StatementView::Drop { table: delta_table(predicate) },
        StatementView::Drop { table: temp_table(predicate) },
    ]
}

/// The statements of a loop that ends after `n` steps.
pub open spec fn fixpoint_statements(
    predicate: Seq<char>,
    arity: int,
    inserts: Seq<StatementView>,
    n: nat,
) -> Seq<StatementView> {
    opening_statements(predicate) + steps_statements(predicate, arity, inserts, n)
        + closing_statements(predicate)
}

/// Whether `answers` are the counts of a loop that has ended: the last
/// step added nothing, each step before it something.
pub open spec fn stopped(answers: Seq<i64>) -> bool {
    &&& answers.len() > 0
    &&& answers.last() == 0
    &&& forall|i: int| 0 <= i < answers.len() - 1 ==> answers[i] != 0
}

/// Whether the log went from `before` to `after` by sending `all` in
/// order: all of it if `done`, else up to the statement that failed, which
/// was sent.
pub open spec fn ran(
    before: Seq<Seq<char>>,
    after: Seq<Seq<char>>,
    all: Seq<Seq<char>>,
    done: bool,
) -> bool {
    exists|k: int|
        0 <= k <= all.len() && after == before + #[trigger] all.take(k) && (done ==> k
            == all.len()) && (!done ==> k >= 1)
}

/// Whether the log ends with the statements `tail`.
pub open spec fn ends_with(log: Seq<Seq<char>>, tail: Seq<Seq<char>>) -> bool {
    log.len() >= tail.len() && log.skip(log.len() - tail.len()) == tail
}

/// Whether the log `after` starts with the log `before`.
pub open spec fn extends(before: Seq<Seq<char>>, after: Seq<Seq<char>>) -> bool {
    before.len() <= after.len() && after.take(before.len() as int) == before
}

/// Sending `x` in full and then `y` sends `x + y`.
pub proof fn lemma_ran_both(
    a: Seq<Seq<char>>,
    b: Seq<Seq<char>>,
    c: Seq<Seq<char>>,
    x: Seq<Seq<char>>,
    y: Seq<Seq<char>>,
    done: bool,
)
    requires
        ran(a, b, x, true),
        ran(b, c, y, done),
    ensures
        ran(a, c, x + y, done),
{
    let k1 = choose|k: int| 0 <= k <= x.len() && b == a + #[trigger] x.take(k) && k == x.len();
    let k2 = choose|k: int|
        0 <= k <= y.len() && c == b + #[trigger] y.take(k) && (done ==> k == y.len()) && (!done
            ==> k >= 1);
    assert(x.take(k1) =~= x);
    assert((x + y).take(x.len() + k2) =~= x + y.take(k2));
    assert(c =~= a + (x + y).take(x.len() + k2));
}

/// Sending a part of `x` sends a part of `x + y`.
pub proof fn lemma_ran_first(
    a: Seq<Seq<char>>,
    b: Seq<Seq<char>>,
    x: Seq<Seq<char>>,
    y: Seq<Seq<char>>,
)
    requires
        ran(a, b, x, false),
    ensures
        ran(a, b, x + y, false),
{
    let k = choose|k: int| 1 <= k <= x.len() && b == a + #[trigger] x.take(k);
    assert((x + y).take(k) =~= x.take(k));
}

impl Runtime {
    /// Sends `statements` in order, up to the first that fails. Sending
    /// nothing succeeds.
    pub fn run_all(&mut self, statements: &Vec<Statement>) -> (r: Result<(), Failure>)
        ensures
            final(self).same_run(old(self)),
            final(self).counts@ == old(self).counts@,
            ran(old(self).sent(), final(self).sent(), sqls(views(statements@)), r is Ok),
            statements@.len() == 0 ==> r is Ok,
            r is Err ==> r->Err_0 is BackendError,
    {
        let ghost all = sqls(views(statements@));
        let mut i: usize = 0;
        assert(self.sent() =~= old(self).sent() + all.take(0));
        while i < statements.len()
            invariant
                i <= statements.len(),
                all == sqls(views(statements@)),
                self.same_run(old(self)),
                self.counts@ == old(self).counts@,
                self.sent() == old(self).sent() + all.take(i as int),
            decreases statements.len() - i,
        {
            let answer = self.run(&statements[i]);
            proof {
                assert(all[i as int] == statements@[i as int]@.sql());
                assert(all.take(i + 1) =~= all.take(i as int).push(all[i as int]));
                assert(self.sent() =~= old(self).sent() + all.take(i + 1));
            }
            match answer {
                Ok(()) => {},
                Err(e) => {
                    return Err(e);
                },
            }
            i = i + 1;
        }
        Ok(())
    }

    /// One semi-naive step for `predicate`: sends the insertions of its
    /// recursive rules, makes the rows that are new the delta, and adds
    /// them to the relation.
    pub fn iteration(&mut self, predicate: &String, arity: usize, inserts: &Vec<Statement>) -> (r:
        Result<(), Failure>)
        ensures
            final(self).same_run(old(self)),
            final(self).counts@ == old(self).counts@,
            ran(
                old(self).sent(),
                final(self).sent(),
                sqls(views(inserts@) + update_statements(predicate@, arity as int)),
                r is Ok,
            ),
            r is Err ==> r->Err_0 is BackendError,
    {
        let ghost a = self.sent();
        let ghost x = sqls(views(inserts@));
        let ghost y = sqls(update_statements(predicate@, arity as int));
        assert(sqls(views(inserts@) + update_statements(predicate@, arity as int)) =~= x + y);
        match self.run_all(inserts) {
            Ok(()) => {},
            Err(e) => {
                proof {
                    lemma_ran_first(a, self.sent(), x, y);
                }
                return Err(e);
            },
        }
        let ghost b = self.sent();
        let mut delta = String::from_str("delta_");
        delta.append(predicate.as_str());
        let mut temp = String::from_str("temp_");
        temp.append(predicate.as_str());
        let mut update: Vec<Statement> = Vec::new();
        update.push(Statement::Clear { table: delta.clone() });
        update.push(
            Statement::Difference {
                dest: delta.clone(),
                source: temp,
                minus: predicate.clone(),
                arity,
            },
        );
        update.push(Statement::Union { dest: predicate.clone(), source: delta });
        assert(views(update@) =~= update_statements(predicate@, arity as int));
        let r = self.run_all(&update);
        proof {
            lemma_ran_both(a, b, self.sent(), x, y, r is Ok);
        }
        r
    }
}


/// The wording of two lists of statements, one after the other.
pub proof fn lemma_sqls_add(x: Seq<StatementView>, y: Seq<StatementView>)
    ensures
        sqls(x + y) == sqls(x) + sqls(y),
{
    assert(sqls(x + y) =~= sqls(x) + sqls(y));
}

/// A log that grew by sending statements starts with what it was.
pub proof fn lemma_ran_extends(
    before: Seq<Seq<char>>,
    after: Seq<Seq<char>>,
    all: Seq<Seq<char>>,
    done: bool,
)
    requires
        ran(before, after, all, done),
    ensures
        extends(before, after),
        done ==> after == before + all,
{
    let k = choose|k: int|
        0 <= k <= all.len() && after == before + #[trigger] all.take(k) && (done ==> k
            == all.len());
    assert(after.take(before.len() as int) =~= before);
    if done {
        assert(all.take(k) =~= all);
    }
}

/// A log that starts with an earlier one, which starts with a still
/// earlier one, starts with that.
pub proof fn lemma_extends_twice(a: Seq<Seq<char>>, b: Seq<Seq<char>>, c: Seq<Seq<char>>)
    requires
        extends(a, b),
        extends(b, c),
    ensures
        extends(a, c),
{
    assert(c.take(a.len() as int) =~= c.take(b.len() as int).take(a.len() as int));
}

/// How a loop goes on after a step.
#[derive(Debug, PartialEq, Eq)]
pub enum Course {
    /// The step added rows: another step follows.
    Again,
    /// The step added nothing: the loop has ended.
    Done,
    /// The step added rows and no further step can be counted.
    Overflow,
}

impl Course {
    /// Whether another step follows.
    pub fn goes_on(&self) -> (b: bool)
        ensures
            b == (self is Again),
    {
        match self {
            Course::Again => true,
            _ => false,
        }
    }

    /// Whether the loop has ended.
    pub fn has_ended(&self) -> (b: bool)
        ensures
            b == (self is Done),
    {
        match self {
            Course::Done => true,
            _ => false,
        }
    }
}

/// How a loop goes on after its step number `steps`, which left `count`
/// rows in the delta.
pub open spec fn course_of(steps: u64, count: i64) -> Course {
    if count == 0 {
        Course::Done
    } else if steps == u64::MAX {
        Course::Overflow
    } else {
        Course::Again
    }
}

/// Decides how a loop goes on after its step number `steps`, which left
/// `count` rows in the delta.
pub fn course_after(steps: u64, count: i64) -> (course: Course)
    ensures
        course == course_of(steps, count),
{
    if count == 0 {
        Course::Done
    } else if steps == u64::MAX {
        Course::Overflow
    } else {
        Course::Again
    }
}

/// Whether the log went from `before` to `after` in a loop that the store
/// failed: a statement of the opening or of a step, or one that closes the
/// loop, failed; up to it the statements were sent in order, and after it
/// those that close the loop.
pub open spec fn loop_failed(
    before: Seq<Seq<char>>,
    after: Seq<Seq<char>>,
    predicate: Seq<char>,
    arity: int,
    inserts: Seq<StatementView>,
) -> bool {
    after.len() >= 2 && exists|n: nat|
        ran(
            before,
            after.take(after.len() - 2),
            sqls(
                opening_statements(predicate) + #[trigger] steps_statements(
                    predicate,
                    arity,
                    inserts,
                    n,
                ),
            ),
            false,
        )
}

impl Runtime {
    /// Evaluates the recursive rules of `predicate` to their fixpoint:
    /// the delta starts as a copy of the relation; steps are made until one
    /// adds nothing; then both working tables are dropped, as they are
    /// after a failure: on every path the last two statements sent are the
    /// two that drop them. Gives the number of steps. Where no further step
    /// can be counted, every step that can be has been made and has added
    /// rows.
    pub fn semi_naive_evaluate(
        &mut self,
        predicate: &String,
        arity: usize,
        inserts: &Vec<Statement>,
    ) -> (r: Result<u64, Failure>)
        ensures
            final(self).same_run(old(self)),
            extends(old(self).sent(), final(self).sent()),
            ends_with(final(self).sent(), sqls(closing_statements(predicate@))),
            match r {
                Ok(n) => {
                    &&& n >= 1
                    &&& final(self).sent() == old(self).sent() + sqls(
                        fixpoint_statements(predicate@, arity as int, views(inserts@), n as nat),
                    )
                    &&& final(self).counts@.len() == old(self).counts@.len() + n
                    &&& final(self).counts@.take(old(self).counts@.len() as int) == old(
                        self,
                    ).counts@
                    &&& stopped(final(self).counts@.skip(old(self).counts@.len() as int))
                },
                Err(e) => if e is BackendError {
                    loop_failed(
                        old(self).sent(),
                        final(self).sent(),
                        predicate@,
                        arity as int,
                        views(inserts@),
                    )
                } else {
                    &&& e@ == FailureView::IterationOverflow(predicate@)
                    &&& final(self).sent() == old(self).sent() + sqls(
                        fixpoint_statements(
                            predicate@,
                            arity as int,
                            views(inserts@),
                            u64::MAX as nat,
                        ),
                    )
                    &&& final(self).counts@.len() == old(self).counts@.len() + u64::MAX
                    &&& final(self).counts@.take(old(self).counts@.len() as int) == old(
                        self,
                    ).counts@
                    &&& forall|i: int|
                        old(self).counts@.len() <= i < final(self).counts@.len() ==> (
                        #[trigger] final(self).counts@[i]) != 0
                },
            },
    {
        let ghost start = self.sent();
        let ghost counted = self.counts@;
        let ghost p = predicate@;
        let ghost ins = views(inserts@);
        let mut delta = String::from_str("delta_");
        delta.append(predicate.as_str());
        let mut temp = String::from_str("temp_");
        temp.append(predicate.as_str());
        let mut opening: Vec<Statement> = Vec::new();
        opening.push(Statement::Copy { dest: delta.clone(), source: predicate.clone() });
        opening.push(Statement::CopyEmpty { dest: temp.clone(), source: predicate.clone() });
        assert(views(opening@) =~= opening_statements(p));
        let mut closing: Vec<Statement> = Vec::new();
        closing.push(Statement::Drop { table: delta.clone() });
        closing.push(Statement::Drop { table: temp });
        assert(views(closing@) =~= closing_statements(p));
        let mut failure: Option<Failure> = None;
        let ghost mut reach: nat = 0;
        match self.run_all(&opening) {
            Ok(()) => {},
            Err(e) => {
                failure = Some(e);
            },
        }
        proof {
            assert(opening_statements(p) + steps_statements(p, arity as int, ins, 0)
                =~= opening_statements(p));
            lemma_ran_extends(start, self.sent(), sqls(opening_statements(p)), failure is None);
            assert(steps_statements(p, arity as int, ins, 0) =~= Seq::<StatementView>::empty());
            lemma_sqls_add(opening_statements(p), steps_statements(p, arity as int, ins, 0));
            assert(sqls(steps_statements(p, arity as int, ins, 0)) =~= Seq::<Seq<char>>::empty());
            assert(self.counts@.skip(counted.len() as int) =~= Seq::<i64>::empty());
            assert(self.counts@.take(counted.len() as int) =~= counted);
        }
        let mut n: u64 = 0;
        let mut course = Course::Again;
        while course.goes_on() && failure.is_none()
            invariant
                course is Again ==> n < u64::MAX,
                course is Overflow ==> n == u64::MAX,
                failure is Some ==> ran(
                    start,
                    self.sent(),
                    sqls(opening_statements(p) + steps_statements(p, arity as int, ins, reach)),
                    false,
                ),
                self.same_run(old(self)),
                extends(start, self.sent()),
                p == predicate@,
                ins == views(inserts@),
                delta@ == delta_table(p),
                failure is Some ==> failure->0 is BackendError,
                failure is None ==> self.sent() == start + sqls(
                    opening_statements(p) + steps_statements(p, arity as int, ins, n as nat),
                ),
                self.counts@.len() == counted.len() + n,
                self.counts@.take(counted.len() as int) == counted,
                forall|i: int|
                    0 <= i < n - 1 ==> (#[trigger] self.counts@.skip(counted.len() as int)[i]) != 0,
                course is Done ==> n >= 1 && self.counts@.skip(counted.len() as int).last() == 0,
                !(course is Done) && n >= 1 ==> self.counts@.skip(counted.len() as int).last()
                    != 0,
            decreases
                    u64::MAX - n,
                    if failure is None && course is Again {
                        1int
                    } else {
                        0int
                    },
        {
            let ghost before = self.sent();
            let ghost answers = self.counts@.skip(counted.len() as int);
            let ghost sofar = opening_statements(p) + steps_statements(
                p,
                arity as int,
                ins,
                n as nat,
            );
            match self.iteration(predicate, arity, inserts) {
                Err(e) => {
                    proof {
                        lemma_ran_extends(
                            before,
                            self.sent(),
                            sqls(ins + update_statements(p, arity as int)),
                            false,
                        );
                        lemma_extends_twice(start, before, self.sent());
                        let part = sqls(ins + update_statements(p, arity as int));
                        let step = step_statements(p, arity as int, ins);
                        let count = StatementView::Count { table: delta_table(p) };
                        assert(sqls(sofar).take(sqls(sofar).len() as int) =~= sqls(sofar));
                        assert(ran(start, before, sqls(sofar), true));
                        lemma_ran_both(start, before, self.sent(), sqls(sofar), part, false);
                        lemma_ran_first(start, self.sent(), sqls(sofar) + part, seq![count.sql()]);
                        assert(sqls(sofar + step) =~= sqls(sofar) + part + seq![count.sql()]);
                        assert(opening_statements(p) + steps_statements(
                            p,
                            arity as int,
                            ins,
                            (n + 1) as nat,
                        ) =~= sofar + step);
                        reach = (n + 1) as nat;
                    }
                    failure = Some(e);
                },
                Ok(()) => {
                    let ghost middle = self.sent();
                    proof {
                        lemma_ran_extends(
                            before,
                            middle,
                            sqls(ins + update_statements(p, arity as int)),
                            true,
                        );
                    }
                    match self.count(&delta) {
                        Err(e) => {
                            proof {
                                assert(self.sent().take(middle.len() as int) =~= middle);
                                lemma_extends_twice(before, middle, self.sent());
                                lemma_extends_twice(start, before, self.sent());
                                let step = step_statements(p, arity as int, ins);
                                let count = StatementView::Count { table: delta_table(p) };
                                assert(sqls(step) =~= sqls(
                                    ins + update_statements(p, arity as int),
                                ).push(count.sql()));
                                assert(self.sent() =~= before + sqls(step));
                                lemma_sqls_add(sofar, step);
                                assert(opening_statements(p) + steps_statements(
                                    p,
                                    arity as int,
                                    ins,
                                    (n + 1) as nat,
                                ) =~= sofar + step);
                                let all = sqls(sofar + step);
                                assert(all.take(all.len() as int) =~= all);
                                assert(self.sent() =~= start + all.take(all.len() as int));
                                reach = (n + 1) as nat;
                            }
                            failure = Some(e);
                        },
                        Ok(c) => {
                            proof {
                                let step = step_statements(p, arity as int, ins);
                                let count = StatementView::Count { table: delta_table(p) };
                                assert(sqls(step) =~= sqls(
                                    ins + update_statements(p, arity as int),
                                ).push(count.sql()));
                                assert(self.sent() =~= before + sqls(step));
                                lemma_sqls_add(sofar, step);
                                assert(opening_statements(p) + steps_statements(
                                    p,
                                    arity as int,
                                    ins,
                                    (n + 1) as nat,
                                ) =~= sofar + step);
                                assert(self.sent() =~= start + sqls(sofar + step));
                                assert(self.sent().take(start.len() as int) =~= start);
                                let now = self.counts@.skip(counted.len() as int);
                                assert(now =~= answers.push(c));
                                assert(self.counts@.take(counted.len() as int) =~= counted);
                                assert forall|i: int| 0 <= i < n implies (#[trigger] now[i])
                                    != 0 by {
                                    assert(now[i] == answers[i]);
                                    if i == n - 1 {
                                        assert(answers.last() == answers[i]);
                                    }
                                }
                            }
                            n = n + 1;
                            course = course_after(n, c);
                        },
                    }
                },
            }
        }
        let ghost after_loop = self.sent();
        let first = self.run(&closing[0]);
        let second = self.run(&closing[1]);
        let closed = match first {
            Ok(()) => second,
            Err(e) => Err(e),
        };
        proof {
            assert(sqls(closing_statements(p)) =~= seq![closing@[0]@.sql(), closing@[1]@.sql()]);
            assert(self.sent() =~= after_loop + sqls(closing_statements(p)));
            assert(self.sent().take(after_loop.len() as int) =~= after_loop);
            assert(self.sent().skip(self.sent().len() - 2) =~= sqls(closing_statements(p)));
            assert(self.sent().take(self.sent().len() - 2) =~= after_loop);
            lemma_extends_twice(start, after_loop, self.sent());
            let body = opening_statements(p) + steps_statements(p, arity as int, ins, n as nat);
            if failure is None {
                lemma_sqls_add(body, closing_statements(p));
                assert(self.sent() =~= start + sqls(
                    fixpoint_statements(p, arity as int, ins, n as nat),
                ));
                assert(sqls(body).take(sqls(body).len() as int) =~= sqls(body));
                assert(sqls(body).len() >= 2) by {
                    assert(sqls(body)[0] == opening_statements(p)[0].sql());
                    assert(sqls(body)[1] == opening_statements(p)[1].sql());
                }
                assert(ran(start, after_loop, sqls(body), false));
                assert forall|i: int| counted.len() <= i < self.counts@.len() && !(course
                    is Done) implies (#[trigger] self.counts@[i]) != 0 by {
                    let answers = self.counts@.skip(counted.len() as int);
                    assert(answers[i - counted.len()] == self.counts@[i]);
                    if i - counted.len() == n - 1 {
                        assert(answers.last() == answers[i - counted.len()]);
                    }
                }
            }
        }
        match failure {
            Some(e) => Err(e),
            None => {
                if !course.has_ended() {
                    Err(Failure::IterationOverflow(predicate.clone()))
                } else {
                    match closed {
                        Ok(()) => {
                            proof {
                                let body = opening_statements(p) + steps_statements(
                                    p,
                                    arity as int,
                                    ins,
                                    n as nat,
                                );
                                lemma_sqls_add(body, closing_statements(p));
                                assert(self.sent() =~= start + sqls(
                                    fixpoint_statements(p, arity as int, ins, n as nat),
                                ));
                            }
                            Ok(n)
                        },
                        Err(e) => Err(e),
                    }
                }
            },
        }
    }
}


/// What the evaluation of one derived relation takes: the statement that
/// creates its table, the insertions of its base cases, and those of its
/// recursive rules, which are repeated to the fixpoint.
pub struct Plan {
    pub predicate: String,
    pub arity: usize,
    pub create: Statement,
    pub seeds: Vec<Statement>,
    pub steps: Vec<Statement>,
}

/// The value of a `Plan`, as contracts speak of it.
pub struct PlanView {
    pub predicate: Seq<char>,
    pub arity: int,
    pub create: StatementView,
    pub seeds: Seq<StatementView>,
    pub steps: Seq<StatementView>,
}

impl View for Plan {
    type V = PlanView;

    open spec fn view(&self) -> PlanView {
        PlanView {
            predicate: self.predicate@,
            arity: self.arity as int,
            create: self.create@,
            seeds: views(self.seeds@),
            steps: views(self.steps@),
        }
    }
}

/// The insertions of those of the first `n` rules that are base cases
/// with respect to `previous` (if `base`), or that are not (if not), or
/// the failure of the first such rule that does not compile. The base
/// cases add to the relation, the others to its table of produced rows.
pub open spec fn case_insertions(
    rules: Seq<RuleView>,
    previous: Seq<Seq<char>>,
    base: bool,
    n: int,
) -> Result<Seq<StatementView>, FailureView>
    decreases n,
{
    if n <= 0 {
        Ok(Seq::empty())
    } else {
        match case_insertions(rules, previous, base, n - 1) {
            Err(e) => Err(e),
            Ok(before) => if rules[n - 1].is_base_case(previous) == base {
                match insertion(rules[n - 1], !base) {
                    Err(e) => Err(e),
                    Ok(s) => Ok(before.push(s)),
                }
            } else {
                Ok(before)
            },
        }
    }
}

/// Whether the head of each of the first `n` rules has `arity` terms.
pub open spec fn arity_fits(rules: Seq<RuleView>, arity: int, n: int) -> bool {
    forall|i: int| 0 <= i < n ==> (#[trigger] rules[i]).head.terms.len() == arity
}

/// The plan for the relation `name` with the rules `rules`, where the
/// relations `previous` have been evaluated: a failure if the relation has
/// no types, if a head has another number of terms than the relation has
/// columns, or if a rule does not compile.
pub open spec fn relation_plan(
    types: Types,
    name: Seq<char>,
    rules: Seq<RuleView>,
    previous: Seq<Seq<char>>,
) -> Result<PlanView, FailureView> {
    match lookup(types, name) {
        None => Err(FailureView::UnknownType(name)),
        Some(columns) => if !arity_fits(rules, columns.len() as int, rules.len() as int) {
            Err(FailureView::ArityMismatch(name))
        } else {
            match case_insertions(rules, previous, true, rules.len() as int) {
                Err(e) => Err(e),
                Ok(seeds) => match case_insertions(rules, previous, false, rules.len() as int) {
                    Err(e) => Err(e),
                    Ok(steps) => Ok(
                        PlanView {
                            predicate: name,
                            arity: columns.len() as int,
                            create: StatementView::CreateTable { table: name, types: columns },
                            seeds,
                            steps,
                        },
                    ),
                },
            }
        },
    }
}

/// The statements of the evaluation of a relation whose loop, if it has
/// recursive rules, ends after `n` steps.
pub open spec fn plan_statements(plan: PlanView, n: nat) -> Seq<StatementView> {
    seq![plan.create] + plan.seeds + (if plan.steps.len() > 0 {
        fixpoint_statements(plan.predicate, plan.arity, plan.steps, n)
    } else {
        Seq::empty()
    })
}

/// Once a rule does not compile, the failure stays.
pub proof fn lemma_case_insertions_fail(
    rules: Seq<RuleView>,
    previous: Seq<Seq<char>>,
    base: bool,
    n: int,
    m: int,
)
    requires
        0 <= n <= m,
        case_insertions(rules, previous, base, n) is Err,
    ensures
        case_insertions(rules, previous, base, m) == case_insertions(rules, previous, base, n),
    decreases m - n,
{
    if n < m {
        lemma_case_insertions_fail(rules, previous, base, n, m - 1);
    }
}

/// The statement that adds the rows that `rule` derives to its
/// destination.
pub fn insertion_of(rule: &Rule, semi_naive: bool) -> (r: Result<Statement, Failure>)
    ensures
        result_view(r) == insertion(rule@, semi_naive),
{
    match compile(rule, semi_naive) {
        Err(e) => Err(e),
        Ok(selection) => {
            let dest = if semi_naive {
                let mut t = String::from_str("temp_");
                t.append(rule.head.predicate.as_str());
                t
            } else {
                rule.head.predicate.clone()
            };
            Ok(Statement::Insert { dest, arity: rule.head.terms.len(), selection })
        },
    }
}

fn insertions_of(rules: &Vec<Rule>, previous: &Vec<String>, base: bool) -> (r: Result<
    Vec<Statement>,
    Failure,
>)
    ensures
        match r {
            Ok(all) => case_insertions(
                views(rules@),
                views(previous@),
                base,
                rules@.len() as int,
            ) == Ok::<Seq<StatementView>, FailureView>(views(all@)),
            Err(e) => case_insertions(
                views(rules@),
                views(previous@),
                base,
                rules@.len() as int,
            ) == Err::<Seq<StatementView>, FailureView>(e@),
        },
{
    let mut all: Vec<Statement> = Vec::new();
    let mut i: usize = 0;
    assert(views(all@) =~= Seq::<StatementView>::empty());
    while i < rules.len()
        invariant
            i <= rules.len(),
            case_insertions(views(rules@), views(previous@), base, i as int) == Ok::<
                Seq<StatementView>,
                FailureView,
            >(views(all@)),
        decreases rules.len() - i,
    {
        let ghost before = views(all@);
        assert(views(rules@)[i as int] == rules@[i as int]@);
        if rules[i].is_base_case(previous) == base {
            match insertion_of(&rules[i], !base) {
                Ok(statement) => {
                    all.push(statement);
                    assert(views(all@) =~= before.push(statement@));
                },
                Err(e) => {
                    proof {
                        assert(case_insertions(views(rules@), views(previous@), base, i + 1)
                            == Err::<Seq<StatementView>, FailureView>(e@));
                        lemma_case_insertions_fail(
                            views(rules@),
                            views(previous@),
                            base,
                            i + 1,
                            rules@.len() as int,
                        );
                    }
                    return Err(e);
                },
            }
        }
        i = i + 1;
    }
    Ok(all)
}

fn arities_fit(rules: &Vec<Rule>, arity: usize) -> (r: bool)
    ensures
        r == arity_fits(views(rules@), arity as int, rules@.len() as int),
{
    let mut i: usize = 0;
    while i < rules.len()
        invariant
            i <= rules.len(),
            arity_fits(views(rules@), arity as int, i as int),
        decreases rules.len() - i,
    {
        assert(views(rules@)[i as int] == rules@[i as int]@);
        assert(rules@[i as int]@.head.terms.len() == rules@[i as int].head.terms@.len());
        if rules[i].head.terms.len() != arity {
            return false;
        }
        i = i + 1;
    }
    true
}

fn clone_types(types: &Vec<DataType>) -> (r: Vec<DataType>)
    ensures
        r@ == types@,
{
    let mut r: Vec<DataType> = Vec::new();
    let mut i: usize = 0;
    while i < types.len()
        invariant
            i <= types.len(),
            r@ == types@.take(i as int),
        decreases types.len() - i,
    {
        r.push(types[i]);
        assert(r@ =~= types@.take(i + 1));
        i = i + 1;
    }
    assert(types@.take(types@.len() as int) =~= types@);
    r
}

/// Whether the log went from `before` to `after` in a run of the plan
/// that failed. Where the store failed: a statement that creates or seeds
/// the relation failed and was the last that was sent, or the loop failed,
/// after which the two working tables were dropped. Where the steps
/// overflowed: the statements of the plan with every step that can be
/// counted were sent.
pub open spec fn plan_failed(
    before: Seq<Seq<char>>,
    after: Seq<Seq<char>>,
    plan: PlanView,
    overflow: bool,
) -> bool {
    if overflow {
        plan.steps.len() > 0 && after == before + sqls(plan_statements(plan, u64::MAX as nat))
    } else {
        ||| ran(before, after, sqls(seq![plan.create] + plan.seeds), false)
        ||| plan.steps.len() > 0 && loop_failed(
            before + sqls(seq![plan.create] + plan.seeds),
            after,
            plan.predicate,
            plan.arity,
            plan.steps,
        )
    }
}

/// Whether the counts went from `before` to `after` in a loop whose steps
/// overflowed: every step that can be counted was made, and each added
/// rows.
pub open spec fn overflowed(before: Seq<i64>, after: Seq<i64>) -> bool {
    &&& after.len() == before.len() + u64::MAX
    &&& after.take(before.len() as int) == before
    &&& forall|i: int| before.len() <= i < after.len() ==> (#[trigger] after[i]) != 0
}

impl Plan {
    /// Plans the evaluation of the relation `name` with the rules `rules`,
    /// where the relations `previous` have been evaluated.
    pub fn new(analyzer: &Analyzer, name: &String, rules: &Vec<Rule>, previous: &Vec<String>) -> (r:
        Result<Plan, Failure>)
        ensures
            result_view(r) == relation_plan(analyzer@, name@, views(rules@), views(previous@)),
    {
        let k = analyzer.find(name);
        if k >= analyzer.data_types.len() {
            return Err(Failure::UnknownType(name.clone()));
        }
        let columns = &analyzer.data_types[k].1;
        if !arities_fit(rules, columns.len()) {
            return Err(Failure::ArityMismatch(name.clone()));
        }
        let seeds = match insertions_of(rules, previous, true) {
            Ok(s) => s,
            Err(e) => {
                return Err(e);
            },
        };
        let steps = match insertions_of(rules, previous, false) {
            Ok(s) => s,
            Err(e) => {
                return Err(e);
            },
        };
        Ok(
            Plan {
                predicate: name.clone(),
                arity: columns.len(),
                create: Statement::CreateTable { table: name.clone(), types: clone_types(columns) },
                seeds,
                steps,
            },
        )
    }
}

impl Runtime {
    /// Seeds the relation of `rule`'s head: sends the insertion of the
    /// rows that the rule derives from the tables of its body.
    pub fn init_base(&mut self, rule: &Rule) -> (r: Result<(), Failure>)
        ensures
            final(self).same_run(old(self)),
            final(self).counts@ == old(self).counts@,
            match insertion(rule@, false) {
                Err(e) => result_view(r) == Err::<(), FailureView>(e) && final(self).sent() == old(
                    self,
                ).sent(),
                Ok(s) => final(self).sent() == old(self).sent().push(s.sql()) && (r is Err
                    ==> r->Err_0 is BackendError),
            },
    {
        match insertion_of(rule, false) {
            Err(e) => Err(e),
            Ok(statement) => self.run(&statement),
        }
    }

    /// Carries out the plan of a relation: creates its table, seeds it,
    /// and evaluates its recursive rules, if it has any, to their
    /// fixpoint. Gives the number of steps of that loop.
    pub fn execute_plan(&mut self, plan: &Plan) -> (r: Result<u64, Failure>)
        ensures
            final(self).same_run(old(self)),
            extends(old(self).sent(), final(self).sent()),
            match r {
                Ok(n) => {
                    &&& final(self).sent() == old(self).sent() + sqls(
                        plan_statements(plan@, n as nat),
                    )
                    &&& final(self).counts@.len() == old(self).counts@.len() + n
                    &&& final(self).counts@.take(old(self).counts@.len() as int) == old(
                        self,
                    ).counts@
                    &&& if plan@.steps.len() > 0 {
                        stopped(final(self).counts@.skip(old(self).counts@.len() as int))
                    } else {
                        n == 0
                    }
                },
                Err(e) => {
                    &&& e is BackendError || e@ == FailureView::IterationOverflow(plan@.predicate)
                    &&& plan_failed(
                        old(self).sent(),
                        final(self).sent(),
                        plan@,
                        e is IterationOverflow,
                    )
                    &&& e is IterationOverflow ==> overflowed(
                        old(self).counts@,
                        final(self).counts@,
                    )
                },
            },
    {
        let ghost start = self.sent();
        let ghost counted = self.counts@;
        let ghost head = sqls(seq![plan@.create]);
        let ghost opening = sqls(seq![plan@.create] + plan@.seeds);
        proof {
            lemma_sqls_add(seq![plan@.create], plan@.seeds);
            assert(head =~= seq![plan@.create.sql()]);
        }
        let created = self.run(&plan.create);
        proof {
            assert(self.sent().take(start.len() as int) =~= start);
            assert(head.take(1) =~= head);
            assert(self.sent() =~= start + head.take(1));
            assert(ran(start, self.sent(), head, created is Ok));
        }
        match created {
            Ok(()) => {},
            Err(e) => {
                proof {
                    lemma_ran_first(start, self.sent(), head, sqls(plan@.seeds));
                }
                return Err(e);
            },
        }
        let ghost first = self.sent();
        let seeded = self.run_all(&plan.seeds);
        proof {
            lemma_ran_extends(first, self.sent(), sqls(plan@.seeds), seeded is Ok);
            lemma_extends_twice(start, first, self.sent());
            lemma_ran_both(start, first, self.sent(), head, sqls(plan@.seeds), seeded is Ok);
        }
        match seeded {
            Ok(()) => {},
            Err(e) => {
                return Err(e);
            },
        }
        let ghost second = self.sent();
        proof {
            lemma_sqls_add(seq![plan@.create], plan@.seeds);
            assert(sqls(seq![plan@.create]) =~= seq![plan@.create.sql()]);
            assert(second =~= start + sqls(seq![plan@.create] + plan@.seeds));
        }
        if plan.steps.len() > 0 {
            let r = self.semi_naive_evaluate(&plan.predicate, plan.arity, &plan.steps);
            proof {
                lemma_extends_twice(start, second, self.sent());
                if r is Err && r->Err_0 is IterationOverflow {
                    let tail = fixpoint_statements(
                        plan@.predicate,
                        plan@.arity,
                        plan@.steps,
                        u64::MAX as nat,
                    );
                    lemma_sqls_add(seq![plan@.create] + plan@.seeds, tail);
                    assert(self.sent() =~= start + sqls(
                        plan_statements(plan@, u64::MAX as nat),
                    ));
                }
                if r is Ok {
                    let n = r->Ok_0;
                    let tail = fixpoint_statements(
                        plan@.predicate,
                        plan@.arity,
                        plan@.steps,
                        n as nat,
                    );
                    lemma_sqls_add(seq![plan@.create] + plan@.seeds, tail);
                    assert(self.sent() =~= start + sqls(plan_statements(plan@, n as nat)));
                }
            }
            r
        } else {
            proof {
                assert(plan_statements(plan@, 0) =~= seq![plan@.create] + plan@.seeds);
                assert(self.counts@.take(counted.len() as int) =~= counted);
            }
            Ok(0)
        }
    }

    /// Evaluates the relation `name` with the rules `rules`, where the
    /// relations `previous` have been evaluated. Nothing is sent to the
    /// store where the relation cannot be planned.
    pub fn apply_rules(&mut self, name: &String, rules: &Vec<Rule>, previous: &Vec<String>) -> (r:
        Result<u64, Failure>)
        ensures
            final(self).same_run(old(self)),
            extends(old(self).sent(), final(self).sent()),
            match relation_plan(old(self).analyzer@, name@, views(rules@), views(previous@)) {
                Err(e) => result_view(r) == Err::<u64, FailureView>(e) && final(self).sent() == old(
                    self,
                ).sent() && final(self).counts@ == old(self).counts@,
                Ok(plan) => match r {
                    Ok(n) => {
                        &&& final(self).sent() == old(self).sent() + sqls(
                            plan_statements(plan, n as nat),
                        )
                        &&& final(self).counts@.len() == old(self).counts@.len() + n
                        &&& final(self).counts@.take(old(self).counts@.len() as int) == old(
                            self,
                        ).counts@
                        &&& if plan.steps.len() > 0 {
                            stopped(final(self).counts@.skip(old(self).counts@.len() as int))
                        } else {
                            n == 0
                        }
                    },
                    Err(e) => {
                        &&& e is BackendError || e@ == FailureView::IterationOverflow(name@)
                        &&& plan_failed(
                            old(self).sent(),
                            final(self).sent(),
                            plan,
                            e is IterationOverflow,
                        )
                        &&& e is IterationOverflow ==> overflowed(
                            old(self).counts@,
                            final(self).counts@,
                        )
                    },
                },
            },
    {
        match Plan::new(&self.analyzer, name, rules, previous) {
            Err(e) => {
                assert(self.sent().take(self.sent().len() as int) =~= self.sent());
                Err(e)
            },
            Ok(plan) => self.execute_plan(&plan),
        }
    }
}


/// The checks for the constants among the first `n` terms of a query's
/// head: the column at the position of a constant holds it.
pub open spec fn constant_checks(terms: Seq<TermView>, n: int) -> Seq<CheckView>
    decreases n,
{
    if n <= 0 {
        Seq::empty()
    } else {
        match terms[n - 1] {
            TermView::Constant(k) => constant_checks(terms, n - 1).push(
                CheckView::Constant(n - 1, k),
            ),
            _ => constant_checks(terms, n - 1),
        }
    }
}

/// The checks for one variable at `positions`: the column at its first
/// position equals that at each other.
pub open spec fn position_checks(positions: Seq<int>) -> Seq<CheckView> {
    Seq::new(
        if positions.len() > 0 {
            (positions.len() - 1) as nat
        } else {
            0
        },
        |k: int| CheckView::Same(positions[0], positions[k + 1]),
    )
}

/// The checks for the first `n` variables of a query's head.
pub open spec fn variable_checks(head: Seq<(Seq<char>, Seq<int>)>, n: int) -> Seq<CheckView>
    decreases n,
{
    if n <= 0 {
        Seq::empty()
    } else {
        variable_checks(head, n - 1) + position_checks(head[n - 1].1)
    }
}

/// The checks of a query: those for the constants of its head, then those
/// for the variables that occur twice or more.
pub open spec fn query_checks(rule: RuleView) -> Seq<CheckView> {
    constant_checks(rule.head.terms, rule.head.terms.len() as int) + variable_checks(
        var_dict(rule).head,
        var_dict(rule).head.len() as int,
    )
}

/// The statements of a query: is its relation there; which of its rows
/// meet the checks.
pub open spec fn query_statements(rule: RuleView) -> Seq<StatementView> {
    seq![
        StatementView::Exists { table: rule.head.predicate },
        StatementView::Select {
            table: rule.head.predicate,
            arity: rule.head.terms.len() as int,
            checks: query_checks(rule),
        },
    ]
}

/// The statements of the first `n` queries.
pub open spec fn queries_statements(queries: Seq<RuleView>, n: int) -> Seq<StatementView>
    decreases n,
{
    if n <= 0 {
        Seq::empty()
    } else {
        queries_statements(queries, n - 1) + query_statements(queries[n - 1])
    }
}

/// Whether `failure` says that the relation of one of `queries` is not
/// there.
pub open spec fn missing_query(queries: Seq<RuleView>, failure: FailureView) -> bool {
    exists|i: int|
        0 <= i < queries.len() && failure == FailureView::UndefinedPredicate(
            (#[trigger] queries[i]).head.predicate,
        )
}

/// What the answer to the question whether a query's relation is there
/// means: with no table of that name the relation is undefined.
pub fn check_query_table(rule: &Rule, tables: usize) -> (r: Result<(), Failure>)
    ensures
        r is Ok <==> tables != 0,
        r is Err ==> r->Err_0@ == FailureView::UndefinedPredicate(rule@.head.predicate),
{
    if tables == 0 {
        Err(Failure::UndefinedPredicate(rule.head.predicate.clone()))
    } else {
        Ok(())
    }
}

/// Sending a part of the statements of the first `i` queries sends a part
/// of the statements of the first `n`.
pub proof fn lemma_queries_part(
    queries: Seq<RuleView>,
    i: int,
    n: int,
    a: Seq<Seq<char>>,
    b: Seq<Seq<char>>,
)
    requires
        0 <= i <= n,
        ran(a, b, sqls(queries_statements(queries, i)), false),
    ensures
        ran(a, b, sqls(queries_statements(queries, n)), false),
    decreases n - i,
{
    if i < n {
        lemma_queries_part(queries, i, n - 1, a, b);
        lemma_sqls_add(queries_statements(queries, n - 1), query_statements(queries[n - 1]));
        lemma_ran_first(
            a,
            b,
            sqls(queries_statements(queries, n - 1)),
            sqls(query_statements(queries[n - 1])),
        );
    }
}

/// The rows as sequences of texts.
pub open spec fn row_views(rows: Seq<Vec<String>>) -> Seq<Seq<Seq<char>>> {
    Seq::new(rows.len(), |i: int| views(rows[i]@))
}

/// Each row as a line: its values with a comma and a space between them.
pub open spec fn row_lines(rows: Seq<Seq<Seq<char>>>) -> Seq<Seq<char>> {
    Seq::new(rows.len(), |i: int| join(rows[i], ", "@))
}

/// The lines that report `rows`: a line for each row; of more than twenty
/// rows the first ten, a line of three dots, and the last ten.
pub open spec fn report_lines(rows: Seq<Seq<Seq<char>>>) -> Seq<Seq<char>> {
    if rows.len() <= 20 {
        row_lines(rows)
    } else {
        row_lines(rows).take(10) + seq!["..."@] + Seq::new(
            10,
            |i: int| row_lines(rows)[rows.len() - 10 + i],
        )
    }
}

/// The result of a query, ready to be shown.
#[derive(Debug, PartialEq, Eq)]
pub struct QueryReport {
    /// The head of the query as it was written.
    pub head: String,
    /// The lines that report the rows.
    pub lines: Vec<String>,
    /// The number of rows.
    pub count: usize,
}

/// The value of a `QueryReport`, as contracts speak of it.
pub struct QueryReportView {
    pub head: Seq<char>,
    pub lines: Seq<Seq<char>>,
    pub count: int,
}

impl View for QueryReport {
    type V = QueryReportView;

    open spec fn view(&self) -> QueryReportView {
        QueryReportView { head: self.head@, lines: views(self.lines@), count: self.count as int }
    }
}

/// The report of the query `rule` that found `rows`.
pub open spec fn report_of(rule: RuleView, rows: Seq<Seq<Seq<char>>>) -> QueryReportView {
    QueryReportView {
        head: rule.head.display(),
        lines: report_lines(rows),
        count: rows.len() as int,
    }
}

/// Whether `report` reports some rows for the query `rule`.
pub open spec fn reports(report: QueryReportView, rule: RuleView) -> bool {
    exists|rows: Seq<Seq<Seq<char>>>| report == #[trigger] report_of(rule, rows)
}

/// The checks of the query `rule`.
pub fn checks_of(rule: &Rule) -> (checks: Vec<Check>)
    ensures
        views(checks@) == query_checks(rule@),
{
    let mut checks: Vec<Check> = Vec::new();
    let mut i: usize = 0;
    assert(views(checks@) =~= constant_checks(rule@.head.terms, 0));
    while i < rule.head.terms.len()
        invariant
            i <= rule.head.terms.len(),
            views(checks@) == constant_checks(rule@.head.terms, i as int),
        decreases rule.head.terms.len() - i,
    {
        let ghost before = views(checks@);
        assert(rule@.head.terms[i as int] == rule.head.terms@[i as int]@);
        match &rule.head.terms[i] {
            Term::Constant(k) => {
                let check = Check::Constant(i, k.clone());
                checks.push(check);
                assert(views(checks@) =~= before.push(check@));
            },
            _ => {},
        }
        i = i + 1;
    }
    let dict = VarDict::new(rule);
    let ghost first = views(checks@);
    let ghost head = var_dict(rule@).head;
    assert(head == head_entries(dict.head_dict@));
    let mut v: usize = 0;
    assert(views(checks@) =~= first + variable_checks(head, 0));
    while v < dict.head_dict.len()
        invariant
            v <= dict.head_dict.len(),
            head == head_entries(dict.head_dict@),
            views(checks@) == first + variable_checks(head, v as int),
        decreases dict.head_dict.len() - v,
    {
        let positions = &dict.head_dict[v].1;
        let ghost before = views(checks@);
        assert(head[v as int].1 == ints(positions@));
        let mut k: usize = 1;
        while k < positions.len()
            invariant
                1 <= k,
                k <= positions.len() || k == 1,
                views(checks@) == before + Seq::new(
                    (k - 1) as nat,
                    |j: int| CheckView::Same(ints(positions@)[0], ints(positions@)[j + 1]),
                ),
            decreases positions.len() - k,
        {
            let ghost sofar = views(checks@);
            let check = Check::Same(positions[0], positions[k]);
            checks.push(check);
            assert(views(checks@) =~= sofar.push(check@));
            k = k + 1;
            assert(views(checks@) =~= before + Seq::new(
                (k - 1) as nat,
                |j: int| CheckView::Same(ints(positions@)[0], ints(positions@)[j + 1]),
            ));
        }
        proof {
            assert(ints(positions@).len() == positions@.len());
            assert(views(checks@) =~= before + position_checks(ints(positions@)));
            assert(views(checks@) =~= first + (variable_checks(head, v as int) + position_checks(
                head[v as int].1,
            )));
        }
        v = v + 1;
    }
    checks
}

/// The lines that report `rows`.
pub fn lines_of(rows: &Vec<Vec<String>>) -> (lines: Vec<String>)
    ensures
        views(lines@) == report_lines(row_views(rows@)),
{
    let ghost all = row_lines(row_views(rows@));
    let mut lines: Vec<String> = Vec::new();
    let n = rows.len();
    if n <= 20 {
        let mut i: usize = 0;
        while i < n
            invariant
                n == rows.len(),
                i <= n,
                all == row_lines(row_views(rows@)),
                lines@.len() == i,
                forall|k: int| 0 <= k < i ==> (#[trigger] lines@[k])@ == all[k],
            decreases n - i,
        {
            let line = join_strings(&rows[i], ", ");
            assert(all[i as int] == join(row_views(rows@)[i as int], ", "@));
            lines.push(line);
            i = i + 1;
        }
        assert(views(lines@) =~= all);
    } else {
        let mut i: usize = 0;
        while i < 10
            invariant
                n == rows.len(),
                n > 20,
                i <= 10,
                all == row_lines(row_views(rows@)),
                lines@.len() == i,
                forall|k: int| 0 <= k < i ==> (#[trigger] lines@[k])@ == all[k],
            decreases 10 - i,
        {
            let line = join_strings(&rows[i], ", ");
            assert(all[i as int] == join(row_views(rows@)[i as int], ", "@));
            lines.push(line);
            i = i + 1;
        }
        lines.push(String::from_str("..."));
        let mut j: usize = 0;
        while j < 10
            invariant
                n == rows.len(),
                n > 20,
                j <= 10,
                all == row_lines(row_views(rows@)),
                lines@.len() == 11 + j,
                forall|k: int| 0 <= k < 10 ==> (#[trigger] lines@[k])@ == all[k],
                lines@[10]@ == "..."@,
                forall|k: int| 0 <= k < j ==> (#[trigger] lines@[11 + k])@ == all[n - 10 + k],
            decreases 10 - j,
        {
            let line = join_strings(&rows[n - 10 + j], ", ");
            assert(all[n - 10 + j] == join(row_views(rows@)[n - 10 + j], ", "@));
            lines.push(line);
            j = j + 1;
        }
        proof {
            let expected = all.take(10) + seq!["..."@] + Seq::new(10, |i: int| all[n - 10 + i]);
            assert(all.len() == n);
            assert(expected.len() == 21);
            assert forall|k: int| 0 <= k < 21 implies views(lines@)[k] == expected[k] by {
                if k < 10 {
                    assert(expected[k] == all.take(10)[k]);
                } else if k == 10 {
                    assert(expected[k] == seq!["..."@][0]);
                } else {
                    assert(lines@[11 + (k - 11)]@ == all[n - 10 + (k - 11)]);
                }
            }
            assert(views(lines@) =~= expected);
        }
    }
    lines
}

impl QueryReport {
    /// The report of the query `rule` that found `rows`.
    pub fn new(rule: &Rule, rows: &Vec<Vec<String>>) -> (report: QueryReport)
        ensures
            report@ == report_of(rule@, row_views(rows@)),
            reports(report@, rule@),
    {
        let report = QueryReport {
            head: rule.head.display(),
            lines: lines_of(rows),
            count: rows.len(),
        };
        assert(report@ == report_of(rule@, row_views(rows@)));
        report
    }
}


/// The plans of the first `n` derived relations in the order of
/// evaluation, or the failure of the first that cannot be planned. A
/// relation is planned with the base relations and the derived relations
/// before it as evaluated.
pub open spec fn evaluation_plans(context: ContextView, types: Types, n: int) -> Result<
    Seq<PlanView>,
    FailureView,
>
    decreases n,
{
    if n <= 0 {
        Ok(Seq::empty())
    } else {
        let order = context.ordered_idbs();
        match evaluation_plans(context, types, n - 1) {
            Err(e) => Err(e),
            Ok(before) => match lookup(context.idbs, order[n - 1]) {
                None => Err(FailureView::UndefinedPredicate(order[n - 1])),
                Some(rules) => match relation_plan(
                    types,
                    order[n - 1],
                    rules,
                    context.edb_names() + order.take(n - 1),
                ) {
                    Err(e) => Err(e),
                    Ok(plan) => Ok(before.push(plan)),
                },
            },
        }
    }
}

/// The statements of the first `n` plans, where the loop of the plan at
/// position `k` ends after `iterations[k]` steps.
pub open spec fn plans_statements(plans: Seq<PlanView>, iterations: Seq<u64>, n: int) -> Seq<
    StatementView,
>
    decreases n,
{
    if n <= 0 {
        Seq::empty()
    } else {
        plans_statements(plans, iterations, n - 1) + plan_statements(
            plans[n - 1],
            iterations[n - 1] as nat,
        )
    }
}

/// Once a relation cannot be planned, the failure stays.
pub proof fn lemma_evaluation_plans_fail(context: ContextView, types: Types, n: int, m: int)
    requires
        0 <= n <= m,
        evaluation_plans(context, types, n) is Err,
    ensures
        evaluation_plans(context, types, m) == evaluation_plans(context, types, n),
    decreases m - n,
{
    if n < m {
        lemma_evaluation_plans_fail(context, types, n, m - 1);
    }
}

/// The number of steps of the loops of the first `n` plans.
pub open spec fn steps_before(iterations: Seq<u64>, n: int) -> int
    decreases n,
{
    if n <= 0 {
        0
    } else {
        steps_before(iterations, n - 1) + iterations[n - 1]
    }
}

/// Whether the loop of the plan at position `k` ended as it should, where
/// `counts` are the answers to all the counts of the evaluation in order:
/// a plan without steps has no loop; the counts of a loop are those of a
/// loop that has ended.
pub open spec fn loop_stopped(
    plans: Seq<PlanView>,
    iterations: Seq<u64>,
    counts: Seq<i64>,
    k: int,
) -> bool {
    &&& 0 <= steps_before(iterations, k) <= steps_before(iterations, k + 1) <= counts.len()
    &&& if plans[k].steps.len() > 0 {
        stopped(counts.subrange(steps_before(iterations, k), steps_before(iterations, k + 1)))
    } else {
        iterations[k] == 0
    }
}

/// Whether the loops of the first `n` plans ended as they should, and
/// `counts` holds their counts and no others.
pub open spec fn loops_stopped(
    plans: Seq<PlanView>,
    iterations: Seq<u64>,
    counts: Seq<i64>,
    n: int,
) -> bool {
    &&& counts.len() == steps_before(iterations, n)
    &&& forall|k: int| 0 <= k < n ==> #[trigger] loop_stopped(plans, iterations, counts, k)
}

/// The steps of the first `k` loops do not depend on later loops.
pub proof fn lemma_steps_before_push(iterations: Seq<u64>, n: u64, k: int)
    requires
        0 <= k <= iterations.len(),
    ensures
        steps_before(iterations.push(n), k) == steps_before(iterations, k),
        steps_before(iterations, k) >= 0,
    decreases k,
{
    if k > 0 {
        lemma_steps_before_push(iterations, n, k - 1);
        assert(iterations.push(n)[k - 1] == iterations[k - 1]);
    }
}

/// One more loop that has ended as it should: the loops before it still
/// have.
pub proof fn lemma_loops_stopped_push(
    plans: Seq<PlanView>,
    iterations: Seq<u64>,
    counts: Seq<i64>,
    n: u64,
    more: Seq<i64>,
)
    requires
        iterations.len() < plans.len(),
        loops_stopped(plans, iterations, counts, iterations.len() as int),
        more.len() == n,
        if plans[iterations.len() as int].steps.len() > 0 {
            stopped(more)
        } else {
            n == 0
        },
    ensures
        loops_stopped(plans, iterations.push(n), counts + more, (iterations.len() + 1) as int),
{
    let k = iterations.len() as int;
    let longer = iterations.push(n);
    let all = counts + more;
    lemma_steps_before_push(iterations, n, k);
    assert(longer[k] == n);
    assert(steps_before(longer, k + 1) == steps_before(longer, k) + n);
    assert forall|j: int| 0 <= j < k + 1 implies #[trigger] loop_stopped(plans, longer, all, j) by {
        if j < k {
            assert(loop_stopped(plans, iterations, counts, j));
            lemma_steps_before_push(iterations, n, j);
            lemma_steps_before_push(iterations, n, j + 1);
            assert(longer[j] == iterations[j]);
            assert(all.subrange(steps_before(longer, j), steps_before(longer, j + 1))
                =~= counts.subrange(steps_before(iterations, j), steps_before(iterations, j + 1)));
        } else {
            assert(all.subrange(steps_before(longer, k), steps_before(longer, k + 1)) =~= more);
        }
    }
}

/// Whether the log went from `before` to `after` in an evaluation that
/// failed: the plans before some plan were carried out and that plan
/// failed, or all plans were carried out and the queries failed.
pub open spec fn evaluation_failed(
    before: Seq<Seq<char>>,
    after: Seq<Seq<char>>,
    plans: Seq<PlanView>,
    queries: Seq<RuleView>,
    overflow: bool,
) -> bool {
    ||| exists|k: int, iterations: Seq<u64>|
        0 <= k < plans.len() && plan_failed(
            before + sqls(#[trigger] plans_statements(plans, iterations, k)),
            after,
            plans[k],
            overflow,
        )
    ||| !overflow && exists|iterations: Seq<u64>|
        ran(
            before + sqls(#[trigger] plans_statements(plans, iterations, plans.len() as int)),
            after,
            sqls(queries_statements(queries, queries.len() as int)),
            false,
        )
}

/// What an evaluation gives: for each derived relation the number of
/// steps of its loop, the report of each query, and the account of what
/// was done.
pub struct Evaluation {
    pub iterations: Vec<u64>,
    pub reports: Vec<QueryReport>,
    pub notes: Vec<Note>,
}

impl Runtime {
    /// Answers the queries of the program: for each, asks whether its
    /// relation is there, selects the rows that meet its checks, and
    /// reports them. With no query it succeeds; where it fails, the last
    /// statement sent is the one that failed, or the one that found a
    /// relation missing.
    pub fn write_queries(&mut self) -> (r: Result<Vec<QueryReport>, Failure>)
        ensures
            final(self).same_run(old(self)),
            final(self).counts@ == old(self).counts@,
            extends(old(self).sent(), final(self).sent()),
            old(self).context@.queries.len() == 0 ==> r is Ok,
            r is Err ==> ran(
                old(self).sent(),
                final(self).sent(),
                sqls(
                    queries_statements(
                        old(self).context@.queries,
                        old(self).context@.queries.len() as int,
                    ),
                ),
                false,
            ),
            match r {
                Ok(found) => {
                    &&& final(self).sent() == old(self).sent() + sqls(
                        queries_statements(
                            old(self).context@.queries,
                            old(self).context@.queries.len() as int,
                        ),
                    )
                    &&& found@.len() == old(self).context@.queries.len()
                    &&& forall|i: int|
                        0 <= i < found@.len() ==> reports(
                            (#[trigger] found@[i])@,
                            old(self).context@.queries[i],
                        )
                },
                Err(e) => e is BackendError || missing_query(old(self).context@.queries, e@),
            },
    {
        let ghost start = self.sent();
        let ghost queries = self.context@.queries;
        let mut found: Vec<QueryReport> = Vec::new();
        let mut i: usize = 0;
        assert(self.sent() =~= start + sqls(queries_statements(queries, 0)));
        assert(start.take(start.len() as int) =~= start);
        while i < self.context.queries.len()
            invariant
                i <= self.context.queries.len(),
                self.same_run(old(self)),
                self.counts@ == old(self).counts@,
                queries == self.context@.queries,
                start == old(self).sent(),
                self.sent() == start + sqls(queries_statements(queries, i as int)),
                found@.len() == i,
                forall|k: int| 0 <= k < i ==> reports((#[trigger] found@[k])@, queries[k]),
            decreases self.context.queries.len() - i,
        {
            let rule = self.context.queries[i].clone();
            let ghost before = self.sent();
            assert(queries[i as int] == rule@);
            let exists = Statement::Exists { table: rule.head.predicate.clone() };
            let present = self.fetch(&exists, 1);
            let ghost middle = self.sent();
            proof {
                assert(middle.take(start.len() as int) =~= start);
                let both = sqls(query_statements(rule@));
                let past = sqls(queries_statements(queries, i as int));
                assert(both[0] == exists@.sql());
                lemma_sqls_add(queries_statements(queries, i as int), query_statements(rule@));
                assert((past + both).take((past.len() + 1) as int) =~= past.push(exists@.sql()));
                assert(middle =~= start + (past + both).take((past.len() + 1) as int));
                assert(ran(start, middle, sqls(queries_statements(queries, i + 1)), false));
                lemma_queries_part(queries, i + 1, queries.len() as int, start, middle);
            }
            match present {
                Err(e) => {
                    return Err(e);
                },
                Ok(rows) => {
                    match check_query_table(&rule, rows.len()) {
                        Ok(()) => {},
                        Err(e) => {
                            assert(queries[i as int].head.predicate == rule@.head.predicate);
                            return Err(e);
                        },
                    }
                },
            }
            let select = Statement::Select {
                table: rule.head.predicate.clone(),
                arity: rule.head.terms.len(),
                checks: checks_of(&rule),
            };
            let selected = self.fetch(&select, rule.head.terms.len());
            proof {
                let both = query_statements(rule@);
                assert(sqls(both) =~= seq![exists@.sql(), select@.sql()]);
                assert(self.sent() =~= before + sqls(both));
                lemma_sqls_add(queries_statements(queries, i as int), both);
                assert(self.sent() =~= start + sqls(queries_statements(queries, i + 1)));
                assert(self.sent().take(start.len() as int) =~= start);
                let sent = sqls(queries_statements(queries, i + 1));
                assert(sent.take(sent.len() as int) =~= sent);
                assert(ran(start, self.sent(), sent, false));
                lemma_queries_part(queries, i + 1, queries.len() as int, start, self.sent());
            }
            match selected {
                Err(e) => {
                    return Err(e);
                },
                Ok(rows) => {
                    found.push(QueryReport::new(&rule, &rows));
                },
            }
            i = i + 1;
        }
        assert(self.sent().take(start.len() as int) =~= start);
        Ok(found)
    }

    /// Plans the evaluation of every derived relation, in the order of
    /// evaluation.
    pub fn plan_all(&self) -> (r: Result<Vec<Plan>, Failure>)
        ensures
            match r {
                Ok(plans) => evaluation_plans(
                    self.context@,
                    self.analyzer@,
                    self.context@.ordered_idbs().len() as int,
                ) == Ok::<Seq<PlanView>, FailureView>(views(plans@)),
                Err(e) => evaluation_plans(
                    self.context@,
                    self.analyzer@,
                    self.context@.ordered_idbs().len() as int,
                ) == Err::<Seq<PlanView>, FailureView>(e@),
            },
    {
        let ghost context = self.context@;
        let ghost types = self.analyzer@;
        let order = self.context.ordered_idbs();
        let ghost names = views(order@);
        let mut previous = self.context.edb_names();
        let mut plans: Vec<Plan> = Vec::new();
        let mut k: usize = 0;
        assert(views(plans@) =~= Seq::<PlanView>::empty());
        assert(views(previous@) =~= context.edb_names() + names.take(0));
        while k < order.len()
            invariant
                k <= order.len(),
                context == self.context@,
                types == self.analyzer@,
                names == views(order@),
                names == context.ordered_idbs(),
                views(previous@) == context.edb_names() + names.take(k as int),
                evaluation_plans(context, types, k as int) == Ok::<Seq<PlanView>, FailureView>(
                    views(plans@),
                ),
            decreases order.len() - k,
        {
            let name = &order[k];
            let ghost before = views(plans@);
            let ghost earlier = views(previous@);
            let g = find_key(&self.context.idbs, name);
            proof {
                lemma_entry_index_keys(context.idbs, name@);
                assert(keys(context.idbs) =~= key_views(self.context.idbs@));
            }
            if g >= self.context.idbs.len() {
                proof {
                    assert(evaluation_plans(context, types, k + 1) == Err::<
                        Seq<PlanView>,
                        FailureView,
                    >(FailureView::UndefinedPredicate(name@)));
                    lemma_evaluation_plans_fail(context, types, k + 1, names.len() as int);
                }
                return Err(Failure::UndefinedPredicate(name.clone()));
            }
            let rules = &self.context.idbs[g].1;
            assert(context.idbs[g as int].1 == views(rules@));
            match Plan::new(&self.analyzer, name, rules, &previous) {
                Err(e) => {
                    proof {
                        assert(evaluation_plans(context, types, k + 1) == Err::<
                            Seq<PlanView>,
                            FailureView,
                        >(e@));
                        lemma_evaluation_plans_fail(context, types, k + 1, names.len() as int);
                    }
                    return Err(e);
                },
                Ok(plan) => {
                    plans.push(plan);
                    assert(views(plans@) =~= before.push(plan@));
                },
            }
            previous.push(name.clone());
            assert(views(previous@) =~= earlier.push(name@));
            assert(names.take(k + 1) =~= names.take(k as int).push(name@));
            assert(views(previous@) =~= context.edb_names() + names.take(k + 1));
            k = k + 1;
        }
        Ok(plans)
    }

    /// Evaluates the program: each derived relation in the order of
    /// evaluation, then the queries. Nothing is sent to the store where a
    /// relation cannot be planned. A program without derived relations
    /// and without queries succeeds. After a success the counts that were
    /// taken are those of the loops, each of which ended on a step that
    /// added nothing. After a failure the log ends with the statement that
    /// failed, or with the statements that drop the working tables of the
    /// loop that failed. The account of a success names the statements
    /// that were sent, and the steps of the loops between them.
    pub fn eval(&mut self) -> (r: Result<Evaluation, Failure>)
        ensures
            final(self).same_run(old(self)),
            extends(old(self).sent(), final(self).sent()),
            match evaluation_plans(
                old(self).context@,
                old(self).analyzer@,
                old(self).context@.ordered_idbs().len() as int,
            ) {
                Err(e) => result_view_of(r) == Err::<(), FailureView>(e) && final(self).sent()
                    == old(self).sent() && final(self).counts@ == old(self).counts@,
                Ok(plans) => (plans.len() == 0 && old(self).context@.queries.len() == 0 ==> r
                    is Ok) && match r {
                    Ok(done) => {
                        &&& done.iterations@.len() == plans.len()
                        &&& final(self).counts@.len() >= old(self).counts@.len()
                        &&& final(self).counts@.take(old(self).counts@.len() as int) == old(
                            self,
                        ).counts@
                        &&& loops_stopped(
                            plans,
                            done.iterations@,
                            final(self).counts@.skip(old(self).counts@.len() as int),
                            plans.len() as int,
                        )
                        &&& final(self).sent() == old(self).sent() + sqls(
                            plans_statements(plans, done.iterations@, plans.len() as int),
                        ) + sqls(
                            queries_statements(
                                old(self).context@.queries,
                                old(self).context@.queries.len() as int,
                            ),
                        )
                        &&& done.reports@.len() == old(self).context@.queries.len()
                        &&& forall|i: int|
                            0 <= i < done.reports@.len() ==> reports(
                                (#[trigger] done.reports@[i])@,
                                old(self).context@.queries[i],
                            )
                        &&& views(done.notes@) == account_of(
                            plans,
                            done.iterations@,
                            old(self).context@.queries,
                        )
                    },
                    Err(e) => (e is BackendError || e is IterationOverflow || missing_query(
                        old(self).context@.queries,
                        e@,
                    )) && evaluation_failed(
                        old(self).sent(),
                        final(self).sent(),
                        plans,
                        old(self).context@.queries,
                        e is IterationOverflow,
                    ) && (e is IterationOverflow ==> final(self).counts@.len() >= u64::MAX),
                },
            },
    {
        let ghost start = self.sent();
        let ghost counted = self.counts@;
        assert(start.take(start.len() as int) =~= start);
        let plans = match self.plan_all() {
            Ok(p) => p,
            Err(e) => {
                return Err(e);
            },
        };
        let ghost planned = views(plans@);
        let mut iterations: Vec<u64> = Vec::new();
        let mut k: usize = 0;
        assert(self.sent() =~= start + sqls(plans_statements(planned, iterations@, 0)));
        assert(self.counts@.take(counted.len() as int) =~= counted);
        assert(self.counts@.skip(counted.len() as int).len() == 0);
        while k < plans.len()
            invariant
                k <= plans.len(),
                self.same_run(old(self)),
                start == old(self).sent(),
                counted == old(self).counts@,
                self.counts@.len() >= counted.len(),
                self.counts@.take(counted.len() as int) == counted,
                loops_stopped(
                    planned,
                    iterations@,
                    self.counts@.skip(counted.len() as int),
                    k as int,
                ),
                planned == views(plans@),
                evaluation_plans(
                    old(self).context@,
                    old(self).analyzer@,
                    old(self).context@.ordered_idbs().len() as int,
                ) == Ok::<Seq<PlanView>, FailureView>(planned),
                extends(start, self.sent()),
                iterations@.len() == k,
                self.sent() == start + sqls(plans_statements(planned, iterations@, k as int)),
            decreases plans.len() - k,
        {
            let ghost before = self.sent();
            let ghost steps = iterations@;
            let ghost taken = self.counts@;
            match self.execute_plan(&plans[k]) {
                Err(e) => {
                    proof {
                        lemma_extends_twice(start, before, self.sent());
                        assert(planned[k as int] == plans@[k as int]@);
                        assert(plan_failed(
                            start + sqls(plans_statements(planned, steps, k as int)),
                            self.sent(),
                            planned[k as int],
                            e is IterationOverflow,
                        ));
                    }
                    return Err(e);
                },
                Ok(n) => {
                    iterations.push(n);
                    proof {
                        let more = self.counts@.skip(taken.len() as int);
                        assert(self.counts@.take(counted.len() as int) =~= self.counts@.take(
                            taken.len() as int,
                        ).take(counted.len() as int));
                        assert(self.counts@.skip(counted.len() as int) =~= taken.skip(
                            counted.len() as int,
                        ) + more);
                        assert(planned[k as int] == plans@[k as int]@);
                        lemma_loops_stopped_push(
                            planned,
                            steps,
                            taken.skip(counted.len() as int),
                            n,
                            more,
                        );
                        lemma_extends_twice(start, before, self.sent());
                        lemma_plans_statements_push(planned, steps, n, k as int);
                        lemma_sqls_add(
                            plans_statements(planned, iterations@, k as int),
                            plan_statements(planned[k as int], n as nat),
                        );
                        assert(self.sent() =~= start + sqls(
                            plans_statements(planned, iterations@, k + 1),
                        ));
                    }
                },
            }
            k = k + 1;
        }
        let ghost evaluated = self.sent();
        match self.write_queries() {
            Err(e) => {
                proof {
                    lemma_extends_twice(start, evaluated, self.sent());
                    assert(evaluated == start + sqls(
                        plans_statements(planned, iterations@, planned.len() as int),
                    ));
                }
                Err(e)
            },
            Ok(found) => {
                proof {
                    lemma_extends_twice(start, evaluated, self.sent());
                }
                let notes = account(&plans, &iterations, &self.context.queries);
                Ok(Evaluation { iterations, reports: found, notes })
            },
        }
    }
}

/// The failure of a result, whatever its value.
pub open spec fn result_view_of<T>(r: Result<T, Failure>) -> Result<(), FailureView> {
    match r {
        Ok(_) => Ok(()),
        Err(e) => Err(e@),
    }
}

/// The statements of the first `k` plans do not depend on the steps of
/// later loops.
pub proof fn lemma_plans_statements_push(
    plans: Seq<PlanView>,
    iterations: Seq<u64>,
    n: u64,
    k: int,
)
    requires
        0 <= k <= iterations.len(),
    ensures
        plans_statements(plans, iterations.push(n), k) == plans_statements(plans, iterations, k),
    decreases k,
{
    if k > 0 {
        lemma_plans_statements_push(plans, iterations, n, k - 1);
        assert(iterations.push(n)[k - 1] == iterations[k - 1]);
    }
}


/// The statements that check a base relation: is its table there; which
/// columns does it have.
pub open spec fn base_statements(rule: RuleView) -> Seq<StatementView> {
    seq![
        StatementView::Exists { table: rule.head.predicate },
        StatementView::Columns { table: rule.head.predicate },
    ]
}

/// The statements that check the first `n` base relations.
pub open spec fn bases_statements(edbs: Seq<RuleView>, n: int) -> Seq<StatementView>
    decreases n,
{
    if n <= 0 {
        Seq::empty()
    } else {
        bases_statements(edbs, n - 1) + base_statements(edbs[n - 1])
    }
}

/// What is wrong with a base relation of which the store has `tables`
/// tables with `columns` columns: it is missing, or the number of its
/// columns is not that of the terms of its declaration.
pub open spec fn base_failure(rule: RuleView, tables: int, columns: int) -> Option<FailureView> {
    if tables == 0 {
        Some(FailureView::MissingBaseTable(rule.head.predicate))
    } else if columns != rule.head.terms.len() {
        Some(FailureView::ArityMismatch(rule.head.predicate))
    } else {
        None
    }
}

/// Whether `failure` is what is wrong with one of the base relations, for
/// some number of tables and columns that the store has of it.
pub open spec fn failed_base(edbs: Seq<RuleView>, failure: FailureView) -> bool {
    exists|i: int, tables: int, columns: int|
        0 <= i < edbs.len() && #[trigger] base_failure(edbs[i], tables, columns) == Some(failure)
}

/// Checks the declaration of a base relation against what the store has.
pub fn check_base_table(rule: &Rule, tables: usize, columns: usize) -> (r: Result<(), Failure>)
    ensures
        match r {
            Ok(()) => base_failure(rule@, tables as int, columns as int) is None,
            Err(e) => base_failure(rule@, tables as int, columns as int) == Some(e@),
        },
{
    assert(rule@.head.terms.len() == rule.head.terms@.len());
    if tables == 0 {
        Err(Failure::MissingBaseTable(rule.head.predicate.clone()))
    } else if columns != rule.head.terms.len() {
        Err(Failure::ArityMismatch(rule.head.predicate.clone()))
    } else {
        Ok(())
    }
}

impl Runtime {
    /// Starts a run of the program of `context` on `database`: checks
    /// that the store has the table of each base relation, with as many
    /// columns as declared, and infers the column types of all relations.
    /// Without base relations nothing is asked of the store, and the run
    /// starts where the types can be inferred.
    pub fn new(context: Context, database: rusqlite::Connection) -> (r: Result<Runtime, Failure>)
        ensures
            match r {
                Ok(runtime) => {
                    &&& runtime.context == context
                    &&& runtime.sent() == sqls(
                        bases_statements(context@.edbs, context@.edbs.len() as int),
                    )
                    &&& runtime.counts@.len() == 0
                    &&& inferred(Seq::empty(), context@) == Ok::<Types, FailureView>(
                        runtime.analyzer@,
                    )
                },
                Err(e) => e is BackendError || failed_base(context@.edbs, e@) || inferred(
                    Seq::empty(),
                    context@,
                ) == Err::<Types, FailureView>(e@),
            },
            context@.edbs.len() == 0 ==> (r is Ok <==> inferred(Seq::empty(), context@) is Ok),
            context@.edbs.len() == 0 && r is Err ==> inferred(Seq::empty(), context@) == Err::<
                Types,
                FailureView,
            >(r->Err_0@),
    {
        let mut runtime = Runtime {
            context,
            analyzer: Analyzer::new(),
            database,
            log: Vec::new(),
            counts: Vec::new(),
        };
        let ghost edbs = context@.edbs;
        let mut i: usize = 0;
        assert(runtime.sent() =~= sqls(bases_statements(edbs, 0)));
        while i < runtime.context.edbs.len()
            invariant
                i <= runtime.context.edbs.len(),
                runtime.context == context,
                edbs == context@.edbs,
                runtime.analyzer@ == Seq::<(Seq<char>, Seq<DataType>)>::empty(),
                runtime.counts@.len() == 0,
                runtime.sent() == sqls(bases_statements(edbs, i as int)),
            decreases runtime.context.edbs.len() - i,
        {
            let rule = runtime.context.edbs[i].clone();
            let ghost before = runtime.sent();
            assert(edbs[i as int] == rule@);
            let exists = Statement::Exists { table: rule.head.predicate.clone() };
            let tables = match runtime.fetch(&exists, 1) {
                Ok(rows) => rows.len(),
                Err(e) => {
                    return Err(e);
                },
            };
            let columns = Statement::Columns { table: rule.head.predicate.clone() };
            let found = match runtime.fetch(&columns, 1) {
                Ok(rows) => rows.len(),
                Err(e) => {
                    return Err(e);
                },
            };
            proof {
                let both = base_statements(rule@);
                assert(sqls(both) =~= seq![exists@.sql(), columns@.sql()]);
                assert(runtime.sent() =~= before + sqls(both));
                lemma_sqls_add(bases_statements(edbs, i as int), both);
            }
            match check_base_table(&rule, tables, found) {
                Ok(()) => {},
                Err(e) => {
                    assert(base_failure(edbs[i as int], tables as int, found as int) == Some(e@));
                    return Err(e);
                },
            }
            i = i + 1;
        }
        match runtime.analyzer.type_inference(&runtime.context) {
            Ok(()) => Ok(runtime),
            Err(e) => Err(e),
        }
    }
}

/// The path of the store of a source: the path of the source with `.db`
/// in the place of a final `.amo`.
pub open spec fn store_path(source: Seq<char>) -> Seq<char> {
    if source.len() >= 4 && source.subrange(source.len() - 4, source.len() as int) == ".amo"@ {
        source.subrange(0, source.len() - 4) + ".db"@
    } else {
        source
    }
}

/// Writes the path of the store of the source at `source`.
pub fn database_path(source: &str) -> (path: String)
    ensures
        path@ == store_path(source@),
{
    let n = source.unicode_len();
    proof {
        reveal_strlit(".amo");
    }
    if n >= 4 && source.get_char(n - 4) == '.' && source.get_char(n - 3) == 'a' && source.get_char(
        n - 2,
    ) == 'm' && source.get_char(n - 1) == 'o' {
        assert(source@.subrange(n - 4, n as int) =~= ".amo"@);
        let mut path = String::new();
        let mut i: usize = 0;
        assert(path@ =~= source@.subrange(0, 0));
        while i < n - 4
            invariant
                n == source@.len(),
                n >= 4,
                i <= n - 4,
                path@ == source@.subrange(0, i as int),
            decreases n - 4 - i,
        {
            path.push(source.get_char(i));
            assert(path@ =~= source@.subrange(0, i + 1));
            i = i + 1;
        }
        path.append(".db");
        path
    } else {
        proof {
            if n >= 4 && source@.subrange(n - 4, n as int) == ".amo"@ {
                let tail = source@.subrange(n - 4, n as int);
                assert(tail[0] == '.' && tail[1] == 'a' && tail[2] == 'm' && tail[3] == 'o');
            }
        }
        String::from_str(source)
    }
}

} // verus!
