//! The account of an evaluation: the statements that were sent, and
//! between them where each step of a loop began and where the loop ended.

use vstd::prelude::*;
use crate::engine::runtime::{
    checks_of, closing_statements, delta_table, lemma_sqls_add, opening_statements, Plan,
    plan_statements, plans_statements, PlanView, queries_statements, query_statements, sqls,
    step_statements, steps_statements, update_statements,
};
use crate::engine::statement::{Statement, StatementView};
use crate::syntax::ast::{Rule, RuleView};
use crate::text::views;

verus! {

/// A line of the account of an evaluation.
#[derive(Debug, PartialEq, Eq)]
pub enum Note {
    /// A statement was sent to the store.
    Execute(String),
    /// A step of the loop of a relation begins; steps count from 0.
    Iterate(String, u64),
    /// The loop of a relation has ended, after so many steps that added
    /// rows.
    Fixpoint(String, u64),
}

/// The value of a `Note`, as contracts speak of it.
pub enum NoteView {
    Execute(Seq<char>),
    Iterate(Seq<char>, int),
    Fixpoint(Seq<char>, int),
}

impl View for Note {
    type V = NoteView;

    open spec fn view(&self) -> NoteView {
        match *self {
            Note::Execute(text) => NoteView::Execute(text@),
            Note::Iterate(name, k) => NoteView::Iterate(name@, k as int),
            Note::Fixpoint(name, k) => NoteView::Fixpoint(name@, k as int),
        }
    }
}

/// The notes that say that `statements` were sent, in order.
pub open spec fn executes(statements: Seq<StatementView>) -> Seq<NoteView> {
    Seq::new(statements.len(), |i: int| NoteView::Execute(statements[i].sql()))
}

/// The statements that follow the insertions of a step.
pub open spec fn step_tail(predicate: Seq<char>, arity: int) -> Seq<StatementView> {
    update_statements(predicate, arity) + seq![
        StatementView::Count { table: delta_table(predicate) },
    ]
}

/// The notes of the first `n` steps of a loop: each step is announced
/// with its number, then its statements are sent.
pub open spec fn loop_notes(
    predicate: Seq<char>,
    arity: int,
    inserts: Seq<StatementView>,
    n: nat,
) -> Seq<NoteView>
    decreases n,
{
    if n == 0 {
        Seq::empty()
    } else {
        loop_notes(predicate, arity, inserts, (n - 1) as nat).push(
            NoteView::Iterate(predicate, n - 1),
        ) + executes(inserts) + executes(step_tail(predicate, arity))
    }
}

/// The number that the end of a loop of `n` steps is noted with: the
/// steps before the last.
pub open spec fn steps_that_added(n: nat) -> int {
    if n > 0 {
        n - 1
    } else {
        0
    }
}

/// The notes of the plan of a relation whose loop, if it has one, ends
/// after `n` steps.
pub open spec fn plan_notes(plan: PlanView, n: nat) -> Seq<NoteView> {
    let seeded = seq![NoteView::Execute(plan.create.sql())] + executes(plan.seeds);
    if plan.steps.len() > 0 {
        (seeded + executes(opening_statements(plan.predicate)) + loop_notes(
            plan.predicate,
            plan.arity,
            plan.steps,
            n,
        )).push(NoteView::Fixpoint(plan.predicate, steps_that_added(n))) + executes(
            closing_statements(plan.predicate),
        )
    } else {
        seeded
    }
}

/// The notes of the first `k` plans, where the loop of the plan at
/// position `i` ends after `iterations[i]` steps.
pub open spec fn plans_notes(plans: Seq<PlanView>, iterations: Seq<u64>, k: int) -> Seq<NoteView>
    decreases k,
{
    if k <= 0 {
        Seq::empty()
    } else {
        plans_notes(plans, iterations, k - 1) + plan_notes(plans[k - 1], iterations[k - 1] as nat)
    }
}

/// The account of an evaluation: the notes of the plans, then the
/// statements of the queries.
pub open spec fn account_of(
    plans: Seq<PlanView>,
    iterations: Seq<u64>,
    queries: Seq<RuleView>,
) -> Seq<NoteView> {
    plans_notes(plans, iterations, plans.len() as int) + executes(
        queries_statements(queries, queries.len() as int),
    )
}

/// The statements that an account says were sent, in order.
pub open spec fn executed(notes: Seq<NoteView>) -> Seq<Seq<char>>
    decreases notes.len(),
{
    if notes.len() == 0 {
        Seq::empty()
    } else {
        match notes.last() {
            NoteView::Execute(text) => executed(notes.drop_last()).push(text),
            _ => executed(notes.drop_last()),
        }
    }
}

/// The statements of two accounts, one after the other.
pub proof fn lemma_executed_add(a: Seq<NoteView>, b: Seq<NoteView>)
    ensures
        executed(a + b) == executed(a) + executed(b),
    decreases b.len(),
{
    if b.len() == 0 {
        assert(a + b =~= a);
        assert(executed(a) + executed(b) =~= executed(a));
    } else {
        lemma_executed_add(a, b.drop_last());
        assert((a + b).drop_last() =~= a + b.drop_last());
        assert((a + b).last() == b.last());
        match b.last() {
            NoteView::Execute(text) => {
                assert(executed(a + b) =~= executed(a) + executed(b));
            },
            _ => {},
        }
    }
}

/// A note that is not of a statement says of none that it was sent.
pub proof fn lemma_executed_mark(note: NoteView)
    requires
        !(note is Execute),
    ensures
        executed(seq![note]) == Seq::<Seq<char>>::empty(),
{
    reveal_with_fuel(executed, 2);
    assert(seq![note].drop_last() =~= Seq::<NoteView>::empty());
    assert(seq![note].last() == note);
}

/// The notes that statements were sent say that they were sent.
pub proof fn lemma_executed_executes(statements: Seq<StatementView>)
    ensures
        executed(executes(statements)) == sqls(statements),
    decreases statements.len(),
{
    if statements.len() == 0 {
        assert(sqls(statements) =~= Seq::<Seq<char>>::empty());
    } else {
        lemma_executed_executes(statements.drop_last());
        assert(executes(statements).drop_last() =~= executes(statements.drop_last()));
        assert(sqls(statements) =~= sqls(statements.drop_last()).push(statements.last().sql()));
    }
}

/// The notes of a loop say that the statements of its steps were sent.
pub proof fn lemma_executed_loop(
    predicate: Seq<char>,
    arity: int,
    inserts: Seq<StatementView>,
    n: nat,
)
    ensures
        executed(loop_notes(predicate, arity, inserts, n)) == sqls(
            steps_statements(predicate, arity, inserts, n),
        ),
    decreases n,
{
    if n == 0 {
        assert(sqls(steps_statements(predicate, arity, inserts, n)) =~= Seq::<Seq<char>>::empty());
    } else {
        let m = (n - 1) as nat;
        let before = loop_notes(predicate, arity, inserts, m);
        let mark = seq![NoteView::Iterate(predicate, n - 1)];
        let tail = step_tail(predicate, arity);
        lemma_executed_loop(predicate, arity, inserts, m);
        assert(before.push(NoteView::Iterate(predicate, n - 1)) =~= before + mark);
        lemma_executed_add(before, mark);
        lemma_executed_mark(NoteView::Iterate(predicate, n - 1));
        lemma_executed_add(before + mark, executes(inserts));
        lemma_executed_add(before + mark + executes(inserts), executes(tail));
        lemma_executed_executes(inserts);
        lemma_executed_executes(tail);
        assert(step_statements(predicate, arity, inserts) =~= inserts + tail);
        lemma_sqls_add(inserts, tail);
        lemma_sqls_add(
            steps_statements(predicate, arity, inserts, m),
            step_statements(predicate, arity, inserts),
        );
        assert(executed(loop_notes(predicate, arity, inserts, n)) =~= sqls(
            steps_statements(predicate, arity, inserts, n),
        ));
    }
}

/// Four lists, one after the other, however they are grouped.
pub proof fn lemma_grouping<T>(a: Seq<T>, b: Seq<T>, c: Seq<T>, d: Seq<T>)
    ensures
        ((a + b) + c) + d == a + ((b + c) + d),
{
    assert(((a + b) + c) + d =~= a + ((b + c) + d));
}

/// The notes of a loop with its opening and closing say that the
/// statements of the loop were sent.
pub proof fn lemma_executed_fixpoint(
    seeded: Seq<NoteView>,
    predicate: Seq<char>,
    arity: int,
    inserts: Seq<StatementView>,
    n: nat,
)
    ensures
        executed(
            (seeded + executes(opening_statements(predicate)) + loop_notes(
                predicate,
                arity,
                inserts,
                n,
            )).push(NoteView::Fixpoint(predicate, steps_that_added(n))) + executes(
                closing_statements(predicate),
            ),
        ) == executed(seeded) + ((sqls(opening_statements(predicate)) + sqls(
            steps_statements(predicate, arity, inserts, n),
        )) + sqls(closing_statements(predicate))),
{
    let opening = executes(opening_statements(predicate));
    let steps = loop_notes(predicate, arity, inserts, n);
    let end = NoteView::Fixpoint(predicate, steps_that_added(n));
    let closing = executes(closing_statements(predicate));
    let a = seeded + opening;
    let b = a + steps;
    let c = b.push(end);
    lemma_executed_executes(opening_statements(predicate));
    lemma_executed_executes(closing_statements(predicate));
    lemma_executed_loop(predicate, arity, inserts, n);
    lemma_executed_add(seeded, opening);
    lemma_executed_add(a, steps);
    lemma_executed_mark(end);
    assert(c =~= b + seq![end]);
    lemma_executed_add(b, seq![end]);
    assert(executed(c) == executed(b)) by {
        assert(executed(b) + Seq::<Seq<char>>::empty() =~= executed(b));
    }
    lemma_executed_add(c, closing);
    lemma_grouping(
        executed(seeded),
        sqls(opening_statements(predicate)),
        sqls(steps_statements(predicate, arity, inserts, n)),
        sqls(closing_statements(predicate)),
    );
}

/// The notes of a plan say that the statements of the plan were sent.
pub proof fn lemma_executed_plan(plan: PlanView, n: nat)
    ensures
        executed(plan_notes(plan, n)) == sqls(plan_statements(plan, n)),
{
    let p = plan.predicate;
    let first = seq![NoteView::Execute(plan.create.sql())];
    let seeded = first + executes(plan.seeds);
    assert(first =~= executes(seq![plan.create]));
    lemma_executes_add(seq![plan.create], plan.seeds);
    lemma_executed_executes(seq![plan.create] + plan.seeds);
    if plan.steps.len() > 0 {
        lemma_executed_fixpoint(seeded, p, plan.arity, plan.steps, n);
        let sent = steps_statements(p, plan.arity, plan.steps, n);
        lemma_sqls_add(opening_statements(p), sent);
        lemma_sqls_add(opening_statements(p) + sent, closing_statements(p));
        lemma_sqls_add(
            seq![plan.create] + plan.seeds,
            opening_statements(p) + sent + closing_statements(p),
        );
    } else {
        assert(plan_statements(plan, n) =~= seq![plan.create] + plan.seeds);
    }
}

/// The notes of plans say that the statements of the plans were sent.
pub proof fn lemma_executed_plans(plans: Seq<PlanView>, iterations: Seq<u64>, k: int)
    ensures
        executed(plans_notes(plans, iterations, k)) == sqls(
            plans_statements(plans, iterations, k),
        ),
    decreases k,
{
    if k <= 0 {
        assert(sqls(plans_statements(plans, iterations, k)) =~= Seq::<Seq<char>>::empty());
    } else {
        lemma_executed_plans(plans, iterations, k - 1);
        lemma_executed_plan(plans[k - 1], iterations[k - 1] as nat);
        lemma_executed_add(
            plans_notes(plans, iterations, k - 1),
            plan_notes(plans[k - 1], iterations[k - 1] as nat),
        );
        lemma_sqls_add(
            plans_statements(plans, iterations, k - 1),
            plan_statements(plans[k - 1], iterations[k - 1] as nat),
        );
    }
}

/// The account of an evaluation says that the statements were sent that
/// the evaluation sends: those of the plans, then those of the queries.
pub proof fn law_account_is_log(
    plans: Seq<PlanView>,
    iterations: Seq<u64>,
    queries: Seq<RuleView>,
)
    ensures
        executed(account_of(plans, iterations, queries)) == sqls(
            plans_statements(plans, iterations, plans.len() as int),
        ) + sqls(queries_statements(queries, queries.len() as int)),
{
    lemma_executed_plans(plans, iterations, plans.len() as int);
    lemma_executed_executes(queries_statements(queries, queries.len() as int));
    lemma_executed_add(
        plans_notes(plans, iterations, plans.len() as int),
        executes(queries_statements(queries, queries.len() as int)),
    );
}

/// The notes of two lists of statements, one after the other.
pub proof fn lemma_executes_add(x: Seq<StatementView>, y: Seq<StatementView>)
    ensures
        executes(x + y) == executes(x) + executes(y),
{
    assert(executes(x + y) =~= executes(x) + executes(y));
}

/// Notes that each of `list` was sent.
pub fn note_all(notes: &mut Vec<Note>, list: &Vec<Statement>)
    ensures
        views(final(notes)@) == views(old(notes)@) + executes(views(list@)),
{
    let ghost start = views(notes@);
    let ghost all = views(list@);
    let mut i: usize = 0;
    assert(views(notes@) =~= start + executes(all.take(0)));
    while i < list.len()
        invariant
            i <= list.len(),
            all == views(list@),
            views(notes@) == start + executes(all.take(i as int)),
        decreases list.len() - i,
    {
        let ghost before = views(notes@);
        notes.push(Note::Execute(list[i].to_sql()));
        proof {
            assert(all[i as int] == list@[i as int]@);
            assert(views(notes@) =~= before.push(NoteView::Execute(all[i as int].sql())));
            assert(executes(all.take(i + 1)) =~= executes(all.take(i as int)).push(
                NoteView::Execute(all[i as int].sql()),
            ));
        }
        i = i + 1;
    }
    assert(all.take(list.len() as int) =~= all);
}

/// The statements of the loop of a relation that do not depend on its
/// rules: those that open it, those that follow the insertions of a step,
/// and those that close it.
pub fn loop_frame(predicate: &String, arity: usize) -> (frame: (
    Vec<Statement>,
    Vec<Statement>,
    Vec<Statement>,
))
    ensures
        views(frame.0@) == opening_statements(predicate@),
        views(frame.1@) == step_tail(predicate@, arity as int),
        views(frame.2@) == closing_statements(predicate@),
{
    let mut delta = String::from_str("delta_");
    delta.append(predicate.as_str());
    let mut temp = String::from_str("temp_");
    temp.append(predicate.as_str());
    let mut opening: Vec<Statement> = Vec::new();
    opening.push(Statement::Copy { dest: delta.clone(), source: predicate.clone() });
    opening.push(Statement::CopyEmpty { dest: temp.clone(), source: predicate.clone() });
    assert(views(opening@) =~= opening_statements(predicate@));
    let mut tail: Vec<Statement> = Vec::new();
    tail.push(Statement::Clear { table: delta.clone() });
    tail.push(
        Statement::Difference {
            dest: delta.clone(),
            source: temp.clone(),
            minus: predicate.clone(),
            arity,
        },
    );
    tail.push(Statement::Union { dest: predicate.clone(), source: delta.clone() });
    tail.push(Statement::Count { table: delta.clone() });
    assert(views(tail@) =~= step_tail(predicate@, arity as int));
    let mut closing: Vec<Statement> = Vec::new();
    closing.push(Statement::Drop { table: delta });
    closing.push(Statement::Drop { table: temp });
    assert(views(closing@) =~= closing_statements(predicate@));
    (opening, tail, closing)
}

/// Notes the run of a plan whose loop, if it has one, ended after `steps`
/// steps.
pub fn note_plan(notes: &mut Vec<Note>, plan: &Plan, steps: u64)
    ensures
        views(final(notes)@) == views(old(notes)@) + plan_notes(plan@, steps as nat),
{
    let ghost start = views(notes@);
    let ghost p = plan@.predicate;
    notes.push(Note::Execute(plan.create.to_sql()));
    assert(views(notes@) =~= start + seq![NoteView::Execute(plan@.create.sql())]);
    note_all(notes, &plan.seeds);
    let ghost seeded = seq![NoteView::Execute(plan@.create.sql())] + executes(plan@.seeds);
    assert(views(notes@) =~= start + seeded);
    assert(plan@.steps.len() == plan.steps@.len());
    if plan.steps.len() > 0 {
        let frame = loop_frame(&plan.predicate, plan.arity);
        note_all(notes, &frame.0);
        let ghost opened = seeded + executes(opening_statements(p));
        assert(views(notes@) =~= start + opened);
        let mut k: u64 = 0;
        assert(views(notes@) =~= start + (opened + loop_notes(p, plan@.arity, plan@.steps, 0)));
        while k < steps
            invariant
                k <= steps,
                p == plan@.predicate,
                views(frame.1@) == step_tail(p, plan@.arity),
                views(notes@) == start + (opened + loop_notes(
                    p,
                    plan@.arity,
                    plan@.steps,
                    k as nat,
                )),
            decreases steps - k,
        {
            let ghost before = views(notes@);
            let ghost so_far = loop_notes(p, plan@.arity, plan@.steps, k as nat);
            notes.push(Note::Iterate(plan.predicate.clone(), k));
            assert(views(notes@) =~= before.push(NoteView::Iterate(p, k as int)));
            note_all(notes, &plan.steps);
            note_all(notes, &frame.1);
            assert(views(notes@) =~= start + (opened + (so_far.push(
                NoteView::Iterate(p, k as int),
            ) + executes(plan@.steps) + executes(step_tail(p, plan@.arity)))));
            k = k + 1;
        }
        let ghost looped = views(notes@);
        let added: u64 = if steps > 0 {
            steps - 1
        } else {
            0
        };
        notes.push(Note::Fixpoint(plan.predicate.clone(), added));
        assert(views(notes@) =~= looped.push(
            NoteView::Fixpoint(p, steps_that_added(steps as nat)),
        ));
        note_all(notes, &frame.2);
        assert(views(notes@) =~= start + plan_notes(plan@, steps as nat));
    }
}

/// Notes the statements of `queries`.
pub fn note_queries(notes: &mut Vec<Note>, queries: &Vec<Rule>)
    ensures
        views(final(notes)@) == views(old(notes)@) + executes(
            queries_statements(views(queries@), queries@.len() as int),
        ),
{
    let ghost start = views(notes@);
    let ghost all = views(queries@);
    let mut i: usize = 0;
    assert(views(notes@) =~= start + executes(queries_statements(all, 0)));
    while i < queries.len()
        invariant
            i <= queries.len(),
            all == views(queries@),
            views(notes@) == start + executes(queries_statements(all, i as int)),
        decreases queries.len() - i,
    {
        let rule = &queries[i];
        assert(all[i as int] == rule@);
        assert(rule@.head.terms.len() == rule.head.terms@.len());
        let mut both: Vec<Statement> = Vec::new();
        both.push(Statement::Exists { table: rule.head.predicate.clone() });
        both.push(
            Statement::Select {
                table: rule.head.predicate.clone(),
                arity: rule.head.terms.len(),
                checks: checks_of(rule),
            },
        );
        assert(views(both@) =~= query_statements(rule@));
        note_all(notes, &both);
        proof {
            lemma_executes_add(queries_statements(all, i as int), query_statements(rule@));
        }
        i = i + 1;
    }
}

/// The account of an evaluation that has carried out `plans`, the loop of
/// each ending after the steps that `iterations` gives, and answered
/// `queries`.
pub fn account(plans: &Vec<Plan>, iterations: &Vec<u64>, queries: &Vec<Rule>) -> (notes: Vec<Note>)
    requires
        iterations@.len() == plans@.len(),
    ensures
        views(notes@) == account_of(views(plans@), iterations@, views(queries@)),
{
    let mut notes: Vec<Note> = Vec::new();
    let ghost all = views(plans@);
    let mut k: usize = 0;
    assert(views(notes@) =~= plans_notes(all, iterations@, 0));
    while k < plans.len()
        invariant
            k <= plans.len(),
            iterations@.len() == plans@.len(),
            all == views(plans@),
            views(notes@) == plans_notes(all, iterations@, k as int),
        decreases plans.len() - k,
    {
        assert(all[k as int] == plans@[k as int]@);
        note_plan(&mut notes, &plans[k], iterations[k]);
        k = k + 1;
    }
    note_queries(&mut notes, queries);
    notes
}

} // verus!
