//! The laws of the fixpoint for a whole evaluation: relation after
//! relation, each with its plan, on a store that holds none of them at the
//! start. A relation keeps its rows once it is evaluated, so what holds
//! of it then holds at the end.

use vstd::prelude::*;
use crate::engine::analysis::{lookup, Types};
use crate::engine::compile::{compiled, is_negated, table_name};
use crate::engine::conform::{law_relation_conforms, rules_give};
use crate::engine::meaning::store_conforms;
use crate::engine::fixpoint::{
    all_linear, all_reordered, law_relation_complete, law_relation_idempotent,
    law_relation_order_independent, law_relation_sound, lemma_case_members,
    lemma_produced_members, lemma_rule_rows, yielded,
};
use crate::engine::model::{
    agree_apart, clean_rules, denies, evaluated, law_plan_fits, law_seeds_exact,
    lemma_compiled_reads, lemma_looped, lemma_rows_frame, lemma_rows_grow, lemma_run_add,
    lemma_seeded, lemma_working_names, looped, plan_fits, produced, reads, Row, rows, run,
    selection_of, Store, table_of, working,
};
use crate::engine::runtime::{
    delta_table, evaluation_plans, insertion, plan_statements, plans_statements, PlanView,
    relation_plan, temp_table,
};
use crate::syntax::ast::ClauseView;
use crate::syntax::context::{
    ContextView, in_first, lemma_derived_apart, lemma_derived_before, lemma_derived_distinct,
};
use crate::syntax::stratify::{in_strata, levels_match, strata_distinct};
use crate::text::{entry_index, lemma_entry_index};
use crate::error::FailureView;
use crate::syntax::ast::RuleView;

verus! {

/// The relations of an evaluation in its order, each with its rules.
pub type Relations = Seq<(Seq<char>, Seq<RuleView>)>;

/// The relations that have been evaluated before the one at position `k`:
/// the base relations and the relations before it.
pub open spec fn previous_at(base: Seq<Seq<char>>, relations: Relations, k: int) -> Seq<Seq<char>> {
    base + Seq::new(k as nat, |i: int| relations[i].0)
}

/// The plan of the relation at position `k`.
pub open spec fn plan_at(types: Types, base: Seq<Seq<char>>, relations: Relations, k: int) -> Result<
    PlanView,
    FailureView,
> {
    relation_plan(types, relations[k].0, relations[k].1, previous_at(base, relations, k))
}

/// The plans of the relations, in order.
pub open spec fn plans_of(types: Types, base: Seq<Seq<char>>, relations: Relations) -> Seq<PlanView> {
    Seq::new(relations.len(), |k: int| plan_at(types, base, relations, k)->Ok_0)
}

/// The derived relations of a context in the order of evaluation, each
/// with its rules.
pub open spec fn scheduled(context: ContextView) -> Relations {
    Seq::new(
        context.ordered_idbs().len(),
        |k: int| (context.ordered_idbs()[k], lookup(context.idbs, context.ordered_idbs()[k])->0),
    )
}

/// The first `n` plans of an evaluation are the plans of the first `n`
/// relations of the context in the order of evaluation.
pub proof fn lemma_evaluation_plans(context: ContextView, types: Types, n: int)
    requires
        0 <= n <= context.ordered_idbs().len(),
        evaluation_plans(context, types, n) is Ok,
    ensures
        evaluation_plans(context, types, n)->Ok_0 == plans_of(
            types,
            context.edb_names(),
            scheduled(context),
        ).take(n),
    decreases n,
{
    let order = context.ordered_idbs();
    let base = context.edb_names();
    let relations = scheduled(context);
    let plans = plans_of(types, base, relations);
    if n > 0 {
        lemma_evaluation_plans(context, types, n - 1);
        assert(previous_at(base, relations, n - 1) =~= base + order.take(n - 1));
        assert(relations[n - 1].0 == order[n - 1]);
        assert(plans.take(n) =~= plans.take(n - 1).push(plans[n - 1]));
    } else {
        assert(plans.take(0) =~= Seq::<PlanView>::empty());
    }
}

/// The plans of an evaluation are the plans of the relations of the
/// context in the order of evaluation: what is said of these is said of
/// what an evaluation sends.
pub proof fn law_evaluation_is_scheduled(context: ContextView, types: Types)
    requires
        evaluation_plans(context, types, context.ordered_idbs().len() as int) is Ok,
    ensures
        evaluation_plans(context, types, context.ordered_idbs().len() as int)->Ok_0 == plans_of(
            types,
            context.edb_names(),
            scheduled(context),
        ),
{
    let n = context.ordered_idbs().len() as int;
    lemma_evaluation_plans(context, types, n);
    let plans = plans_of(types, context.edb_names(), scheduled(context));
    assert(plans.take(n) =~= plans);
}

/// Whether `name` is that of a working table of one of the relations.
pub open spec fn is_working(relations: Relations, name: Seq<char>) -> bool {
    exists|k: int|
        0 <= k < relations.len() && (name == delta_table(#[trigger] relations[k].0) || name
            == temp_table(relations[k].0))
}

/// Whether the relations can be evaluated in their order: each has a
/// plan and is evaluated once; each rule stands with the relation of its
/// head; each negated atom is over a relation that is evaluated before that
/// of its rule; and no base relation, relation or clause is named like a
/// working table.
pub open spec fn orderly(types: Types, base: Seq<Seq<char>>, relations: Relations) -> bool {
    &&& forall|k: int|
        0 <= k < relations.len() ==> {
            &&& (#[trigger] plan_at(types, base, relations, k)) is Ok
            &&& !previous_at(base, relations, k).contains(relations[k].0)
            &&& !is_working(relations, relations[k].0)
        }
    &&& forall|k: int, r: int|
        0 <= k < relations.len() && 0 <= r < relations[k].1.len() ==> (
        #[trigger] relations[k].1[r]).head.predicate == relations[k].0
    &&& forall|k: int, r: int, c: int|
        0 <= k < relations.len() && 0 <= r < relations[k].1.len() && 0 <= c
            < relations[k].1[r].body.len() ==> !is_working(
            relations,
            (#[trigger] relations[k].1[r].body[c]).to_string(),
        )
    &&& forall|b: int| 0 <= b < base.len() ==> !is_working(relations, #[trigger] base[b])
    &&& forall|k: int, r: int, c: int|
        0 <= k < relations.len() && 0 <= r < relations[k].1.len() && #[trigger] is_negated(
            relations[k].1[r],
            c,
        ) ==> previous_at(base, relations, k).contains(relations[k].1[r].body[c].to_string())
}

/// The store after the first `k` relations were evaluated, where the loop
/// of the relation at position `i` ended after `steps[i]` steps.
pub open spec fn state(
    types: Types,
    base: Seq<Seq<char>>,
    relations: Relations,
    steps: Seq<u64>,
    store: Store,
    k: int,
) -> Store {
    run(plans_statements(plans_of(types, base, relations), steps, k), store)
}

/// The plan of a relation of an orderly evaluation fits, and its rules
/// leave its working tables to the loop.
pub proof fn lemma_orderly_plan(types: Types, base: Seq<Seq<char>>, relations: Relations, k: int)
    requires
        orderly(types, base, relations),
        0 <= k < relations.len(),
    ensures
        plan_at(types, base, relations, k) is Ok,
        plans_of(types, base, relations)[k] == plan_at(types, base, relations, k)->Ok_0,
        clean_rules(relations[k].0, relations[k].1),
        plan_fits(plans_of(types, base, relations)[k]),
        plans_of(types, base, relations)[k].predicate == relations[k].0,
{
    let name = relations[k].0;
    let rules = relations[k].1;
    assert(plan_at(types, base, relations, k) is Ok);
    assert forall|i: int| 0 <= i < rules.len() implies {
        &&& (#[trigger] rules[i]).head.predicate == name
        &&& forall|c: int|
            0 <= c < rules[i].body.len() ==> (#[trigger] rules[i].body[c]).to_string()
                != delta_table(name) && rules[i].body[c].to_string() != temp_table(name)
    } by {
        assert(relations[k].1[i].head.predicate == name);
        assert forall|c: int| 0 <= c < rules[i].body.len() implies (
        #[trigger] rules[i].body[c]).to_string() != delta_table(name)
            && rules[i].body[c].to_string() != temp_table(name) && !(is_negated(rules[i], c)
            && rules[i].body[c].to_string() == name) by {
            assert(!is_working(relations, relations[k].1[i].body[c].to_string()));
            if is_negated(rules[i], c) {
                assert(is_negated(relations[k].1[i], c));
            }
        }
    }
    law_plan_fits(types, name, rules, previous_at(base, relations, k));
}

/// Evaluating one relation more is evaluating its plan on the store that
/// the relations before it left.
pub proof fn lemma_state_next(
    types: Types,
    base: Seq<Seq<char>>,
    relations: Relations,
    steps: Seq<u64>,
    store: Store,
    k: int,
)
    requires
        0 <= k < relations.len(),
    ensures
        state(types, base, relations, steps, store, k + 1) == evaluated(
            plans_of(types, base, relations)[k],
            state(types, base, relations, steps, store, k),
            steps[k] as nat,
        ),
        state(types, base, relations, steps, store, 0) == store,
{
    let plans = plans_of(types, base, relations);
    lemma_run_add(
        plans_statements(plans, steps, k),
        plan_statements(plans[k], steps[k] as nat),
        store,
    );
}

/// The evaluation of a plan that fits changes no table but the three that
/// it works on, and takes no row from the relation.
pub proof fn lemma_evaluated_keeps(plan: PlanView, store: Store, n: nat)
    requires
        plan_fits(plan),
    ensures
        agree_apart(evaluated(plan, store, n), store, working(plan.predicate)),
        evaluated(plan, store, n).dom().contains(plan.predicate),
        table_of(store, plan.predicate).subset_of(evaluated(plan, store, n)[plan.predicate]),
{
    let p = plan.predicate;
    lemma_working_names(p);
    lemma_seeded(plan, store);
    if plan.steps.len() > 0 {
        lemma_looped(plan, store, n);
    } else {
        assert(plan_statements(plan, n) =~= seq![plan.create] + plan.seeds);
    }
}

/// Monotonicity of an evaluation: but for the working tables, a table
/// that is there after `k` relations is there after `m`, with no fewer
/// rows.
pub proof fn law_run_grows(
    types: Types,
    base: Seq<Seq<char>>,
    relations: Relations,
    steps: Seq<u64>,
    store: Store,
    k: int,
    m: int,
    t: Seq<char>,
)
    requires
        orderly(types, base, relations),
        0 <= k <= m <= relations.len(),
        !is_working(relations, t),
        state(types, base, relations, steps, store, k).dom().contains(t),
    ensures
        state(types, base, relations, steps, store, m).dom().contains(t),
        state(types, base, relations, steps, store, k)[t].subset_of(
            state(types, base, relations, steps, store, m)[t],
        ),
    decreases m - k,
{
    if k < m {
        law_run_grows(types, base, relations, steps, store, k, m - 1, t);
        lemma_state_next(types, base, relations, steps, store, m - 1);
        lemma_orderly_plan(types, base, relations, m - 1);
        let plan = plans_of(types, base, relations)[m - 1];
        let before = state(types, base, relations, steps, store, m - 1);
        lemma_evaluated_keeps(plan, before, steps[m - 1] as nat);
        assert(t != delta_table(relations[m - 1].0) && t != temp_table(relations[m - 1].0));
        if t != plan.predicate {
            assert(!working(plan.predicate).contains(t));
        }
    }
}

/// A table that no relation from position `k` on is evaluated into, and
/// that is no working table, is after `m` relations as it was after `k`.
pub proof fn lemma_state_keeps(
    types: Types,
    base: Seq<Seq<char>>,
    relations: Relations,
    steps: Seq<u64>,
    store: Store,
    k: int,
    m: int,
    t: Seq<char>,
)
    requires
        orderly(types, base, relations),
        0 <= k <= m <= relations.len(),
        !is_working(relations, t),
        forall|i: int| k <= i < m ==> (#[trigger] relations[i]).0 != t,
    ensures
        state(types, base, relations, steps, store, m).dom().contains(t) <==> state(
            types,
            base,
            relations,
            steps,
            store,
            k,
        ).dom().contains(t),
        table_of(state(types, base, relations, steps, store, m), t) == table_of(
            state(types, base, relations, steps, store, k),
            t,
        ),
    decreases m - k,
{
    if k < m {
        lemma_state_keeps(types, base, relations, steps, store, k, m - 1, t);
        lemma_state_next(types, base, relations, steps, store, m - 1);
        lemma_orderly_plan(types, base, relations, m - 1);
        let plan = plans_of(types, base, relations)[m - 1];
        let before = state(types, base, relations, steps, store, m - 1);
        lemma_evaluated_keeps(plan, before, steps[m - 1] as nat);
        assert(t != delta_table(relations[m - 1].0) && t != temp_table(relations[m - 1].0));
        assert(relations[m - 1].0 != t);
        assert(!working(plan.predicate).contains(t));
    }
}

/// The relations before one and the base relations are others than it.
pub proof fn lemma_names_apart(
    types: Types,
    base: Seq<Seq<char>>,
    relations: Relations,
    i: int,
    k: int,
)
    requires
        orderly(types, base, relations),
        0 <= i < k < relations.len(),
    ensures
        relations[i].0 != relations[k].0,
        previous_at(base, relations, k).contains(relations[i].0),
        forall|b: int| 0 <= b < base.len() ==> previous_at(base, relations, k).contains(base[b]),
{
    let previous = previous_at(base, relations, k);
    assert(plan_at(types, base, relations, k) is Ok);
    assert(previous[base.len() + i] == relations[i].0);
    assert forall|b: int| 0 <= b < base.len() implies previous.contains(base[b]) by {
        assert(previous[b] == base[b]);
    }
}

/// Soundness of an evaluation: each row that a relation holds at the end
/// was in the store at the start, or one of the rules of the relation
/// yields it from the rows that the store holds at the end.
pub proof fn law_run_sound(
    types: Types,
    base: Seq<Seq<char>>,
    relations: Relations,
    steps: Seq<u64>,
    store: Store,
    i: int,
    row: Row,
)
    requires
        orderly(types, base, relations),
        steps.len() == relations.len(),
        0 <= i < relations.len(),
        table_of(
            state(types, base, relations, steps, store, relations.len() as int),
            relations[i].0,
        ).contains(row),
    ensures
        table_of(store, relations[i].0).contains(row) || exists|j: int|
            0 <= j < relations[i].1.len() && (#[trigger] yielded(
                relations[i].1,
                j,
                state(types, base, relations, steps, store, relations.len() as int),
            )).contains(row),
{
    let n = relations.len() as int;
    let name = relations[i].0;
    let rules = relations[i].1;
    let previous = previous_at(base, relations, i);
    let end = state(types, base, relations, steps, store, n);
    let before = state(types, base, relations, steps, store, i);
    let after = state(types, base, relations, steps, store, i + 1);
    let plan = plans_of(types, base, relations)[i];
    lemma_orderly_plan(types, base, relations, i);
    lemma_state_next(types, base, relations, steps, store, i);
    assert forall|k: int| i + 1 <= k < n implies (#[trigger] relations[k]).0 != name by {
        lemma_names_apart(types, base, relations, i, k);
    }
    lemma_state_keeps(types, base, relations, steps, store, i + 1, n, name);
    assert forall|k: int| 0 <= k < i implies (#[trigger] relations[k]).0 != name by {
        lemma_names_apart(types, base, relations, k, i);
    }
    lemma_state_keeps(types, base, relations, steps, store, 0, i, name);
    let taken: nat = if plan.steps.len() > 0 {
        steps[i] as nat
    } else {
        0
    };
    assert(evaluated(plan, before, taken) == after) by {
        if plan.steps.len() == 0 {
            assert(plan_statements(plan, taken) =~= plan_statements(plan, steps[i] as nat));
        }
    }
    law_relation_sound(types, name, rules, previous, before, taken, row);
    if !table_of(before, name).contains(row) {
        let j = choose|j: int|
            0 <= j < rules.len() && (#[trigger] yielded(rules, j, after)).contains(row);
        lemma_rule_rows(types, name, rules, previous, after, j);
        lemma_yielded_grows(types, base, relations, steps, store, i, j);
        assert(yielded(rules, j, end).contains(row));
    }
}

/// What a rule yields after its relation was evaluated it yields at the
/// end.
pub proof fn lemma_yielded_grows(
    types: Types,
    base: Seq<Seq<char>>,
    relations: Relations,
    steps: Seq<u64>,
    store: Store,
    i: int,
    j: int,
)
    requires
        orderly(types, base, relations),
        0 <= i < relations.len(),
        0 <= j < relations[i].1.len(),
        compiled(relations[i].1[j], false) is Ok,
    ensures
        yielded(relations[i].1, j, state(types, base, relations, steps, store, i + 1)).subset_of(
            yielded(
                relations[i].1,
                j,
                state(types, base, relations, steps, store, relations.len() as int),
            ),
        ),
{
    let n = relations.len() as int;
    let rule = relations[i].1[j];
    let chosen = compiled(rule, false)->Ok_0;
    let after = state(types, base, relations, steps, store, i + 1);
    let end = state(types, base, relations, steps, store, n);
    assert forall|t: Seq<char>| reads(chosen, t) && after.dom().contains(t) implies end.dom().contains(
        t,
    ) && after[t].subset_of(end[t]) by {
        lemma_compiled_reads(rule, false, t);
        let c = choose|c: int| 0 <= c < rule.body.len() && t == table_name(rule, c, false);
        assert(!is_working(relations, relations[i].1[j].body[c].to_string()));
        law_run_grows(types, base, relations, steps, store, i + 1, n, t);
    }
    assert forall|t: Seq<char>| denies(chosen, t) implies table_of(end, t).subset_of(
        table_of(after, t),
    ) by {
        lemma_compiled_reads(rule, false, t);
        let c = choose|c: int| is_negated(rule, c) && t == table_name(rule, c, false);
        assert(is_negated(relations[i].1[j], c));
        assert(!is_working(relations, relations[i].1[j].body[c].to_string()));
        lemma_later_apart(types, base, relations, i, t);
        lemma_state_keeps(types, base, relations, steps, store, i + 1, n, t);
    }
    lemma_rows_grow(chosen, after, end);
}

/// A relation that is evaluated before another, or a base relation, is
/// none of those that are evaluated from that other on.
pub proof fn lemma_later_apart(
    types: Types,
    base: Seq<Seq<char>>,
    relations: Relations,
    i: int,
    t: Seq<char>,
)
    requires
        orderly(types, base, relations),
        0 <= i < relations.len(),
        previous_at(base, relations, i).contains(t),
    ensures
        forall|k: int| i <= k < relations.len() ==> (#[trigger] relations[k]).0 != t,
{
    let previous = previous_at(base, relations, i);
    let at = choose|at: int| 0 <= at < previous.len() && previous[at] == t;
    assert forall|k: int| i <= k < relations.len() implies (#[trigger] relations[k]).0 != t by {
        assert(previous_at(base, relations, k)[at] == t);
        assert(plan_at(types, base, relations, k) is Ok);
    }
}

/// Whether each clause of each rule is over a base relation, a relation
/// that is evaluated before that of the rule, or the relation of the rule
/// itself.
pub open spec fn grounded(base: Seq<Seq<char>>, relations: Relations) -> bool {
    forall|k: int, r: int, c: int|
        0 <= k < relations.len() && 0 <= r < relations[k].1.len() && 0 <= c
            < relations[k].1[r].body.len() ==> {
            let over = (#[trigger] relations[k].1[r].body[c]).to_string();
            over == relations[k].0 || previous_at(base, relations, k).contains(over)
        }
}

/// Whether each loop ended as it should: on a step that added nothing.
pub open spec fn loops_ended(
    types: Types,
    base: Seq<Seq<char>>,
    relations: Relations,
    steps: Seq<u64>,
    store: Store,
) -> bool {
    forall|k: int|
        0 <= k < relations.len() && (#[trigger] plans_of(types, base, relations)[k]).steps.len() > 0
            ==> steps[k] >= 1 && looped(
            plans_of(types, base, relations)[k],
            state(types, base, relations, steps, store, k),
            steps[k] as nat,
        )[delta_table(relations[k].0)] == Set::<Row>::empty()
}

/// What a rule yields at the end it yields after its relation was
/// evaluated, where its clauses are over relations that are evaluated by
/// then.
pub proof fn lemma_yielded_keeps(
    types: Types,
    base: Seq<Seq<char>>,
    relations: Relations,
    steps: Seq<u64>,
    store: Store,
    i: int,
    j: int,
)
    requires
        orderly(types, base, relations),
        grounded(base, relations),
        0 <= i < relations.len(),
        0 <= j < relations[i].1.len(),
        compiled(relations[i].1[j], false) is Ok,
    ensures
        yielded(relations[i].1, j, state(types, base, relations, steps, store, i + 1)) == yielded(
            relations[i].1,
            j,
            state(types, base, relations, steps, store, relations.len() as int),
        ),
{
    let n = relations.len() as int;
    let rule = relations[i].1[j];
    let chosen = compiled(rule, false)->Ok_0;
    let after = state(types, base, relations, steps, store, i + 1);
    let end = state(types, base, relations, steps, store, n);
    assert forall|t: Seq<char>| reads(chosen, t) implies (after.dom().contains(t)
        <==> end.dom().contains(t)) && (after.dom().contains(t) ==> after[t] == end[t]) by {
        lemma_compiled_reads(rule, false, t);
        let c = choose|c: int| 0 <= c < rule.body.len() && t == table_name(rule, c, false);
        assert(t == relations[i].1[j].body[c].to_string());
        assert(!is_working(relations, t));
        assert forall|k: int| i + 1 <= k < n implies (#[trigger] relations[k]).0 != t by {
            lemma_names_apart(types, base, relations, i, k);
            if t != relations[i].0 {
                let previous = previous_at(base, relations, i);
                assert(previous.contains(t));
                let at = choose|at: int| 0 <= at < previous.len() && previous[at] == t;
                assert(previous_at(base, relations, k)[at] == t);
                assert(plan_at(types, base, relations, k) is Ok);
            }
        }
        lemma_state_keeps(types, base, relations, steps, store, i + 1, n, t);
    }
    lemma_rows_frame(chosen, after, end);
}

/// Completeness of an evaluation: where each loop has ended on a step
/// that added nothing, each rule has at most one clause over its own
/// relation, and the others are over relations evaluated before, no rule
/// yields from the rows that the store holds at the end a row that its
/// relation lacks.
pub proof fn law_run_complete(
    types: Types,
    base: Seq<Seq<char>>,
    relations: Relations,
    steps: Seq<u64>,
    store: Store,
    i: int,
    j: int,
)
    requires
        orderly(types, base, relations),
        grounded(base, relations),
        steps.len() == relations.len(),
        loops_ended(types, base, relations, steps, store),
        0 <= i < relations.len(),
        0 <= j < relations[i].1.len(),
        all_linear(relations[i].1),
    ensures
        yielded(
            relations[i].1,
            j,
            state(types, base, relations, steps, store, relations.len() as int),
        ).subset_of(
            table_of(
                state(types, base, relations, steps, store, relations.len() as int),
                relations[i].0,
            ),
        ),
{
    let n = relations.len() as int;
    let name = relations[i].0;
    let rules = relations[i].1;
    let previous = previous_at(base, relations, i);
    let before = state(types, base, relations, steps, store, i);
    let after = state(types, base, relations, steps, store, i + 1);
    let plan = plans_of(types, base, relations)[i];
    lemma_orderly_plan(types, base, relations, i);
    lemma_state_next(types, base, relations, steps, store, i);
    assert forall|k: int| i + 1 <= k < n implies (#[trigger] relations[k]).0 != name by {
        lemma_names_apart(types, base, relations, i, k);
    }
    lemma_state_keeps(types, base, relations, steps, store, i + 1, n, name);
    lemma_rule_rows(types, name, rules, previous, after, j);
    lemma_yielded_keeps(types, base, relations, steps, store, i, j);
    if plan.steps.len() > 0 {
        assert(plans_of(types, base, relations)[i].steps.len() > 0);
        law_relation_complete(types, name, rules, previous, before, steps[i] as nat, j);
    } else {
        assert(plan_statements(plan, steps[i] as nat) =~= plan_statements(plan, 0));
        law_seeds_exact(plan, before);
        lemma_case_members(rules, previous, true, rules.len() as int);
        lemma_case_members(rules, previous, false, rules.len() as int);
        assert(rules[j].is_base_case(previous));
        let wanted = insertion(rules[j], false)->Ok_0;
        assert(plan.seeds.contains(wanted));
        let at = choose|at: int| 0 <= at < plan.seeds.len() && plan.seeds[at] == wanted;
        lemma_produced_members(plan.seeds, after, plan.seeds.len() as int);
        assert(rows(selection_of(plan.seeds[at]), after).subset_of(
            produced(plan.seeds, after, plan.seeds.len() as int),
        ));
    }
}

/// Whether no base relation, derived relation or clause is named like a
/// working table of a derived relation.
pub open spec fn plain(context: ContextView) -> bool {
    let relations = scheduled(context);
    &&& forall|g: int, r: int, c: int|
        0 <= g < context.idbs.len() && 0 <= r < context.idbs[g].1.len() && 0 <= c
            < context.idbs[g].1[r].body.len() ==> !is_working(
            relations,
            (#[trigger] context.idbs[g].1[r].body[c]).to_string(),
        )
    &&& forall|b: int|
        0 <= b < context.edb_names().len() ==> !is_working(
            relations,
            #[trigger] context.edb_names()[b],
        )
    &&& forall|k: int|
        0 <= k < context.ordered_idbs().len() ==> !is_working(
            relations,
            #[trigger] context.ordered_idbs()[k],
        )
}

/// Where the first `n` relations of an evaluation are planned, each has
/// rules and a plan.
pub proof fn lemma_evaluation_found(context: ContextView, types: Types, n: int, k: int)
    requires
        0 <= k < n <= context.ordered_idbs().len(),
        evaluation_plans(context, types, n) is Ok,
    ensures
        lookup(context.idbs, context.ordered_idbs()[k]) is Some,
        plan_at(types, context.edb_names(), scheduled(context), k) is Ok,
    decreases n,
{
    let order = context.ordered_idbs();
    let base = context.edb_names();
    let relations = scheduled(context);
    if k < n - 1 {
        lemma_evaluation_found(context, types, n - 1, k);
    } else {
        assert(previous_at(base, relations, k) =~= base + order.take(k));
        assert(relations[k].0 == order[k]);
    }
}

/// The relations of a context are orderly: where the context is well
/// formed, no predicate stands twice in its strata, every derived relation
/// is planned, each negated atom lies in a stratum below that of its
/// head, and nothing is named like a working table, the laws of an
/// evaluation hold of what the evaluation of the context sends.
pub proof fn law_context_orderly(context: ContextView, types: Types)
    requires
        context.well_formed(),
        context.stratified(),
        strata_distinct(context.stratum.strata),
        levels_match(context.stratum),
        forall|g: int|
            0 <= g < context.idbs.len() ==> in_strata(
                context.stratum,
                (#[trigger] context.idbs[g]).0,
            ),
        plain(context),
        evaluation_plans(context, types, context.ordered_idbs().len() as int) is Ok,
    ensures
        orderly(types, context.edb_names(), scheduled(context)),
{
    let order = context.ordered_idbs();
    let base = context.edb_names();
    let relations = scheduled(context);
    let n = order.len() as int;
    lemma_derived_distinct(base, context.stratum.strata, context.stratum.strata.len() as int);
    lemma_derived_apart(base, context.stratum.strata, context.stratum.strata.len() as int);
    assert forall|k: int| 0 <= k < relations.len() implies {
        &&& (#[trigger] plan_at(types, base, relations, k)) is Ok
        &&& !previous_at(base, relations, k).contains(relations[k].0)
        &&& !is_working(relations, relations[k].0)
    } by {
        lemma_evaluation_found(context, types, n, k);
        lemma_entry_index(context.idbs, order[k]);
        let g = entry_index(context.idbs, order[k]);
        assert(relations[k].1 == context.idbs[g].1);
        let previous = previous_at(base, relations, k);
        if previous.contains(order[k]) {
            let at = choose|at: int| 0 <= at < previous.len() && previous[at] == order[k];
            if at < base.len() {
                assert(base[at] == order[k]);
                assert(base.contains(order[k]));
            } else {
                assert(order[at - base.len()] == order[k]);
            }
        }
        assert(!is_working(relations, order[k]));
    }
    assert forall|k: int, r: int|
        0 <= k < relations.len() && 0 <= r < relations[k].1.len() implies (
    #[trigger] relations[k].1[r]).head.predicate == relations[k].0 by {
        lemma_evaluation_found(context, types, n, k);
        lemma_entry_index(context.idbs, order[k]);
        let g = entry_index(context.idbs, order[k]);
        assert(context.idbs[g].1[r].head.predicate == context.idbs[g].0);
    }
    assert forall|k: int, r: int, c: int|
        0 <= k < relations.len() && 0 <= r < relations[k].1.len() && 0 <= c
            < relations[k].1[r].body.len() implies !is_working(
        relations,
        (#[trigger] relations[k].1[r].body[c]).to_string(),
    ) by {
        lemma_evaluation_found(context, types, n, k);
        lemma_entry_index(context.idbs, order[k]);
        let g = entry_index(context.idbs, order[k]);
        assert(!is_working(relations, context.idbs[g].1[r].body[c].to_string()));
    }
    assert forall|b: int| 0 <= b < base.len() implies !is_working(relations, #[trigger] base[b]) by {
        assert(!is_working(relations, context.edb_names()[b]));
    }
    assert forall|k: int, r: int, c: int|
        0 <= k < relations.len() && 0 <= r < relations[k].1.len() && #[trigger] is_negated(
            relations[k].1[r],
            c,
        ) implies previous_at(base, relations, k).contains(
        relations[k].1[r].body[c].to_string(),
    ) by {
        lemma_negation_before(context, types, k, r, c);
    }
}

/// A negated atom of a rule of a context is over a base relation or a
/// derived relation that is evaluated before that of the rule.
pub proof fn lemma_negation_before(context: ContextView, types: Types, k: int, r: int, c: int)
    requires
        context.well_formed(),
        context.stratified(),
        strata_distinct(context.stratum.strata),
        levels_match(context.stratum),
        forall|g: int|
            0 <= g < context.idbs.len() ==> in_strata(
                context.stratum,
                (#[trigger] context.idbs[g]).0,
            ),
        evaluation_plans(context, types, context.ordered_idbs().len() as int) is Ok,
        0 <= k < scheduled(context).len(),
        0 <= r < scheduled(context)[k].1.len(),
        is_negated(scheduled(context)[k].1[r], c),
    ensures
        previous_at(context.edb_names(), scheduled(context), k).contains(
            scheduled(context)[k].1[r].body[c].to_string(),
        ),
{
    let order = context.ordered_idbs();
    let base = context.edb_names();
    let relations = scheduled(context);
    let strata = context.stratum.strata;
    let n = order.len() as int;
    let previous = previous_at(base, relations, k);
    lemma_evaluation_found(context, types, n, k);
    lemma_entry_index(context.idbs, order[k]);
    let g = entry_index(context.idbs, order[k]);
    let rule = context.idbs[g].1[r];
    assert(relations[k].1[r] == rule);
    let over = rule.body[c].to_string();
    assert(rule.head.predicate == order[k]);
    let atom = rule.body[c]->Atom_0;
    assert(context.idbs[g].1[r].body[c] == ClauseView::Atom(atom));
    assert(context.stratum.level(over) is Some);
    if base.contains(over) {
        let at = choose|at: int| 0 <= at < base.len() && base[at] == over;
        assert(previous[at] == over);
    } else {
        let names = context.idb_names();
        assert(names.contains(over));
        let other = choose|other: int| 0 <= other < names.len() && names[other] == over;
        assert(in_strata(context.stratum, context.idbs[other].0));
        let (i, j) = choose|i: int, j: int|
            0 <= i < strata.len() && 0 <= j < strata[i].len() && #[trigger] strata[i][j] == over;
        lemma_derived_distinct(base, strata, strata.len() as int);
        lemma_derived_apart(base, strata, strata.len() as int);
        assert(in_first(strata, (strata.len() + 1) as int, 0, order[k]));
        let (a, b) = choose|a: int, b: int|
            0 <= a < strata.len() + 1 && 0 <= b < strata[a].len() && (a == strata.len() ==> b < 0)
                && #[trigger] strata[a][b] == order[k];
        assert(context.stratum.level(strata[i][j]) == Some(i));
        assert(context.stratum.level(strata[a][b]) == Some(a));
        let places = lemma_derived_before(base, strata, (i, j), (a, b));
        assert(order[places.1] == order[k]);
        assert(places.1 == k);
        assert(relations[places.0].0 == over);
        assert(previous[base.len() + places.0] == over);
    }
}

/// Whether the store holds each relation, and no rule yields from its
/// rows a row that its relation lacks.
pub open spec fn complete(relations: Relations, store: Store) -> bool {
    &&& forall|k: int|
        0 <= k < relations.len() ==> store.dom().contains((#[trigger] relations[k]).0)
    &&& forall|k: int, j: int|
        0 <= k < relations.len() && 0 <= j < relations[k].1.len() ==> (#[trigger] yielded(
            relations[k].1,
            j,
            store,
        )).subset_of(store[relations[k].0])
}

/// Whether each loop makes one step.
pub open spec fn one_step_each(
    types: Types,
    base: Seq<Seq<char>>,
    relations: Relations,
    steps: Seq<u64>,
) -> bool {
    forall|k: int|
        0 <= k < relations.len() && (#[trigger] plans_of(types, base, relations)[k]).steps.len() > 0
            ==> steps[k] == 1
}

/// Idempotence of an evaluation: on a store that holds each relation
/// with every row that its rules yield, an evaluation whose loops make one
/// step each leaves every table, but for the working tables, as it was.
pub proof fn law_run_idempotent(
    types: Types,
    base: Seq<Seq<char>>,
    relations: Relations,
    steps: Seq<u64>,
    store: Store,
    m: int,
    t: Seq<char>,
)
    requires
        orderly(types, base, relations),
        complete(relations, store),
        steps.len() == relations.len(),
        one_step_each(types, base, relations, steps),
        0 <= m <= relations.len(),
        !is_working(relations, t),
    ensures
        state(types, base, relations, steps, store, m).dom().contains(t) <==> store.dom().contains(
            t,
        ),
        table_of(state(types, base, relations, steps, store, m), t) == table_of(store, t),
    decreases m,
{
    if m > 0 {
        let k = m - 1;
        let name = relations[k].0;
        let rules = relations[k].1;
        let previous = previous_at(base, relations, k);
        let before = state(types, base, relations, steps, store, k);
        let plan = plans_of(types, base, relations)[k];
        law_run_idempotent(types, base, relations, steps, store, k, t);
        law_run_idempotent(types, base, relations, steps, store, k, name);
        lemma_orderly_plan(types, base, relations, k);
        lemma_state_next(types, base, relations, steps, store, k);
        assert(store.dom().contains(relations[k].0));
        assert forall|j: int| 0 <= j < rules.len() implies (#[trigger] yielded(
            rules,
            j,
            before,
        )).subset_of(before[name]) by {
            lemma_rule_rows(types, name, rules, previous, store, j);
            let chosen = compiled(rules[j], false)->Ok_0;
            assert forall|r: Seq<char>| reads(chosen, r) implies (before.dom().contains(r)
                <==> store.dom().contains(r)) && (before.dom().contains(r) ==> before[r]
                == store[r]) by {
                lemma_compiled_reads(rules[j], false, r);
                let c = choose|c: int|
                    0 <= c < rules[j].body.len() && r == table_name(rules[j], c, false);
                assert(!is_working(relations, relations[k].1[j].body[c].to_string()));
                law_run_idempotent(types, base, relations, steps, store, k, r);
            }
            lemma_rows_frame(chosen, before, store);
            assert(yielded(relations[k].1, j, store).subset_of(store[relations[k].0]));
        }
        law_relation_idempotent(types, name, rules, previous, before);
        let taken: nat = if plan.steps.len() > 0 {
            1
        } else {
            0
        };
        assert(plan_statements(plan, taken) =~= plan_statements(plan, steps[k] as nat)) by {
            if plan.steps.len() > 0 {
                assert(plans_of(types, base, relations)[k].steps.len() > 0);
            }
        }
        lemma_evaluated_keeps(plan, before, taken);
        assert(t != delta_table(relations[k].0) && t != temp_table(relations[k].0));
        if t != name {
            assert(!working(plan.predicate).contains(t));
        }
    }
}

/// Type soundness of an evaluation: where each rule gives its head the
/// types of its relation, and the rows of the store conform to the types
/// of their tables at the start, they do so after each relation.
pub proof fn law_run_conforms(
    types: Types,
    base: Seq<Seq<char>>,
    relations: Relations,
    steps: Seq<u64>,
    store: Store,
    k: int,
)
    requires
        orderly(types, base, relations),
        0 <= k <= relations.len(),
        forall|i: int|
            0 <= i < relations.len() ==> rules_give(
                types,
                (#[trigger] relations[i]).1,
                lookup(types, relations[i].0)->0,
            ),
        store_conforms(store, types),
    ensures
        store_conforms(state(types, base, relations, steps, store, k), types),
    decreases k,
{
    if k > 0 {
        law_run_conforms(types, base, relations, steps, store, k - 1);
        lemma_state_next(types, base, relations, steps, store, k - 1);
        lemma_orderly_plan(types, base, relations, k - 1);
        assert(rules_give(types, relations[k - 1].1, lookup(types, relations[k - 1].0)->0));
        law_relation_conforms(
            types,
            relations[k - 1].0,
            relations[k - 1].1,
            previous_at(base, relations, k - 1),
            state(types, base, relations, steps, store, k - 1),
            steps[k - 1] as nat,
        );
    }
}

/// Whether `others` are the relations `relations`, in their order, with
/// the clauses of the bodies of their rules in another order.
pub open spec fn same_but_bodies(relations: Relations, others: Relations) -> bool {
    &&& relations.len() == others.len()
    &&& forall|k: int|
        0 <= k < relations.len() ==> (#[trigger] relations[k]).0 == others[k].0 && all_reordered(
            relations[k].1,
            others[k].1,
        )
}

/// Order independence of an evaluation: with the clauses of the bodies in
/// another order, relations are planned as well, and evaluated in the same order they leave the same store.
pub proof fn law_run_order_independent(
    types: Types,
    base: Seq<Seq<char>>,
    relations: Relations,
    others: Relations,
    steps: Seq<u64>,
    store: Store,
    k: int,
)
    requires
        same_but_bodies(relations, others),
        0 <= k <= relations.len(),
        forall|i: int|
            0 <= i < relations.len() ==> (#[trigger] plan_at(types, base, relations, i)) is Ok

    ensures
        forall|i: int| 0 <= i < others.len() ==> (#[trigger] plan_at(types, base, others, i)) is Ok,
        state(types, base, others, steps, store, k) == state(
            types,
            base,
            relations,
            steps,
            store,
            k,
        ),
    decreases k,
{
    assert forall|i: int| 0 <= i < others.len() implies (#[trigger] plan_at(
        types,
        base,
        others,
        i,
    )) is Ok by {
        lemma_plan_order_independent(types, base, relations, others, store, i, 0);
    }
    if k > 0 {
        law_run_order_independent(types, base, relations, others, steps, store, k - 1);
        lemma_state_next(types, base, relations, steps, store, k - 1);
        lemma_state_next(types, base, others, steps, store, k - 1);
        lemma_plan_order_independent(
            types,
            base,
            relations,
            others,
            state(types, base, relations, steps, store, k - 1),
            k - 1,
            steps[k - 1] as nat,
        );
    }
}

/// With the clauses of the bodies in another order, a relation of an
/// evaluation is planned as well, and its plan leaves the same store.
pub proof fn lemma_plan_order_independent(
    types: Types,
    base: Seq<Seq<char>>,
    relations: Relations,
    others: Relations,
    store: Store,
    i: int,
    n: nat,
)
    requires
        same_but_bodies(relations, others),
        0 <= i < relations.len(),
        plan_at(types, base, relations, i) is Ok,
    ensures
        plan_at(types, base, others, i) is Ok,
        evaluated(plans_of(types, base, others)[i], store, n) == evaluated(
            plans_of(types, base, relations)[i],
            store,
            n,
        ),
{
    assert(previous_at(base, others, i) =~= previous_at(base, relations, i)) by {
        assert forall|j: int| 0 <= j < i implies others[j].0 == relations[j].0 by {
            assert(relations[j].0 == others[j].0);
        }
    }
    assert(relations[i].0 == others[i].0);
    law_relation_order_independent(
        types,
        relations[i].0,
        relations[i].1,
        others[i].1,
        previous_at(base, relations, i),
        store,
        n,
    );
}

} // verus!
