//! The laws of the fixpoint in terms of the rules of a relation: once its
//! loop has ended, no rule yields a row that the relation lacks, and each
//! of its rows was there before or is yielded by one of its rules.

use vstd::prelude::*;
use crate::engine::analysis::Types;
use crate::engine::compile::compiled;
use crate::engine::meaning::{is_reordering, keeps_off_delta, linear};
use crate::engine::negation::{
    law_order_independent, law_step_is_rule, lemma_compiles_both,
    lemma_step_reads_once,
};
use crate::engine::model::{
    clean_rules, derived, effect, evaluated, law_fixpoint_complete, law_fixpoint_sound,
    law_idempotent, law_plan_fits, law_seeds_exact, looped, produced, read_once, reads_once,
    Row, rows, run, selection_of, Store, Table, table_of,
};
use crate::engine::runtime::{
    arity_fits, case_insertions, closing_statements, delta_table, fixpoint_statements,
    insertion, opening_statements, plan_statements, relation_plan, step_statements,
    steps_statements, update_statements,
};
use crate::engine::statement::StatementView;
use crate::syntax::ast::RuleView;

verus! {

/// What each insertion yields is among what the insertions yield, and
/// nothing else is.
pub proof fn lemma_produced_members(inserts: Seq<StatementView>, store: Store, n: int)
    requires
        0 <= n <= inserts.len(),
    ensures
        forall|j: int|
            0 <= j < n ==> (#[trigger] rows(selection_of(inserts[j]), store)).subset_of(
                produced(inserts, store, n),
            ),
        forall|row: Row| #[trigger]
            produced(inserts, store, n).contains(row) ==> exists|j: int|
                0 <= j < n && (#[trigger] rows(selection_of(inserts[j]), store)).contains(row),
    decreases n,
{
    if n > 0 {
        lemma_produced_members(inserts, store, n - 1);
        let before = produced(inserts, store, n - 1);
        let last = rows(selection_of(inserts[n - 1]), store);
        assert forall|j: int| 0 <= j < n implies (#[trigger] rows(
            selection_of(inserts[j]),
            store,
        )).subset_of(produced(inserts, store, n)) by {
            if j < n - 1 {
                assert(rows(selection_of(inserts[j]), store).subset_of(before));
            }
        }
        assert forall|row: Row| #[trigger]
            produced(inserts, store, n).contains(row) implies exists|j: int|
            0 <= j < n && (#[trigger] rows(selection_of(inserts[j]), store)).contains(row) by {
            if before.contains(row) {
                let j = choose|j: int|
                    0 <= j < n - 1 && (#[trigger] rows(selection_of(inserts[j]), store)).contains(
                        row,
                    );
                assert(0 <= j < n && rows(selection_of(inserts[j]), store).contains(row));
            } else {
                assert(last.contains(row));
            }
        }
    }
}

/// Whether `statement` is the insertion of one of the first `n` rules that
/// is a base case (if `base`), or that is not (if not).
pub open spec fn is_case_insertion(
    rules: Seq<RuleView>,
    previous: Seq<Seq<char>>,
    base: bool,
    n: int,
    statement: StatementView,
) -> bool {
    exists|i: int|
        0 <= i < n && (#[trigger] rules[i]).is_base_case(previous) == base && insertion(
            rules[i],
            !base,
        ) == Ok::<StatementView, crate::error::FailureView>(statement)
}

/// The insertions of the cases are those of the rules of the case.
pub proof fn lemma_case_members(
    rules: Seq<RuleView>,
    previous: Seq<Seq<char>>,
    base: bool,
    n: int,
)
    requires
        0 <= n <= rules.len(),
        case_insertions(rules, previous, base, n) is Ok,
    ensures
        forall|j: int|
            0 <= j < case_insertions(rules, previous, base, n)->Ok_0.len() ==> is_case_insertion(
                rules,
                previous,
                base,
                n,
                #[trigger] case_insertions(rules, previous, base, n)->Ok_0[j],
            ),
        forall|i: int|
            0 <= i < n && (#[trigger] rules[i]).is_base_case(previous) == base ==> insertion(
                rules[i],
                !base,
            ) is Ok && case_insertions(rules, previous, base, n)->Ok_0.contains(
                insertion(rules[i], !base)->Ok_0,
            ),
    decreases n,
{
    if n > 0 {
        lemma_case_members(rules, previous, base, n - 1);
        let before = case_insertions(rules, previous, base, n - 1)->Ok_0;
        let now = case_insertions(rules, previous, base, n)->Ok_0;
        assert forall|j: int| 0 <= j < now.len() implies is_case_insertion(
            rules,
            previous,
            base,
            n,
            #[trigger] now[j],
        ) by {
            if j < before.len() {
                assert(now[j] == before[j]);
                assert(is_case_insertion(rules, previous, base, n - 1, before[j]));
                let i = choose|i: int|
                    0 <= i < n - 1 && (#[trigger] rules[i]).is_base_case(previous) == base
                        && insertion(rules[i], !base) == Ok::<
                        StatementView,
                        crate::error::FailureView,
                    >(before[j]);
                assert(0 <= i < n && rules[i].is_base_case(previous) == base && insertion(
                    rules[i],
                    !base,
                ) == Ok::<StatementView, crate::error::FailureView>(now[j]));
            } else {
                assert(0 <= n - 1 < n && rules[n - 1].is_base_case(previous) == base && insertion(
                    rules[n - 1],
                    !base,
                ) == Ok::<StatementView, crate::error::FailureView>(now[j]));
            }
        }
        assert forall|i: int|
            0 <= i < n && (#[trigger] rules[i]).is_base_case(previous) == base implies insertion(
            rules[i],
            !base,
        ) is Ok && now.contains(insertion(rules[i], !base)->Ok_0) by {
            if i < n - 1 {
                let wanted = insertion(rules[i], !base)->Ok_0;
                assert(before.contains(wanted));
                let j = choose|j: int| 0 <= j < before.len() && before[j] == wanted;
                assert(now[j] == wanted);
            } else {
                assert(now[now.len() - 1] == insertion(rules[i], !base)->Ok_0);
            }
        }
    }
}

/// The rows that the rule at position `i` yields over a store.
pub open spec fn yielded(rules: Seq<RuleView>, i: int, store: Store) -> Table {
    rows(compiled(rules[i], false)->Ok_0, store)
}

/// What a rule of a planned relation yields over a store is what its
/// insertion yields: that of a base case over the store, that of another
/// rule over the store with the whole relation as the delta.
pub proof fn lemma_rule_rows(
    types: Types,
    name: Seq<char>,
    rules: Seq<RuleView>,
    previous: Seq<Seq<char>>,
    store: Store,
    i: int,
)
    requires
        clean_rules(name, rules),
        relation_plan(types, name, rules, previous) is Ok,
        0 <= i < rules.len(),
    ensures
        compiled(rules[i], false) is Ok,
        rules[i].is_base_case(previous) ==> insertion(rules[i], false) is Ok && yielded(
            rules,
            i,
            store,
        ) == rows(selection_of(insertion(rules[i], false)->Ok_0), store),
        !rules[i].is_base_case(previous) ==> insertion(rules[i], true) is Ok && yielded(
            rules,
            i,
            store,
        ) == rows(
            selection_of(insertion(rules[i], true)->Ok_0),
            store.insert(delta_table(name), table_of(store, name)),
        ),
{
    let rule = rules[i];
    lemma_case_members(rules, previous, true, rules.len() as int);
    lemma_case_members(rules, previous, false, rules.len() as int);
    lemma_compiles_both(rule);
    assert(keeps_off_delta(rule));
    if !rule.is_base_case(previous) {
        law_step_is_rule(rule, store);
    }
}

/// Whether at most one clause of the body of each rule is over the
/// head's relation.
pub open spec fn all_linear(rules: Seq<RuleView>) -> bool {
    forall|i: int| 0 <= i < rules.len() ==> linear(#[trigger] rules[i])
}

/// The steps of a relation whose rules have at most one clause over the
/// relation itself read the delta for one clause at most.
pub proof fn law_steps_read_once(
    types: Types,
    name: Seq<char>,
    rules: Seq<RuleView>,
    previous: Seq<Seq<char>>,
)
    requires
        clean_rules(name, rules),
        all_linear(rules),
        relation_plan(types, name, rules, previous) is Ok,
    ensures
        read_once(relation_plan(types, name, rules, previous)->Ok_0.steps, delta_table(name)),
{
    let plan = relation_plan(types, name, rules, previous)->Ok_0;
    lemma_case_members(rules, previous, false, rules.len() as int);
    assert forall|j: int| 0 <= j < plan.steps.len() implies reads_once(
        selection_of(#[trigger] plan.steps[j]),
        delta_table(name),
    ) by {
        assert(is_case_insertion(rules, previous, false, rules.len() as int, plan.steps[j]));
        let i = choose|i: int|
            0 <= i < rules.len() && (#[trigger] rules[i]).is_base_case(previous) == false
                && insertion(rules[i], !false) == Ok::<StatementView, crate::error::FailureView>(
                plan.steps[j],
            );
        assert(keeps_off_delta(rules[i]));
        assert(linear(rules[i]));
        lemma_step_reads_once(rules[i]);
    }
}

/// Completeness of the fixpoint, for rules with at most one clause over
/// the relation itself: once a step has added nothing, no rule of the
/// relation yields a row that the relation lacks.
pub proof fn law_relation_complete(
    types: Types,
    name: Seq<char>,
    rules: Seq<RuleView>,
    previous: Seq<Seq<char>>,
    store: Store,
    n: nat,
    i: int,
)
    requires
        clean_rules(name, rules),
        all_linear(rules),
        !previous.contains(name),
        relation_plan(types, name, rules, previous) is Ok,
        relation_plan(types, name, rules, previous)->Ok_0.steps.len() > 0,
        n >= 1,
        looped(relation_plan(types, name, rules, previous)->Ok_0, store, n)[delta_table(name)]
            == Set::<Row>::empty(),
        0 <= i < rules.len(),
    ensures
        yielded(
            rules,
            i,
            evaluated(relation_plan(types, name, rules, previous)->Ok_0, store, n),
        ).subset_of(
            table_of(
                evaluated(relation_plan(types, name, rules, previous)->Ok_0, store, n),
                name,
            ),
        ),
{
    let plan = relation_plan(types, name, rules, previous)->Ok_0;
    let end = evaluated(plan, store, n);
    law_plan_fits(types, name, rules, previous);
    law_steps_read_once(types, name, rules, previous);
    law_fixpoint_complete(plan, store, n);
    lemma_rule_rows(types, name, rules, previous, end, i);
    lemma_case_members(rules, previous, true, rules.len() as int);
    lemma_case_members(rules, previous, false, rules.len() as int);
    let whole = table_of(end, name);
    if rules[i].is_base_case(previous) {
        let wanted = insertion(rules[i], false)->Ok_0;
        assert(plan.seeds.contains(wanted));
        let j = choose|j: int| 0 <= j < plan.seeds.len() && plan.seeds[j] == wanted;
        lemma_produced_members(plan.seeds, end, plan.seeds.len() as int);
        assert(rows(selection_of(plan.seeds[j]), end).subset_of(
            produced(plan.seeds, end, plan.seeds.len() as int),
        ));
    } else {
        let wanted = insertion(rules[i], true)->Ok_0;
        assert(plan.steps.contains(wanted));
        let j = choose|j: int| 0 <= j < plan.steps.len() && plan.steps[j] == wanted;
        let full = end.insert(delta_table(name), whole);
        lemma_produced_members(plan.steps, full, plan.steps.len() as int);
        assert(rows(selection_of(plan.steps[j]), full).subset_of(
            produced(plan.steps, full, plan.steps.len() as int),
        ));
    }
}

/// Soundness of the fixpoint: each row of the relation was there before
/// the evaluation, or one of the rules of the relation yields it from the
/// rows that the store holds.
pub proof fn law_relation_sound(
    types: Types,
    name: Seq<char>,
    rules: Seq<RuleView>,
    previous: Seq<Seq<char>>,
    store: Store,
    n: nat,
    row: Row,
)
    requires
        clean_rules(name, rules),
        !previous.contains(name),
        relation_plan(types, name, rules, previous) is Ok,
        relation_plan(types, name, rules, previous)->Ok_0.steps.len() > 0 || n == 0,
        table_of(
            evaluated(relation_plan(types, name, rules, previous)->Ok_0, store, n),
            name,
        ).contains(row),
    ensures
        table_of(store, name).contains(row) || exists|i: int|
            0 <= i < rules.len() && (#[trigger] yielded(
                rules,
                i,
                evaluated(relation_plan(types, name, rules, previous)->Ok_0, store, n),
            )).contains(row),
{
    let plan = relation_plan(types, name, rules, previous)->Ok_0;
    let end = evaluated(plan, store, n);
    law_plan_fits(types, name, rules, previous);
    if plan.steps.len() > 0 {
        law_fixpoint_sound(plan, store, n);
    } else {
        law_seeds_exact(plan, store);
    }
    lemma_case_members(rules, previous, true, rules.len() as int);
    lemma_case_members(rules, previous, false, rules.len() as int);
    let whole = table_of(end, name);
    let full = end.insert(delta_table(name), whole);
    if !table_of(store, name).contains(row) {
        if produced(plan.seeds, end, plan.seeds.len() as int).contains(row) {
            lemma_produced_members(plan.seeds, end, plan.seeds.len() as int);
            let j = choose|j: int|
                0 <= j < plan.seeds.len() && (#[trigger] rows(
                    selection_of(plan.seeds[j]),
                    end,
                )).contains(row);
            assert(is_case_insertion(rules, previous, true, rules.len() as int, plan.seeds[j]));
            let i = choose|i: int|
                0 <= i < rules.len() && (#[trigger] rules[i]).is_base_case(previous) == true
                    && insertion(rules[i], !true) == Ok::<
                    StatementView,
                    crate::error::FailureView,
                >(plan.seeds[j]);
            lemma_rule_rows(types, name, rules, previous, end, i);
            assert(yielded(rules, i, end).contains(row));
        } else {
            assert(derived(plan.steps, end, name, whole).contains(row));
            lemma_produced_members(plan.steps, full, plan.steps.len() as int);
            let j = choose|j: int|
                0 <= j < plan.steps.len() && (#[trigger] rows(
                    selection_of(plan.steps[j]),
                    full,
                )).contains(row);
            assert(is_case_insertion(rules, previous, false, rules.len() as int, plan.steps[j]));
            let i = choose|i: int|
                0 <= i < rules.len() && (#[trigger] rules[i]).is_base_case(previous) == false
                    && insertion(rules[i], !false) == Ok::<
                    StatementView,
                    crate::error::FailureView,
                >(plan.steps[j]);
            lemma_rule_rows(types, name, rules, previous, end, i);
            assert(yielded(rules, i, end).contains(row));
        }
    }
}


/// Whether two statements leave every store the same.
pub open spec fn same_effect(a: StatementView, b: StatementView) -> bool {
    forall|store: Store| #[trigger] effect(a, store) == effect(b, store)
}

/// Whether two lists of statements are of one length, and each statement
/// of the one leaves every store as the statement at its position in the
/// other does.
pub open spec fn same_effects(x: Seq<StatementView>, y: Seq<StatementView>) -> bool {
    &&& x.len() == y.len()
    &&& forall|i: int| 0 <= i < x.len() ==> same_effect(#[trigger] x[i], y[i])
}

/// Lists of statements with the same effects leave a store the same.
pub proof fn lemma_run_same(x: Seq<StatementView>, y: Seq<StatementView>, store: Store)
    requires
        same_effects(x, y),
    ensures
        run(x, store) == run(y, store),
    decreases x.len(),
{
    if x.len() > 0 {
        assert(same_effects(x.drop_last(), y.drop_last())) by {
            assert forall|i: int| 0 <= i < x.drop_last().len() implies same_effect(
                #[trigger] x.drop_last()[i],
                y.drop_last()[i],
            ) by {
                assert(same_effect(x[i], y[i]));
            }
        }
        lemma_run_same(x.drop_last(), y.drop_last(), store);
        assert(same_effect(x[x.len() - 1], y[y.len() - 1]));
    }
}

/// Lists with the same effects, one after the other, have the same
/// effects.
pub proof fn lemma_same_add(
    a: Seq<StatementView>,
    b: Seq<StatementView>,
    x: Seq<StatementView>,
    y: Seq<StatementView>,
)
    requires
        same_effects(a, x),
        same_effects(b, y),
    ensures
        same_effects(a + b, x + y),
{
    assert forall|i: int| 0 <= i < (a + b).len() implies same_effect(
        #[trigger] (a + b)[i],
        (x + y)[i],
    ) by {
        if i < a.len() {
            assert(same_effect(a[i], x[i]));
        } else {
            assert(same_effect(b[i - a.len()], y[i - a.len()]));
        }
    }
}

/// A list has the effects that it has.
pub proof fn lemma_same_self(a: Seq<StatementView>)
    ensures
        same_effects(a, a),
{
}

/// The steps of loops whose insertions have the same effects have the
/// same effects.
pub proof fn lemma_steps_same(
    predicate: Seq<char>,
    arity: int,
    inserts: Seq<StatementView>,
    others: Seq<StatementView>,
    n: nat,
)
    requires
        same_effects(inserts, others),
    ensures
        same_effects(
            steps_statements(predicate, arity, inserts, n),
            steps_statements(predicate, arity, others, n),
        ),
    decreases n,
{
    if n > 0 {
        lemma_steps_same(predicate, arity, inserts, others, (n - 1) as nat);
        let update = update_statements(predicate, arity);
        let count = seq![StatementView::Count { table: delta_table(predicate) }];
        lemma_same_self(update);
        lemma_same_self(count);
        lemma_same_add(inserts, update, others, update);
        lemma_same_add(inserts + update, count, others + update, count);
        lemma_same_add(
            steps_statements(predicate, arity, inserts, (n - 1) as nat),
            step_statements(predicate, arity, inserts),
            steps_statements(predicate, arity, others, (n - 1) as nat),
            step_statements(predicate, arity, others),
        );
    }
}

/// Whether `other` is `rule` with the clauses of its body in another
/// order.
pub open spec fn is_reordered(rule: RuleView, other: RuleView) -> bool {
    exists|there: Seq<int>, back: Seq<int>| #[trigger] is_reordering(rule, other, there, back)
}

/// Whether each of `others` is the rule at its position in `rules` with
/// the clauses of its body in another order.
pub open spec fn all_reordered(rules: Seq<RuleView>, others: Seq<RuleView>) -> bool {
    &&& rules.len() == others.len()
    &&& forall|i: int| 0 <= i < rules.len() ==> is_reordered(#[trigger] rules[i], others[i])
}

/// Whether a rule is a base case does not depend on the order of its
/// body.
pub proof fn lemma_base_case_same(rule: RuleView, other: RuleView, previous: Seq<Seq<char>>)
    requires
        is_reordered(rule, other),
    ensures
        other.is_base_case(previous) == rule.is_base_case(previous),
{
    let (there, back) = choose|there: Seq<int>, back: Seq<int>| #[trigger]
        is_reordering(rule, other, there, back);
    if rule.is_base_case(previous) {
        assert forall|i: int| 0 <= i < other.body.len() implies (#[trigger] other.body[i] matches
        crate::syntax::ast::ClauseView::Atom(a) && previous.contains(a.predicate)) by {
            assert(other.body[i] == rule.body[there[i]]);
        }
    }
    if other.is_base_case(previous) {
        assert forall|i: int| 0 <= i < rule.body.len() implies (#[trigger] rule.body[i] matches
        crate::syntax::ast::ClauseView::Atom(a) && previous.contains(a.predicate)) by {
            assert(other.body[back[i]] == rule.body[there[back[i]]]);
        }
    }
}

/// The insertions of rules do not depend, in their effects, on the order
/// of the bodies.
pub proof fn lemma_case_insertions_same(
    rules: Seq<RuleView>,
    others: Seq<RuleView>,
    previous: Seq<Seq<char>>,
    base: bool,
    n: int,
)
    requires
        0 <= n <= rules.len(),
        all_reordered(rules, others),
        case_insertions(rules, previous, base, n) is Ok,
    ensures
        case_insertions(others, previous, base, n) is Ok,
        same_effects(
            case_insertions(rules, previous, base, n)->Ok_0,
            case_insertions(others, previous, base, n)->Ok_0,
        ),
    decreases n,
{
    if n > 0 {
        lemma_case_insertions_same(rules, others, previous, base, n - 1);
        let rule = rules[n - 1];
        let other = others[n - 1];
        assert(is_reordered(rule, other));
        lemma_base_case_same(rule, other, previous);
        let mine = case_insertions(rules, previous, base, n - 1)->Ok_0;
        let yours = case_insertions(others, previous, base, n - 1)->Ok_0;
        if rule.is_base_case(previous) == base {
            let semi_naive = !base;
            let (there, back) = choose|there: Seq<int>, back: Seq<int>| #[trigger]
                is_reordering(rule, other, there, back);
            let a = insertion(rule, semi_naive)->Ok_0;
            assert forall|store: Store| #[trigger]
                effect(a, store) == effect(insertion(other, semi_naive)->Ok_0, store) by {
                law_order_independent(rule, other, there, back, semi_naive, store);
            }
            law_order_independent(rule, other, there, back, semi_naive, Map::empty());
            let b = insertion(other, semi_naive)->Ok_0;
            assert(same_effect(a, b));
            assert forall|i: int| 0 <= i < mine.push(a).len() implies same_effect(
                #[trigger] mine.push(a)[i],
                yours.push(b)[i],
            ) by {
                if i < mine.len() {
                    assert(same_effect(mine[i], yours[i]));
                }
            }
        }
    }
}

/// Order independence of a relation: with the clauses of the bodies of
/// its rules in another order, a relation is planned as well, and its
/// evaluation leaves the same store.
pub proof fn law_relation_order_independent(
    types: Types,
    name: Seq<char>,
    rules: Seq<RuleView>,
    others: Seq<RuleView>,
    previous: Seq<Seq<char>>,
    store: Store,
    n: nat,
)
    requires
        all_reordered(rules, others),
        relation_plan(types, name, rules, previous) is Ok,
    ensures
        relation_plan(types, name, others, previous) is Ok,
        evaluated(relation_plan(types, name, others, previous)->Ok_0, store, n) == evaluated(
            relation_plan(types, name, rules, previous)->Ok_0,
            store,
            n,
        ),
{
    let plan = relation_plan(types, name, rules, previous)->Ok_0;
    let columns = crate::engine::analysis::lookup(types, name)->0;
    assert(arity_fits(others, columns.len() as int, others.len() as int)) by {
        assert forall|i: int| 0 <= i < others.len() implies (#[trigger] others[i]).head.terms.len()
            == columns.len() by {
            assert(is_reordered(rules[i], others[i]));
            let (there, back) = choose|there: Seq<int>, back: Seq<int>| #[trigger]
                is_reordering(rules[i], others[i], there, back);
            assert(rules[i].head.terms.len() == columns.len());
        }
    }
    lemma_case_insertions_same(rules, others, previous, true, rules.len() as int);
    lemma_case_insertions_same(rules, others, previous, false, rules.len() as int);
    let other = relation_plan(types, name, others, previous)->Ok_0;
    let create = seq![plan.create];
    lemma_same_self(create);
    lemma_same_add(create, plan.seeds, create, other.seeds);
    if plan.steps.len() > 0 {
        let opening = opening_statements(name);
        let closing = closing_statements(name);
        lemma_same_self(opening);
        lemma_same_self(closing);
        lemma_steps_same(name, plan.arity, plan.steps, other.steps, n);
        let mine = steps_statements(name, plan.arity, plan.steps, n);
        let yours = steps_statements(name, plan.arity, other.steps, n);
        lemma_same_add(opening, mine, opening, yours);
        lemma_same_add(opening + mine, closing, opening + yours, closing);
        lemma_same_add(
            create + plan.seeds,
            fixpoint_statements(name, plan.arity, plan.steps, n),
            create + other.seeds,
            fixpoint_statements(name, plan.arity, other.steps, n),
        );
    } else {
        let none = Seq::<StatementView>::empty();
        lemma_same_self(none);
        lemma_same_add(create + plan.seeds, none, create + other.seeds, none);
    }
    lemma_run_same(plan_statements(plan, n), plan_statements(other, n), store);
}


/// Idempotence: where the relation is there and no rule yields a row that
/// it lacks, its evaluation leaves it as it was; its loop, if it has one,
/// ends after the first step, which adds nothing.
pub proof fn law_relation_idempotent(
    types: Types,
    name: Seq<char>,
    rules: Seq<RuleView>,
    previous: Seq<Seq<char>>,
    store: Store,
)
    requires
        clean_rules(name, rules),
        !previous.contains(name),
        relation_plan(types, name, rules, previous) is Ok,
        store.dom().contains(name),
        forall|i: int|
            0 <= i < rules.len() ==> (#[trigger] yielded(rules, i, store)).subset_of(store[name]),
    ensures
        ({
            let plan = relation_plan(types, name, rules, previous)->Ok_0;
            if plan.steps.len() > 0 {
                looped(plan, store, 1)[delta_table(name)] == Set::<Row>::empty() && table_of(
                    evaluated(plan, store, 1),
                    name,
                ) == store[name]
            } else {
                table_of(evaluated(plan, store, 0), name) == store[name]
            }
        }),
{
    let plan = relation_plan(types, name, rules, previous)->Ok_0;
    law_plan_fits(types, name, rules, previous);
    lemma_case_members(rules, previous, true, rules.len() as int);
    lemma_case_members(rules, previous, false, rules.len() as int);
    let full = store.insert(delta_table(name), store[name]);
    assert forall|row: Row|
        produced(plan.seeds, store, plan.seeds.len() as int).contains(row) implies store[name].contains(
        row,
    ) by {
        lemma_produced_members(plan.seeds, store, plan.seeds.len() as int);
        let j = choose|j: int|
            0 <= j < plan.seeds.len() && (#[trigger] rows(
                selection_of(plan.seeds[j]),
                store,
            )).contains(row);
        assert(is_case_insertion(rules, previous, true, rules.len() as int, plan.seeds[j]));
        let i = choose|i: int|
            0 <= i < rules.len() && (#[trigger] rules[i]).is_base_case(previous) == true
                && insertion(rules[i], !true) == Ok::<StatementView, crate::error::FailureView>(
                plan.seeds[j],
            );
        lemma_rule_rows(types, name, rules, previous, store, i);
        assert(yielded(rules, i, store).subset_of(store[name]));
    }
    assert forall|row: Row|
        derived(plan.steps, store, name, store[name]).contains(row) implies store[name].contains(
        row,
    ) by {
        lemma_produced_members(plan.steps, full, plan.steps.len() as int);
        let j = choose|j: int|
            0 <= j < plan.steps.len() && (#[trigger] rows(
                selection_of(plan.steps[j]),
                full,
            )).contains(row);
        assert(is_case_insertion(rules, previous, false, rules.len() as int, plan.steps[j]));
        let i = choose|i: int|
            0 <= i < rules.len() && (#[trigger] rules[i]).is_base_case(previous) == false
                && insertion(rules[i], !false) == Ok::<StatementView, crate::error::FailureView>(
                plan.steps[j],
            );
        lemma_rule_rows(types, name, rules, previous, store, i);
        assert(yielded(rules, i, store).subset_of(store[name]));
    }
    law_idempotent(plan, store);
}

} // verus!
