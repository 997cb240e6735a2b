//! The loop of a relation ends. The rules make no value: what a relation
//! holds are rows over the values of the store and the constants of the
//! heads. Each step that does not end the loop adds such a row that the
//! relation lacked, so a loop adds rows in no more steps than there are
//! such rows.

use vstd::prelude::*;
use crate::engine::analysis::Types;
use crate::engine::compile::compiled;
use crate::engine::fixpoint::{
    is_case_insertion, lemma_case_members, lemma_produced_members,
};
use crate::engine::meaning::{head_over, row_over};
use crate::engine::negation::law_rows_over_domain;
use crate::engine::model::{
    after_steps, clean_rules, has_working, law_plan_fits, law_steps_bounded, lemma_steps,
    lemma_working_names, produced, Row, rows, selection_of, steps_added, Store, table_of, Value,
    working,
};
use crate::engine::runtime::{insertion, relation_plan, temp_table};
use crate::engine::statement::StatementView;
use crate::error::FailureView;
use crate::syntax::ast::RuleView;

verus! {

/// Whether `row` has `arity` values, each one of `domain`.
pub open spec fn is_tuple(row: Row, domain: Set<Value>, arity: int) -> bool {
    row.len() == arity && row_over(row, domain)
}

/// Whether each row of each table but the three that the loop of `name`
/// works on holds values of `domain` only, and each row of those three is
/// a tuple over `domain` of the arity of the relation.
pub open spec fn store_within(store: Store, name: Seq<char>, domain: Set<Value>, arity: int) -> bool {
    &&& forall|t: Seq<char>, row: Row|
        store.dom().contains(t) && #[trigger] store[t].contains(row) ==> row_over(row, domain)
    &&& forall|t: Seq<char>, row: Row|
        working(name).contains(t) && #[trigger] table_of(store, t).contains(row) ==> row.len()
            == arity
}

/// Whether each constant of the head of each rule is one of `domain`.
pub open spec fn heads_over(rules: Seq<RuleView>, domain: Set<Value>) -> bool {
    forall|i: int| 0 <= i < rules.len() ==> head_over(#[trigger] rules[i], domain)
}

/// A row that a step of the loop produces is a tuple over the domain.
pub proof fn lemma_produced_within(
    types: Types,
    name: Seq<char>,
    rules: Seq<RuleView>,
    previous: Seq<Seq<char>>,
    store: Store,
    domain: Set<Value>,
    row: Row,
)
    requires
        relation_plan(types, name, rules, previous) is Ok,
        heads_over(rules, domain),
        forall|t: Seq<char>, row: Row|
            store.dom().contains(t) && #[trigger] store[t].contains(row) ==> row_over(row, domain),
        produced(
            relation_plan(types, name, rules, previous)->Ok_0.steps,
            store,
            relation_plan(types, name, rules, previous)->Ok_0.steps.len() as int,
        ).contains(row),
    ensures
        is_tuple(row, domain, relation_plan(types, name, rules, previous)->Ok_0.arity),
{
    let plan = relation_plan(types, name, rules, previous)->Ok_0;
    lemma_case_members(rules, previous, false, rules.len() as int);
    lemma_produced_members(plan.steps, store, plan.steps.len() as int);
    let j = choose|j: int|
        0 <= j < plan.steps.len() && (#[trigger] rows(selection_of(plan.steps[j]), store)).contains(
            row,
        );
    assert(is_case_insertion(rules, previous, false, rules.len() as int, plan.steps[j]));
    let i = choose|i: int|
        0 <= i < rules.len() && (#[trigger] rules[i]).is_base_case(previous) == false && insertion(
            rules[i],
            !false,
        ) == Ok::<StatementView, FailureView>(plan.steps[j]);
    assert(selection_of(plan.steps[j]) == compiled(rules[i], true)->Ok_0);
    assert(head_over(rules[i], domain));
    law_rows_over_domain(rules[i], true, store, domain, row);
    assert(rules[i].head.terms.len() == plan.arity);
}

/// The rules make no value: after every number of steps the store holds
/// values of the domain only, and the relation tuples of its arity.
pub proof fn law_loop_within(
    types: Types,
    name: Seq<char>,
    rules: Seq<RuleView>,
    previous: Seq<Seq<char>>,
    start: Store,
    domain: Set<Value>,
    k: nat,
)
    requires
        clean_rules(name, rules),
        !previous.contains(name),
        relation_plan(types, name, rules, previous) is Ok,
        heads_over(rules, domain),
        has_working(start, name),
        store_within(
            start,
            name,
            domain,
            relation_plan(types, name, rules, previous)->Ok_0.arity,
        ),
    ensures
        ({
            let plan = relation_plan(types, name, rules, previous)->Ok_0;
            let now = after_steps(name, plan.arity, plan.steps, start, k);
            has_working(now, name) && store_within(now, name, domain, plan.arity)
        }),
    decreases k,
{
    let plan = relation_plan(types, name, rules, previous)->Ok_0;
    law_plan_fits(types, name, rules, previous);
    lemma_working_names(name);
    if k == 0 {
        assert(after_steps(name, plan.arity, plan.steps, start, 0) == start);
    } else {
        let m = (k - 1) as nat;
        law_loop_within(types, name, rules, previous, start, domain, m);
        lemma_steps(name, plan.arity, plan.steps, start, m);
        lemma_steps(name, plan.arity, plan.steps, start, k);
        let before = after_steps(name, plan.arity, plan.steps, start, m);
        let now = after_steps(name, plan.arity, plan.steps, start, k);
        assert forall|row: Row|
            produced(plan.steps, before, plan.steps.len() as int).contains(row) implies is_tuple(
            row,
            domain,
            plan.arity,
        ) by {
            lemma_produced_within(types, name, rules, previous, before, domain, row);
        }
        assert forall|t: Seq<char>, row: Row|
            working(name).contains(t) && #[trigger] table_of(now, t).contains(row) implies is_tuple(
            row,
            domain,
            plan.arity,
        ) by {
            if !produced(plan.steps, before, plan.steps.len() as int).contains(row) {
                assert(table_of(before, name).contains(row) || table_of(
                    before,
                    temp_table(name),
                ).contains(row));
                if table_of(before, name).contains(row) {
                    assert(before[name].contains(row));
                } else {
                    assert(before[temp_table(name)].contains(row));
                }
            }
        }
        assert forall|t: Seq<char>, row: Row|
            now.dom().contains(t) && #[trigger] now[t].contains(row) implies row_over(
            row,
            domain,
        ) by {
            if working(name).contains(t) {
                assert(table_of(now, t).contains(row));
            } else {
                assert(before.dom().contains(t) && before[t] == now[t]);
                assert(before[t].contains(row));
            }
        }
    }
}

/// The loop ends: where `universe` holds the tuples over the domain of
/// the arity of the relation, and is finite, at most as many steps add a
/// row as `universe` has rows that the relation lacked at the start.
pub proof fn law_loop_ends(
    types: Types,
    name: Seq<char>,
    rules: Seq<RuleView>,
    previous: Seq<Seq<char>>,
    start: Store,
    domain: Set<Value>,
    universe: Set<Row>,
    k: nat,
)
    requires
        clean_rules(name, rules),
        !previous.contains(name),
        relation_plan(types, name, rules, previous) is Ok,
        heads_over(rules, domain),
        has_working(start, name),
        store_within(
            start,
            name,
            domain,
            relation_plan(types, name, rules, previous)->Ok_0.arity,
        ),
        universe.finite(),
        forall|row: Row|
            is_tuple(row, domain, relation_plan(types, name, rules, previous)->Ok_0.arity)
                ==> universe.contains(row),
        steps_added(
            name,
            relation_plan(types, name, rules, previous)->Ok_0.arity,
            relation_plan(types, name, rules, previous)->Ok_0.steps,
            start,
            k,
        ),
    ensures
        start[name].len() + k <= universe.len(),
{
    let plan = relation_plan(types, name, rules, previous)->Ok_0;
    law_plan_fits(types, name, rules, previous);
    law_loop_within(types, name, rules, previous, start, domain, k);
    let now = after_steps(name, plan.arity, plan.steps, start, k);
    assert forall|row: Row| now[name].contains(row) implies universe.contains(row) by {
        assert(table_of(now, name).contains(row));
        assert(is_tuple(row, domain, plan.arity));
    }
    law_steps_bounded(name, plan.arity, plan.steps, start, universe, k);
}

} // verus!
