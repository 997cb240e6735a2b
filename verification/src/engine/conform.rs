//! Type soundness of the evaluation of a relation: where each rule gives
//! its head the types of the relation, and the rows of the store conform
//! to the types of their tables, they do so after the evaluation.

use vstd::prelude::*;
use crate::engine::analysis::{DataType, lookup, rule_types, Types};
use crate::engine::compile::{affirmed, compiled, table_name};
use crate::engine::fixpoint::{
    is_case_insertion, lemma_case_members, lemma_produced_members,
};
use crate::engine::meaning::{body_conforms, is_atom_clause, row_conforms, store_conforms};
use crate::engine::negation::law_rows_conform;
use crate::engine::model::{
    after_steps, clean_rules, effect, evaluated, has_working, law_plan_fits, lemma_looped,
    lemma_run_add, lemma_run_inserts, lemma_run_one, lemma_seeded, lemma_steps,
    lemma_working_names, looped, opened, produced, Row, rows, run, seeded, selection_of, Store,
    table_of, working,
};
use crate::engine::runtime::{
    delta_table, insertion, opening_statements, plan_statements, relation_plan, temp_table,
};
use crate::engine::statement::StatementView;
use crate::error::FailureView;
use crate::syntax::ast::{ClauseView, RuleView};

verus! {

/// Whether each row of the table `name` conforms to `columns`.
pub open spec fn table_conforms(store: Store, name: Seq<char>, columns: Seq<DataType>) -> bool {
    forall|row: Row| #[trigger] table_of(store, name).contains(row) ==> row_conforms(row, columns)
}

/// Whether the atoms of each rule give its head the types `columns`.
pub open spec fn rules_give(types: Types, rules: Seq<RuleView>, columns: Seq<DataType>) -> bool {
    forall|i: int|
        0 <= i < rules.len() ==> rule_types(types, affirmed(#[trigger] rules[i])) == Ok::<
            Seq<DataType>,
            FailureView,
        >(columns)
}

/// Whether the rows of each table but the three that the loop of `name`
/// works on conform to the types of the table, where it has types.
pub open spec fn others_conform(store: Store, types: Types, name: Seq<char>) -> bool {
    forall|t: Seq<char>, row: Row|
        !working(name).contains(t) && store.dom().contains(t) && #[trigger] store[t].contains(row)
            && lookup(types, t) is Some ==> row_conforms(row, lookup(types, t)->0)
}

/// Whether the rows of the three tables that the loop of `name` works on
/// conform to `columns`.
pub open spec fn working_conform(store: Store, name: Seq<char>, columns: Seq<DataType>) -> bool {
    &&& table_conforms(store, name, columns)
    &&& table_conforms(store, delta_table(name), columns)
    &&& table_conforms(store, temp_table(name), columns)
}

/// The rows that the insertions of the rules of a case yield conform to
/// the types of the relation, where the rows that the rules read do.
pub proof fn lemma_produced_conform(
    types: Types,
    name: Seq<char>,
    rules: Seq<RuleView>,
    previous: Seq<Seq<char>>,
    base: bool,
    inserts: Seq<StatementView>,
    store: Store,
    columns: Seq<DataType>,
    row: Row,
)
    requires
        rules_give(types, rules, columns),
        forall|j: int|
            0 <= j < inserts.len() ==> is_case_insertion(
                rules,
                previous,
                base,
                rules.len() as int,
                #[trigger] inserts[j],
            ),
        forall|i: int|
            0 <= i < rules.len() && (#[trigger] rules[i]).is_base_case(previous) == base
                ==> body_conforms(rules[i], !base, types, store),
        produced(inserts, store, inserts.len() as int).contains(row),
    ensures
        row_conforms(row, columns),
{
    lemma_produced_members(inserts, store, inserts.len() as int);
    let j = choose|j: int|
        0 <= j < inserts.len() && (#[trigger] rows(selection_of(inserts[j]), store)).contains(row);
    assert(is_case_insertion(rules, previous, base, rules.len() as int, inserts[j]));
    let i = choose|i: int|
        0 <= i < rules.len() && (#[trigger] rules[i]).is_base_case(previous) == base && insertion(
            rules[i],
            !base,
        ) == Ok::<StatementView, FailureView>(inserts[j]);
    assert(selection_of(inserts[j]) == compiled(rules[i], !base)->Ok_0);
    law_rows_conform(rules[i], !base, types, store, row);
}

/// In the loop of a relation whose rules leave its working tables to the
/// loop, the rows that a rule reads conform, where the working tables and
/// the other tables do.
pub proof fn lemma_step_body_conforms(
    types: Types,
    name: Seq<char>,
    rules: Seq<RuleView>,
    store: Store,
    columns: Seq<DataType>,
    i: int,
    semi_naive: bool,
)
    requires
        clean_rules(name, rules),
        0 <= i < rules.len(),
        lookup(types, name) == Some(columns),
        others_conform(store, types, name),
        working_conform(store, name, columns),
        !semi_naive ==> forall|c: int|
            0 <= c < rules[i].body.len() ==> (#[trigger] rules[i].body[c]).to_string() != name,
    ensures
        body_conforms(rules[i], semi_naive, types, store),
{
    let rule = rules[i];
    lemma_working_names(name);
    assert forall|c: int, row: Row|
        is_atom_clause(rule, c) && store.dom().contains(table_name(rule, c, semi_naive))
            && #[trigger] store[table_name(rule, c, semi_naive)].contains(row) && lookup(
            types,
            rule.body[c].to_string(),
        ) is Some implies row_conforms(row, lookup(types, rule.body[c].to_string())->0) by {
        let over = rule.body[c].to_string();
        let table = table_name(rule, c, semi_naive);
        assert(over != delta_table(name) && over != temp_table(name));
        if over == name {
            assert(table == delta_table(name));
            assert(table_of(store, delta_table(name)).contains(row));
        } else {
            assert(table == over);
            assert(!working(name).contains(over));
        }
    }
}

/// The rows of the three working tables conform after every number of
/// steps, and the other tables stay as they were.
pub proof fn lemma_loop_conforms(
    types: Types,
    name: Seq<char>,
    rules: Seq<RuleView>,
    previous: Seq<Seq<char>>,
    start: Store,
    columns: Seq<DataType>,
    k: nat,
)
    requires
        clean_rules(name, rules),
        !previous.contains(name),
        relation_plan(types, name, rules, previous) is Ok,
        lookup(types, name) == Some(columns),
        rules_give(types, rules, columns),
        has_working(start, name),
        others_conform(start, types, name),
        working_conform(start, name, columns),
    ensures
        ({
            let plan = relation_plan(types, name, rules, previous)->Ok_0;
            let now = after_steps(name, plan.arity, plan.steps, start, k);
            has_working(now, name) && others_conform(now, types, name) && working_conform(
                now,
                name,
                columns,
            )
        }),
    decreases k,
{
    let plan = relation_plan(types, name, rules, previous)->Ok_0;
    law_plan_fits(types, name, rules, previous);
    lemma_working_names(name);
    if k == 0 {
        assert(after_steps(name, plan.arity, plan.steps, start, 0) == start);
    } else {
        let m = (k - 1) as nat;
        lemma_loop_conforms(types, name, rules, previous, start, columns, m);
        lemma_steps(name, plan.arity, plan.steps, start, m);
        lemma_steps(name, plan.arity, plan.steps, start, k);
        let before = after_steps(name, plan.arity, plan.steps, start, m);
        let now = after_steps(name, plan.arity, plan.steps, start, k);
        lemma_case_members(rules, previous, false, rules.len() as int);
        assert forall|i: int|
            0 <= i < rules.len() && (#[trigger] rules[i]).is_base_case(previous)
                == false implies body_conforms(rules[i], !false, types, before) by {
            lemma_step_body_conforms(types, name, rules, before, columns, i, true);
        }
        assert forall|row: Row|
            produced(plan.steps, before, plan.steps.len() as int).contains(
                row,
            ) implies row_conforms(row, columns) by {
            lemma_produced_conform(
                types,
                name,
                rules,
                previous,
                false,
                plan.steps,
                before,
                columns,
                row,
            );
        }
        assert(table_conforms(now, temp_table(name), columns)) by {
            assert forall|row: Row| #[trigger]
                table_of(now, temp_table(name)).contains(row) implies row_conforms(
                row,
                columns,
            ) by {
                if !produced(plan.steps, before, plan.steps.len() as int).contains(row) {
                    assert(table_of(before, temp_table(name)).contains(row));
                }
            }
        }
        assert(table_conforms(now, delta_table(name), columns)) by {
            assert forall|row: Row| #[trigger]
                table_of(now, delta_table(name)).contains(row) implies row_conforms(
                row,
                columns,
            ) by {
                assert(table_of(now, temp_table(name)).contains(row));
            }
        }
        assert(table_conforms(now, name, columns)) by {
            assert forall|row: Row| #[trigger] table_of(now, name).contains(row) implies row_conforms(
                row,
                columns,
            ) by {
                if !table_of(before, name).contains(row) {
                    assert(table_of(now, delta_table(name)).contains(row));
                }
            }
        }
        assert(others_conform(now, types, name)) by {
            assert forall|t: Seq<char>, row: Row|
                !working(name).contains(t) && now.dom().contains(t) && #[trigger] now[t].contains(
                    row,
                ) && lookup(types, t) is Some implies row_conforms(row, lookup(types, t)->0) by {
                assert(before.dom().contains(t) && before[t] == now[t]);
                assert(before[t].contains(row));
            }
        }
    }
}

/// Type soundness of the evaluation of a relation: where each rule gives
/// its head the types of the relation, and the rows of the store conform
/// to the types of their tables, they do so after the evaluation.
pub proof fn law_relation_conforms(
    types: Types,
    name: Seq<char>,
    rules: Seq<RuleView>,
    previous: Seq<Seq<char>>,
    store: Store,
    n: nat,
)
    requires
        clean_rules(name, rules),
        !previous.contains(name),
        relation_plan(types, name, rules, previous) is Ok,
        rules_give(types, rules, lookup(types, name)->0),
        store_conforms(store, types),
    ensures
        store_conforms(evaluated(relation_plan(types, name, rules, previous)->Ok_0, store, n), types),
{
    let plan = relation_plan(types, name, rules, previous)->Ok_0;
    let columns = lookup(types, name)->0;
    let end = evaluated(plan, store, n);
    law_plan_fits(types, name, rules, previous);
    lemma_working_names(name);
    lemma_seeded(plan, store);
    let sown = seeded(plan, store);
    lemma_case_members(rules, previous, true, rules.len() as int);
    assert(others_conform(sown, types, name)) by {
        assert forall|t: Seq<char>, row: Row|
            !working(name).contains(t) && sown.dom().contains(t) && #[trigger] sown[t].contains(row)
                && lookup(types, t) is Some implies row_conforms(row, lookup(types, t)->0) by {
            assert(store.dom().contains(t) && store[t] == sown[t]);
            assert(store[t].contains(row));
        }
    }
    assert forall|i: int|
        0 <= i < rules.len() && (#[trigger] rules[i]).is_base_case(previous)
            == true implies body_conforms(rules[i], !true, types, sown) by {
        lemma_base_body_conforms(types, name, rules, previous, sown, i);
    }
    assert forall|row: Row|
        produced(plan.seeds, sown, plan.seeds.len() as int).contains(row) implies row_conforms(
        row,
        columns,
    ) by {
        lemma_produced_conform(
            types,
            name,
            rules,
            previous,
            true,
            plan.seeds,
            sown,
            columns,
            row,
        );
    }
    assert(table_conforms(sown, name, columns)) by {
        assert forall|row: Row| #[trigger] table_of(sown, name).contains(row) implies row_conforms(
            row,
            columns,
        ) by {
            if table_of(store, name).contains(row) {
                assert(store.dom().contains(name) && store[name].contains(row));
            }
        }
    }
    if plan.steps.len() > 0 {
        lemma_looped(plan, store, n);
        lemma_looped(plan, store, 0);
        let begun = run_opening(plan.predicate, sown);
        assert(looped(plan, store, 0) == begun);
        assert(opened(begun, name));
        assert(others_conform(begun, types, name)) by {
            assert forall|t: Seq<char>, row: Row|
                !working(name).contains(t) && begun.dom().contains(t) && #[trigger] begun[t].contains(
                    row,
                ) && lookup(types, t) is Some implies row_conforms(row, lookup(types, t)->0) by {
                assert(store.dom().contains(t) && store[t] == begun[t]);
                assert(store[t].contains(row));
            }
        }
        assert(working_conform(begun, name, columns)) by {
            assert(table_of(begun, name) == table_of(sown, name));
            assert(table_of(begun, delta_table(name)) == table_of(sown, name));
        }
        lemma_loop_conforms(types, name, rules, previous, begun, columns, n);
        let last = looped(plan, store, n);
        assert(table_of(end, name) == table_of(last, name));
    } else {
        assert(plan_statements(plan, n) =~= seq![plan.create] + plan.seeds);
    }
    assert forall|t: Seq<char>, row: Row|
        end.dom().contains(t) && #[trigger] end[t].contains(row) && lookup(
            types,
            t,
        ) is Some implies row_conforms(row, lookup(types, t)->0) by {
        if t == name {
            assert(table_of(end, name).contains(row));
        } else if plan.steps.len() > 0 {
            assert(t != delta_table(name) && t != temp_table(name));
            let last = looped(plan, store, n);
            assert(!working(name).contains(t));
            assert(store.dom().contains(t) && store[t] == last[t]);
            assert(store[t].contains(row));
        } else {
            if !working(name).contains(t) {
                assert(store.dom().contains(t) && store[t] == end[t]);
            } else {
                assert(sown.dom().contains(t));
                lemma_seeds_keep(types, name, rules, previous, store, t);
            }
            assert(store[t].contains(row));
        }
    }
}

/// The store after the statements that open the loop of a relation.
pub open spec fn run_opening(predicate: Seq<char>, store: Store) -> Store {
    run(opening_statements(predicate), store)
}

/// Seeding a relation leaves its two working tables as they were.
pub proof fn lemma_seeds_keep(
    types: Types,
    name: Seq<char>,
    rules: Seq<RuleView>,
    previous: Seq<Seq<char>>,
    store: Store,
    t: Seq<char>,
)
    requires
        clean_rules(name, rules),
        !previous.contains(name),
        relation_plan(types, name, rules, previous) is Ok,
        t == delta_table(name) || t == temp_table(name),
    ensures
        ({
            let sown = seeded(relation_plan(types, name, rules, previous)->Ok_0, store);
            (sown.dom().contains(t) <==> store.dom().contains(t)) && (sown.dom().contains(t)
                ==> sown[t] == store[t])
        }),
{
    let plan = relation_plan(types, name, rules, previous)->Ok_0;
    law_plan_fits(types, name, rules, previous);
    lemma_working_names(name);
    lemma_run_add(seq![plan.create], plan.seeds, store);
    lemma_run_one(plan.create, store);
    let created = effect(plan.create, store);
    assert(plan.seeds.take(plan.seeds.len() as int) =~= plan.seeds);
    lemma_run_inserts(plan.seeds, name, working(name), created, plan.seeds.len() as int);
}

/// The rows that a base case reads conform, where the tables but the
/// working tables do: a base case reads relations that were evaluated
/// before.
pub proof fn lemma_base_body_conforms(
    types: Types,
    name: Seq<char>,
    rules: Seq<RuleView>,
    previous: Seq<Seq<char>>,
    store: Store,
    i: int,
)
    requires
        clean_rules(name, rules),
        !previous.contains(name),
        0 <= i < rules.len(),
        rules[i].is_base_case(previous),
        others_conform(store, types, name),
    ensures
        body_conforms(rules[i], false, types, store),
{
    let rule = rules[i];
    lemma_working_names(name);
    assert forall|c: int, row: Row|
        is_atom_clause(rule, c) && store.dom().contains(table_name(rule, c, false))
            && #[trigger] store[table_name(rule, c, false)].contains(row) && lookup(
            types,
            rule.body[c].to_string(),
        ) is Some implies row_conforms(row, lookup(types, rule.body[c].to_string())->0) by {
        let over = rule.body[c].to_string();
        assert(rule.body[c] matches ClauseView::Atom(a) && previous.contains(
            a.predicate,
        ));
        assert(over != name);
        assert(over != delta_table(name) && over != temp_table(name));
        assert(!working(name).contains(over));
    }
}

} // verus!
