//! Two relations, one above the other: the first holds the first column
//! of a base relation, the second is a copy of the first. Once both are
//! evaluated, each holds the values that stand first in a row of the base
//! relation, and no other row.

use vstd::prelude::*;
use crate::engine::analysis::Types;
use crate::engine::compile::{compiled, table_name};
use crate::engine::fixpoint::{all_linear, lemma_rule_rows, yielded};
use crate::engine::compile::{affirmed, is_negated};
use crate::engine::meaning::{
    consistent, constant_at, drawn, first_place, firsts, head_row, head_value, head_variable,
    is_atom_clause, lemma_firsts, lemma_occurs_in, lemma_places, linear, occurs, occurs_in,
    value_at,
};
use crate::engine::negation::{law_selection_meaning, means, unopposed};
use crate::engine::model::{Binding, Row, rows, Store, table_of, Value};
use crate::engine::whole::{
    grounded, law_run_complete, law_run_sound, lemma_orderly_plan, lemma_state_keeps,
    lemma_state_next, loops_ended, orderly, plan_at, plans_of, previous_at, Relations, state,
};
use crate::syntax::ast::{AtomView, ClauseView, IOView, RuleView, TermView, VariableView};

verus! {

/// The rule `head(X) :- over(X, _, .., _)`, with `others` placeholders.
pub open spec fn first_column_rule(
    head: Seq<char>,
    over: Seq<char>,
    x: Seq<char>,
    others: nat,
) -> RuleView {
    RuleView {
        io: IOView::Silent,
        head: AtomView {
            negation: false,
            predicate: head,
            terms: seq![TermView::Variable(VariableView::Distinguished(x))],
        },
        body: seq![
            ClauseView::Atom(
                AtomView {
                    negation: false,
                    predicate: over,
                    terms: Seq::new(
                        others + 1,
                        |j: int|
                            if j == 0 {
                                TermView::Variable(VariableView::Distinguished(x))
                            } else {
                                TermView::Variable(VariableView::Free)
                            },
                    ),
                },
            ),
        ],
    }
}

/// The rows of one value that stands first in a row of `table`.
pub open spec fn first_column(table: Set<Row>) -> Set<Row> {
    Set::new(
        |row: Row| exists|r: Row| #[trigger] table.contains(r) && r.len() >= 1 && row == seq![r[0]],
    )
}

/// The variable of a first-column rule occurs once in the body, at the
/// first place, and the rule has no constant.
pub proof fn lemma_first_column_places(head: Seq<char>, over: Seq<char>, x: Seq<char>, others: nat)
    ensures
        ({
            let rule = first_column_rule(head, over, x, others);
            &&& forall|y: Seq<char>, place: (int, int)|
                occurs(rule, y, place) <==> y == x && place == (0int, 0int)
            &&& forall|c: int, j: int, k: Value| !constant_at(rule, c, j, k)
            &&& forall|y: Seq<char>| head_variable(rule, y) <==> y == x
            &&& forall|c: int| is_atom_clause(rule, c) <==> c == 0
            &&& firsts(rule, x).len() > 0 && firsts(rule, x)[0] == (0int, 0int)
            &&& affirmed(rule) == rule
            &&& forall|c: int| !is_negated(rule, c)
            &&& linear(rule) || head == over
            &&& forall|semi_naive: bool| !semi_naive ==> table_name(rule, 0, semi_naive) == over
        }),
{
    let rule = first_column_rule(head, over, x, others);
    let terms = rule.body[0].terms();
    assert(terms.len() == others + 1);
    assert(terms[0].variable_name() == Some(x));
    assert forall|y: Seq<char>, place: (int, int)| occurs(rule, y, place) <==> y == x && place == (
        0int,
        0int,
    ) by {
        if occurs(rule, y, place) {
            assert(place.0 == 0);
            if place.1 != 0 {
                assert(terms[place.1].variable_name() is None);
            }
        }
    }
    assert forall|c: int, j: int, k: Value| !constant_at(rule, c, j, k) by {
        if constant_at(rule, c, j, k) {
            assert(c == 0);
            assert(terms[j] is Variable);
        }
    }
    assert forall|y: Seq<char>| head_variable(rule, y) <==> y == x by {
        assert(rule.head.terms[0].variable_name() == Some(x));
    }
    assert(occurs(rule, x, (0int, 0int)));
    lemma_occurs_in(rule, x, (0int, 0int));
    lemma_firsts(rule, x);
    lemma_places(rule, x, 0);
    let fs = firsts(rule, x);
    assert(fs.contains(first_place(rule.body, x, 0)));
    assert(occurs_in(rule.body, x, fs[0].0));
    assert(fs[0].0 == 0);
    assert(occurs(rule, x, first_place(rule.body, x, 0)));
    assert(affirmed(rule).body =~= rule.body);
    if head != over {
        assert(linear(rule)) by {
            assert forall|a: int, b: int|
                0 <= a < rule.body.len() && 0 <= b < rule.body.len() && (
                #[trigger] rule.body[a]).to_string() == rule.head.predicate && (
                #[trigger] rule.body[b]).to_string() == rule.head.predicate implies a == b by {}
        }
    }
}

/// A first-column rule yields the first column of the relation that it
/// is over.
pub proof fn law_first_column(
    head: Seq<char>,
    over: Seq<char>,
    x: Seq<char>,
    others: nat,
    store: Store,
)
    requires
        compiled(first_column_rule(head, over, x, others), false) is Ok,
    ensures
        rows(compiled(first_column_rule(head, over, x, others), false)->Ok_0, store)
            == first_column(table_of(store, over)),
{
    let rule = first_column_rule(head, over, x, others);
    let chosen = compiled(rule, false)->Ok_0;
    lemma_first_column_places(head, over, x, others);
    assert forall|row: Row| rows(chosen, store).contains(row) <==> first_column(
        table_of(store, over),
    ).contains(row) by {
        law_selection_meaning(rule, false, store, row);
        if rows(chosen, store).contains(row) {
            let binding = choose|binding: Binding| #[trigger]
                means(rule, false, store, binding, row);
            let r = binding[0];
            assert(is_atom_clause(rule, 0));
            assert(table_of(store, over).contains(r));
            assert(occurs(rule, x, (0int, 0int)));
            assert(value_at(binding, (0int, 0int)) is Some);
            assert(head_value(rule, binding, 0) == r[0]);
            assert(row =~= seq![r[0]]);
        }
        if first_column(table_of(store, over)).contains(row) {
            let r = choose|r: Row|
                #[trigger] table_of(store, over).contains(r) && r.len() >= 1 && row == seq![r[0]];
            let binding: Binding = Map::empty().insert(0int, r);
            assert(value_at(binding, (0int, 0int)) == Some(r[0]));
            assert(consistent(rule, binding));
            assert(drawn(rule, false, binding, store)) by {
                assert forall|c: int| #[trigger] is_atom_clause(rule, c) implies store.dom().contains(
                    table_name(rule, c, false),
                ) && store[table_name(rule, c, false)].contains(binding[c]) by {
                    assert(c == 0);
                }
            }
            assert(head_value(rule, binding, 0) == r[0]);
            assert(head_row(rule, binding) =~= seq![r[0]]);
            assert(unopposed(rule, false, binding, store));
            assert(means(rule, false, store, binding, row));
        }
    }
    assert(rows(chosen, store) =~= first_column(table_of(store, over)));
}

/// The first column of a first column is that column.
pub proof fn lemma_first_column_twice(table: Set<Row>)
    ensures
        first_column(first_column(table)) == first_column(table),
{
    let once = first_column(table);
    assert forall|row: Row| first_column(once).contains(row) <==> once.contains(row) by {
        if first_column(once).contains(row) {
            let r = choose|r: Row| #[trigger] once.contains(r) && r.len() >= 1 && row == seq![r[0]];
            let q = choose|q: Row| #[trigger] table.contains(q) && q.len() >= 1 && r == seq![q[0]];
            assert(row =~= seq![q[0]]);
        }
        if once.contains(row) {
            let q = choose|q: Row| #[trigger] table.contains(q) && q.len() >= 1 && row == seq![q[0]];
            assert(row =~= seq![row[0]]);
        }
    }
    assert(first_column(once) =~= once);
}

/// The relation `first` as the first column of the base relation `edge`,
/// and the relation `second` as a copy of `first`.
pub open spec fn two_levels(
    edge: Seq<char>,
    first: Seq<char>,
    second: Seq<char>,
    x: Seq<char>,
    others: nat,
) -> Relations {
    seq![
        (first, seq![first_column_rule(first, edge, x, others)]),
        (second, seq![first_column_rule(second, first, x, 0)]),
    ]
}

/// What a relation of the two holds at the end: the first column of the
/// relation that its rule is over.
pub proof fn lemma_level(
    types: Types,
    edge: Seq<char>,
    first: Seq<char>,
    second: Seq<char>,
    x: Seq<char>,
    others: nat,
    steps: Seq<u64>,
    store: Store,
    i: int,
)
    requires
        orderly(types, seq![edge], two_levels(edge, first, second, x, others)),
        steps.len() == 2,
        !store.dom().contains(first),
        !store.dom().contains(second),
        0 <= i < 2,
    ensures
        ({
            let relations = two_levels(edge, first, second, x, others);
            let end = state(types, seq![edge], relations, steps, store, 2);
            let over = if i == 0 {
                edge
            } else {
                first
            };
            table_of(end, relations[i].0) == first_column(table_of(end, over))
        }),
{
    let base = seq![edge];
    let relations = two_levels(edge, first, second, x, others);
    let end = state(types, base, relations, steps, store, 2);
    let name = relations[i].0;
    let rules = relations[i].1;
    let over = if i == 0 {
        edge
    } else {
        first
    };
    let extra: nat = if i == 0 {
        others
    } else {
        0
    };
    let rule = first_column_rule(name, over, x, extra);
    assert(rules[0] == rule);
    let previous = previous_at(base, relations, i);
    assert(plan_at(types, base, relations, i) is Ok);
    assert(previous[0] == edge);
    if i == 1 {
        assert(previous[1] == first);
    }
    assert(previous.contains(over));
    assert(name != over);
    lemma_first_column_places(name, over, x, extra);
    lemma_orderly_plan(types, base, relations, i);
    lemma_rule_rows(types, name, rules, previous, end, 0);
    law_first_column(name, over, x, extra, end);
    assert(yielded(rules, 0, end) == first_column(table_of(end, over)));
    assert forall|k: int| 0 <= k < 2 implies (#[trigger] plans_of(types, base, relations)[k]).steps.len()
        == 0 by {
        lemma_no_loop(types, edge, first, second, x, others, k);
    }
    assert(loops_ended(types, base, relations, steps, store));
    assert(grounded(base, relations)) by {
        assert forall|k: int, r: int, c: int|
            0 <= k < relations.len() && 0 <= r < relations[k].1.len() && 0 <= c
                < relations[k].1[r].body.len() implies {
            let read = (#[trigger] relations[k].1[r].body[c]).to_string();
            read == relations[k].0 || previous_at(base, relations, k).contains(read)
        } by {
            assert(previous_at(base, relations, k)[0] == edge);
            if k == 1 {
                assert(previous_at(base, relations, k)[1] == first);
            }
        }
    }
    assert(all_linear(rules));
    law_run_complete(types, base, relations, steps, store, i, 0);
    assert forall|row: Row| table_of(end, name).contains(row) implies yielded(
        rules,
        0,
        end,
    ).contains(row) by {
        law_run_sound(types, base, relations, steps, store, i, row);
        assert(!table_of(store, name).contains(row));
    }
    assert(table_of(end, name) =~= yielded(rules, 0, end));
}

/// Neither of the two relations has a recursive rule.
pub proof fn lemma_no_loop(
    types: Types,
    edge: Seq<char>,
    first: Seq<char>,
    second: Seq<char>,
    x: Seq<char>,
    others: nat,
    k: int,
)
    requires
        orderly(types, seq![edge], two_levels(edge, first, second, x, others)),
        0 <= k < 2,
    ensures
        plans_of(types, seq![edge], two_levels(edge, first, second, x, others))[k].steps.len() == 0,
{
    let base = seq![edge];
    let relations = two_levels(edge, first, second, x, others);
    let previous = previous_at(base, relations, k);
    let rules = relations[k].1;
    assert(plan_at(types, base, relations, k) is Ok);
    assert(previous[0] == edge);
    if k == 1 {
        assert(previous[1] == first);
    }
    assert(rules[0].is_base_case(previous)) by {
        assert forall|c: int| 0 <= c < rules[0].body.len() implies (
        #[trigger] rules[0].body[c] matches ClauseView::Atom(a) && previous.contains(
            a.predicate,
        )) by {}
    }
    reveal_with_fuel(crate::engine::runtime::case_insertions, 2);
}

/// Two levels: on a store that holds neither relation, the evaluation
/// leaves in both the values that stand first in a row of the base
/// relation, each once, and no other row.
pub proof fn law_two_levels(
    types: Types,
    edge: Seq<char>,
    first: Seq<char>,
    second: Seq<char>,
    x: Seq<char>,
    others: nat,
    steps: Seq<u64>,
    store: Store,
)
    requires
        orderly(types, seq![edge], two_levels(edge, first, second, x, others)),
        steps.len() == 2,
        !store.dom().contains(first),
        !store.dom().contains(second),
    ensures
        table_of(
            state(types, seq![edge], two_levels(edge, first, second, x, others), steps, store, 2),
            first,
        ) == first_column(table_of(store, edge)),
        table_of(
            state(types, seq![edge], two_levels(edge, first, second, x, others), steps, store, 2),
            second,
        ) == first_column(table_of(store, edge)),
{
    let base = seq![edge];
    let relations = two_levels(edge, first, second, x, others);
    lemma_level(types, edge, first, second, x, others, steps, store, 0);
    lemma_level(types, edge, first, second, x, others, steps, store, 1);
    assert(plan_at(types, base, relations, 0) is Ok);
    assert(plan_at(types, base, relations, 1) is Ok);
    assert(previous_at(base, relations, 1)[0] == edge);
    assert(previous_at(base, relations, 0)[0] == edge);
    assert(edge != first && edge != second);
    assert(base[0] == edge);
    lemma_state_keeps(types, base, relations, steps, store, 0, 2, edge);
    lemma_state_next(types, base, relations, steps, store, 0);
    lemma_first_column_twice(table_of(store, edge));
}

} // verus!
