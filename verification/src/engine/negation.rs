//! What a compiled selection means. It is the selection of the rule
//! without its negated atoms, and asks besides that the table of each
//! negated atom has no row that stands against the rule: a row with the
//! constants of the atom and the values of its variables. So a rule yields
//! the rows of its head under the bindings that are consistent with its
//! atoms and that no row of a negated atom opposes.

use vstd::prelude::*;
use crate::engine::analysis::{lookup, rule_types, Types, var_dict};
use crate::engine::compile::{
    absence, absence_condition, absence_conditions, affirmed, column_at, compiled,
    first_among, is_negated, selection, source, table_name, truth,
};
use crate::engine::meaning::{
    body_conforms, consistent, drawn, first_place, firsts, head_over, head_row, is_atom_clause,
    is_reordering, keeps_off_delta, lemma_consistent_fits, lemma_drawn, lemma_firsts,
    lemma_fits_consistent, lemma_moved_value, lemma_occurs_in, lemma_plain_reads_once,
    lemma_projected, lemma_reordered_compiles, lemma_reordered_consistent, lemma_reordered_drawn,
    lemma_reordered_head_row, lemma_reordered_places, lemma_reordering_back,
    lemma_rows_conform_as, lemma_rows_over_domain, lemma_selects_both, lemma_source, linear,
    constant_at, head_value, head_variable, lemma_places, moved, occurs, occurs_in,
    row_conforms, row_over, store_over, value_at,
};
use crate::engine::model::{
    absent_from, Binding, binds, cell, drawn_from, fits, holds, is_absence,
    lemma_absences_tables, lemma_working_names, met, projected, reads_once, Row, rows, Store,
    table_of, Value, yields,
};
use crate::engine::query::ConditionView;
use crate::engine::runtime::delta_table;
use crate::syntax::ast::{
    ArithView, AtomView, ClauseView, ConstantView, IOView, RuleView, TermView, VariableView,
};

verus! {

/// Whether the row `r` holds at the term position `j` what the negated
/// atom at position `c` has there: the constant; the value of the variable,
/// as its source among the atoms gives it under the binding; for a
/// variable of negated atoms only, the value at its first position in the
/// atom. The placeholder and the first position of such a variable hold
/// whatever stands there.
pub open spec fn opposes_at(rule: RuleView, c: int, binding: Binding, r: Row, j: int) -> bool {
    let terms = rule.body[c].terms();
    match terms[j] {
        TermView::Constant(k) => j < r.len() && r[j] == k,
        term => match term.variable_name() {
            None => true,
            Some(x) => match source(var_dict(affirmed(rule)), x) {
                Some(place) => j < r.len() && value_at(binding, place) == Some(r[j]),
                None => match first_among(terms, x, j) {
                    Some(first) => j < r.len() && r[first] == r[j],
                    None => true,
                },
            },
        },
    }
}

/// Whether the row `r` stands against the rule under a binding: it is a
/// row as the negated atom at position `c` describes it.
pub open spec fn opposes(rule: RuleView, c: int, binding: Binding, r: Row) -> bool {
    forall|j: int|
        0 <= j < rule.body[c].terms().len() ==> #[trigger] opposes_at(rule, c, binding, r, j)
}

/// Whether no row of the table of a negated atom stands against the rule
/// under a binding.
pub open spec fn unopposed(rule: RuleView, semi_naive: bool, binding: Binding, store: Store) -> bool {
    forall|c: int, r: Row|
        is_negated(rule, c) && #[trigger] table_of(store, table_name(rule, c, semi_naive)).contains(
            r,
        ) ==> !opposes(rule, c, binding, r)
}

/// Whether the rule yields `row` over the store under a binding: the
/// binding is consistent with the atoms of the rule, its rows are rows of
/// their tables, no row of a negated atom stands against it, and `row` is
/// the row of the head.
pub open spec fn means(
    rule: RuleView,
    semi_naive: bool,
    store: Store,
    binding: Binding,
    row: Row,
) -> bool {
    &&& consistent(affirmed(rule), binding)
    &&& drawn(affirmed(rule), semi_naive, binding, store)
    &&& unopposed(rule, semi_naive, binding, store)
    &&& row == head_row(affirmed(rule), binding)
}

/// The first position of a variable among the first `n` terms lies among
/// them and holds the variable.
pub proof fn lemma_first_among(terms: Seq<TermView>, x: Seq<char>, n: int)
    requires
        0 <= n <= terms.len(),
    ensures
        first_among(terms, x, n) matches Some(j) ==> 0 <= j < n && terms[j].variable_name() == Some(
            x,
        ),
    decreases n,
{
    if n > 0 {
        lemma_first_among(terms, x, n - 1);
    }
}

/// Whether `condition` is what the negated atom with the terms `terms`
/// asks at one of the first `n` term positions.
pub open spec fn is_absence_condition(
    terms: Seq<TermView>,
    rule: RuleView,
    c: int,
    n: int,
    condition: ConditionView,
) -> bool {
    exists|j: int|
        0 <= j < n && #[trigger] absence_condition(terms, var_dict(affirmed(rule)), c, j) == Some(
            condition,
        )
}

/// The conditions of a negated atom are those of its term positions.
pub proof fn lemma_absence_conditions(terms: Seq<TermView>, rule: RuleView, c: int, n: int)
    requires
        0 <= n <= terms.len(),
    ensures
        forall|p: int|
            0 <= p < absence_conditions(terms, var_dict(affirmed(rule)), c, n).len()
                ==> is_absence_condition(
                terms,
                rule,
                c,
                n,
                #[trigger] absence_conditions(terms, var_dict(affirmed(rule)), c, n)[p],
            ),
        forall|j: int|
            0 <= j < n && (#[trigger] absence_condition(terms, var_dict(affirmed(rule)), c, j))
                is Some ==> absence_conditions(terms, var_dict(affirmed(rule)), c, n).contains(
                absence_condition(terms, var_dict(affirmed(rule)), c, j)->0,
            ),
    decreases n,
{
    let dict = var_dict(affirmed(rule));
    if n > 0 {
        lemma_absence_conditions(terms, rule, c, n - 1);
        let before = absence_conditions(terms, dict, c, n - 1);
        let now = absence_conditions(terms, dict, c, n);
        assert forall|p: int| 0 <= p < now.len() implies is_absence_condition(
            terms,
            rule,
            c,
            n,
            #[trigger] now[p],
        ) by {
            if p < before.len() {
                assert(now[p] == before[p]);
                assert(is_absence_condition(terms, rule, c, n - 1, before[p]));
                let j = choose|j: int|
                    0 <= j < n - 1 && #[trigger] absence_condition(terms, dict, c, j) == Some(
                        before[p],
                    );
                assert(0 <= j < n && absence_condition(terms, dict, c, j) == Some(now[p]));
            } else {
                assert(absence_condition(terms, dict, c, n - 1) == Some(now[p]));
            }
        }
        assert forall|j: int|
            0 <= j < n && (#[trigger] absence_condition(terms, dict, c, j)) is Some implies now.contains(
            absence_condition(terms, dict, c, j)->0,
        ) by {
            let wanted = absence_condition(terms, dict, c, j)->0;
            if j < n - 1 {
                assert(before.contains(wanted));
                let p = choose|p: int| 0 <= p < before.len() && before[p] == wanted;
                assert(now[p] == wanted);
            } else {
                assert(now[now.len() - 1] == wanted);
            }
        }
    }
}

/// What a negated atom asks at a term position holds of a row exactly if
/// the row holds there what the atom has.
pub proof fn lemma_opposes_at(rule: RuleView, c: int, binding: Binding, r: Row, j: int)
    requires
        is_negated(rule, c),
        0 <= j < rule.body[c].terms().len(),
    ensures
        match absence_condition(rule.body[c].terms(), var_dict(affirmed(rule)), c, j) {
            Some(condition) => holds(condition, binding.insert(c, r)) <==> opposes_at(
                rule,
                c,
                binding,
                r,
                j,
            ),
            None => opposes_at(rule, c, binding, r, j),
        },
{
    let terms = rule.body[c].terms();
    let plain = affirmed(rule);
    let dict = var_dict(plain);
    let taken = binding.insert(c, r);
    assert(cell(taken, column_at((c, j))) == (if j < r.len() {
        Some(r[j])
    } else {
        None
    }));
    match terms[j] {
        TermView::Constant(k) => {},
        term => {
            if term.variable_name() is Some {
                let x = term.variable_name()->0;
                match source(dict, x) {
                    Some(place) => {
                        lemma_source(plain, x);
                        assert(occurs(plain, x, place));
                        assert(plain.body[c] == truth());
                        assert(place.0 != c);
                        assert(cell(taken, column_at(place)) == value_at(binding, place));
                    },
                    None => {
                        lemma_first_among(terms, x, j);
                        if first_among(terms, x, j) is Some {
                            let first = first_among(terms, x, j)->0;
                            assert(cell(taken, column_at((c, first))) == (if first < r.len() {
                                Some(r[first])
                            } else {
                                None
                            }));
                        }
                    },
                }
            }
        },
    }
}

/// A row meets what a negated atom asks exactly if it stands against the
/// rule.
pub proof fn lemma_opposes(rule: RuleView, semi_naive: bool, c: int, binding: Binding, r: Row)
    requires
        is_negated(rule, c),
    ensures
        met(
            absence(rule, var_dict(affirmed(rule)), semi_naive, c).on,
            binding.insert(c, r),
        ) <==> opposes(rule, c, binding, r),
{
    let terms = rule.body[c].terms();
    let dict = var_dict(affirmed(rule));
    let asked = absence(rule, dict, semi_naive, c).on;
    let taken = binding.insert(c, r);
    lemma_absence_conditions(terms, rule, c, terms.len() as int);
    if met(asked, taken) {
        assert forall|j: int| 0 <= j < terms.len() implies #[trigger] opposes_at(
            rule,
            c,
            binding,
            r,
            j,
        ) by {
            lemma_opposes_at(rule, c, binding, r, j);
            if absence_condition(terms, dict, c, j) is Some {
                let wanted = absence_condition(terms, dict, c, j)->0;
                assert(asked.contains(wanted));
                let p = choose|p: int| 0 <= p < asked.len() && asked[p] == wanted;
                assert(holds(asked[p], taken));
            }
        }
    }
    if opposes(rule, c, binding, r) {
        assert forall|p: int| 0 <= p < asked.len() implies holds(#[trigger] asked[p], taken) by {
            assert(is_absence_condition(terms, rule, c, terms.len() as int, asked[p]));
            let j = choose|j: int|
                0 <= j < terms.len() && #[trigger] absence_condition(terms, dict, c, j) == Some(
                    asked[p],
                );
            lemma_opposes_at(rule, c, binding, r, j);
            assert(opposes_at(rule, c, binding, r, j));
        }
    }
}

/// The tables that a compiled selection denies have no row that meets its
/// conditions exactly if no row of a negated atom stands against the rule.
pub proof fn lemma_absent_unopposed(
    rule: RuleView,
    semi_naive: bool,
    binding: Binding,
    store: Store,
)
    requires
        compiled(rule, semi_naive) is Ok,
    ensures
        absent_from(compiled(rule, semi_naive)->Ok_0, binding, store) <==> unopposed(
            rule,
            semi_naive,
            binding,
            store,
        ),
{
    let chosen = compiled(rule, semi_naive)->Ok_0;
    let dict = var_dict(affirmed(rule));
    let n = rule.body.len() as int;
    lemma_absences_tables(rule, dict, semi_naive, n);
    if absent_from(chosen, binding, store) {
        assert forall|c: int, r: Row|
            is_negated(rule, c) && #[trigger] table_of(
                store,
                table_name(rule, c, semi_naive),
            ).contains(r) implies !opposes(rule, c, binding, r) by {
            let asked = absence(rule, dict, semi_naive, c);
            assert(chosen.absent.contains(asked));
            let j = choose|j: int| 0 <= j < chosen.absent.len() && chosen.absent[j] == asked;
            assert(table_of(store, chosen.absent[j].table).contains(r));
            lemma_opposes(rule, semi_naive, c, binding, r);
        }
    }
    if unopposed(rule, semi_naive, binding, store) {
        assert forall|j: int, r: Row|
            0 <= j < chosen.absent.len() && #[trigger] table_of(
                store,
                chosen.absent[j].table,
            ).contains(r) implies !met(
            chosen.absent[j].on,
            binding.insert(chosen.absent[j].clause, r),
        ) by {
            assert(is_absence(rule, dict, semi_naive, n, chosen.absent[j]));
            let c = choose|c: int|
                0 <= c < n && #[trigger] is_negated(rule, c) && chosen.absent[j] == absence(
                    rule,
                    dict,
                    semi_naive,
                    c,
                );
            assert(table_of(store, table_name(rule, c, semi_naive)).contains(r));
            lemma_opposes(rule, semi_naive, c, binding, r);
        }
    }
}

/// A compiled selection yields a row under a binding exactly if the rule
/// yields it.
pub proof fn lemma_compiled_yields(
    rule: RuleView,
    semi_naive: bool,
    store: Store,
    binding: Binding,
    row: Row,
)
    requires
        compiled(rule, semi_naive) is Ok,
    ensures
        selection(affirmed(rule), semi_naive) is Ok,
        yields(compiled(rule, semi_naive)->Ok_0, store, binding, row) <==> means(
            rule,
            semi_naive,
            store,
            binding,
            row,
        ),
        yields(compiled(rule, semi_naive)->Ok_0, store, binding, row) ==> yields(
            selection(affirmed(rule), semi_naive)->Ok_0,
            store,
            binding,
            row,
        ),
{
    let plain = affirmed(rule);
    let chosen = compiled(rule, semi_naive)->Ok_0;
    let base = selection(plain, semi_naive)->Ok_0;
    assert forall|c: int| binds(chosen, c) <==> binds(base, c) by {
        if binds(chosen, c) && !(chosen.from matches Some(first) && first.1 == c) {
            let j = choose|j: int|
                0 <= j < chosen.joins.len() && (#[trigger] chosen.joins[j]).clause == c;
            assert(base.joins[j].clause == c);
        }
        if binds(base, c) && !(base.from matches Some(first) && first.1 == c) {
            let j = choose|j: int|
                0 <= j < base.joins.len() && (#[trigger] base.joins[j]).clause == c;
            assert(chosen.joins[j].clause == c);
        }
    }
    assert(chosen.joins == base.joins && chosen.filters == base.filters && chosen.projection
        == base.projection && chosen.from == base.from);
    if fits(chosen, binding) {
        assert forall|c: int| binding.dom().contains(c) <==> binds(base, c) by {
            assert(binds(chosen, c) <==> binds(base, c));
        }
        assert(fits(base, binding));
    }
    if fits(base, binding) {
        assert forall|c: int| binding.dom().contains(c) <==> binds(chosen, c) by {
            assert(binds(chosen, c) <==> binds(base, c));
        }
        assert(fits(chosen, binding));
    }
    assert(drawn_from(chosen, binding, store) == drawn_from(base, binding, store));
    assert(projected(chosen, binding) == projected(base, binding));
    assert(absent_from(base, binding, store));
    lemma_absent_unopposed(rule, semi_naive, binding, store);
    lemma_drawn(plain, semi_naive, binding, store);
    if fits(base, binding) {
        lemma_fits_consistent(plain, semi_naive, binding);
        lemma_projected(plain, semi_naive, binding);
    }
    if consistent(plain, binding) {
        lemma_consistent_fits(plain, semi_naive, binding);
        lemma_projected(plain, semi_naive, binding);
    }
}

/// What a compiled selection means: it yields over a store exactly the
/// rows of the head under the bindings that are consistent with the atoms
/// of the rule, whose rows are rows of the tables of the atoms, and which
/// no row of the table of a negated atom stands against.
pub proof fn law_selection_meaning(rule: RuleView, semi_naive: bool, store: Store, row: Row)
    requires
        compiled(rule, semi_naive) is Ok,
    ensures
        rows(compiled(rule, semi_naive)->Ok_0, store).contains(row) <==> exists|binding: Binding|
            #[trigger] means(rule, semi_naive, store, binding, row),
{
    let chosen = compiled(rule, semi_naive)->Ok_0;
    if rows(chosen, store).contains(row) {
        let binding = choose|binding: Binding| yields(chosen, store, binding, row);
        lemma_compiled_yields(rule, semi_naive, store, binding, row);
        assert(means(rule, semi_naive, store, binding, row));
    }
    if exists|binding: Binding| #[trigger] means(rule, semi_naive, store, binding, row) {
        let binding = choose|binding: Binding| #[trigger]
            means(rule, semi_naive, store, binding, row);
        lemma_compiled_yields(rule, semi_naive, store, binding, row);
        assert(yields(chosen, store, binding, row));
    }
}

/// A rule yields no row that it would not yield without its negated
/// atoms.
pub proof fn lemma_compiled_subset(rule: RuleView, semi_naive: bool, store: Store)
    requires
        compiled(rule, semi_naive) is Ok,
    ensures
        selection(affirmed(rule), semi_naive) is Ok,
        rows(compiled(rule, semi_naive)->Ok_0, store).subset_of(
            rows(selection(affirmed(rule), semi_naive)->Ok_0, store),
        ),
{
    let chosen = compiled(rule, semi_naive)->Ok_0;
    let base = selection(affirmed(rule), semi_naive)->Ok_0;
    assert forall|row: Row| rows(chosen, store).contains(row) implies rows(base, store).contains(
        row,
    ) by {
        let binding = choose|binding: Binding| yields(chosen, store, binding, row);
        lemma_compiled_yields(rule, semi_naive, store, binding, row);
    }
}

/// Whether no negated atom of the rule is over the head's relation.
pub open spec fn denies_no_head(rule: RuleView) -> bool {
    forall|c: int| #[trigger] is_negated(rule, c) ==> rule.body[c].to_string() != rule.head.predicate
}

/// A rule compiles for a semi-naive step exactly if it compiles.
pub proof fn lemma_compiles_both(rule: RuleView)
    ensures
        compiled(rule, true) is Ok <==> compiled(rule, false) is Ok,
{
    lemma_selects_both(affirmed(rule));
}

/// A semi-naive step over the whole relation is an application of the
/// rule: where the delta holds all rows of the head's relation, the
/// selection of the step yields the rows that the selection of the rule
/// yields.
pub proof fn law_step_is_rule(rule: RuleView, store: Store)
    requires
        keeps_off_delta(rule),
        denies_no_head(rule),
        compiled(rule, false) is Ok,
    ensures
        compiled(rule, true) is Ok,
        rows(
            compiled(rule, true)->Ok_0,
            store.insert(
                delta_table(rule.head.predicate),
                table_of(store, rule.head.predicate),
            ),
        ) == rows(compiled(rule, false)->Ok_0, store),
{
    lemma_compiles_both(rule);
    let p = rule.head.predicate;
    let d = delta_table(p);
    lemma_working_names(p);
    let plain = affirmed(rule);
    let stepped = store.insert(d, table_of(store, p));
    let step = compiled(rule, true)->Ok_0;
    let whole = compiled(rule, false)->Ok_0;
    assert forall|binding: Binding, row: Row|
        means(rule, true, stepped, binding, row) <==> means(rule, false, store, binding, row) by {
        assert(drawn(plain, true, binding, stepped) <==> drawn(plain, false, binding, store)) by {
            assert forall|c: int| #[trigger] is_atom_clause(plain, c) implies (
            stepped.dom().contains(table_name(plain, c, true)) && stepped[table_name(
                plain,
                c,
                true,
            )].contains(binding[c])) == (store.dom().contains(table_name(plain, c, false))
                && store[table_name(plain, c, false)].contains(binding[c])) by {
                assert(plain.body[c] == rule.body[c]);
                assert(rule.body[c].to_string() != d);
            }
        }
        assert(unopposed(rule, true, binding, stepped) <==> unopposed(
            rule,
            false,
            binding,
            store,
        )) by {
            assert forall|c: int| #[trigger] is_negated(rule, c) implies table_of(
                stepped,
                table_name(rule, c, true),
            ) == table_of(store, table_name(rule, c, false)) by {
                assert(rule.body[c] is Atom);
                assert(rule.body[c].to_string() != d);
            }
        }
    }
    assert forall|row: Row| rows(step, stepped).contains(row) <==> rows(whole, store).contains(
        row,
    ) by {
        if rows(step, stepped).contains(row) {
            let binding = choose|binding: Binding| yields(step, stepped, binding, row);
            lemma_compiled_yields(rule, true, stepped, binding, row);
            lemma_compiled_yields(rule, false, store, binding, row);
            assert(yields(whole, store, binding, row));
        }
        if rows(whole, store).contains(row) {
            let binding = choose|binding: Binding| yields(whole, store, binding, row);
            lemma_compiled_yields(rule, false, store, binding, row);
            lemma_compiled_yields(rule, true, stepped, binding, row);
            assert(yields(step, stepped, binding, row));
        }
    }
    assert(rows(step, stepped) =~= rows(whole, store));
}

/// The semi-naive step of a rule with at most one atom over the head's
/// relation reads the delta for one clause at most.
pub proof fn lemma_step_reads_once(rule: RuleView)
    requires
        keeps_off_delta(rule),
        linear(rule),
        compiled(rule, true) is Ok,
    ensures
        reads_once(compiled(rule, true)->Ok_0, delta_table(rule.head.predicate)),
{
    let plain = affirmed(rule);
    assert(keeps_off_delta(plain)) by {
        assert forall|c: int|
            0 <= c < plain.body.len() && (#[trigger] plain.body[c]) is Atom implies plain.body[c].to_string()
            != delta_table(plain.head.predicate) by {
            assert(plain.body[c] == rule.body[c]);
        }
    }
    assert(linear(plain)) by {
        assert forall|a: int, b: int|
            0 <= a < plain.body.len() && 0 <= b < plain.body.len() && (
            #[trigger] plain.body[a]) is Atom && (#[trigger] plain.body[b]) is Atom
                && plain.body[a].to_string() == plain.head.predicate && plain.body[b].to_string()
                == plain.head.predicate implies a == b by {
            assert(plain.body[a] == rule.body[a]);
            assert(plain.body[b] == rule.body[b]);
        }
    }
    lemma_plain_reads_once(plain);
}

/// The rule without its negated atoms, with the clauses of its body in
/// another order, is the reordered rule without its negated atoms.
pub proof fn lemma_affirmed_reordering(
    rule: RuleView,
    other: RuleView,
    there: Seq<int>,
    back: Seq<int>,
)
    requires
        is_reordering(rule, other, there, back),
    ensures
        is_reordering(affirmed(rule), affirmed(other), there, back),
        forall|i: int|
            0 <= i < other.body.len() ==> (is_negated(other, i) <==> #[trigger] is_negated(
                rule,
                there[i],
            )),
{
    assert forall|i: int| 0 <= i < rule.body.len() implies 0 <= (#[trigger] there[i])
        < rule.body.len() && back[there[i]] == i && affirmed(other).body[i] == affirmed(
        rule,
    ).body[there[i]] by {
        assert(other.body[i] == rule.body[there[i]]);
    }
    assert forall|i: int| 0 <= i < other.body.len() implies (is_negated(other, i)
        <==> #[trigger] is_negated(rule, there[i])) by {
        assert(other.body[i] == rule.body[there[i]]);
    }
}

/// A row that stands against a reordered rule under the moved binding
/// stands against the rule under the binding.
pub proof fn lemma_reordered_opposes(
    rule: RuleView,
    other: RuleView,
    there: Seq<int>,
    back: Seq<int>,
    binding: Binding,
    i: int,
    r: Row,
)
    requires
        is_reordering(rule, other, there, back),
        consistent(affirmed(rule), binding),
        is_negated(other, i),
        opposes(other, i, moved(binding, there), r),
    ensures
        opposes(rule, there[i], binding, r),
{
    let c = there[i];
    let mine = affirmed(rule);
    let yours = affirmed(other);
    lemma_affirmed_reordering(rule, other, there, back);
    assert(other.body[i] == rule.body[c]);
    let terms = rule.body[c].terms();
    assert forall|j: int| 0 <= j < terms.len() implies #[trigger] opposes_at(
        rule,
        c,
        binding,
        r,
        j,
    ) by {
        assert(opposes_at(other, i, moved(binding, there), r, j));
        if terms[j].variable_name() is Some {
            let x = terms[j].variable_name()->0;
            lemma_source(mine, x);
            lemma_source(yours, x);
            lemma_firsts(mine, x);
            lemma_firsts(yours, x);
            let p = source(var_dict(mine), x);
            let q = source(var_dict(yours), x);
            if q is Some {
                let place = q->Some_0;
                let there_q = (there[place.0], place.1);
                lemma_reordered_places(mine, yours, there, back, place);
                assert(occurs(mine, x, there_q));
                lemma_occurs_in(mine, x, there_q);
                assert(firsts(mine, x).contains(first_place(mine.body, x, there_q.0)));
                assert(p is Some);
                let origin = p->Some_0;
                lemma_moved_value(binding, there, place);
                if origin != there_q {
                    assert(value_at(binding, origin) == value_at(binding, there_q));
                }
            } else if p is Some {
                let origin = p->Some_0;
                let back_p = (back[origin.0], origin.1);
                assert(there[back_p.0] == origin.0);
                lemma_reordered_places(mine, yours, there, back, back_p);
                assert(occurs(yours, x, back_p));
                lemma_occurs_in(yours, x, back_p);
                assert(firsts(yours, x).contains(first_place(yours.body, x, back_p.0)));
            }
        }
    }
}

/// What a rule yields under a binding, it yields under the moved binding
/// with its body in another order.
pub proof fn lemma_reordered_means(
    rule: RuleView,
    other: RuleView,
    there: Seq<int>,
    back: Seq<int>,
    semi_naive: bool,
    store: Store,
    binding: Binding,
    row: Row,
)
    requires
        is_reordering(rule, other, there, back),
        compiled(rule, semi_naive) is Ok,
        means(rule, semi_naive, store, binding, row),
    ensures
        means(other, semi_naive, store, moved(binding, there), row),
{
    let mine = affirmed(rule);
    let yours = affirmed(other);
    let after = moved(binding, there);
    lemma_affirmed_reordering(rule, other, there, back);
    lemma_reordered_consistent(mine, yours, there, back, binding);
    lemma_reordered_drawn(mine, yours, there, back, semi_naive, binding, store);
    lemma_reordered_head_row(mine, yours, there, back, semi_naive, binding);
    assert forall|i: int, r: Row|
        is_negated(other, i) && #[trigger] table_of(
            store,
            table_name(other, i, semi_naive),
        ).contains(r) implies !opposes(other, i, after, r) by {
        assert(other.body[i] == rule.body[there[i]]);
        assert(is_negated(rule, there[i]));
        assert(table_of(store, table_name(rule, there[i], semi_naive)).contains(r));
        if opposes(other, i, after, r) {
            lemma_reordered_opposes(rule, other, there, back, binding, i, r);
        }
    }
}

/// Order independence: a rule yields the same rows over every store, in
/// whichever order the clauses of its body stand.
pub proof fn law_order_independent(
    rule: RuleView,
    other: RuleView,
    there: Seq<int>,
    back: Seq<int>,
    semi_naive: bool,
    store: Store,
)
    requires
        is_reordering(rule, other, there, back),
        compiled(rule, semi_naive) is Ok,
    ensures
        compiled(other, semi_naive) is Ok,
        rows(compiled(other, semi_naive)->Ok_0, store) == rows(
            compiled(rule, semi_naive)->Ok_0,
            store,
        ),
{
    lemma_affirmed_reordering(rule, other, there, back);
    lemma_reordered_compiles(affirmed(rule), affirmed(other), there, back, semi_naive);
    lemma_reordering_back(rule, other, there, back);
    let mine = compiled(rule, semi_naive)->Ok_0;
    let yours = compiled(other, semi_naive)->Ok_0;
    assert forall|row: Row| rows(mine, store).contains(row) <==> rows(yours, store).contains(
        row,
    ) by {
        if rows(mine, store).contains(row) {
            let binding = choose|binding: Binding| yields(mine, store, binding, row);
            lemma_compiled_yields(rule, semi_naive, store, binding, row);
            lemma_reordered_means(rule, other, there, back, semi_naive, store, binding, row);
            lemma_compiled_yields(other, semi_naive, store, moved(binding, there), row);
        }
        if rows(yours, store).contains(row) {
            let binding = choose|binding: Binding| yields(yours, store, binding, row);
            lemma_compiled_yields(other, semi_naive, store, binding, row);
            lemma_reordered_means(other, rule, back, there, semi_naive, store, binding, row);
            lemma_compiled_yields(rule, semi_naive, store, moved(binding, back), row);
        }
    }
    assert(rows(yours, store) =~= rows(mine, store));
}

/// Type soundness of a rule, also as a semi-naive step: where the rows
/// that the atoms of the body read conform to the types of their
/// relations, each row that the rule yields conforms to the types that the
/// atoms of the rule give its head.
pub proof fn law_rows_conform(
    rule: RuleView,
    semi_naive: bool,
    types: Types,
    store: Store,
    row: Row,
)
    requires
        rule_types(types, affirmed(rule)) is Ok,
        compiled(rule, semi_naive) is Ok,
        body_conforms(rule, semi_naive, types, store),
        rows(compiled(rule, semi_naive)->Ok_0, store).contains(row),
    ensures
        row_conforms(row, rule_types(types, affirmed(rule))->Ok_0),
{
    let plain = affirmed(rule);
    lemma_compiled_subset(rule, semi_naive, store);
    assert(body_conforms(plain, semi_naive, types, store)) by {
        assert forall|c: int, r: Row|
            is_atom_clause(plain, c) && store.dom().contains(table_name(plain, c, semi_naive))
                && #[trigger] store[table_name(plain, c, semi_naive)].contains(r)
                && lookup(types, plain.body[c].to_string())
                is Some implies row_conforms(
            r,
            lookup(types, plain.body[c].to_string())->0,
        ) by {
            assert(!is_negated(rule, c));
            assert(plain.body[c] == rule.body[c]);
            assert(is_atom_clause(rule, c));
            assert(store[table_name(rule, c, semi_naive)].contains(r));
        }
    }
    lemma_rows_conform_as(plain, semi_naive, types, store, row);
}

/// A rule makes no value: each row that it yields has a value for each
/// head position, and each of its values is a constant of the head or a
/// value of the store.
pub proof fn law_rows_over_domain(
    rule: RuleView,
    semi_naive: bool,
    store: Store,
    domain: Set<Value>,
    row: Row,
)
    requires
        compiled(rule, semi_naive) is Ok,
        store_over(store, domain),
        head_over(rule, domain),
        rows(compiled(rule, semi_naive)->Ok_0, store).contains(row),
    ensures
        row.len() == rule.head.terms.len(),
        row_over(row, domain),
{
    lemma_compiled_subset(rule, semi_naive, store);
    assert(head_over(affirmed(rule), domain));
    lemma_rows_over_domain(affirmed(rule), semi_naive, store, domain, row);
}

/// The rule `head(X) :- over(X), Not without(X)`.
pub open spec fn difference_rule(
    head: Seq<char>,
    over: Seq<char>,
    without: Seq<char>,
    x: Seq<char>,
) -> RuleView {
    let term = TermView::Variable(VariableView::Distinguished(x));
    RuleView {
        io: IOView::Silent,
        head: AtomView { negation: false, predicate: head, terms: seq![term] },
        body: seq![
            ClauseView::Atom(AtomView { negation: false, predicate: over, terms: seq![term] }),
            ClauseView::Atom(AtomView { negation: true, predicate: without, terms: seq![term] }),
        ],
    }
}

/// The rows of one value that stands first in a row of `table` and in no
/// row of `other`.
pub open spec fn difference(table: Set<Row>, other: Set<Row>) -> Set<Row> {
    Set::new(
        |row: Row|
            exists|r: Row| #[trigger]
                table.contains(r) && r.len() >= 1 && row == seq![r[0]] && forall|s: Row|
                    other.contains(s) && s.len() >= 1 ==> #[trigger] s[0] != r[0],
    )
}

/// In a difference rule the variable has one place among the atoms, the
/// first of the first clause, which is its source.
pub proof fn lemma_difference_places(
    head: Seq<char>,
    over: Seq<char>,
    without: Seq<char>,
    x: Seq<char>,
)
    ensures
        ({
            let rule = difference_rule(head, over, without, x);
            let plain = affirmed(rule);
            &&& forall|y: Seq<char>, place: (int, int)|
                occurs(plain, y, place) <==> y == x && place == (0int, 0int)
            &&& forall|c: int, j: int, k: Value| !constant_at(plain, c, j, k)
            &&& forall|y: Seq<char>| head_variable(plain, y) <==> y == x
            &&& forall|c: int| is_atom_clause(plain, c) <==> c == 0
            &&& forall|c: int| is_negated(rule, c) <==> c == 1
            &&& firsts(plain, x).len() > 0 && firsts(plain, x)[0] == (0int, 0int)
            &&& source(var_dict(plain), x) == Some((0int, 0int))
            &&& table_name(plain, 0, false) == over
            &&& table_name(rule, 1, false) == without
        }),
{
    let rule = difference_rule(head, over, without, x);
    let plain = affirmed(rule);
    assert(is_negated(rule, 1) && !is_negated(rule, 0));
    assert(plain.body[0] == rule.body[0]);
    assert(plain.body[1] == truth());
    let terms = plain.body[0].terms();
    assert(terms[0].variable_name() == Some(x));
    assert(truth().terms() =~= seq![TermView::Constant(ConstantView::Boolean(true))]) by {
        reveal_with_fuel(ArithView::leaves, 2);
    }
    assert forall|y: Seq<char>, place: (int, int)| occurs(plain, y, place) <==> y == x && place == (
        0int,
        0int,
    ) by {
        if occurs(plain, y, place) {
            assert(place.0 == 0);
        }
    }
    assert forall|c: int, j: int, k: Value| !constant_at(plain, c, j, k) by {
        if constant_at(plain, c, j, k) {
            assert(c == 0);
            assert(terms[j] is Variable);
        }
    }
    assert forall|y: Seq<char>| head_variable(plain, y) <==> y == x by {
        assert(plain.head.terms[0].variable_name() == Some(x));
    }
    assert(occurs(plain, x, (0int, 0int)));
    lemma_occurs_in(plain, x, (0int, 0int));
    lemma_firsts(plain, x);
    lemma_places(plain, x, 0);
    let fs = firsts(plain, x);
    assert(fs.contains(first_place(plain.body, x, 0)));
    assert(occurs_in(plain.body, x, fs[0].0));
    assert(fs[0].0 == 0);
    assert(occurs(plain, x, first_place(plain.body, x, 0)));
    lemma_source(plain, x);
    assert(occurs(plain, x, source(var_dict(plain), x)->Some_0));
}

/// A difference rule yields the difference: the values of the one
/// relation that the other lacks.
pub proof fn law_difference(
    head: Seq<char>,
    over: Seq<char>,
    without: Seq<char>,
    x: Seq<char>,
    store: Store,
)
    requires
        compiled(difference_rule(head, over, without, x), false) is Ok,
    ensures
        rows(compiled(difference_rule(head, over, without, x), false)->Ok_0, store) == difference(
            table_of(store, over),
            table_of(store, without),
        ),
{
    let rule = difference_rule(head, over, without, x);
    let plain = affirmed(rule);
    let chosen = compiled(rule, false)->Ok_0;
    let wanted = difference(table_of(store, over), table_of(store, without));
    lemma_difference_places(head, over, without, x);
    assert forall|binding: Binding, s: Row|
        opposes(rule, 1, binding, s) <==> (s.len() >= 1 && value_at(binding, (0int, 0int)) == Some(
            s[0],
        )) by {
        assert(rule.body[1].terms().len() == 1);
        if opposes(rule, 1, binding, s) {
            assert(opposes_at(rule, 1, binding, s, 0));
        }
        if s.len() >= 1 && value_at(binding, (0int, 0int)) == Some(s[0]) {
            assert(opposes_at(rule, 1, binding, s, 0));
        }
    }
    assert forall|row: Row| rows(chosen, store).contains(row) <==> wanted.contains(row) by {
        law_selection_meaning(rule, false, store, row);
        if rows(chosen, store).contains(row) {
            let binding = choose|binding: Binding| #[trigger]
                means(rule, false, store, binding, row);
            let r = binding[0];
            assert(is_atom_clause(plain, 0));
            assert(table_of(store, over).contains(r));
            assert(occurs(plain, x, (0int, 0int)));
            assert(value_at(binding, (0int, 0int)) is Some);
            assert(head_value(plain, binding, 0) == r[0]);
            assert(row =~= seq![r[0]]);
            assert forall|s: Row|
                table_of(store, without).contains(s) && s.len() >= 1 implies #[trigger] s[0]
                != r[0] by {
                assert(is_negated(rule, 1));
                assert(table_of(store, table_name(rule, 1, false)).contains(s));
                assert(!opposes(rule, 1, binding, s));
            }
            assert(wanted.contains(row));
        }
        if wanted.contains(row) {
            let r = choose|r: Row| #[trigger]
                table_of(store, over).contains(r) && r.len() >= 1 && row == seq![r[0]]
                    && forall|s: Row|
                    table_of(store, without).contains(s) && s.len() >= 1 ==> #[trigger] s[0]
                        != r[0];
            let binding: Binding = Map::empty().insert(0int, r);
            assert(value_at(binding, (0int, 0int)) == Some(r[0]));
            assert(consistent(plain, binding));
            assert(drawn(plain, false, binding, store)) by {
                assert forall|c: int| #[trigger] is_atom_clause(plain, c) implies store.dom().contains(
                    table_name(plain, c, false),
                ) && store[table_name(plain, c, false)].contains(binding[c]) by {
                    assert(c == 0);
                }
            }
            assert(unopposed(rule, false, binding, store)) by {
                assert forall|c: int, s: Row|
                    is_negated(rule, c) && #[trigger] table_of(
                        store,
                        table_name(rule, c, false),
                    ).contains(s) implies !opposes(rule, c, binding, s) by {
                    assert(c == 1);
                    if s.len() >= 1 {
                        assert(s[0] != r[0]);
                    }
                }
            }
            assert(head_value(plain, binding, 0) == r[0]);
            assert(head_row(plain, binding) =~= seq![r[0]]);
            assert(means(rule, false, store, binding, row));
        }
    }
    assert(rows(chosen, store) =~= wanted);
}

} // verus!
