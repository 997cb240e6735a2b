//! What the selection of a rule without negated atoms means. A binding
//! meets it exactly if it has a row for each atom of the body, each
//! constant of the body stands in its column, and all occurrences of a
//! variable hold one value. Hence the rows that the selection yields do not
//! depend on the order of the body.

use vstd::prelude::*;
use crate::engine::analysis::{
    atom_witnesses, body_variable_names, body_witnesses, DataType, group_at, group_ok, groups,
    head_types, kind_type, lemma_groups, lemma_positions, lookup, positions, rule_types, Types,
    var_dict,
    VarGroupView, witnessed, Witnesses,
};
use crate::engine::model::{
    Binding, binds, cell, drawn_from, fits, holds, lemma_smallest_is_one, projected,
    projects, reads_once, Row, rows, Store, Value, yields,
};
use crate::engine::runtime::delta_table;
use crate::syntax::ast::{
    AtomView, ClauseView, ConstantView, RuleView, TermView, variable_names, VariableView,
};
use crate::engine::compile::{
    anchor, atom_constants, atom_firsts, column_at, constant_filters, entry_links, first_atom,
    group_links, groups_links, joins, Link, link_conditions, links, links_at, Place,
    projection_at, projections, selection, self_links, smallest, source, table_name,
};
use crate::engine::query::{ConditionView, JoinView, ProjectionView};
use crate::text::{entry_index, first_occurrences, lemma_entry_index, lemma_first_occurrences};

verus! {

/// Whether the clause at position `c` lists the variable `x` at position
/// `j`.
pub open spec fn listed(body: Seq<ClauseView>, x: Seq<char>, c: int, j: int) -> bool {
    &&& 0 <= c < body.len()
    &&& 0 <= j < body[c].terms().len()
    &&& body[c].terms()[j].variable_name() == Some(x)
}

/// Whether the variable `x` occurs at `place` in an atom of the body.
pub open spec fn occurs(rule: RuleView, x: Seq<char>, place: Place) -> bool {
    listed(rule.body, x, place.0, place.1) && rule.body[place.0] is Atom
}

/// The positions of `x` in the clause at position `c`.
pub open spec fn places_in(body: Seq<ClauseView>, x: Seq<char>, c: int) -> Seq<int> {
    positions(body[c].terms(), x, body[c].terms().len() as int)
}

/// Whether `x` occurs in the atom at position `c`.
pub open spec fn occurs_in(body: Seq<ClauseView>, x: Seq<char>, c: int) -> bool {
    0 <= c < body.len() && body[c] is Atom && places_in(body, x, c).len() > 0
}

/// The first occurrence of `x` in the clause at position `c`.
pub open spec fn first_place(body: Seq<ClauseView>, x: Seq<char>, c: int) -> Place {
    (c, places_in(body, x, c)[0])
}

/// The first occurrences of `x` in the atoms of the body, in body order.
pub open spec fn firsts(rule: RuleView, x: Seq<char>) -> Seq<Place> {
    atom_firsts(
        groups(rule.body, x, rule.body.len() as int),
        groups(rule.body, x, rule.body.len() as int).len() as int,
    )
}

/// A variable among the first `n` terms is among their names.
pub proof fn lemma_variable_names_has(terms: Seq<TermView>, n: int, j: int, x: Seq<char>)
    requires
        0 <= j < n <= terms.len(),
        terms[j].variable_name() == Some(x),
    ensures
        variable_names(terms, n).contains(x),
    decreases n,
{
    if j < n - 1 {
        lemma_variable_names_has(terms, n - 1, j, x);
        let before = variable_names(terms, n - 1);
        let k = choose|k: int| 0 <= k < before.len() && before[k] == x;
        assert(variable_names(terms, n)[k] == x);
    } else {
        let now = variable_names(terms, n);
        assert(now[now.len() - 1] == x);
    }
}

/// A variable that a clause lists is among the names of the body.
pub proof fn lemma_body_names_has(body: Seq<ClauseView>, n: int, c: int, j: int, x: Seq<char>)
    requires
        0 <= c < n <= body.len(),
        listed(body, x, c, j),
    ensures
        body_variable_names(body, n).contains(x),
    decreases n,
{
    let now = body_variable_names(body, n);
    let before = body_variable_names(body, n - 1);
    if c < n - 1 {
        lemma_body_names_has(body, n - 1, c, j, x);
        let k = choose|k: int| 0 <= k < before.len() && before[k] == x;
        assert(now[k] == x);
    } else {
        let own = variable_names(body[c].terms(), body[c].terms().len() as int);
        lemma_variable_names_has(body[c].terms(), body[c].terms().len() as int, j, x);
        let k = choose|k: int| 0 <= k < own.len() && own[k] == x;
        assert(now[before.len() + k] == x);
    }
}

/// The first occurrences among the first `m` groups are those of the
/// groups in atoms, in the order of the groups.
pub proof fn lemma_atom_firsts_of(groups: Seq<VarGroupView>, m: int)
    requires
        0 <= m <= groups.len(),
    ensures
        forall|i: int|
            0 <= i < atom_firsts(groups, m).len() ==> exists|k: int|
                0 <= k < m && !groups[k].is_arith && #[trigger] atom_firsts(groups, m)[i] == (
                    groups[k].clause_index,
                    groups[k].term_indexes[0],
                ),
        forall|k: int|
            0 <= k < m && !(#[trigger] groups[k]).is_arith ==> atom_firsts(groups, m).contains(
                (groups[k].clause_index, groups[k].term_indexes[0]),
            ),
        (forall|a: int, b: int|
            0 <= a < b < groups.len() ==> groups[a].clause_index < groups[b].clause_index)
            ==> (forall|i: int|
            0 <= i < atom_firsts(groups, m).len() ==> (#[trigger] atom_firsts(groups, m)[i]).0 < (
            if m < groups.len() {
                groups[m].clause_index
            } else {
                groups[m - 1].clause_index + 1
            })) && (forall|a: int, b: int|
            0 <= a < b < atom_firsts(groups, m).len() ==> atom_firsts(groups, m)[a].0
                < atom_firsts(groups, m)[b].0),
    decreases m,
{
    if m > 0 {
        lemma_atom_firsts_of(groups, m - 1);
        let before = atom_firsts(groups, m - 1);
        let now = atom_firsts(groups, m);
        let last = (groups[m - 1].clause_index, groups[m - 1].term_indexes[0]);
        assert forall|i: int| 0 <= i < now.len() implies exists|k: int|
            0 <= k < m && !groups[k].is_arith && #[trigger] now[i] == (
                groups[k].clause_index,
                groups[k].term_indexes[0],
            ) by {
            if i < before.len() {
                assert(now[i] == before[i]);
                let k = choose|k: int|
                    0 <= k < m - 1 && !groups[k].is_arith && before[i] == (
                        groups[k].clause_index,
                        groups[k].term_indexes[0],
                    );
                assert(0 <= k < m && !groups[k].is_arith && now[i] == (
                    groups[k].clause_index,
                    groups[k].term_indexes[0],
                ));
            } else {
                assert(0 <= m - 1 < m && !groups[m - 1].is_arith && now[i] == last);
            }
        }
        assert forall|k: int| 0 <= k < m && !(#[trigger] groups[k]).is_arith implies now.contains(
            (groups[k].clause_index, groups[k].term_indexes[0]),
        ) by {
            if k < m - 1 {
                let place = (groups[k].clause_index, groups[k].term_indexes[0]);
                assert(before.contains(place));
                let i = choose|i: int| 0 <= i < before.len() && before[i] == place;
                assert(now[i] == place);
            } else {
                assert(now[now.len() - 1] == last);
            }
        }
        if forall|a: int, b: int|
            0 <= a < b < groups.len() ==> groups[a].clause_index < groups[b].clause_index {
            assert forall|i: int| 0 <= i < now.len() implies (#[trigger] now[i]).0 < (if m
                < groups.len() {
                groups[m].clause_index
            } else {
                groups[m - 1].clause_index + 1
            }) by {
                if i < before.len() {
                    assert(now[i] == before[i]);
                    assert(before[i].0 < groups[m - 1].clause_index);
                }
            }
            assert forall|a: int, b: int| 0 <= a < b < now.len() implies now[a].0 < now[b].0 by {
                if b < before.len() {
                    assert(now[a] == before[a] && now[b] == before[b]);
                } else {
                    assert(now[a] == before[a]);
                    assert(before[a].0 < groups[m - 1].clause_index);
                }
            }
        }
    }
}

/// The first occurrences of a variable in the atoms of the body: each is
/// the first in its atom, they stand in body order, and no atom that
/// holds the variable is left out.
pub proof fn lemma_firsts(rule: RuleView, x: Seq<char>)
    ensures
        forall|i: int|
            0 <= i < firsts(rule, x).len() ==> occurs_in(
                rule.body,
                x,
                (#[trigger] firsts(rule, x)[i]).0,
            ) && firsts(rule, x)[i] == first_place(rule.body, x, firsts(rule, x)[i].0),
        forall|a: int, b: int|
            0 <= a < b < firsts(rule, x).len() ==> firsts(rule, x)[a].0 < firsts(rule, x)[b].0,
        forall|c: int|
            occurs_in(rule.body, x, c) ==> firsts(rule, x).contains(
                #[trigger] first_place(rule.body, x, c),
            ),
{
    let body = rule.body;
    let n = body.len() as int;
    let gs = groups(body, x, n);
    lemma_groups(body, x, n);
    lemma_atom_firsts_of(gs, gs.len() as int);
    let fs = firsts(rule, x);
    assert forall|i: int| 0 <= i < fs.len() implies occurs_in(body, x, (#[trigger] fs[i]).0)
        && fs[i] == first_place(body, x, fs[i].0) by {
        let k = choose|k: int|
            0 <= k < gs.len() && !gs[k].is_arith && fs[i] == (
                gs[k].clause_index,
                gs[k].term_indexes[0],
            );
        assert(group_ok(body, x, gs[k]));
    }
    assert forall|c: int| occurs_in(body, x, c) implies fs.contains(
        #[trigger] first_place(body, x, c),
    ) by {
        let g = group_at(body, x, c);
        assert(gs.contains(g));
        let k = choose|k: int| 0 <= k < gs.len() && gs[k] == g;
        assert(!gs[k].is_arith);
    }
}


/// Whether `link` leads from the first atom that holds `x` to another atom
/// that holds it, between the first occurrences there.
pub open spec fn is_link(rule: RuleView, x: Seq<char>, link: Link) -> bool {
    exists|i: int|
        1 <= i < firsts(rule, x).len() && link == (firsts(rule, x)[0], #[trigger] firsts(rule, x)[i])
}

/// Whether `link` leads, within one atom that holds `x` more than once,
/// from the first occurrence to another.
pub open spec fn is_self_link(rule: RuleView, x: Seq<char>, link: Link) -> bool {
    exists|c: int, i: int|
        occurs_in(rule.body, x, c) && 1 <= i < places_in(rule.body, x, c).len() && link == (
            first_place(rule.body, x, c),
            (c, #[trigger] places_in(rule.body, x, c)[i]),
        )
}

/// The groups of the entry at position `k` of the index of a rule.
pub proof fn lemma_entry_groups(rule: RuleView, k: int)
    requires
        0 <= k < var_dict(rule).body.len(),
    ensures
        var_dict(rule).body[k].1 == groups(
            rule.body,
            var_dict(rule).body[k].0,
            rule.body.len() as int,
        ),
        atom_firsts(var_dict(rule).body[k].1, var_dict(rule).body[k].1.len() as int) == firsts(
            rule,
            var_dict(rule).body[k].0,
        ),
{
}

/// The links of the index are the links of its variables.
pub proof fn lemma_links_members(rule: RuleView, n: int)
    requires
        0 <= n <= var_dict(rule).body.len(),
    ensures
        forall|p: int|
            0 <= p < links(var_dict(rule), n).len() ==> exists|k: int|
                0 <= k < n && is_link(
                    rule,
                    var_dict(rule).body[k].0,
                    #[trigger] links(var_dict(rule), n)[p],
                ),
        forall|k: int, l: Link|
            0 <= k < n && #[trigger] is_link(rule, var_dict(rule).body[k].0, l) ==> links(
                var_dict(rule),
                n,
            ).contains(l),
    decreases n,
{
    let dict = var_dict(rule);
    if n > 0 {
        lemma_links_members(rule, n - 1);
        lemma_entry_groups(rule, n - 1);
        let x = dict.body[n - 1].0;
        let fs = firsts(rule, x);
        let before = links(dict, n - 1);
        let own = entry_links(fs);
        let now = links(dict, n);
        assert(now == before + own);
        assert forall|p: int| 0 <= p < now.len() implies exists|k: int|
            0 <= k < n && is_link(rule, dict.body[k].0, #[trigger] now[p]) by {
            if p < before.len() {
                assert(now[p] == before[p]);
                let k = choose|k: int| 0 <= k < n - 1 && is_link(rule, dict.body[k].0, before[p]);
                assert(0 <= k < n && is_link(rule, dict.body[k].0, now[p]));
            } else {
                let i = p - before.len();
                assert(now[p] == own[i]);
                assert(own[i] == (fs[0], fs[i + 1]));
                assert(is_link(rule, x, now[p]));
            }
        }
        assert forall|k: int, l: Link|
            0 <= k < n && #[trigger] is_link(rule, dict.body[k].0, l) implies now.contains(l) by {
            if k < n - 1 {
                assert(before.contains(l));
                let p = choose|p: int| 0 <= p < before.len() && before[p] == l;
                assert(now[p] == l);
            } else {
                let i = choose|i: int| 1 <= i < fs.len() && l == (fs[0], #[trigger] fs[i]);
                assert(own[i - 1] == l);
                assert(now[before.len() + i - 1] == l);
            }
        }
    }
}

/// Whether `link` leads, within an atom among the first `m` groups, from
/// the first position to another.
pub open spec fn is_group_link(groups: Seq<VarGroupView>, m: int, link: Link) -> bool {
    exists|k: int, i: int|
        0 <= k < m && !groups[k].is_arith && 1 <= i < groups[k].term_indexes.len() && link == (
            (groups[k].clause_index, groups[k].term_indexes[0]),
            (groups[k].clause_index, #[trigger] groups[k].term_indexes[i]),
        )
}

/// The links within the atoms among the first `m` groups.
pub proof fn lemma_groups_links(groups: Seq<VarGroupView>, m: int)
    requires
        0 <= m <= groups.len(),
    ensures
        forall|p: int|
            0 <= p < groups_links(groups, m).len() ==> is_group_link(
                groups,
                m,
                #[trigger] groups_links(groups, m)[p],
            ),
        forall|l: Link| #[trigger]
            is_group_link(groups, m, l) ==> groups_links(groups, m).contains(l),
    decreases m,
{
    if m > 0 {
        lemma_groups_links(groups, m - 1);
        let before = groups_links(groups, m - 1);
        let now = groups_links(groups, m);
        let g = groups[m - 1];
        let own = group_links(g);
        assert forall|p: int| 0 <= p < now.len() implies is_group_link(
            groups,
            m,
            #[trigger] now[p],
        ) by {
            if p < before.len() {
                assert(now[p] == before[p]);
                assert(is_group_link(groups, m - 1, before[p]));
                let (k, i) = choose|k: int, i: int|
                    0 <= k < m - 1 && !groups[k].is_arith && 1 <= i < groups[k].term_indexes.len()
                        && before[p] == (
                        (groups[k].clause_index, groups[k].term_indexes[0]),
                        (groups[k].clause_index, #[trigger] groups[k].term_indexes[i]),
                    );
                assert(0 <= k < m && !groups[k].is_arith && 1 <= i < groups[k].term_indexes.len()
                    && now[p] == (
                    (groups[k].clause_index, groups[k].term_indexes[0]),
                    (groups[k].clause_index, groups[k].term_indexes[i]),
                ));
            } else {
                let i = p - before.len();
                assert(now[p] == own[i]);
                assert(0 <= m - 1 < m && !g.is_arith && 1 <= i + 1 < g.term_indexes.len()
                    && now[p] == (
                    (g.clause_index, g.term_indexes[0]),
                    (g.clause_index, g.term_indexes[i + 1]),
                ));
            }
        }
        assert forall|l: Link| #[trigger] is_group_link(groups, m, l) implies now.contains(l) by {
            let (k, i) = choose|k: int, i: int|
                0 <= k < m && !groups[k].is_arith && 1 <= i < groups[k].term_indexes.len() && l
                    == (
                    (groups[k].clause_index, groups[k].term_indexes[0]),
                    (groups[k].clause_index, #[trigger] groups[k].term_indexes[i]),
                );
            if k < m - 1 {
                assert(is_group_link(groups, m - 1, l));
                assert(before.contains(l));
                let p = choose|p: int| 0 <= p < before.len() && before[p] == l;
                assert(now[p] == l);
            } else {
                assert(own[i - 1] == l);
                assert(now[before.len() + i - 1] == l);
            }
        }
    }
}

/// The links within the atoms that hold one variable.
pub proof fn lemma_variable_self_links(rule: RuleView, x: Seq<char>)
    ensures
        forall|p: int|
            0 <= p < groups_links(
                groups(rule.body, x, rule.body.len() as int),
                groups(rule.body, x, rule.body.len() as int).len() as int,
            ).len() ==> is_self_link(
                rule,
                x,
                #[trigger] groups_links(
                    groups(rule.body, x, rule.body.len() as int),
                    groups(rule.body, x, rule.body.len() as int).len() as int,
                )[p],
            ),
        forall|l: Link| #[trigger]
            is_self_link(rule, x, l) ==> groups_links(
                groups(rule.body, x, rule.body.len() as int),
                groups(rule.body, x, rule.body.len() as int).len() as int,
            ).contains(l),
{
    let body = rule.body;
    let gs = groups(body, x, body.len() as int);
    let all = groups_links(gs, gs.len() as int);
    lemma_groups(body, x, body.len() as int);
    lemma_groups_links(gs, gs.len() as int);
    assert forall|p: int| 0 <= p < all.len() implies is_self_link(rule, x, #[trigger] all[p]) by {
        assert(is_group_link(gs, gs.len() as int, all[p]));
        let (k, i) = choose|k: int, i: int|
            0 <= k < gs.len() && !gs[k].is_arith && 1 <= i < gs[k].term_indexes.len() && all[p]
                == (
                (gs[k].clause_index, gs[k].term_indexes[0]),
                (gs[k].clause_index, #[trigger] gs[k].term_indexes[i]),
            );
        assert(group_ok(body, x, gs[k]));
        let c = gs[k].clause_index;
        assert(occurs_in(body, x, c) && 1 <= i < places_in(body, x, c).len() && all[p] == (
            first_place(body, x, c),
            (c, places_in(body, x, c)[i]),
        ));
    }
    assert forall|l: Link| #[trigger] is_self_link(rule, x, l) implies all.contains(l) by {
        let (c, i) = choose|c: int, i: int|
            occurs_in(body, x, c) && 1 <= i < places_in(body, x, c).len() && l == (
                first_place(body, x, c),
                (c, #[trigger] places_in(body, x, c)[i]),
            );
        let g = group_at(body, x, c);
        assert(gs.contains(g));
        let k = choose|k: int| 0 <= k < gs.len() && gs[k] == g;
        assert(!gs[k].is_arith && 1 <= i < gs[k].term_indexes.len());
        assert(l == (
            (gs[k].clause_index, gs[k].term_indexes[0]),
            (gs[k].clause_index, gs[k].term_indexes[i]),
        ));
        assert(is_group_link(gs, gs.len() as int, l));
    }
}

/// The links within single atoms of the index are those of its
/// variables.
pub proof fn lemma_self_links_members(rule: RuleView, n: int)
    requires
        0 <= n <= var_dict(rule).body.len(),
    ensures
        forall|p: int|
            0 <= p < self_links(var_dict(rule), n).len() ==> exists|k: int|
                0 <= k < n && is_self_link(
                    rule,
                    var_dict(rule).body[k].0,
                    #[trigger] self_links(var_dict(rule), n)[p],
                ),
        forall|k: int, l: Link|
            0 <= k < n && #[trigger] is_self_link(rule, var_dict(rule).body[k].0, l)
                ==> self_links(var_dict(rule), n).contains(l),
    decreases n,
{
    let dict = var_dict(rule);
    if n > 0 {
        lemma_self_links_members(rule, n - 1);
        lemma_entry_groups(rule, n - 1);
        let x = dict.body[n - 1].0;
        lemma_variable_self_links(rule, x);
        let before = self_links(dict, n - 1);
        let own = groups_links(dict.body[n - 1].1, dict.body[n - 1].1.len() as int);
        let now = self_links(dict, n);
        assert(now == before + own);
        assert forall|p: int| 0 <= p < now.len() implies exists|k: int|
            0 <= k < n && is_self_link(rule, dict.body[k].0, #[trigger] now[p]) by {
            if p < before.len() {
                assert(now[p] == before[p]);
                let k = choose|k: int|
                    0 <= k < n - 1 && is_self_link(rule, dict.body[k].0, before[p]);
                assert(0 <= k < n && is_self_link(rule, dict.body[k].0, now[p]));
            } else {
                assert(now[p] == own[p - before.len()]);
                assert(is_self_link(rule, x, now[p]));
            }
        }
        assert forall|k: int, l: Link|
            0 <= k < n && #[trigger] is_self_link(rule, dict.body[k].0, l) implies now.contains(
            l,
        ) by {
            if k < n - 1 {
                assert(before.contains(l));
                let p = choose|p: int| 0 <= p < before.len() && before[p] == l;
                assert(now[p] == l);
            } else {
                assert(own.contains(l));
                let p = choose|p: int| 0 <= p < own.len() && own[p] == l;
                assert(now[before.len() + p] == l);
            }
        }
    }
}


/// Whether a link has an end in the clause at position `c`.
pub open spec fn touches(link: Link, c: int) -> bool {
    link.0.0 == c || link.1.0 == c
}

/// The links with an end in a clause are the links that touch it.
pub proof fn lemma_links_at(all: Seq<Link>, c: int, n: int)
    requires
        0 <= n <= all.len(),
    ensures
        forall|p: int|
            0 <= p < links_at(all, c, n).len() ==> touches(#[trigger] links_at(all, c, n)[p], c)
                && all.contains(links_at(all, c, n)[p]),
        forall|p: int|
            0 <= p < n && touches(#[trigger] all[p], c) ==> links_at(all, c, n).contains(all[p]),
    decreases n,
{
    if n > 0 {
        lemma_links_at(all, c, n - 1);
        let before = links_at(all, c, n - 1);
        let now = links_at(all, c, n);
        assert forall|p: int| 0 <= p < now.len() implies touches(#[trigger] now[p], c)
            && all.contains(now[p]) by {
            if p < before.len() {
                assert(now[p] == before[p]);
            } else {
                assert(now[p] == all[n - 1]);
            }
        }
        assert forall|p: int| 0 <= p < n && touches(#[trigger] all[p], c) implies now.contains(
            all[p],
        ) by {
            if p < n - 1 {
                assert(before.contains(all[p]));
                let k = choose|k: int| 0 <= k < before.len() && before[k] == all[p];
                assert(now[k] == all[p]);
            } else {
                assert(now[now.len() - 1] == all[p]);
            }
        }
    }
}

/// The join of the clause at position `c`: its table, on the links that
/// touch it.
pub open spec fn join_of(rule: RuleView, semi_naive: bool, c: int) -> JoinView {
    let all = links(var_dict(rule), var_dict(rule).body.len() as int);
    JoinView {
        table: table_name(rule, c, semi_naive),
        clause: c,
        on: link_conditions(links_at(all, c, all.len() as int)),
    }
}

/// Whether the clause at position `c` is joined: it is an atom and not
/// the anchor.
pub open spec fn joined(rule: RuleView, c: int) -> bool {
    anchor(rule, var_dict(rule)) != Some(c) && 0 <= c < rule.body.len() && rule.body[c] is Atom
}

/// Whether `join` is the join of one of the first `n` clauses.
pub open spec fn is_join(rule: RuleView, semi_naive: bool, n: int, join: JoinView) -> bool {
    exists|c: int| 0 <= c < n && #[trigger] joined(rule, c) && join == join_of(rule, semi_naive, c)
}

/// The joins of the first `n` clauses are those of the clauses that are
/// joined.
pub proof fn lemma_joins_members(rule: RuleView, semi_naive: bool, n: int)
    requires
        0 <= n <= rule.body.len(),
    ensures
        forall|j: int|
            0 <= j < joins(rule, var_dict(rule), semi_naive, n).len() ==> is_join(
                rule,
                semi_naive,
                n,
                #[trigger] joins(rule, var_dict(rule), semi_naive, n)[j],
            ),
        forall|c: int|
            0 <= c < n && #[trigger] joined(rule, c) ==> joins(
                rule,
                var_dict(rule),
                semi_naive,
                n,
            ).contains(join_of(rule, semi_naive, c)),
    decreases n,
{
    let dict = var_dict(rule);
    if n > 0 {
        lemma_joins_members(rule, semi_naive, n - 1);
        let before = joins(rule, dict, semi_naive, n - 1);
        let now = joins(rule, dict, semi_naive, n);
        assert forall|j: int| 0 <= j < now.len() implies is_join(
            rule,
            semi_naive,
            n,
            #[trigger] now[j],
        ) by {
            if j < before.len() {
                assert(now[j] == before[j]);
                assert(is_join(rule, semi_naive, n - 1, before[j]));
                let c = choose|c: int|
                    0 <= c < n - 1 && #[trigger] joined(rule, c) && before[j] == join_of(
                        rule,
                        semi_naive,
                        c,
                    );
                assert(0 <= c < n && joined(rule, c) && now[j] == join_of(rule, semi_naive, c));
            } else {
                assert(joined(rule, n - 1) && now[j] == join_of(rule, semi_naive, n - 1));
            }
        }
        assert forall|c: int| 0 <= c < n && #[trigger] joined(rule, c) implies now.contains(
            join_of(rule, semi_naive, c),
        ) by {
            if c < n - 1 {
                assert(before.contains(join_of(rule, semi_naive, c)));
                let j = choose|j: int|
                    0 <= j < before.len() && before[j] == join_of(rule, semi_naive, c);
                assert(now[j] == join_of(rule, semi_naive, c));
            } else {
                assert(now[now.len() - 1] == join_of(rule, semi_naive, c));
            }
        }
    }
}

/// The joins stand in the order of their clauses, each for a clause of
/// its own.
pub proof fn lemma_joins_apart(rule: RuleView, semi_naive: bool, n: int)
    requires
        0 <= n,
    ensures
        forall|j: int|
            0 <= j < joins(rule, var_dict(rule), semi_naive, n).len() ==> 0 <= (#[trigger] joins(
                rule,
                var_dict(rule),
                semi_naive,
                n,
            )[j]).clause < n,
        forall|i: int, j: int|
            0 <= i < j < joins(rule, var_dict(rule), semi_naive, n).len() ==> (#[trigger] joins(
                rule,
                var_dict(rule),
                semi_naive,
                n,
            )[i]).clause < (#[trigger] joins(rule, var_dict(rule), semi_naive, n)[j]).clause,
    decreases n,
{
    let dict = var_dict(rule);
    if n > 0 {
        lemma_joins_apart(rule, semi_naive, n - 1);
        let before = joins(rule, dict, semi_naive, n - 1);
        let now = joins(rule, dict, semi_naive, n);
        assert forall|j: int| 0 <= j < now.len() implies 0 <= (#[trigger] now[j]).clause < n by {
            if j < before.len() {
                assert(now[j] == before[j]);
            }
        }
        assert forall|i: int, j: int| 0 <= i < j < now.len() implies (#[trigger] now[i]).clause < (
        #[trigger] now[j]).clause by {
            assert(now[i] == before[i]);
            if j < before.len() {
                assert(now[j] == before[j]);
            }
        }
    }
}

/// Whether the atom at position `c` holds the constant `k` at position
/// `j`.
pub open spec fn constant_at(rule: RuleView, c: int, j: int, k: Value) -> bool {
    &&& 0 <= c < rule.body.len()
    &&& rule.body[c] is Atom
    &&& 0 <= j < rule.body[c].terms().len()
    &&& rule.body[c].terms()[j] == TermView::Constant(k)
}

/// Whether `condition` puts a constant of a body atom in its column.
pub open spec fn is_constant_filter(rule: RuleView, condition: ConditionView) -> bool {
    exists|c: int, j: int, k: Value| #[trigger]
        constant_at(rule, c, j, k) && condition == ConditionView::Constant(
            column_at((c, j)),
            k,
        )
}

/// The conditions for the constants among the first `n` terms of an atom.
pub proof fn lemma_atom_constants(rule: RuleView, c: int, n: int)
    requires
        0 <= c < rule.body.len(),
        rule.body[c] is Atom,
        0 <= n <= rule.body[c].terms().len(),
    ensures
        forall|p: int|
            0 <= p < atom_constants(rule, c, n).len() ==> is_constant_filter(
                rule,
                #[trigger] atom_constants(rule, c, n)[p],
            ),
        forall|j: int, k: Value|
            0 <= j < n && #[trigger] constant_at(rule, c, j, k) ==> atom_constants(
                rule,
                c,
                n,
            ).contains(ConditionView::Constant(column_at((c, j)), k)),
    decreases n,
{
    if n > 0 {
        lemma_atom_constants(rule, c, n - 1);
        let before = atom_constants(rule, c, n - 1);
        let now = atom_constants(rule, c, n);
        assert forall|p: int| 0 <= p < now.len() implies is_constant_filter(rule, #[trigger] now[p]) by {
            if p < before.len() {
                assert(now[p] == before[p]);
            } else {
                let k = rule.body[c].terms()[n - 1]->Constant_0;
                assert(constant_at(rule, c, n - 1, k));
            }
        }
        assert forall|j: int, k: Value|
            0 <= j < n && #[trigger] constant_at(rule, c, j, k) implies now.contains(
            ConditionView::Constant(column_at((c, j)), k),
        ) by {
            let wanted = ConditionView::Constant(column_at((c, j)), k);
            if j < n - 1 {
                assert(before.contains(wanted));
                let p = choose|p: int| 0 <= p < before.len() && before[p] == wanted;
                assert(now[p] == wanted);
            } else {
                assert(now[now.len() - 1] == wanted);
            }
        }
    }
}

/// The conditions for the constants of the atoms among the first `n`
/// clauses.
pub proof fn lemma_constant_filters(rule: RuleView, n: int)
    requires
        0 <= n <= rule.body.len(),
    ensures
        forall|p: int|
            0 <= p < constant_filters(rule, n).len() ==> is_constant_filter(
                rule,
                #[trigger] constant_filters(rule, n)[p],
            ),
        forall|c: int, j: int, k: Value|
            0 <= c < n && #[trigger] constant_at(rule, c, j, k) ==> constant_filters(
                rule,
                n,
            ).contains(ConditionView::Constant(column_at((c, j)), k)),
    decreases n,
{
    if n > 0 {
        lemma_constant_filters(rule, n - 1);
        let before = constant_filters(rule, n - 1);
        let now = constant_filters(rule, n);
        if rule.body[n - 1] is Atom {
            let m = rule.body[n - 1].terms().len() as int;
            lemma_atom_constants(rule, n - 1, m);
            let own = atom_constants(rule, n - 1, m);
            assert(now == before + own);
            assert forall|p: int| 0 <= p < now.len() implies is_constant_filter(rule, #[trigger] now[p]) by {
                if p < before.len() {
                    assert(now[p] == before[p]);
                } else {
                    assert(now[p] == own[p - before.len()]);
                }
            }
            assert forall|c: int, j: int, k: Value|
                0 <= c < n && #[trigger] constant_at(rule, c, j, k) implies now.contains(
                ConditionView::Constant(column_at((c, j)), k),
            ) by {
                let wanted = ConditionView::Constant(column_at((c, j)), k);
                if c < n - 1 {
                    assert(before.contains(wanted));
                    let p = choose|p: int| 0 <= p < before.len() && before[p] == wanted;
                    assert(now[p] == wanted);
                } else {
                    assert(own.contains(wanted));
                    let p = choose|p: int| 0 <= p < own.len() && own[p] == wanted;
                    assert(now[before.len() + p] == wanted);
                }
            }
        } else {
            assert forall|c: int, j: int, k: Value|
                0 <= c < n && #[trigger] constant_at(rule, c, j, k) implies now.contains(
                ConditionView::Constant(column_at((c, j)), k),
            ) by {
                assert(c < n - 1);
            }
        }
    }
}

/// Where every head position projects, the projections are those of the
/// positions.
pub proof fn lemma_projections(rule: RuleView, semi_naive: bool, n: int)
    requires
        0 <= n,
        projections(rule, var_dict(rule), semi_naive, n) is Ok,
    ensures
        projections(rule, var_dict(rule), semi_naive, n)->Ok_0.len() == n,
        forall|i: int|
            0 <= i < n ==> projection_at(rule, var_dict(rule), semi_naive, i) == Ok::<
                ProjectionView,
                crate::error::FailureView,
            >(#[trigger] projections(rule, var_dict(rule), semi_naive, n)->Ok_0[i]),
    decreases n,
{
    if n > 0 {
        lemma_projections(rule, semi_naive, n - 1);
    }
}


/// The entry of a variable that the body lists.
pub proof fn lemma_entry_for(rule: RuleView, x: Seq<char>, c: int, j: int) -> (k: int)
    requires
        listed(rule.body, x, c, j),
    ensures
        0 <= k < var_dict(rule).body.len(),
        var_dict(rule).body[k].0 == x,
{
    let all = body_variable_names(rule.body, rule.body.len() as int);
    let names = first_occurrences(all);
    lemma_body_names_has(rule.body, rule.body.len() as int, c, j, x);
    lemma_first_occurrences(all);
    assert(names.contains(x));
    let k = choose|k: int| 0 <= k < names.len() && names[k] == x;
    assert(var_dict(rule).body[k].0 == x);
    k
}

/// A first occurrence is an occurrence; the positions of a variable in an
/// atom are occurrences, and differ from one another.
pub proof fn lemma_places(rule: RuleView, x: Seq<char>, c: int)
    requires
        occurs_in(rule.body, x, c),
    ensures
        occurs(rule, x, first_place(rule.body, x, c)),
        forall|i: int|
            0 <= i < places_in(rule.body, x, c).len() ==> occurs(
                rule,
                x,
                (c, #[trigger] places_in(rule.body, x, c)[i]),
            ),
        forall|i: int|
            1 <= i < places_in(rule.body, x, c).len() ==> (#[trigger] places_in(rule.body, x, c)[i])
                != places_in(rule.body, x, c)[0],
        forall|j: int|
            occurs(rule, x, (c, j)) ==> #[trigger] places_in(rule.body, x, c).contains(j),
{
    let terms = rule.body[c].terms();
    lemma_positions(terms, x, terms.len() as int);
    let places = places_in(rule.body, x, c);
    assert(0 <= places[0] < terms.len());
    assert forall|j: int| occurs(rule, x, (c, j)) implies #[trigger] places.contains(j) by {
        assert(terms[j].variable_name() == Some(x));
    }
}

/// An atom that holds a variable is among the atoms that hold it.
pub proof fn lemma_occurs_in(rule: RuleView, x: Seq<char>, place: Place)
    requires
        occurs(rule, x, place),
    ensures
        occurs_in(rule.body, x, place.0),
{
    let terms = rule.body[place.0].terms();
    lemma_positions(terms, x, terms.len() as int);
    assert(terms[place.1].variable_name() == Some(x));
    let places = places_in(rule.body, x, place.0);
    assert(places.contains(place.1));
}

/// The two ends of a link are occurrences of its variable in two atoms.
pub proof fn lemma_link_ends(rule: RuleView, x: Seq<char>, link: Link)
    requires
        is_link(rule, x, link),
    ensures
        occurs(rule, x, link.0),
        occurs(rule, x, link.1),
        link.0.0 != link.1.0,
{
    let fs = firsts(rule, x);
    let i = choose|i: int| 1 <= i < fs.len() && link == (fs[0], #[trigger] fs[i]);
    lemma_firsts(rule, x);
    assert(occurs_in(rule.body, x, fs[0].0));
    assert(occurs_in(rule.body, x, fs[i].0));
    lemma_places(rule, x, fs[0].0);
    lemma_places(rule, x, fs[i].0);
}

/// The two ends of a link within an atom are two occurrences of its
/// variable.
pub proof fn lemma_self_link_ends(rule: RuleView, x: Seq<char>, link: Link)
    requires
        is_self_link(rule, x, link),
    ensures
        occurs(rule, x, link.0),
        occurs(rule, x, link.1),
        link.0 != link.1,
{
    let (c, i) = choose|c: int, i: int|
        occurs_in(rule.body, x, c) && 1 <= i < places_in(rule.body, x, c).len() && link == (
            first_place(rule.body, x, c),
            (c, #[trigger] places_in(rule.body, x, c)[i]),
        );
    lemma_places(rule, x, c);
}

/// The source of a variable is the first occurrence with the smallest
/// term position among its first occurrences in atoms; a variable has a
/// source exactly if it occurs in an atom.
pub proof fn lemma_source(rule: RuleView, x: Seq<char>)
    ensures
        source(var_dict(rule), x) is Some <==> firsts(rule, x).len() > 0,
        source(var_dict(rule), x) is Some ==> source(var_dict(rule), x) == Some(
            smallest(firsts(rule, x), firsts(rule, x).len() as int),
        ) && occurs(rule, x, source(var_dict(rule), x)->0),
{
    let dict = var_dict(rule);
    let e = entry_index(dict.body, x);
    lemma_entry_index(dict.body, x);
    lemma_firsts(rule, x);
    let fs = firsts(rule, x);
    if e < dict.body.len() {
        lemma_entry_groups(rule, e);
    }
    if fs.len() > 0 {
        assert(occurs_in(rule.body, x, fs[0].0));
        lemma_places(rule, x, fs[0].0);
        let k = lemma_entry_for(rule, x, fs[0].0, fs[0].1);
        assert(e <= k < dict.body.len());
    }
    if fs.len() > 0 {
        lemma_smallest_is_one(fs, fs.len() as int);
        let k = choose|k: int| 0 <= k < fs.len() && fs[k] == smallest(fs, fs.len() as int);
        assert(occurs_in(rule.body, x, fs[k].0));
        lemma_places(rule, x, fs[k].0);
    }
}

/// The first atom of the body is an atom, and there is one where the body
/// has an atom.
pub proof fn lemma_first_atom(body: Seq<ClauseView>, n: int)
    requires
        0 <= n <= body.len(),
    ensures
        first_atom(body, n) matches Some(c) ==> 0 <= c < n && body[c] is Atom,
        forall|c: int| 0 <= c < n && (#[trigger] body[c]) is Atom ==> first_atom(body, n) is Some,
    decreases n,
{
    if n > 0 {
        lemma_first_atom(body, n - 1);
    }
}

/// The anchor is an atom of the body, and there is one where the body
/// has an atom.
pub proof fn lemma_anchor(rule: RuleView)
    ensures
        anchor(rule, var_dict(rule)) matches Some(a) ==> 0 <= a < rule.body.len()
            && rule.body[a] is Atom,
        forall|c: int|
            0 <= c < rule.body.len() && (#[trigger] rule.body[c]) is Atom ==> anchor(
                rule,
                var_dict(rule),
            ) is Some,
{
    lemma_first_atom(rule.body, rule.body.len() as int);
    if rule.head.terms.len() > 0 && rule.head.terms[0].variable_name() is Some {
        lemma_source(rule, rule.head.terms[0].variable_name()->0);
    }
}


/// The value that a binding gives the occurrence at `place`, where it has
/// one.
pub open spec fn value_at(binding: Binding, place: Place) -> Option<
    Value,
> {
    cell(binding, column_at(place))
}

/// Whether the clause at position `c` of the body is an atom.
pub open spec fn is_atom_clause(rule: RuleView, c: int) -> bool {
    0 <= c < rule.body.len() && rule.body[c] is Atom
}

/// Whether the row that a binding has for each atom of the body is a row
/// of the table that the atom reads.
pub open spec fn drawn(rule: RuleView, semi_naive: bool, binding: Binding, store: Store) -> bool {
    forall|c: int| #[trigger]
        is_atom_clause(rule, c) ==> store.dom().contains(table_name(rule, c, semi_naive))
            && store[table_name(rule, c, semi_naive)].contains(binding[c])
}

/// Whether `x` is a variable of the head.
pub open spec fn head_variable(rule: RuleView, x: Seq<char>) -> bool {
    exists|i: int|
        0 <= i < rule.head.terms.len() && (#[trigger] rule.head.terms[i]).variable_name() == Some(x)
}

/// Whether a binding is consistent with the body of a rule: it has a row
/// for each atom and for no other clause; each constant of an
/// atom stands in its column; any two occurrences of a variable in atoms
/// hold one value; and each occurrence of a head variable holds a value.
pub open spec fn consistent(rule: RuleView, binding: Binding) -> bool {
    &&& forall|c: int| binding.dom().contains(c) <==> is_atom_clause(rule, c)
    &&& forall|c: int, j: int, k: Value| #[trigger]
        constant_at(rule, c, j, k) ==> value_at(binding, (c, j)) == Some(k)
    &&& forall|x: Seq<char>, p: Place, q: Place|
        #[trigger] occurs(rule, x, p) && #[trigger] occurs(rule, x, q) && p != q ==> value_at(
            binding,
            p,
        ) is Some && value_at(binding, p) == value_at(binding, q)
    &&& forall|x: Seq<char>, p: Place|
        head_variable(rule, x) && #[trigger] occurs(rule, x, p) ==> value_at(binding, p) is Some
}

/// A binding that meets the selection gives both ends of a link one
/// value.
pub proof fn lemma_link_holds(
    rule: RuleView,
    semi_naive: bool,
    binding: Binding,
    x: Seq<char>,
    link: Link,
)
    requires
        selection(rule, semi_naive) is Ok,
        fits(selection(rule, semi_naive)->Ok_0, binding),
        is_link(rule, x, link),
    ensures
        value_at(binding, link.0) is Some,
        value_at(binding, link.0) == value_at(binding, link.1),
{
    let dict = var_dict(rule);
    let compiled = selection(rule, semi_naive)->Ok_0;
    lemma_link_ends(rule, x, link);
    let k = lemma_entry_for(rule, x, link.0.0, link.0.1);
    lemma_links_members(rule, dict.body.len() as int);
    let all = links(dict, dict.body.len() as int);
    assert(all.contains(link));
    let p = choose|p: int| 0 <= p < all.len() && all[p] == link;
    let c = if anchor(rule, dict) != Some(link.0.0) {
        link.0.0
    } else {
        link.1.0
    };
    assert(touches(all[p], c));
    lemma_links_at(all, c, all.len() as int);
    let mine = links_at(all, c, all.len() as int);
    assert(mine.contains(link));
    let kk = choose|kk: int| 0 <= kk < mine.len() && mine[kk] == link;
    assert(joined(rule, c));
    lemma_joins_members(rule, semi_naive, rule.body.len() as int);
    let wanted = join_of(rule, semi_naive, c);
    assert(compiled.joins.contains(wanted));
    let jj = choose|jj: int| 0 <= jj < compiled.joins.len() && compiled.joins[jj] == wanted;
    assert(compiled.joins[jj].on[kk] == ConditionView::Columns(
        column_at(link.0),
        column_at(link.1),
    ));
    assert(holds(compiled.joins[jj].on[kk], binding));
}

/// A binding that meets the selection gives both ends of a link within an
/// atom one value.
pub proof fn lemma_self_link_holds(
    rule: RuleView,
    semi_naive: bool,
    binding: Binding,
    x: Seq<char>,
    link: Link,
)
    requires
        selection(rule, semi_naive) is Ok,
        fits(selection(rule, semi_naive)->Ok_0, binding),
        is_self_link(rule, x, link),
    ensures
        value_at(binding, link.0) is Some,
        value_at(binding, link.0) == value_at(binding, link.1),
{
    let dict = var_dict(rule);
    let compiled = selection(rule, semi_naive)->Ok_0;
    lemma_self_link_ends(rule, x, link);
    let k = lemma_entry_for(rule, x, link.0.0, link.0.1);
    lemma_self_links_members(rule, dict.body.len() as int);
    let own = self_links(dict, dict.body.len() as int);
    assert(own.contains(link));
    let p = choose|p: int| 0 <= p < own.len() && own[p] == link;
    let first = link_conditions(own);
    assert(compiled.filters[p] == first[p]);
    assert(holds(compiled.filters[p], binding));
}

/// A binding that meets the selection gives each occurrence of a variable
/// the value of the first: of the occurrence in the first atom that holds
/// the variable, at the first position there.
pub proof fn lemma_chain(
    rule: RuleView,
    semi_naive: bool,
    binding: Binding,
    x: Seq<char>,
    place: Place,
)
    requires
        selection(rule, semi_naive) is Ok,
        fits(selection(rule, semi_naive)->Ok_0, binding),
        occurs(rule, x, place),
    ensures
        firsts(rule, x).len() > 0,
        occurs(rule, x, firsts(rule, x)[0]),
        value_at(binding, place) == value_at(binding, firsts(rule, x)[0]),
        place != firsts(rule, x)[0] ==> value_at(binding, place) is Some,
{
    let body = rule.body;
    let c = place.0;
    lemma_occurs_in(rule, x, place);
    lemma_firsts(rule, x);
    lemma_places(rule, x, c);
    let fs = firsts(rule, x);
    let fc = first_place(body, x, c);
    assert(fs.contains(fc));
    let i = choose|i: int| 0 <= i < fs.len() && fs[i] == fc;
    assert(occurs_in(body, x, fs[0].0));
    lemma_places(rule, x, fs[0].0);
    if place != fc {
        let places = places_in(body, x, c);
        assert(places.contains(place.1));
        let m = choose|m: int| 0 <= m < places.len() && places[m] == place.1;
        assert(m >= 1);
        let inner = (fc, (c, places[m]));
        assert(is_self_link(rule, x, inner));
        lemma_self_link_holds(rule, semi_naive, binding, x, inner);
    }
    if i >= 1 {
        let outer = (fs[0], fs[i]);
        assert(is_link(rule, x, outer));
        lemma_link_holds(rule, semi_naive, binding, x, outer);
    }
}


/// A clause that is joined is an atom.
pub proof fn lemma_joined_atom(rule: RuleView, c: int)
    requires
        joined(rule, c),
    ensures
        0 <= c < rule.body.len(),
        rule.body[c] is Atom,
{
}

/// The selection of a rule without negated atoms reads a table for
/// each atom of the body, and for no other clause.
pub proof fn lemma_binds(rule: RuleView, semi_naive: bool)
    requires
        selection(rule, semi_naive) is Ok,
    ensures
        forall|c: int|
            binds(selection(rule, semi_naive)->Ok_0, c) <==> is_atom_clause(rule, c),
{
    let dict = var_dict(rule);
    let compiled = selection(rule, semi_naive)->Ok_0;
    lemma_anchor(rule);
    lemma_joins_members(rule, semi_naive, rule.body.len() as int);
    assert forall|c: int| binds(compiled, c) implies is_atom_clause(rule, c) by {
        if compiled.from is Some && compiled.from->Some_0.1 == c {
            let a = anchor(rule, dict)->0;
            assert(rule.body[a] is Atom && a == c);
        } else {
            let j = choose|j: int|
                0 <= j < compiled.joins.len() && (#[trigger] compiled.joins[j]).clause == c;
            assert(is_join(rule, semi_naive, rule.body.len() as int, compiled.joins[j]));
            let e = choose|e: int|
                0 <= e < rule.body.len() && #[trigger] joined(rule, e) && compiled.joins[j]
                    == join_of(rule, semi_naive, e);
            lemma_joined_atom(rule, e);
            assert(e == c);
        }
    }
    assert forall|c: int| is_atom_clause(rule, c) implies binds(compiled, c) by {
        lemma_atom_read(rule, semi_naive, c);
    }
}

/// The selection of a rule without negated atoms reads for each atom
/// its table: after `FROM` for the anchor, in a join for each other.
pub proof fn lemma_atom_read(rule: RuleView, semi_naive: bool, c: int)
    requires
        selection(rule, semi_naive) is Ok,
        is_atom_clause(rule, c),
    ensures
        anchor(rule, var_dict(rule)) == Some(c) ==> selection(rule, semi_naive)->Ok_0.from == Some(
            (table_name(rule, c, semi_naive), c),
        ),
        anchor(rule, var_dict(rule)) != Some(c) ==> selection(
            rule,
            semi_naive,
        )->Ok_0.joins.contains(join_of(rule, semi_naive, c)),
        binds(selection(rule, semi_naive)->Ok_0, c),
{
    let dict = var_dict(rule);
    let compiled = selection(rule, semi_naive)->Ok_0;
    lemma_anchor(rule);
    lemma_joins_members(rule, semi_naive, rule.body.len() as int);
    if anchor(rule, dict) != Some(c) {
        assert(joined(rule, c));
        let wanted = join_of(rule, semi_naive, c);
        assert(compiled.joins.contains(wanted));
        let j = choose|j: int| 0 <= j < compiled.joins.len() && compiled.joins[j] == wanted;
        assert(compiled.joins[j].clause == c);
    }
}

/// For the selection of a rule without negated atoms, the rows of a
/// binding are rows of the tables that the selection reads exactly if
/// they are rows of the tables of the atoms.
pub proof fn lemma_drawn(rule: RuleView, semi_naive: bool, binding: Binding, store: Store)
    requires
        selection(rule, semi_naive) is Ok,
    ensures
        drawn_from(selection(rule, semi_naive)->Ok_0, binding, store) <==> drawn(
            rule,
            semi_naive,
            binding,
            store,
        ),
{
    let dict = var_dict(rule);
    let compiled = selection(rule, semi_naive)->Ok_0;
    lemma_anchor(rule);
    lemma_joins_members(rule, semi_naive, rule.body.len() as int);
    if drawn_from(compiled, binding, store) {
        assert forall|c: int| #[trigger] is_atom_clause(rule, c) implies store.dom().contains(
            table_name(rule, c, semi_naive),
        ) && store[table_name(rule, c, semi_naive)].contains(binding[c]) by {
            lemma_atom_read(rule, semi_naive, c);
            if anchor(rule, dict) != Some(c) {
                let wanted = join_of(rule, semi_naive, c);
                let j = choose|j: int|
                    0 <= j < compiled.joins.len() && compiled.joins[j] == wanted;
                assert(store.dom().contains(compiled.joins[j].table));
            }
        }
    }
    if drawn(rule, semi_naive, binding, store) {
        if compiled.from is Some {
            let a = anchor(rule, dict)->0;
            assert(is_atom_clause(rule, a));
        }
        assert forall|j: int| 0 <= j < compiled.joins.len() implies store.dom().contains(
            (#[trigger] compiled.joins[j]).table,
        ) && store[compiled.joins[j].table].contains(binding[compiled.joins[j].clause]) by {
            assert(is_join(rule, semi_naive, rule.body.len() as int, compiled.joins[j]));
            let e = choose|e: int|
                0 <= e < rule.body.len() && #[trigger] joined(rule, e) && compiled.joins[j]
                    == join_of(rule, semi_naive, e);
            lemma_joined_atom(rule, e);
            assert(is_atom_clause(rule, e));
        }
    }
}

/// A binding that meets the selection puts each constant of an atom in
/// its column.
pub proof fn lemma_constant_holds(
    rule: RuleView,
    semi_naive: bool,
    binding: Binding,
    c: int,
    j: int,
    k: Value,
)
    requires
        selection(rule, semi_naive) is Ok,
        fits(selection(rule, semi_naive)->Ok_0, binding),
        constant_at(rule, c, j, k),
    ensures
        value_at(binding, (c, j)) == Some(k),
{
    let dict = var_dict(rule);
    let compiled = selection(rule, semi_naive)->Ok_0;
    lemma_constant_filters(rule, rule.body.len() as int);
    let constants = constant_filters(rule, rule.body.len() as int);
    let wanted = ConditionView::Constant(column_at((c, j)), k);
    assert(constants.contains(wanted));
    let p = choose|p: int| 0 <= p < constants.len() && constants[p] == wanted;
    let first = link_conditions(self_links(dict, dict.body.len() as int));
    assert(compiled.filters[first.len() + p] == wanted);
    assert(holds(compiled.filters[first.len() + p], binding));
}

/// A binding that meets the selection gives two occurrences of a
/// variable one value.
pub proof fn lemma_pair_holds(
    rule: RuleView,
    semi_naive: bool,
    binding: Binding,
    x: Seq<char>,
    p: Place,
    q: Place,
)
    requires
        selection(rule, semi_naive) is Ok,
        fits(selection(rule, semi_naive)->Ok_0, binding),
        occurs(rule, x, p),
        occurs(rule, x, q),
        p != q,
    ensures
        value_at(binding, p) is Some,
        value_at(binding, p) == value_at(binding, q),
{
    lemma_chain(rule, semi_naive, binding, x, p);
    lemma_chain(rule, semi_naive, binding, x, q);
}

/// The projection of a head position that holds a variable is the column
/// of the variable's source.
pub proof fn lemma_head_projection(rule: RuleView, semi_naive: bool, i: int)
    requires
        selection(rule, semi_naive) is Ok,
        0 <= i < rule.head.terms.len(),
    ensures
        selection(rule, semi_naive)->Ok_0.projection.len() == rule.head.terms.len(),
        rule.head.terms[i] matches TermView::Constant(k) ==> selection(
            rule,
            semi_naive,
        )->Ok_0.projection[i] == ProjectionView::Literal(k),
        rule.head.terms[i].variable_name() matches Some(x) ==> source(var_dict(rule), x) is Some
            && occurs(rule, x, source(var_dict(rule), x)->0) && selection(
            rule,
            semi_naive,
        )->Ok_0.projection[i] == ProjectionView::Column(
            column_at(source(var_dict(rule), x)->0),
        ),
        !(rule.head.terms[i] is Constant) ==> rule.head.terms[i].variable_name() is Some,
{
    let dict = var_dict(rule);
    lemma_projections(rule, semi_naive, rule.head.terms.len() as int);
    assert(projection_at(rule, dict, semi_naive, i) is Ok);
    if rule.head.terms[i].variable_name() is Some {
        lemma_source(rule, rule.head.terms[i].variable_name()->0);
    }
}

/// A binding that meets the selection gives each occurrence of a head
/// variable a value.
pub proof fn lemma_head_holds(
    rule: RuleView,
    semi_naive: bool,
    binding: Binding,
    x: Seq<char>,
    p: Place,
)
    requires
        selection(rule, semi_naive) is Ok,
        fits(selection(rule, semi_naive)->Ok_0, binding),
        head_variable(rule, x),
        occurs(rule, x, p),
    ensures
        value_at(binding, p) is Some,
{
    let dict = var_dict(rule);
    let compiled = selection(rule, semi_naive)->Ok_0;
    let i = choose|i: int|
        0 <= i < rule.head.terms.len() && (#[trigger] rule.head.terms[i]).variable_name() == Some(
            x,
        );
    lemma_head_projection(rule, semi_naive, i);
    let from = source(dict, x)->0;
    assert(projects(compiled.projection[i], binding));
    lemma_chain(rule, semi_naive, binding, x, p);
    lemma_chain(rule, semi_naive, binding, x, from);
}

/// A binding that meets the selection of a rule is consistent with the
/// body.
pub proof fn lemma_fits_consistent(rule: RuleView, semi_naive: bool, binding: Binding)
    requires
        selection(rule, semi_naive) is Ok,
        fits(selection(rule, semi_naive)->Ok_0, binding),
    ensures
        consistent(rule, binding),
{
    let compiled = selection(rule, semi_naive)->Ok_0;
    lemma_binds(rule, semi_naive);
    assert forall|c: int| binding.dom().contains(c) <==> is_atom_clause(rule, c) by {
        assert(binding.dom().contains(c) <==> binds(compiled, c));
    }
    assert forall|c: int, j: int, k: Value| #[trigger] constant_at(rule, c, j, k) implies value_at(
        binding,
        (c, j),
    ) == Some(k) by {
        lemma_constant_holds(rule, semi_naive, binding, c, j, k);
    }
    assert forall|x: Seq<char>, p: Place, q: Place|
        #[trigger] occurs(rule, x, p) && #[trigger] occurs(rule, x, q) && p != q implies value_at(
        binding,
        p,
    ) is Some && value_at(binding, p) == value_at(binding, q) by {
        lemma_pair_holds(rule, semi_naive, binding, x, p, q);
    }
    assert forall|x: Seq<char>, p: Place|
        head_variable(rule, x) && #[trigger] occurs(rule, x, p) implies value_at(binding, p) is Some by {
        lemma_head_holds(rule, semi_naive, binding, x, p);
    }
}


/// Under a consistent binding each condition of each join holds.
pub proof fn lemma_join_condition(
    rule: RuleView,
    semi_naive: bool,
    binding: Binding,
    j: int,
    k: int,
)
    requires
        selection(rule, semi_naive) is Ok,
        consistent(rule, binding),
        0 <= j < selection(rule, semi_naive)->Ok_0.joins.len(),
        0 <= k < selection(rule, semi_naive)->Ok_0.joins[j].on.len(),
    ensures
        holds(selection(rule, semi_naive)->Ok_0.joins[j].on[k], binding),
{
    let dict = var_dict(rule);
    let compiled = selection(rule, semi_naive)->Ok_0;
    lemma_joins_members(rule, semi_naive, rule.body.len() as int);
    assert(is_join(rule, semi_naive, rule.body.len() as int, compiled.joins[j]));
    let c = choose|c: int|
        0 <= c < rule.body.len() && #[trigger] joined(rule, c) && compiled.joins[j] == join_of(
            rule,
            semi_naive,
            c,
        );
    let all = links(dict, dict.body.len() as int);
    let mine = links_at(all, c, all.len() as int);
    lemma_links_at(all, c, all.len() as int);
    let link = mine[k];
    assert(all.contains(link));
    let p = choose|p: int| 0 <= p < all.len() && all[p] == link;
    lemma_links_members(rule, dict.body.len() as int);
    let e = choose|e: int| 0 <= e < dict.body.len() && is_link(rule, dict.body[e].0, all[p]);
    let x = dict.body[e].0;
    lemma_link_ends(rule, x, link);
    assert(occurs(rule, x, link.0) && occurs(rule, x, link.1) && link.0 != link.1);
    assert(compiled.joins[j].on[k] == ConditionView::Columns(
        column_at(link.0),
        column_at(link.1),
    ));
    assert(value_at(binding, link.0) is Some);
}

/// Under a consistent binding each filter holds.
pub proof fn lemma_filter_condition(rule: RuleView, semi_naive: bool, binding: Binding, k: int)
    requires
        selection(rule, semi_naive) is Ok,
        consistent(rule, binding),
        0 <= k < selection(rule, semi_naive)->Ok_0.filters.len(),
    ensures
        holds(selection(rule, semi_naive)->Ok_0.filters[k], binding),
{
    let dict = var_dict(rule);
    let compiled = selection(rule, semi_naive)->Ok_0;
    let own = self_links(dict, dict.body.len() as int);
    let first = link_conditions(own);
    let constants = constant_filters(rule, rule.body.len() as int);
    assert(compiled.filters == first + constants);
    if k < first.len() {
        let link = own[k];
        lemma_self_links_members(rule, dict.body.len() as int);
        let e = choose|e: int| 0 <= e < dict.body.len() && is_self_link(rule, dict.body[e].0, own[k]);
        let x = dict.body[e].0;
        lemma_self_link_ends(rule, x, link);
        assert(occurs(rule, x, link.0) && occurs(rule, x, link.1) && link.0 != link.1);
        assert(compiled.filters[k] == ConditionView::Columns(
            column_at(link.0),
            column_at(link.1),
        ));
        assert(value_at(binding, link.0) is Some);
    } else {
        let condition = constants[k - first.len()];
        assert(compiled.filters[k] == condition);
        lemma_constant_filters(rule, rule.body.len() as int);
        assert(is_constant_filter(rule, condition));
        let (c, j, value) = choose|c: int, j: int, value: Value| #[trigger]
            constant_at(rule, c, j, value) && condition == ConditionView::Constant(
                column_at((c, j)),
                value,
            );
        assert(value_at(binding, (c, j)) == Some(value));
    }
}

/// Under a consistent binding each projection has a value.
pub proof fn lemma_projection_value(rule: RuleView, semi_naive: bool, binding: Binding, i: int)
    requires
        selection(rule, semi_naive) is Ok,
        consistent(rule, binding),
        0 <= i < selection(rule, semi_naive)->Ok_0.projection.len(),
    ensures
        projects(selection(rule, semi_naive)->Ok_0.projection[i], binding),
{
    let dict = var_dict(rule);
    lemma_projections(rule, semi_naive, rule.head.terms.len() as int);
    lemma_head_projection(rule, semi_naive, i);
    if rule.head.terms[i].variable_name() is Some {
        let x = rule.head.terms[i].variable_name()->0;
        assert(head_variable(rule, x));
        let from = source(dict, x)->0;
        assert(value_at(binding, from) is Some);
    }
}

/// A binding that is consistent with the body of a rule meets the
/// selection.
pub proof fn lemma_consistent_fits(rule: RuleView, semi_naive: bool, binding: Binding)
    requires
        selection(rule, semi_naive) is Ok,
        consistent(rule, binding),
    ensures
        fits(selection(rule, semi_naive)->Ok_0, binding),
{
    let compiled = selection(rule, semi_naive)->Ok_0;
    lemma_binds(rule, semi_naive);
    assert forall|c: int| binding.dom().contains(c) <==> binds(compiled, c) by {
        assert(binding.dom().contains(c) <==> is_atom_clause(rule, c));
    }
    assert forall|j: int, k: int|
        0 <= j < compiled.joins.len() && 0 <= k < compiled.joins[j].on.len() implies holds(
        #[trigger] compiled.joins[j].on[k],
        binding,
    ) by {
        lemma_join_condition(rule, semi_naive, binding, j, k);
    }
    assert forall|k: int| 0 <= k < compiled.filters.len() implies holds(
        #[trigger] compiled.filters[k],
        binding,
    ) by {
        lemma_filter_condition(rule, semi_naive, binding, k);
    }
    assert forall|i: int| 0 <= i < compiled.projection.len() implies projects(
        #[trigger] compiled.projection[i],
        binding,
    ) by {
        lemma_projection_value(rule, semi_naive, binding, i);
    }
}

/// The value of the head position `i` under a binding: the constant that
/// stands there, or the value of the first occurrence of the variable.
pub open spec fn head_value(rule: RuleView, binding: Binding, i: int) -> Value {
    match rule.head.terms[i] {
        TermView::Constant(k) => k,
        other => value_at(binding, firsts(rule, other.variable_name()->0)[0])->0,
    }
}

/// The row of the head under a binding.
pub open spec fn head_row(rule: RuleView, binding: Binding) -> Row {
    Seq::new(rule.head.terms.len(), |i: int| head_value(rule, binding, i))
}

/// Under a consistent binding the selection yields the row of the head.
pub proof fn lemma_projected(rule: RuleView, semi_naive: bool, binding: Binding)
    requires
        selection(rule, semi_naive) is Ok,
        consistent(rule, binding),
    ensures
        projected(selection(rule, semi_naive)->Ok_0, binding) == head_row(rule, binding),
{
    let dict = var_dict(rule);
    let compiled = selection(rule, semi_naive)->Ok_0;
    lemma_projections(rule, semi_naive, rule.head.terms.len() as int);
    assert forall|i: int| 0 <= i < rule.head.terms.len() implies projected(compiled, binding)[i]
        == head_row(rule, binding)[i] by {
        lemma_head_projection(rule, semi_naive, i);
        if rule.head.terms[i].variable_name() is Some {
            let x = rule.head.terms[i].variable_name()->0;
            let from = source(dict, x)->0;
            lemma_source(rule, x);
            lemma_firsts(rule, x);
            let first = firsts(rule, x)[0];
            assert(occurs_in(rule.body, x, first.0));
            lemma_places(rule, x, first.0);
            assert(occurs(rule, x, first));
            if from != first {
                assert(value_at(binding, from) == value_at(binding, first));
            }
        }
    }
    assert(projected(compiled, binding) =~= head_row(rule, binding));
}

/// Whether `other` is `rule` with the clauses of its body in another
/// order: the clause at position `i` of `other` is the clause at position
/// `there[i]` of `rule`, and `back` leads the other way.
pub open spec fn is_reordering(rule: RuleView, other: RuleView, there: Seq<int>, back: Seq<int>) -> bool {
    &&& other.head == rule.head
    &&& other.body.len() == rule.body.len()
    &&& there.len() == rule.body.len()
    &&& back.len() == rule.body.len()
    &&& forall|i: int|
        0 <= i < rule.body.len() ==> 0 <= (#[trigger] there[i]) < rule.body.len() && back[there[i]]
            == i && other.body[i] == rule.body[there[i]]
    &&& forall|i: int|
        0 <= i < rule.body.len() ==> 0 <= (#[trigger] back[i]) < rule.body.len() && there[back[i]]
            == i
}

/// A reordering can be undone.
pub proof fn lemma_reordering_back(rule: RuleView, other: RuleView, there: Seq<int>, back: Seq<int>)
    requires
        is_reordering(rule, other, there, back),
    ensures
        is_reordering(other, rule, back, there),
{
    assert forall|i: int| 0 <= i < other.body.len() implies 0 <= (#[trigger] back[i])
        < other.body.len() && there[back[i]] == i && rule.body[i] == other.body[back[i]] by {
        assert(other.body[back[i]] == rule.body[there[back[i]]]);
    }
}

/// The occurrences and constants of a reordered rule are those of the
/// rule, at the places that the clauses came from.
pub proof fn lemma_reordered_places(
    rule: RuleView,
    other: RuleView,
    there: Seq<int>,
    back: Seq<int>,
    place: Place,
)
    requires
        is_reordering(rule, other, there, back),
        0 <= place.0 < other.body.len(),
    ensures
        forall|x: Seq<char>|
            occurs(other, x, place) <==> occurs(rule, x, (there[place.0], place.1)),
        forall|k: Value|
            constant_at(other, place.0, place.1, k) <==> constant_at(
                rule,
                there[place.0],
                place.1,
                k,
            ),
        is_atom_clause(other, place.0) <==> is_atom_clause(rule, there[place.0]),
        forall|semi_naive: bool|
            table_name(other, place.0, semi_naive) == table_name(rule, there[place.0], semi_naive),
{
    assert(other.body[place.0] == rule.body[there[place.0]]);
}

/// The binding for a reordered body: each clause has the row of the
/// clause that it came from.
pub open spec fn moved(binding: Binding, there: Seq<int>) -> Binding {
    Map::new(
        |c: int| 0 <= c < there.len() && binding.dom().contains(there[c]),
        |c: int| binding[there[c]],
    )
}

/// The moved binding gives an occurrence the value that the binding gives
/// it at the place that its clause came from.
pub proof fn lemma_moved_value(binding: Binding, there: Seq<int>, place: Place)
    requires
        0 <= place.0 < there.len(),
    ensures
        value_at(moved(binding, there), place) == value_at(binding, (there[place.0], place.1)),
        binding.dom().contains(there[place.0]) ==> moved(binding, there)[place.0]
            == binding[there[place.0]],
{
}

/// A binding that is consistent with the body of a rule is, once moved,
/// consistent with the body in any other order.
pub proof fn lemma_reordered_consistent(
    rule: RuleView,
    other: RuleView,
    there: Seq<int>,
    back: Seq<int>,
    binding: Binding,
)
    requires
        is_reordering(rule, other, there, back),
        consistent(rule, binding),
    ensures
        consistent(other, moved(binding, there)),
{
    let after = moved(binding, there);
    assert forall|c: int| after.dom().contains(c) <==> is_atom_clause(other, c) by {
        if 0 <= c < other.body.len() {
            lemma_reordered_places(rule, other, there, back, (c, 0));
            assert(binding.dom().contains(there[c]) <==> is_atom_clause(rule, there[c]));
        }
    }
    assert forall|c: int, j: int, k: Value| #[trigger] constant_at(other, c, j, k) implies value_at(
        after,
        (c, j),
    ) == Some(k) by {
        lemma_reordered_places(rule, other, there, back, (c, j));
        assert(constant_at(rule, there[c], j, k));
        lemma_moved_value(binding, there, (c, j));
    }
    assert forall|x: Seq<char>, p: Place, q: Place|
        #[trigger] occurs(other, x, p) && #[trigger] occurs(other, x, q) && p != q implies value_at(
        after,
        p,
    ) is Some && value_at(after, p) == value_at(after, q) by {
        lemma_reordered_places(rule, other, there, back, p);
        lemma_reordered_places(rule, other, there, back, q);
        let p_there = (there[p.0], p.1);
        let q_there = (there[q.0], q.1);
        assert(occurs(rule, x, p_there) && occurs(rule, x, q_there));
        assert(p_there != q_there) by {
            if p_there == q_there {
                assert(back[there[p.0]] == back[there[q.0]]);
            }
        }
        lemma_moved_value(binding, there, p);
        lemma_moved_value(binding, there, q);
    }
    assert forall|x: Seq<char>, p: Place|
        head_variable(other, x) && #[trigger] occurs(other, x, p) implies value_at(after, p)
        is Some by {
        lemma_reordered_places(rule, other, there, back, p);
        assert(head_variable(rule, x));
        assert(occurs(rule, x, (there[p.0], p.1)));
        lemma_moved_value(binding, there, p);
    }
}

/// The rows of a consistent binding that are rows of the tables of the
/// atoms are so, once moved, for the body in any other order.
pub proof fn lemma_reordered_drawn(
    rule: RuleView,
    other: RuleView,
    there: Seq<int>,
    back: Seq<int>,
    semi_naive: bool,
    binding: Binding,
    store: Store,
)
    requires
        is_reordering(rule, other, there, back),
        consistent(rule, binding),
        drawn(rule, semi_naive, binding, store),
    ensures
        drawn(other, semi_naive, moved(binding, there), store),
{
    let after = moved(binding, there);
    assert forall|c: int| #[trigger] is_atom_clause(other, c) implies store.dom().contains(
        table_name(other, c, semi_naive),
    ) && store[table_name(other, c, semi_naive)].contains(after[c]) by {
        lemma_reordered_places(rule, other, there, back, (c, 0));
        assert(is_atom_clause(rule, there[c]));
        lemma_moved_value(binding, there, (c, 0));
    }
}

/// Where every one of the first `n` head positions projects, the
/// projections are there.
pub proof fn lemma_projections_ok(rule: RuleView, semi_naive: bool, n: int)
    requires
        0 <= n,
        forall|i: int|
            0 <= i < n ==> (#[trigger] projection_at(rule, var_dict(rule), semi_naive, i)) is Ok,
    ensures
        projections(rule, var_dict(rule), semi_naive, n) is Ok,
    decreases n,
{
    if n > 0 {
        lemma_projections_ok(rule, semi_naive, n - 1);
        assert(projection_at(rule, var_dict(rule), semi_naive, n - 1) is Ok);
    }
}

/// A rule compiles in every order of its body, if it compiles in one.
pub proof fn lemma_reordered_compiles(
    rule: RuleView,
    other: RuleView,
    there: Seq<int>,
    back: Seq<int>,
    semi_naive: bool,
)
    requires
        is_reordering(rule, other, there, back),
        selection(rule, semi_naive) is Ok,
    ensures
        selection(other, semi_naive) is Ok,
{
    lemma_projections(rule, semi_naive, rule.head.terms.len() as int);
    assert forall|i: int| 0 <= i < other.head.terms.len() implies (#[trigger] projection_at(
        other,
        var_dict(other),
        semi_naive,
        i,
    )) is Ok by {
        lemma_head_projection(rule, semi_naive, i);
        if rule.head.terms[i].variable_name() is Some {
            let x = rule.head.terms[i].variable_name()->0;
            let from = source(var_dict(rule), x)->0;
            let shifted = (back[from.0], from.1);
            lemma_reordered_places(rule, other, there, back, shifted);
            assert(occurs(other, x, shifted));
            lemma_occurs_in(other, x, shifted);
            lemma_firsts(other, x);
            assert(firsts(other, x).contains(first_place(other.body, x, shifted.0)));
            lemma_source(other, x);
        }
    }
    lemma_projections_ok(other, semi_naive, other.head.terms.len() as int);
}

/// Under a consistent binding the row of the head does not depend on the
/// order of the body.
pub proof fn lemma_reordered_head_row(
    rule: RuleView,
    other: RuleView,
    there: Seq<int>,
    back: Seq<int>,
    semi_naive: bool,
    binding: Binding,
)
    requires
        is_reordering(rule, other, there, back),
        selection(rule, semi_naive) is Ok,
        consistent(rule, binding),
    ensures
        head_row(other, moved(binding, there)) == head_row(rule, binding),
{
    let after = moved(binding, there);
    assert forall|i: int| 0 <= i < rule.head.terms.len() implies head_value(other, after, i)
        == head_value(rule, binding, i) by {
        lemma_head_projection(rule, semi_naive, i);
        if rule.head.terms[i].variable_name() is Some {
            let x = rule.head.terms[i].variable_name()->0;
            lemma_source(rule, x);
            lemma_firsts(rule, x);
            let mine = firsts(rule, x)[0];
            assert(occurs_in(rule.body, x, mine.0));
            lemma_places(rule, x, mine.0);
            let shifted = (back[mine.0], mine.1);
            lemma_reordered_places(rule, other, there, back, shifted);
            assert(occurs(other, x, shifted));
            lemma_occurs_in(other, x, shifted);
            lemma_firsts(other, x);
            assert(firsts(other, x).contains(first_place(other.body, x, shifted.0)));
            let yours = firsts(other, x)[0];
            assert(occurs_in(other.body, x, yours.0));
            lemma_places(other, x, yours.0);
            lemma_reordered_places(rule, other, there, back, yours);
            let same = (there[yours.0], yours.1);
            assert(occurs(rule, x, same));
            lemma_moved_value(binding, there, yours);
            assert(value_at(after, yours) == value_at(binding, same));
            if same != mine {
                assert(value_at(binding, same) == value_at(binding, mine));
            }
        }
    }
    assert(head_row(other, after) =~= head_row(rule, binding));
}

/// Whether a value is of a column type.
pub open spec fn has_type(value: Value, t: DataType) -> bool {
    match (value, t) {
        (ConstantView::Integer(_), DataType::Integer) => true,
        (ConstantView::Float(_), DataType::Float) => true,
        (ConstantView::Symbol(_), DataType::Symbol) => true,
        _ => false,
    }
}

/// Whether a row has as many values as `columns` has types, each of its
/// type.
pub open spec fn row_conforms(row: Row, columns: Seq<DataType>) -> bool {
    &&& row.len() == columns.len()
    &&& forall|i: int| 0 <= i < row.len() ==> has_type(#[trigger] row[i], columns[i])
}

/// Whether every row of every table that has types conforms to them.
pub open spec fn store_conforms(store: Store, types: Types) -> bool {
    forall|name: Seq<char>, row: Row|
        store.dom().contains(name) && #[trigger] store[name].contains(row) && lookup(types, name)
            is Some ==> row_conforms(row, lookup(types, name)->0)
}

/// Whether the atom at position `c` holds the distinguished variable `x`
/// at position `j`, in a column of type `t`.
pub open spec fn typed_at(
    types: Types,
    body: Seq<ClauseView>,
    x: Seq<char>,
    t: DataType,
    c: int,
    j: int,
) -> bool {
    &&& 0 <= c < body.len()
    &&& body[c] matches ClauseView::Atom(a)
    &&& 0 <= j < a.terms.len()
    &&& a.terms[j] == TermView::Variable(VariableView::Distinguished(x))
    &&& lookup(types, a.predicate) matches Some(columns)
    &&& j < columns.len()
    &&& columns[j] == t
}

/// Whether one of the first `n` clauses gives `x` the type `t`.
pub open spec fn typed_in(types: Types, body: Seq<ClauseView>, n: int, x: Seq<char>, t: DataType) -> bool {
    exists|c: int, j: int| 0 <= c < n && #[trigger] typed_at(types, body, x, t, c, j)
}

/// A witness stays once it is there, and a new one is the one that was
/// added.
pub proof fn lemma_witnessed(witnesses: Witnesses, v: Seq<char>, t: DataType, x: Seq<char>)
    ensures
        lookup(witnesses, x) is Some ==> lookup(witnessed(witnesses, v, t), x) == lookup(
            witnesses,
            x,
        ),
        lookup(witnesses, x) is None && lookup(witnessed(witnesses, v, t), x) is Some ==> x == v
            && lookup(witnessed(witnesses, v, t), x) == Some(t),
{
    let now = witnessed(witnesses, v, t);
    lemma_entry_index(witnesses, x);
    lemma_entry_index(now, x);
    lemma_entry_index(witnesses, v);
    let e = entry_index(witnesses, x);
    let f = entry_index(now, x);
    if now != witnesses {
        assert(now == witnesses.push((v, t)));
        if e < witnesses.len() {
            assert(now[e] == witnesses[e]);
            assert(f <= e);
            if f < e {
                assert(now[f] == witnesses[f]);
            }
        } else {
            if f < now.len() {
                if f < witnesses.len() {
                    assert(now[f] == witnesses[f]);
                }
            }
        }
    }
}

/// The witnesses after the terms of an atom are those from before and
/// those that the atom gives.
pub proof fn lemma_atom_witnesses(
    types: Types,
    body: Seq<ClauseView>,
    c: int,
    before: Witnesses,
    m: int,
    x: Seq<char>,
)
    requires
        0 <= c < body.len(),
        body[c] is Atom,
        0 <= m <= body[c]->Atom_0.terms.len(),
        atom_witnesses(lookup(types, body[c]->Atom_0.predicate), body[c]->Atom_0, before, m)
            is Ok,
    ensures
        ({
            let after = atom_witnesses(
                lookup(types, body[c]->Atom_0.predicate),
                body[c]->Atom_0,
                before,
                m,
            )->Ok_0;
            lookup(after, x) matches Some(t) ==> lookup(before, x) == Some(t) || exists|j: int|
                0 <= j < m && #[trigger] typed_at(types, body, x, t, c, j)
        }),
    decreases m,
{
    let atom = body[c]->Atom_0;
    let columns = lookup(types, atom.predicate);
    if m > 0 {
        lemma_atom_witnesses(types, body, c, before, m - 1, x);
        let middle = atom_witnesses(columns, atom, before, m - 1)->Ok_0;
        let after = atom_witnesses(columns, atom, before, m)->Ok_0;
        if lookup(after, x) is Some {
            let t = lookup(after, x)->0;
            match atom.terms[m - 1] {
                TermView::Variable(VariableView::Distinguished(v)) => {
                    lemma_witnessed(middle, v, columns->0[m - 1], x);
                    if lookup(middle, x) is Some {
                        if !(lookup(before, x) == Some(t)) {
                            let j = choose|j: int|
                                0 <= j < m - 1 && #[trigger] typed_at(types, body, x, t, c, j);
                            assert(0 <= j < m && typed_at(types, body, x, t, c, j));
                        }
                    } else {
                        assert(typed_at(types, body, x, t, c, m - 1));
                    }
                },
                _ => {
                    if !(lookup(before, x) == Some(t)) {
                        let j = choose|j: int|
                            0 <= j < m - 1 && #[trigger] typed_at(types, body, x, t, c, j);
                        assert(0 <= j < m && typed_at(types, body, x, t, c, j));
                    }
                },
            }
        }
    }
}

/// Each witness of the body is the type of a column that holds its
/// variable.
pub proof fn lemma_body_witnesses(types: Types, body: Seq<ClauseView>, n: int, x: Seq<char>)
    requires
        0 <= n <= body.len(),
        body_witnesses(types, body, n) is Ok,
    ensures
        lookup(body_witnesses(types, body, n)->Ok_0, x) matches Some(t) ==> typed_in(
            types,
            body,
            n,
            x,
            t,
        ),
    decreases n,
{
    if n > 0 {
        lemma_body_witnesses(types, body, n - 1, x);
        let before = body_witnesses(types, body, n - 1)->Ok_0;
        let after = body_witnesses(types, body, n)->Ok_0;
        if lookup(after, x) is Some {
            let t = lookup(after, x)->0;
            match body[n - 1] {
                ClauseView::Atom(atom) => {
                    lemma_atom_witnesses(types, body, n - 1, before, atom.terms.len() as int, x);
                    if lookup(before, x) == Some(t) {
                        let (c, j) = choose|c: int, j: int|
                            0 <= c < n - 1 && #[trigger] typed_at(types, body, x, t, c, j);
                        assert(0 <= c < n && typed_at(types, body, x, t, c, j));
                    } else {
                        let j = choose|j: int|
                            0 <= j < atom.terms.len() && #[trigger] typed_at(
                                types,
                                body,
                                x,
                                t,
                                n - 1,
                                j,
                            );
                        assert(0 <= n - 1 < n && typed_at(types, body, x, t, n - 1, j));
                    }
                },
                ClauseView::Arithmetic(_) => {
                    let (c, j) = choose|c: int, j: int|
                        0 <= c < n - 1 && #[trigger] typed_at(types, body, x, t, c, j);
                    assert(0 <= c < n && typed_at(types, body, x, t, c, j));
                },
            }
        }
    }
}

/// Where the head has its types, each of the first `n` positions holds a
/// distinguished variable, and its type is the witness of the variable.
pub proof fn lemma_head_types(witnesses: Witnesses, head: AtomView, n: int)
    requires
        0 <= n <= head.terms.len(),
        head_types(witnesses, head, n) is Ok,
    ensures
        head_types(witnesses, head, n)->Ok_0.len() == n,
        forall|i: int|
            0 <= i < n ==> match #[trigger] head.terms[i] {
                TermView::Variable(VariableView::Distinguished(x)) => lookup(witnesses, x) == Some(
                    head_types(witnesses, head, n)->Ok_0[i],
                ),
                TermView::Constant(k) => kind_type(k) == Some(
                    head_types(witnesses, head, n)->Ok_0[i],
                ),
                _ => false,
            },
    decreases n,
{
    if n > 0 {
        lemma_head_types(witnesses, head, n - 1);
    }
}

/// Whether each row of the table that an atom of the body reads conforms
/// to the types of the atom's relation, where it has types.
pub open spec fn body_conforms(rule: RuleView, semi_naive: bool, types: Types, store: Store) -> bool {
    forall|c: int, row: Row|
        is_atom_clause(rule, c) && store.dom().contains(table_name(rule, c, semi_naive))
            && #[trigger] store[table_name(rule, c, semi_naive)].contains(row) && lookup(
            types,
            rule.body[c].to_string(),
        ) is Some ==> row_conforms(row, lookup(types, rule.body[c].to_string())->0)
}

/// Under a consistent binding whose rows are rows that conform, the
/// value of a head position is of the type that the rule gives the
/// position.
pub proof fn lemma_position_conforms(
    rule: RuleView,
    semi_naive: bool,
    types: Types,
    store: Store,
    binding: Binding,
    i: int,
)
    requires
        rule_types(types, rule) is Ok,
        selection(rule, semi_naive) is Ok,
        body_conforms(rule, semi_naive, types, store),
        consistent(rule, binding),
        drawn(rule, semi_naive, binding, store),
        0 <= i < rule.head.terms.len(),
    ensures
        rule_types(types, rule)->Ok_0.len() == rule.head.terms.len(),
        has_type(head_value(rule, binding, i), rule_types(types, rule)->Ok_0[i]),
{
    let witnesses = body_witnesses(types, rule.body, rule.body.len() as int)->Ok_0;
    let columns = rule_types(types, rule)->Ok_0;
    lemma_head_types(witnesses, rule.head, rule.head.terms.len() as int);
    if rule.head.terms[i] is Variable {
        let x = rule.head.terms[i]->Variable_0->Distinguished_0;
        assert(rule.head.terms[i] == TermView::Variable(VariableView::Distinguished(x)));
        assert(rule.head.terms[i].variable_name() == Some(x));
        assert(head_variable(rule, x));
        lemma_body_witnesses(types, rule.body, rule.body.len() as int, x);
        let t = columns[i];
        assert(typed_in(types, rule.body, rule.body.len() as int, x, t));
        let (c, j) = choose|c: int, j: int|
            0 <= c < rule.body.len() && #[trigger] typed_at(types, rule.body, x, t, c, j);
        lemma_typed_value(rule, semi_naive, types, store, binding, x, t, c, j);
    }
}

/// Under a consistent binding whose rows are rows that conform, a head
/// variable that stands in a column of type `t` has a value of that type.
pub proof fn lemma_typed_value(
    rule: RuleView,
    semi_naive: bool,
    types: Types,
    store: Store,
    binding: Binding,
    x: Seq<char>,
    t: DataType,
    c: int,
    j: int,
)
    requires
        body_conforms(rule, semi_naive, types, store),
        consistent(rule, binding),
        drawn(rule, semi_naive, binding, store),
        head_variable(rule, x),
        typed_at(types, rule.body, x, t, c, j),
    ensures
        has_type(value_at(binding, firsts(rule, x)[0])->0, t),
{
    let place = (c, j);
    assert(rule.body[c].terms()[j].variable_name() == Some(x));
    assert(occurs(rule, x, place));
    lemma_firsts(rule, x);
    lemma_occurs_in(rule, x, place);
    assert(firsts(rule, x).contains(first_place(rule.body, x, c)));
    let first = firsts(rule, x)[0];
    assert(occurs_in(rule.body, x, first.0));
    lemma_places(rule, x, first.0);
    assert(occurs(rule, x, first));
    assert(value_at(binding, place) is Some);
    if place != first {
        assert(value_at(binding, place) == value_at(binding, first));
    }
    let table = table_name(rule, c, semi_naive);
    assert(is_atom_clause(rule, c));
    assert(binding.dom().contains(c));
    assert(store.dom().contains(table) && store[table].contains(binding[c]));
    assert(lookup(types, rule.body[c].to_string()) is Some);
    assert(row_conforms(binding[c], lookup(types, rule.body[c].to_string())->0));
    assert(value_at(binding, place) == Some(binding[c][j]));
}

/// Type soundness of a rule, also as a semi-naive step: where the rows
/// that the atoms of the body read conform to the types of their
/// relations, each row that the rule yields conforms to the types that the
/// rule gives its head.
pub proof fn lemma_rows_conform_as(
    rule: RuleView,
    semi_naive: bool,
    types: Types,
    store: Store,
    row: Row,
)
    requires
        rule_types(types, rule) is Ok,
        selection(rule, semi_naive) is Ok,
        body_conforms(rule, semi_naive, types, store),
        rows(selection(rule, semi_naive)->Ok_0, store).contains(row),
    ensures
        row_conforms(row, rule_types(types, rule)->Ok_0),
{
    let compiled = selection(rule, semi_naive)->Ok_0;
    let binding = choose|binding: Binding| yields(compiled, store, binding, row);
    lemma_fits_consistent(rule, semi_naive, binding);
    lemma_projected(rule, semi_naive, binding);
    lemma_drawn(rule, semi_naive, binding, store);
    let columns = rule_types(types, rule)->Ok_0;
    assert(row == head_row(rule, binding));
    assert forall|i: int| 0 <= i < row.len() implies has_type(#[trigger] row[i], columns[i]) by {
        lemma_position_conforms(rule, semi_naive, types, store, binding, i);
    }
    if rule.head.terms.len() > 0 {
        lemma_position_conforms(rule, semi_naive, types, store, binding, 0);
    } else {
        let witnesses = body_witnesses(types, rule.body, rule.body.len() as int)->Ok_0;
        lemma_head_types(witnesses, rule.head, 0);
    }
}

/// Whether each value of a row is one of `domain`.
pub open spec fn row_over(row: Row, domain: Set<Value>) -> bool {
    forall|i: int| 0 <= i < row.len() ==> domain.contains(#[trigger] row[i])
}

/// Whether each value in the store is one of `domain`.
pub open spec fn store_over(store: Store, domain: Set<Value>) -> bool {
    forall|name: Seq<char>, row: Row|
        store.dom().contains(name) && #[trigger] store[name].contains(row) ==> row_over(
            row,
            domain,
        )
}

/// Whether each constant of the head is one of `domain`.
pub open spec fn head_over(rule: RuleView, domain: Set<Value>) -> bool {
    forall|i: int|
        0 <= i < rule.head.terms.len() ==> ((#[trigger] rule.head.terms[i]) matches TermView::Constant(
            k,
        ) ==> domain.contains(k))
}

/// A rule makes no value: each row that it yields has a value for each
/// head position, and each of its values is a constant of the head or a
/// value of the store.
pub proof fn lemma_rows_over_domain(
    rule: RuleView,
    semi_naive: bool,
    store: Store,
    domain: Set<Value>,
    row: Row,
)
    requires
        selection(rule, semi_naive) is Ok,
        store_over(store, domain),
        head_over(rule, domain),
        rows(selection(rule, semi_naive)->Ok_0, store).contains(row),
    ensures
        row.len() == rule.head.terms.len(),
        row_over(row, domain),
{
    let compiled = selection(rule, semi_naive)->Ok_0;
    let binding = choose|binding: Binding| yields(compiled, store, binding, row);
    lemma_fits_consistent(rule, semi_naive, binding);
    lemma_projected(rule, semi_naive, binding);
    lemma_drawn(rule, semi_naive, binding, store);
    assert(row == head_row(rule, binding));
    assert forall|i: int| 0 <= i < row.len() implies domain.contains(#[trigger] row[i]) by {
        lemma_head_projection(rule, semi_naive, i);
        match rule.head.terms[i] {
            TermView::Constant(k) => {
                assert(rule.head.terms[i] == TermView::Constant(k));
            },
            _ => {
                let x = rule.head.terms[i].variable_name()->0;
                lemma_source(rule, x);
                lemma_firsts(rule, x);
                let first = firsts(rule, x)[0];
                assert(occurs_in(rule.body, x, first.0));
                lemma_places(rule, x, first.0);
                assert(occurs(rule, x, first));
                assert(head_variable(rule, x));
                assert(value_at(binding, first) is Some);
                assert(is_atom_clause(rule, first.0));
                let table = table_name(rule, first.0, semi_naive);
                assert(store.dom().contains(table) && store[table].contains(binding[first.0]));
                assert(row_over(binding[first.0], domain));
                assert(row[i] == binding[first.0][first.1]);
            },
        }
    }
}

/// Whether no atom of the body is over the table of the rows that the
/// last step added to the head's relation.
pub open spec fn keeps_off_delta(rule: RuleView) -> bool {
    forall|c: int|
        0 <= c < rule.body.len() && (#[trigger] rule.body[c]) is Atom ==> rule.body[c].to_string()
            != delta_table(rule.head.predicate)
}

/// Whether at most one atom of the body is over the head's relation.
pub open spec fn linear(rule: RuleView) -> bool {
    forall|a: int, b: int|
        0 <= a < rule.body.len() && 0 <= b < rule.body.len() && (#[trigger] rule.body[a]) is Atom
            && (#[trigger] rule.body[b]) is Atom && rule.body[a].to_string() == rule.head.predicate
            && rule.body[b].to_string() == rule.head.predicate ==> a == b
}

/// The semi-naive step of a rule with at most one clause over the head's
/// relation reads the delta for one clause at most.
pub proof fn lemma_plain_reads_once(rule: RuleView)
    requires
        keeps_off_delta(rule),
        linear(rule),
        selection(rule, true) is Ok,
    ensures
        reads_once(selection(rule, true)->Ok_0, delta_table(rule.head.predicate)),
{
    let dict = var_dict(rule);
    let step = selection(rule, true)->Ok_0;
    let p = rule.head.predicate;
    let d = delta_table(p);
    let n = rule.body.len() as int;
    lemma_anchor(rule);
    lemma_joins_members(rule, true, n);
    lemma_joins_apart(rule, true, n);
    assert forall|j: int| 0 <= j < step.joins.len() && (#[trigger] step.joins[j]).table
        == d implies 0 <= step.joins[j].clause < n && rule.body[step.joins[j].clause].to_string()
        == p && anchor(rule, dict) != Some(step.joins[j].clause) by {
        assert(is_join(rule, true, n, step.joins[j]));
        let e = choose|e: int|
            0 <= e < n && #[trigger] joined(rule, e) && step.joins[j] == join_of(rule, true, e);
        assert(step.joins[j].clause == e);
        assert(rule.body[e].to_string() != d);
    }
    assert forall|i: int, j: int|
        0 <= i < step.joins.len() && 0 <= j < step.joins.len() && (#[trigger] step.joins[i]).table
            == d && (#[trigger] step.joins[j]).table == d implies i == j by {
        let a = step.joins[i].clause;
        let b = step.joins[j].clause;
        assert(rule.body[a].to_string() == p && rule.body[b].to_string() == p);
        assert(a == b);
    }
    if step.from is Some && step.from->Some_0.0 == d {
        let a = anchor(rule, dict)->0;
        assert(rule.body[a].to_string() != d);
        assert(rule.body[a].to_string() == p);
        assert forall|j: int| 0 <= j < step.joins.len() implies (#[trigger] step.joins[j]).table
            != d by {
            if step.joins[j].table == d {
                let b = step.joins[j].clause;
                assert(rule.body[b].to_string() == p);
                assert(a == b);
            }
        }
    }
}

/// A rule compiles for a semi-naive step exactly if it compiles.
pub proof fn lemma_selects_both(rule: RuleView)
    ensures
        selection(rule, true) is Ok <==> selection(rule, false) is Ok,
{
    let dict = var_dict(rule);
    let n = rule.head.terms.len() as int;
    if selection(rule, false) is Ok {
        lemma_projections(rule, false, n);
        assert forall|i: int| 0 <= i < n implies (#[trigger] projection_at(rule, dict, true, i))
            is Ok by {
            let there = projections(rule, dict, false, n)->Ok_0[i];
            assert(projection_at(rule, dict, false, i) is Ok);
        }
        lemma_projections_ok(rule, true, n);
    }
    if selection(rule, true) is Ok {
        lemma_projections(rule, true, n);
        assert forall|i: int| 0 <= i < n implies (#[trigger] projection_at(rule, dict, false, i))
            is Ok by {
            let there = projections(rule, dict, true, n)->Ok_0[i];
            assert(projection_at(rule, dict, true, i) is Ok);
        }
        lemma_projections_ok(rule, false, n);
    }
}

} // verus!
