//! What type inference guarantees: every relation that it types has as
//! many column types as the head of a rule of it has terms, and every base
//! relation is typed.

use vstd::prelude::*;
use crate::engine::analysis::{
    body_witnesses, DataType, declared, declared_types, derived_types, group_types, head_types,
    inferred, inserted, lookup, rule_types, Types,
};
use crate::syntax::ast::{AtomView, RuleView, TermView};
use crate::syntax::context::ContextView;
use crate::text::{entry_index, keys, lemma_entry_index};

verus! {

/// Whether a rule of the context has `name` as its head, with as many
/// terms as `columns` has types.
pub open spec fn rule_of_arity(context: ContextView, name: Seq<char>, columns: Seq<DataType>) -> bool {
    ||| exists|e: int|
        0 <= e < context.edbs.len() && (#[trigger] context.edbs[e]).head.predicate == name
            && context.edbs[e].head.terms.len() == columns.len()
    ||| exists|g: int, r: int|
        0 <= g < context.idbs.len() && 0 <= r < context.idbs[g].1.len() && (
        #[trigger] context.idbs[g].1[r]).head.predicate == name
            && context.idbs[g].1[r].head.terms.len() == columns.len()
}

/// Whether every relation that has types has them from a rule of the
/// context.
pub open spec fn arities_known(context: ContextView, types: Types) -> bool {
    forall|k: int|
        0 <= k < types.len() ==> rule_of_arity(context, (#[trigger] types[k]).0, types[k].1)
}

/// After an insertion the relation has the types that were put, and every
/// other relation the types that it had.
pub proof fn lemma_inserted<T>(entries: Seq<(Seq<char>, T)>, name: Seq<char>, value: T)
    ensures
        lookup(inserted(entries, name, value), name) == Some(value),
        forall|other: Seq<char>|
            other != name ==> lookup(inserted(entries, name, value), other) == lookup(
                entries,
                other,
            ),
        forall|k: int|
            0 <= k < inserted(entries, name, value).len() ==> (#[trigger] inserted(
                entries,
                name,
                value,
            )[k]) == (name, value) || (k < entries.len() && inserted(entries, name, value)[k]
                == entries[k]),
{
    let now = inserted(entries, name, value);
    let e = entry_index(entries, name);
    lemma_entry_index(entries, name);
    lemma_entry_index(now, name);
    let f = entry_index(now, name);
    if e < entries.len() {
        assert(now[e] == (name, value));
        assert(f <= e);
        if f < e {
            assert(now[f] == entries[f]);
        }
    } else {
        assert(now[entries.len() as int] == (name, value));
        if f < entries.len() {
            assert(now[f] == entries[f]);
        }
    }
    assert forall|other: Seq<char>| other != name implies lookup(now, other) == lookup(
        entries,
        other,
    ) by {
        lemma_entry_index(entries, other);
        lemma_entry_index(now, other);
        let a = entry_index(entries, other);
        let b = entry_index(now, other);
        if a < entries.len() {
            assert(now[a] == entries[a]);
            assert(b <= a);
            if b < a {
                assert(now[b].0 == other);
                assert(now[b] == entries[b]);
            }
        } else {
            if b < now.len() {
                if b < entries.len() {
                    assert(now[b] == entries[b] || now[b] == (name, value));
                }
            }
        }
    }
}

/// The types that a head declares are as many as its terms.
pub proof fn lemma_declared_types_len(terms: Seq<TermView>, n: int)
    requires
        0 <= n,
        declared_types(terms, n) is Ok,
    ensures
        declared_types(terms, n)->Ok_0.len() == n,
    decreases n,
{
    if n > 0 {
        lemma_declared_types_len(terms, n - 1);
    }
}

/// The types that a rule gives its head are as many as the terms of the
/// head.
pub proof fn lemma_head_types_len(
    witnesses: Seq<(Seq<char>, DataType)>,
    head: AtomView,
    n: int,
)
    requires
        0 <= n,
        head_types(witnesses, head, n) is Ok,
    ensures
        head_types(witnesses, head, n)->Ok_0.len() == n,
    decreases n,
{
    if n > 0 {
        lemma_head_types_len(witnesses, head, n - 1);
    }
}

/// After the base relations have declared their types, each of them is
/// typed, and every relation that was typed still is.
pub proof fn lemma_declared(context: ContextView, types: Types, n: int)
    requires
        0 <= n <= context.edbs.len(),
        arities_known(context, types),
        declared(types, context.edbs, n) is Ok,
    ensures
        arities_known(context, declared(types, context.edbs, n)->Ok_0),
        forall|e: int|
            0 <= e < n ==> lookup(
                declared(types, context.edbs, n)->Ok_0,
                (#[trigger] context.edbs[e]).head.predicate,
            ) is Some,
        forall|name: Seq<char>|
            lookup(types, name) is Some ==> lookup(declared(types, context.edbs, n)->Ok_0, name)
                is Some,
    decreases n,
{
    if n > 0 {
        lemma_declared(context, types, n - 1);
        let before = declared(types, context.edbs, n - 1)->Ok_0;
        let rule = context.edbs[n - 1];
        let columns = declared_types(rule.head.terms, rule.head.terms.len() as int)->Ok_0;
        lemma_declared_types_len(rule.head.terms, rule.head.terms.len() as int);
        lemma_inserted(before, rule.head.predicate, columns);
        let now = inserted(before, rule.head.predicate, columns);
        assert(rule_of_arity(context, rule.head.predicate, columns));
        assert forall|k: int| 0 <= k < now.len() implies rule_of_arity(
            context,
            (#[trigger] now[k]).0,
            now[k].1,
        ) by {
            if now[k] != (rule.head.predicate, columns) {
                assert(now[k] == before[k]);
            }
        }
    }
}

/// After the base cases of a relation have given it types, every type
/// entry is from a rule, and every relation that was typed still is.
pub proof fn lemma_group_types(
    context: ContextView,
    types: Types,
    g: int,
    previous: Seq<Seq<char>>,
    n: int,
)
    requires
        0 <= g < context.idbs.len(),
        0 <= n <= context.idbs[g].1.len(),
        arities_known(context, types),
        group_types(types, context.idbs[g].1, previous, n) is Ok,
    ensures
        arities_known(context, group_types(types, context.idbs[g].1, previous, n)->Ok_0),
        forall|name: Seq<char>|
            lookup(types, name) is Some ==> lookup(
                group_types(types, context.idbs[g].1, previous, n)->Ok_0,
                name,
            ) is Some,
    decreases n,
{
    if n > 0 {
        lemma_group_types(context, types, g, previous, n - 1);
        let rules = context.idbs[g].1;
        let before = group_types(types, rules, previous, n - 1)->Ok_0;
        let rule = rules[n - 1];
        if rule.is_base_case(previous) {
            let columns = rule_types(before, rule)->Ok_0;
            let witnesses = body_witnesses(before, rule.body, rule.body.len() as int)->Ok_0;
            lemma_head_types_len(witnesses, rule.head, rule.head.terms.len() as int);
            lemma_inserted(before, rule.head.predicate, columns);
            let now = inserted(before, rule.head.predicate, columns);
            assert(rule_of_arity(context, rule.head.predicate, columns));
            assert forall|k: int| 0 <= k < now.len() implies rule_of_arity(
                context,
                (#[trigger] now[k]).0,
                now[k].1,
            ) by {
                if now[k] != (rule.head.predicate, columns) {
                    assert(now[k] == before[k]);
                }
            }
        }
    }
}

/// After the derived relations have been typed, every type entry is from
/// a rule, and every relation that was typed still is.
pub proof fn lemma_derived_types(
    context: ContextView,
    types: Types,
    base: Seq<Seq<char>>,
    order: Seq<Seq<char>>,
    n: int,
)
    requires
        0 <= n <= order.len(),
        arities_known(context, types),
        derived_types(types, context.idbs, base, order, n) is Ok,
    ensures
        arities_known(context, derived_types(types, context.idbs, base, order, n)->Ok_0),
        forall|name: Seq<char>|
            lookup(types, name) is Some ==> lookup(
                derived_types(types, context.idbs, base, order, n)->Ok_0,
                name,
            ) is Some,
    decreases n,
{
    if n > 0 {
        lemma_derived_types(context, types, base, order, n - 1);
        let before = derived_types(types, context.idbs, base, order, n - 1)->Ok_0;
        let g = entry_index(context.idbs, order[n - 1]);
        lemma_entry_index(context.idbs, order[n - 1]);
        lemma_group_types(
            context,
            before,
            g,
            base + order.take(n - 1),
            context.idbs[g].1.len() as int,
        );
    }
}

/// The guarantee of type inference: every relation that is typed has as
/// many column types as the head of one of its rules has terms, and every
/// base relation is typed.
pub proof fn law_types_have_arity(context: ContextView)
    requires
        inferred(Seq::empty(), context) is Ok,
    ensures
        arities_known(context, inferred(Seq::empty(), context)->Ok_0),
        forall|e: int|
            0 <= e < context.edbs.len() ==> lookup(
                inferred(Seq::empty(), context)->Ok_0,
                (#[trigger] context.edbs[e]).head.predicate,
            ) is Some,
{
    let start = Seq::<(Seq<char>, Seq<DataType>)>::empty();
    lemma_declared(context, start, context.edbs.len() as int);
    let after = declared(start, context.edbs, context.edbs.len() as int)->Ok_0;
    let order = context.ordered_idbs();
    lemma_derived_types(context, after, context.edb_names(), order, order.len() as int);
}


/// An insertion puts no name twice where none stood twice.
pub proof fn lemma_inserted_unique<T>(entries: Seq<(Seq<char>, T)>, name: Seq<char>, value: T)
    requires
        keys(entries).no_duplicates(),
    ensures
        keys(inserted(entries, name, value)).no_duplicates(),
{
    let now = inserted(entries, name, value);
    let e = entry_index(entries, name);
    lemma_entry_index(entries, name);
    assert forall|a: int, b: int| 0 <= a < now.len() && 0 <= b < now.len() && a != b implies keys(
        now,
    )[a] != keys(now)[b] by {
        if e < entries.len() {
            assert(keys(now)[a] == keys(entries)[a]);
            assert(keys(now)[b] == keys(entries)[b]);
        } else {
            if a < entries.len() && b < entries.len() {
                assert(keys(now)[a] == keys(entries)[a]);
                assert(keys(now)[b] == keys(entries)[b]);
            } else if a < entries.len() {
                assert(entries[a].0 != name);
            } else {
                assert(entries[b].0 != name);
            }
        }
    }
}

/// The declarations of the base relations put no name twice.
pub proof fn lemma_declared_unique(types: Types, edbs: Seq<RuleView>, n: int)
    requires
        0 <= n <= edbs.len(),
        keys(types).no_duplicates(),
        declared(types, edbs, n) is Ok,
    ensures
        keys(declared(types, edbs, n)->Ok_0).no_duplicates(),
    decreases n,
{
    if n > 0 {
        lemma_declared_unique(types, edbs, n - 1);
        let before = declared(types, edbs, n - 1)->Ok_0;
        let columns = declared_types(edbs[n - 1].head.terms, edbs[n - 1].head.terms.len() as int)->Ok_0;
        lemma_inserted_unique(before, edbs[n - 1].head.predicate, columns);
    }
}

/// The types of the base cases of a relation put no name twice.
pub proof fn lemma_group_types_unique(
    types: Types,
    rules: Seq<RuleView>,
    previous: Seq<Seq<char>>,
    n: int,
)
    requires
        0 <= n <= rules.len(),
        keys(types).no_duplicates(),
        group_types(types, rules, previous, n) is Ok,
    ensures
        keys(group_types(types, rules, previous, n)->Ok_0).no_duplicates(),
    decreases n,
{
    if n > 0 {
        lemma_group_types_unique(types, rules, previous, n - 1);
        let before = group_types(types, rules, previous, n - 1)->Ok_0;
        if rules[n - 1].is_base_case(previous) {
            lemma_inserted_unique(
                before,
                rules[n - 1].head.predicate,
                rule_types(before, rules[n - 1])->Ok_0,
            );
        }
    }
}

/// The types of the derived relations put no name twice.
pub proof fn lemma_derived_types_unique(
    types: Types,
    idbs: Seq<(Seq<char>, Seq<RuleView>)>,
    base: Seq<Seq<char>>,
    order: Seq<Seq<char>>,
    n: int,
)
    requires
        0 <= n <= order.len(),
        keys(types).no_duplicates(),
        derived_types(types, idbs, base, order, n) is Ok,
    ensures
        keys(derived_types(types, idbs, base, order, n)->Ok_0).no_duplicates(),
    decreases n,
{
    if n > 0 {
        lemma_derived_types_unique(types, idbs, base, order, n - 1);
        let before = derived_types(types, idbs, base, order, n - 1)->Ok_0;
        let rules = lookup(idbs, order[n - 1])->0;
        lemma_group_types_unique(before, rules, base + order.take(n - 1), rules.len() as int);
    }
}

/// Type inference types no relation twice: where no name stands twice
/// among the relations that are typed, none does after inference.
pub proof fn law_types_unique(types: Types, context: ContextView)
    requires
        keys(types).no_duplicates(),
        inferred(types, context) is Ok,
    ensures
        keys(inferred(types, context)->Ok_0).no_duplicates(),
{
    lemma_declared_unique(types, context.edbs, context.edbs.len() as int);
    let after = declared(types, context.edbs, context.edbs.len() as int)->Ok_0;
    let order = context.ordered_idbs();
    lemma_derived_types_unique(after, context.idbs, context.edb_names(), order, order.len() as int);
}

} // verus!
