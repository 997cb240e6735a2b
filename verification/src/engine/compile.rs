//! The rule compiler: from a rule and the index of its variables to the
//! selection that computes the head's rows from the body's tables.
//!
//! Each body atom reads the table of its predicate, under a name of its
//! own, so that two atoms over one predicate are two readings. In a
//! semi-naive step an atom over the head's own predicate reads the table of
//! the rows that the last step added. Arithmetic clauses take no part in
//! the selection. A negated atom gives no value and is not joined: the
//! selection asks that its table has no row that stands against the rule.
//!
//! The order of what is generated is fixed: variables stand in the order
//! of their first occurrence in the body, joins in the order of the
//! clauses, and of several occurrences that could give a head position its
//! value the one in the earliest clause is taken.

use vstd::prelude::*;
use crate::engine::analysis::{
    group_ok, int_pairs, lemma_var_dict_well_formed, var_dict, VarDict, VarDictView, VarGroup,
    VarGroupView,
};
use crate::engine::query::{
    Column, ColumnView, Condition, ConditionView, Join, JoinView, Projection, ProjectionView,
    Selection, SelectionView,
};
use crate::error::{Failure, FailureView};
use crate::syntax::ast::{
    Arith, ArithView, Atom, Clause, ClauseView, Constant, ConstantView, Operator, OperatorView,
    Rule, RuleView, Term, TermView, Variable, VariableView,
};
use crate::text::{entry_index, views};

verus! {

/// An occurrence of a variable: the position of the clause in the body and
/// the position of the term in the clause.
pub type Place = (int, int);

/// Two occurrences of one variable that must hold the same value.
pub type Link = (Place, Place);

/// The table that the clause at position `c` reads.
pub open spec fn table_name(rule: RuleView, c: int, semi_naive: bool) -> Seq<char> {
    let name = rule.body[c].to_string();
    if semi_naive && name == rule.head.predicate {
        "delta_"@ + name
    } else {
        name
    }
}

/// The column that the occurrence `place` reads: the column at its term
/// position, of the table that its clause reads.
pub open spec fn column_at(place: Place) -> ColumnView {
    ColumnView { clause: place.0, index: place.1 }
}

/// The first occurrence in each atom among the first `n` groups of a
/// variable, in body order.
pub open spec fn atom_firsts(groups: Seq<VarGroupView>, n: int) -> Seq<Place>
    decreases n,
{
    if n <= 0 {
        Seq::empty()
    } else if groups[n - 1].is_arith {
        atom_firsts(groups, n - 1)
    } else {
        atom_firsts(groups, n - 1).push((groups[n - 1].clause_index, groups[n - 1].term_indexes[0]))
    }
}

/// Among the first `n` of `places`, the one with the smallest term
/// position; of several such, the first.
pub open spec fn smallest(places: Seq<Place>, n: int) -> Place
    decreases n,
{
    if n <= 1 {
        places[0]
    } else if places[n - 1].1 < smallest(places, n - 1).1 {
        places[n - 1]
    } else {
        smallest(places, n - 1)
    }
}

/// The groups of `name` in the index; none where `name` does not occur.
pub open spec fn groups_of(dict: VarDictView, name: Seq<char>) -> Seq<VarGroupView> {
    let k = entry_index(dict.body, name);
    if k < dict.body.len() {
        dict.body[k].1
    } else {
        Seq::empty()
    }
}

/// The occurrence that gives a head variable its value: among the
/// occurrences of `name` in body atoms, the one with the smallest term
/// position, and of several such the one in the earliest clause.
pub open spec fn source(dict: VarDictView, name: Seq<char>) -> Option<Place> {
    let firsts = atom_firsts(groups_of(dict, name), groups_of(dict, name).len() as int);
    if firsts.len() == 0 {
        None
    } else {
        Some(smallest(firsts, firsts.len() as int))
    }
}

/// What the head position `i` projects.
pub open spec fn projection_at(rule: RuleView, dict: VarDictView, semi_naive: bool, i: int) -> Result<
    ProjectionView,
    FailureView,
> {
    match rule.head.terms[i] {
        TermView::Constant(k) => Ok(ProjectionView::Literal(k)),
        TermView::Variable(VariableView::Free) => Err(
            FailureView::FreeVarInHead(rule.head.predicate),
        ),
        TermView::Variable(VariableView::Distinguished(name)) | TermView::Variable(
            VariableView::Undistinguished(name),
        ) => match source(dict, name) {
            Some(place) => Ok(ProjectionView::Column(column_at(place))),
            None => Err(
                FailureView::UnwitnessedHeadVar { variable: name, predicate: rule.head.predicate },
            ),
        },
    }
}

/// What the first `n` head positions project, or the error of the first
/// position that projects nothing.
pub open spec fn projections(rule: RuleView, dict: VarDictView, semi_naive: bool, n: int) -> Result<
    Seq<ProjectionView>,
    FailureView,
>
    decreases n,
{
    if n <= 0 {
        Ok(Seq::empty())
    } else {
        match projections(rule, dict, semi_naive, n - 1) {
            Err(e) => Err(e),
            Ok(before) => match projection_at(rule, dict, semi_naive, n - 1) {
                Err(e) => Err(e),
                Ok(p) => Ok(before.push(p)),
            },
        }
    }
}

/// The position of the first atom among the first `n` clauses.
pub open spec fn first_atom(body: Seq<ClauseView>, n: int) -> Option<int>
    decreases n,
{
    if n <= 0 {
        None
    } else {
        match first_atom(body, n - 1) {
            Some(c) => Some(c),
            None => if body[n - 1] is Atom {
                Some(n - 1)
            } else {
                None
            },
        }
    }
}

/// The clause whose table stands after `FROM`: the clause of the source of
/// head position 0; where that position holds no variable with a source,
/// the first atom of the body.
pub open spec fn anchor(rule: RuleView, dict: VarDictView) -> Option<int> {
    let by_head = if rule.head.terms.len() > 0 {
        match rule.head.terms[0].variable_name() {
            Some(name) => source(dict, name),
            None => None,
        }
    } else {
        None
    };
    match by_head {
        Some(place) => Some(place.0),
        None => first_atom(rule.body, rule.body.len() as int),
    }
}

/// The links from the first of `firsts` to each of the others.
pub open spec fn entry_links(firsts: Seq<Place>) -> Seq<Link> {
    Seq::new(
        if firsts.len() > 0 {
            (firsts.len() - 1) as nat
        } else {
            0
        },
        |i: int| (firsts[0], firsts[i + 1]),
    )
}

/// The links of the first `n` variables of the index: for each variable
/// that occurs in two atoms or more, from its first atom to each other.
pub open spec fn links(dict: VarDictView, n: int) -> Seq<Link>
    decreases n,
{
    if n <= 0 {
        Seq::empty()
    } else {
        links(dict, n - 1) + entry_links(
            atom_firsts(dict.body[n - 1].1, dict.body[n - 1].1.len() as int),
        )
    }
}

/// Those of the first `n` of `all` that have an end in the clause `c`.
pub open spec fn links_at(all: Seq<Link>, c: int, n: int) -> Seq<Link>
    decreases n,
{
    if n <= 0 {
        Seq::empty()
    } else if all[n - 1].0.0 == c || all[n - 1].1.0 == c {
        links_at(all, c, n - 1).push(all[n - 1])
    } else {
        links_at(all, c, n - 1)
    }
}

/// The equality conditions that `links` stand for.
pub open spec fn link_conditions(links: Seq<Link>) -> Seq<
    ConditionView,
> {
    Seq::new(
        links.len(),
        |i: int|
            ConditionView::Columns(
                column_at(links[i].0),
                column_at(links[i].1),
            ),
    )
}

/// The joins of the first `n` clauses: each atom but the anchor is joined
/// on the links that end in it; without a condition where none does.
pub open spec fn joins(rule: RuleView, dict: VarDictView, semi_naive: bool, n: int) -> Seq<JoinView>
    decreases n,
{
    if n <= 0 {
        Seq::empty()
    } else {
        let all = links(dict, dict.body.len() as int);
        let mine = links_at(all, n - 1, all.len() as int);
        if anchor(rule, dict) != Some(n - 1) && rule.body[n - 1] is Atom {
            joins(rule, dict, semi_naive, n - 1).push(
                JoinView {
                    table: table_name(rule, n - 1, semi_naive),
                    clause: n - 1,
                    on: link_conditions(mine),
                },
            )
        } else {
            joins(rule, dict, semi_naive, n - 1)
        }
    }
}

/// The links within one group: from its first position to each other.
pub open spec fn group_links(g: VarGroupView) -> Seq<Link> {
    Seq::new(
        if g.term_indexes.len() > 0 {
            (g.term_indexes.len() - 1) as nat
        } else {
            0
        },
        |i: int| ((g.clause_index, g.term_indexes[0]), (g.clause_index, g.term_indexes[i + 1])),
    )
}

/// The links within the atoms among the first `n` of `groups`.
pub open spec fn groups_links(groups: Seq<VarGroupView>, n: int) -> Seq<Link>
    decreases n,
{
    if n <= 0 {
        Seq::empty()
    } else if groups[n - 1].is_arith {
        groups_links(groups, n - 1)
    } else {
        groups_links(groups, n - 1) + group_links(groups[n - 1])
    }
}

/// The links within single atoms, for the first `n` variables of the
/// index: where a variable occurs twice or more in one atom, from its first
/// position there to each other.
pub open spec fn self_links(dict: VarDictView, n: int) -> Seq<Link>
    decreases n,
{
    if n <= 0 {
        Seq::empty()
    } else {
        self_links(dict, n - 1) + groups_links(dict.body[n - 1].1, dict.body[n - 1].1.len() as int)
    }
}

/// The constants among the first `n` terms of the atom at position `c`,
/// each as a condition on its column.
pub open spec fn atom_constants(rule: RuleView, c: int, n: int) -> Seq<
    ConditionView,
>
    decreases n,
{
    if n <= 0 {
        Seq::empty()
    } else {
        match rule.body[c].terms()[n - 1] {
            TermView::Constant(k) => atom_constants(rule, c, n - 1).push(
                ConditionView::Constant(column_at((c, n - 1)), k),
            ),
            _ => atom_constants(rule, c, n - 1),
        }
    }
}

/// The constants in the atoms among the first `n` clauses.
pub open spec fn constant_filters(rule: RuleView, n: int) -> Seq<ConditionView>
    decreases n,
{
    if n <= 0 {
        Seq::empty()
    } else if rule.body[n - 1] is Atom {
        constant_filters(rule, n - 1) + atom_constants(rule, n - 1, rule.body[n - 1].terms().len() as int)
    } else {
        constant_filters(rule, n - 1)
    }
}

/// The selection that computes the rows of the head of a rule without
/// negated atoms: one projection for each head position, the anchor after
/// `FROM`, a join for each other atom, and as filters the equalities within
/// single atoms, then the constants of the body.
pub open spec fn selection(rule: RuleView, semi_naive: bool) -> Result<SelectionView, FailureView> {
    let dict = var_dict(rule);
    match projections(rule, dict, semi_naive, rule.head.terms.len() as int) {
        Err(e) => Err(e),
        Ok(projection) => Ok(
            SelectionView {
                projection,
                from: match anchor(rule, dict) {
                    Some(c) => Some((table_name(rule, c, semi_naive), c)),
                    None => None,
                },
                joins: joins(rule, dict, semi_naive, rule.body.len() as int),
                filters: link_conditions(self_links(dict, dict.body.len() as int))
                    + constant_filters(rule, rule.body.len() as int),
                absent: Seq::empty(),
            },
        ),
    }
}

/// The expression `true`, which holds whatever the rows are.
pub open spec fn truth() -> ClauseView {
    ClauseView::Arithmetic(
        ArithView {
            operator: OperatorView::Leaf(TermView::Constant(ConstantView::Boolean(true))),
            lhs: None,
            rhs: None,
        },
    )
}

/// Whether the clause at position `c` is a negated atom.
pub open spec fn is_negated(rule: RuleView, c: int) -> bool {
    0 <= c < rule.body.len() && (rule.body[c] matches ClauseView::Atom(a) && a.negation)
}

/// The rule without its negated atoms: each clause at its position, with
/// the expression `true` in the place of a negated atom.
pub open spec fn affirmed(rule: RuleView) -> RuleView {
    RuleView {
        io: rule.io,
        head: rule.head,
        body: Seq::new(
            rule.body.len(),
            |c: int|
                if is_negated(rule, c) {
                    truth()
                } else {
                    rule.body[c]
                },
        ),
    }
}

/// The first position among the first `n` terms that holds the variable
/// `x`.
pub open spec fn first_among(terms: Seq<TermView>, x: Seq<char>, n: int) -> Option<int>
    decreases n,
{
    if n <= 0 {
        None
    } else {
        match first_among(terms, x, n - 1) {
            Some(j) => Some(j),
            None => if terms[n - 1].variable_name() == Some(x) {
                Some(n - 1)
            } else {
                None
            },
        }
    }
}

/// What a row of the table of the negated atom at position `c` must hold
/// at the term position `j` to stand against the rule: the constant that
/// stands there; the value of the variable that stands there, as its
/// source among the atoms gives it; for a variable of negated atoms only,
/// the value at its first position in this atom. The placeholder and the
/// first position of such a variable ask nothing.
pub open spec fn absence_condition(
    terms: Seq<TermView>,
    dict: VarDictView,
    c: int,
    j: int,
) -> Option<ConditionView> {
    match terms[j] {
        TermView::Constant(k) => Some(ConditionView::Constant(column_at((c, j)), k)),
        term => match term.variable_name() {
            None => None,
            Some(x) => match source(dict, x) {
                Some(place) => Some(ConditionView::Columns(column_at(place), column_at((c, j)))),
                None => match first_among(terms, x, j) {
                    Some(first) => Some(
                        ConditionView::Columns(column_at((c, first)), column_at((c, j))),
                    ),
                    None => None,
                },
            },
        },
    }
}

/// The conditions of the first `n` term positions of the negated atom at
/// position `c`.
pub open spec fn absence_conditions(
    terms: Seq<TermView>,
    dict: VarDictView,
    c: int,
    n: int,
) -> Seq<ConditionView>
    decreases n,
{
    if n <= 0 {
        Seq::empty()
    } else {
        match absence_condition(terms, dict, c, n - 1) {
            Some(condition) => absence_conditions(terms, dict, c, n - 1).push(condition),
            None => absence_conditions(terms, dict, c, n - 1),
        }
    }
}

/// What the negated atom at position `c` asks: that its table has no row
/// that meets its conditions.
pub open spec fn absence(rule: RuleView, dict: VarDictView, semi_naive: bool, c: int) -> JoinView {
    JoinView {
        table: table_name(rule, c, semi_naive),
        clause: c,
        on: absence_conditions(
            rule.body[c].terms(),
            dict,
            c,
            rule.body[c].terms().len() as int,
        ),
    }
}

/// What the negated atoms among the first `n` clauses ask.
pub open spec fn absences(rule: RuleView, dict: VarDictView, semi_naive: bool, n: int) -> Seq<
    JoinView,
>
    decreases n,
{
    if n <= 0 {
        Seq::empty()
    } else if is_negated(rule, n - 1) {
        absences(rule, dict, semi_naive, n - 1).push(absence(rule, dict, semi_naive, n - 1))
    } else {
        absences(rule, dict, semi_naive, n - 1)
    }
}

/// The selection that computes the rows of the head of `rule`: that of
/// the rule without its negated atoms, which asks besides, for each
/// negated atom, that its table has no row that stands against the rule.
/// A negated atom is no source of a value and no anchor.
pub open spec fn compiled(rule: RuleView, semi_naive: bool) -> Result<SelectionView, FailureView> {
    match selection(affirmed(rule), semi_naive) {
        Err(e) => Err(e),
        Ok(plain) => Ok(
            SelectionView {
                projection: plain.projection,
                from: plain.from,
                joins: plain.joins,
                filters: plain.filters,
                absent: absences(
                    rule,
                    var_dict(affirmed(rule)),
                    semi_naive,
                    rule.body.len() as int,
                ),
            },
        ),
    }
}

/// The table that rows of `rule`'s head are added to: the head's own in a
/// naive step, the table of candidate rows in a semi-naive step.
pub open spec fn destination(rule: RuleView, semi_naive: bool) -> Seq<char> {
    if semi_naive {
        "temp_"@ + rule.head.predicate
    } else {
        rule.head.predicate
    }
}


/// Whether each of `groups` lies in one of the first `n` clauses and lists
/// a position.
pub open spec fn groups_within(groups: Seq<VarGroupView>, n: int) -> bool {
    forall|g: int|
        0 <= g < groups.len() ==> 0 <= (#[trigger] groups[g]).clause_index < n
            && groups[g].term_indexes.len() > 0
}

/// Whether each of `places` lies in one of the first `n` clauses.
pub open spec fn places_within(places: Seq<Place>, n: int) -> bool {
    forall|i: int| 0 <= i < places.len() ==> 0 <= (#[trigger] places[i]).0 < n
}

/// Whether both ends of each of `links` lie in the first `n` clauses.
pub open spec fn links_within(links: Seq<Link>, n: int) -> bool {
    forall|i: int|
        0 <= i < links.len() ==> 0 <= (#[trigger] links[i]).0.0 < n && 0 <= links[i].1.0 < n
}

/// Links over machine indices as links over mathematical integers.
pub open spec fn link_views(s: Seq<((usize, usize), (usize, usize))>) -> Seq<Link> {
    Seq::new(
        s.len(),
        |i: int| ((s[i].0.0 as int, s[i].0.1 as int), (s[i].1.0 as int, s[i].1.1 as int)),
    )
}

/// A result of the compiler as mathematical values.
pub open spec fn result_view<T: View>(r: Result<T, Failure>) -> Result<T::V, FailureView> {
    match r {
        Ok(t) => Ok(t@),
        Err(e) => Err(e@),
    }
}

fn table_for(rule: &Rule, c: usize, semi_naive: bool) -> (t: String)
    requires
        c < rule.body@.len(),
    ensures
        t@ == table_name(rule@, c as int, semi_naive),
{
    let name = rule.body[c].to_string();
    assert(rule@.body[c as int] == rule.body@[c as int]@);
    if semi_naive && name == rule.head.predicate {
        let mut t = String::from_str("delta_");
        t.append(name.as_str());
        t
    } else {
        name
    }
}

fn column_for(place: (usize, usize)) -> (column: Column)
    ensures
        column@ == column_at((place.0 as int, place.1 as int)),
{
    Column { clause: place.0, index: place.1 }
}

fn firsts_of(groups: &Vec<VarGroup>, Ghost(n): Ghost<int>) -> (r: Vec<(usize, usize)>)
    requires
        groups_within(views(groups@), n),
    ensures
        int_pairs(r@) == atom_firsts(views(groups@), groups@.len() as int),
        places_within(int_pairs(r@), n),
{
    let mut r: Vec<(usize, usize)> = Vec::new();
    let mut g: usize = 0;
    while g < groups.len()
        invariant
            g <= groups.len(),
            groups_within(views(groups@), n),
            int_pairs(r@) == atom_firsts(views(groups@), g as int),
            places_within(int_pairs(r@), n),
        decreases groups.len() - g,
    {
        let ghost before = int_pairs(r@);
        let group = &groups[g];
        proof {
            assert(views(groups@)[g as int] == group@);
            assert(group@.term_indexes.len() == group.term_indexes@.len());
        }
        if !group.is_arith {
            r.push((group.clause_index, group.term_indexes[0]));
            assert(int_pairs(r@) =~= before.push(
                (group@.clause_index, group@.term_indexes[0]),
            ));
        }
        g = g + 1;
    }
    r
}

fn smallest_of(places: &Vec<(usize, usize)>) -> (r: (usize, usize))
    requires
        places@.len() > 0,
    ensures
        (r.0 as int, r.1 as int) == smallest(int_pairs(places@), places@.len() as int),
        exists|k: int| 0 <= k < places@.len() && places@[k] == r,
{
    let mut best = places[0];
    let mut i: usize = 1;
    while i < places.len()
        invariant
            1 <= i <= places.len(),
            (best.0 as int, best.1 as int) == smallest(int_pairs(places@), i as int),
            exists|k: int| 0 <= k < places@.len() && places@[k] == best,
        decreases places.len() - i,
    {
        if places[i].1 < best.1 {
            best = places[i];
        }
        i = i + 1;
    }
    best
}

fn source_of(dict: &VarDict, name: &String, Ghost(n): Ghost<int>) -> (r: Option<(usize, usize)>)
    requires
        forall|k: int| 0 <= k < dict@.body.len() ==> groups_within((#[trigger] dict@.body[k]).1, n),
    ensures
        match r {
            Some(p) => source(dict@, name@) == Some((p.0 as int, p.1 as int)) && p.0 < n,
            None => source(dict@, name@) is None,
        },
{
    let k = dict.find(name);
    if k < dict.clause_dict.len() {
        assert(dict@.body[k as int].1 == views(dict.clause_dict@[k as int].1@));
        let firsts = firsts_of(&dict.clause_dict[k].1, Ghost(n));
        if firsts.len() == 0 {
            None
        } else {
            let best = smallest_of(&firsts);
            proof {
                let i = choose|i: int| 0 <= i < firsts@.len() && firsts@[i] == best;
                assert(int_pairs(firsts@)[i].0 == best.0);
            }
            Some(best)
        }
    } else {
        None
    }
}


/// Whether every group of the index lies in the first `n` clauses and lists
/// a position.
pub open spec fn dict_within(dict: VarDictView, n: int) -> bool {
    forall|k: int| 0 <= k < dict.body.len() ==> groups_within((#[trigger] dict.body[k]).1, n)
}

/// The groups of the index of a rule lie in its body.
pub proof fn lemma_dict_within(rule: RuleView)
    ensures
        dict_within(var_dict(rule), rule.body.len() as int),
{
    lemma_var_dict_well_formed(rule);
    let dict = var_dict(rule);
    assert forall|k: int| 0 <= k < dict.body.len() implies groups_within(
        (#[trigger] dict.body[k]).1,
        rule.body.len() as int,
    ) by {
        assert forall|g: int| 0 <= g < dict.body[k].1.len() implies 0 <= (
        #[trigger] dict.body[k].1[g]).clause_index < rule.body.len()
            && dict.body[k].1[g].term_indexes.len() > 0 by {
            assert(group_ok(rule.body, dict.body[k].0, dict.body[k].1[g]));
        }
    }
}

fn project(rule: &Rule, dict: &VarDict, semi_naive: bool, i: usize) -> (r: Result<
    Projection,
    Failure,
>)
    requires
        i < rule.head.terms@.len(),
        dict_within(dict@, rule.body@.len() as int),
    ensures
        result_view(r) == projection_at(rule@, dict@, semi_naive, i as int),
{
    assert(rule@.head.terms[i as int] == rule.head.terms@[i as int]@);
    match &rule.head.terms[i] {
        Term::Constant(k) => Ok(Projection::Literal(k.clone())),
        Term::Variable(Variable::Free) => Err(Failure::FreeVarInHead(rule.head.predicate.clone())),
        Term::Variable(Variable::Distinguished(name)) => {
            match source_of(dict, name, Ghost(rule.body@.len() as int)) {
                Some(place) => Ok(Projection::Column(column_for(place))),
                None => Err(
                    Failure::UnwitnessedHeadVar {
                        variable: name.clone(),
                        predicate: rule.head.predicate.clone(),
                    },
                ),
            }
        },
        Term::Variable(Variable::Undistinguished(name)) => {
            match source_of(dict, name, Ghost(rule.body@.len() as int)) {
                Some(place) => Ok(Projection::Column(column_for(place))),
                None => Err(
                    Failure::UnwitnessedHeadVar {
                        variable: name.clone(),
                        predicate: rule.head.predicate.clone(),
                    },
                ),
            }
        },
    }
}

fn project_all(rule: &Rule, dict: &VarDict, semi_naive: bool) -> (r: Result<Vec<Projection>, Failure>)
    requires
        dict_within(dict@, rule.body@.len() as int),
    ensures
        match r {
            Ok(p) => projections(rule@, dict@, semi_naive, rule.head.terms@.len() as int) == Ok::<
                Seq<ProjectionView>,
                FailureView,
            >(views(p@)),
            Err(e) => projections(rule@, dict@, semi_naive, rule.head.terms@.len() as int) == Err::<
                Seq<ProjectionView>,
                FailureView,
            >(e@),
        },
{
    let mut all: Vec<Projection> = Vec::new();
    let mut i: usize = 0;
    assert(views(all@) =~= Seq::<ProjectionView>::empty());
    while i < rule.head.terms.len()
        invariant
            i <= rule.head.terms.len(),
            dict_within(dict@, rule.body@.len() as int),
            projections(rule@, dict@, semi_naive, i as int) == Ok::<Seq<ProjectionView>, FailureView>(
                views(all@),
            ),
        decreases rule.head.terms.len() - i,
    {
        let ghost before = views(all@);
        match project(rule, dict, semi_naive, i) {
            Ok(p) => {
                all.push(p);
                assert(views(all@) =~= before.push(p@));
            },
            Err(e) => {
                proof {
                    lemma_projections_fail(
                        rule@,
                        dict@,
                        semi_naive,
                        i + 1,
                        rule.head.terms@.len() as int,
                    );
                }
                return Err(e);
            },
        }
        i = i + 1;
    }
    Ok(all)
}

/// Once a head position projects nothing, the error stays.
pub proof fn lemma_projections_fail(
    rule: RuleView,
    dict: VarDictView,
    semi_naive: bool,
    n: int,
    m: int,
)
    requires
        0 <= n <= m,
        projections(rule, dict, semi_naive, n) is Err,
    ensures
        projections(rule, dict, semi_naive, m) == projections(rule, dict, semi_naive, n),
    decreases m - n,
{
    if n < m {
        lemma_projections_fail(rule, dict, semi_naive, n, m - 1);
    }
}

fn first_atom_of(body: &Vec<Clause>) -> (r: Option<usize>)
    ensures
        match r {
            Some(c) => first_atom(views(body@), body@.len() as int) == Some(c as int) && c
                < body@.len(),
            None => first_atom(views(body@), body@.len() as int) is None,
        },
{
    let mut c: usize = 0;
    while c < body.len()
        invariant
            c <= body.len(),
            first_atom(views(body@), c as int) is None,
        decreases body.len() - c,
    {
        assert(views(body@)[c as int] == body@[c as int]@);
        match &body[c] {
            Clause::Atom(_) => {
                proof {
                    lemma_first_atom_stays(views(body@), c + 1, body@.len() as int);
                }
                return Some(c);
            },
            Clause::Arithmetic(_) => {},
        }
        c = c + 1;
    }
    None
}

/// Once an atom is found, it stays the first.
pub proof fn lemma_first_atom_stays(body: Seq<ClauseView>, n: int, m: int)
    requires
        0 <= n <= m,
        first_atom(body, n) is Some,
    ensures
        first_atom(body, m) == first_atom(body, n),
    decreases m - n,
{
    if n < m {
        lemma_first_atom_stays(body, n, m - 1);
    }
}

fn anchor_of(rule: &Rule, dict: &VarDict) -> (r: Option<usize>)
    requires
        dict_within(dict@, rule.body@.len() as int),
    ensures
        match r {
            Some(c) => anchor(rule@, dict@) == Some(c as int) && c < rule.body@.len(),
            None => anchor(rule@, dict@) is None,
        },
{
    let mut by_head: Option<(usize, usize)> = None;
    if rule.head.terms.len() > 0 {
        assert(rule@.head.terms[0] == rule.head.terms@[0]@);
        match rule.head.terms[0].is_nontrivial_variable() {
            Some(name) => {
                by_head = source_of(dict, &name, Ghost(rule.body@.len() as int));
            },
            None => {},
        }
    }
    match by_head {
        Some(place) => Some(place.0),
        None => first_atom_of(&rule.body),
    }
}

fn links_of(dict: &VarDict, Ghost(n): Ghost<int>) -> (r: Vec<((usize, usize), (usize, usize))>)
    requires
        dict_within(dict@, n),
    ensures
        link_views(r@) == links(dict@, dict@.body.len() as int),
        links_within(link_views(r@), n),
{
    let mut r: Vec<((usize, usize), (usize, usize))> = Vec::new();
    let mut k: usize = 0;
    while k < dict.clause_dict.len()
        invariant
            k <= dict.clause_dict.len(),
            dict_within(dict@, n),
            link_views(r@) == links(dict@, k as int),
            links_within(link_views(r@), n),
        decreases dict.clause_dict.len() - k,
    {
        assert(dict@.body[k as int].1 == views(dict.clause_dict@[k as int].1@));
        let firsts = firsts_of(&dict.clause_dict[k].1, Ghost(n));
        let ghost before = link_views(r@);
        let mut i: usize = 1;
        while i < firsts.len()
            invariant
                1 <= i,
                i <= firsts@.len() || i == 1,
                places_within(int_pairs(firsts@), n),
                links_within(link_views(r@), n),
                link_views(r@) == before + Seq::new(
                    (i - 1) as nat,
                    |j: int| (int_pairs(firsts@)[0], int_pairs(firsts@)[j + 1]),
                ),
            decreases firsts.len() - i,
        {
            let ghost sofar = link_views(r@);
            proof {
                assert(0 <= int_pairs(firsts@)[0].0 < n);
                assert(0 <= int_pairs(firsts@)[i as int].0 < n);
            }
            r.push((firsts[0], firsts[i]));
            assert(link_views(r@) =~= sofar.push(
                (int_pairs(firsts@)[0], int_pairs(firsts@)[i as int]),
            ));
            i = i + 1;
            assert(link_views(r@) =~= before + Seq::new(
                (i - 1) as nat,
                |j: int| (int_pairs(firsts@)[0], int_pairs(firsts@)[j + 1]),
            ));
        }
        proof {
            if firsts@.len() == 0 {
                assert(int_pairs(firsts@).len() == 0);
                assert(entry_links(int_pairs(firsts@)).len() == 0);
                assert(link_views(r@) =~= before + entry_links(int_pairs(firsts@)));
            } else {
                assert(i == firsts@.len());
                assert(link_views(r@) =~= before + entry_links(int_pairs(firsts@)));
            }
        }
        k = k + 1;
    }
    r
}


fn conditions_of(links: &Vec<((usize, usize), (usize, usize))>) -> (r: Vec<Condition>)
    ensures
        views(r@) == link_conditions(link_views(links@)),
{
    let mut r: Vec<Condition> = Vec::new();
    let mut i: usize = 0;
    while i < links.len()
        invariant
            i <= links.len(),
            r@.len() == i,
            forall|k: int|
                0 <= k < i ==> (#[trigger] r@[k])@ == ConditionView::Columns(
                    column_at(link_views(links@)[k].0),
                    column_at(link_views(links@)[k].1),
                ),
        decreases links.len() - i,
    {
        let left = column_for(links[i].0);
        let right = column_for(links[i].1);
        r.push(Condition::Columns(left, right));
        i = i + 1;
    }
    assert(views(r@) =~= link_conditions(link_views(links@)));
    r
}

fn links_touching(all: &Vec<((usize, usize), (usize, usize))>, c: usize, Ghost(n): Ghost<int>) -> (r:
    Vec<((usize, usize), (usize, usize))>)
    requires
        links_within(link_views(all@), n),
    ensures
        link_views(r@) == links_at(link_views(all@), c as int, all@.len() as int),
        links_within(link_views(r@), n),
{
    let mut r: Vec<((usize, usize), (usize, usize))> = Vec::new();
    let mut i: usize = 0;
    while i < all.len()
        invariant
            i <= all.len(),
            links_within(link_views(all@), n),
            link_views(r@) == links_at(link_views(all@), c as int, i as int),
            links_within(link_views(r@), n),
        decreases all.len() - i,
    {
        let ghost before = link_views(r@);
        let link = all[i];
        proof {
            assert(0 <= link_views(all@)[i as int].0.0 < n);
            assert(0 <= link_views(all@)[i as int].1.0 < n);
        }
        if link.0.0 == c || link.1.0 == c {
            r.push(link);
            assert(link_views(r@) =~= before.push(link_views(all@)[i as int]));
        }
        i = i + 1;
    }
    r
}

fn joins_of(
    rule: &Rule,
    dict: &VarDict,
    semi_naive: bool,
    anchor_clause: Option<usize>,
    all: &Vec<((usize, usize), (usize, usize))>,
) -> (r: Vec<Join>)
    requires
        dict_within(dict@, rule.body@.len() as int),
        link_views(all@) == links(dict@, dict@.body.len() as int),
        links_within(link_views(all@), rule.body@.len() as int),
        match anchor_clause {
            Some(c) => anchor(rule@, dict@) == Some(c as int),
            None => anchor(rule@, dict@) is None,
        },
    ensures
        views(r@) == joins(rule@, dict@, semi_naive, rule.body@.len() as int),
{
    let mut r: Vec<Join> = Vec::new();
    let mut c: usize = 0;
    assert(views(r@) =~= Seq::<JoinView>::empty());
    while c < rule.body.len()
        invariant
            c <= rule.body.len(),
            link_views(all@) == links(dict@, dict@.body.len() as int),
            links_within(link_views(all@), rule.body@.len() as int),
            match anchor_clause {
                Some(a) => anchor(rule@, dict@) == Some(a as int),
                None => anchor(rule@, dict@) is None,
            },
            views(r@) == joins(rule@, dict@, semi_naive, c as int),
        decreases rule.body.len() - c,
    {
        let ghost before = views(r@);
        let mine = links_touching(all, c, Ghost(rule.body@.len() as int));
        let is_anchor = match anchor_clause {
            Some(a) => a == c,
            None => false,
        };
        let is_atom = match &rule.body[c] {
            Clause::Atom(_) => true,
            Clause::Arithmetic(_) => false,
        };
        assert(rule@.body[c as int] == rule.body@[c as int]@);
        if !is_anchor && is_atom {
            let on = conditions_of(&mine);
            let join = Join { table: table_for(rule, c, semi_naive), clause: c, on };
            r.push(join);
            assert(views(r@) =~= before.push(join@));
        }
        c = c + 1;
    }
    r
}

fn self_links_of(dict: &VarDict, Ghost(n): Ghost<int>) -> (r: Vec<((usize, usize), (usize, usize))>)
    requires
        dict_within(dict@, n),
    ensures
        link_views(r@) == self_links(dict@, dict@.body.len() as int),
        links_within(link_views(r@), n),
{
    let mut r: Vec<((usize, usize), (usize, usize))> = Vec::new();
    let mut k: usize = 0;
    while k < dict.clause_dict.len()
        invariant
            k <= dict.clause_dict.len(),
            dict_within(dict@, n),
            link_views(r@) == self_links(dict@, k as int),
            links_within(link_views(r@), n),
        decreases dict.clause_dict.len() - k,
    {
        let groups = &dict.clause_dict[k].1;
        let ghost before = link_views(r@);
        proof {
            assert(dict@.body[k as int].1 == views(groups@));
            assert(groups_within(views(groups@), n));
        }
        let mut g: usize = 0;
        assert(link_views(r@) =~= before + groups_links(views(groups@), 0));
        while g < groups.len()
            invariant
                g <= groups.len(),
                groups_within(views(groups@), n),
                link_views(r@) == before + groups_links(views(groups@), g as int),
                links_within(link_views(r@), n),
            decreases groups.len() - g,
        {
            let group = &groups[g];
            let ghost mid = link_views(r@);
            proof {
                assert(views(groups@)[g as int] == group@);
                assert(group@.term_indexes.len() == group.term_indexes@.len());
                assert(0 <= group@.clause_index < n);
            }
            if !group.is_arith {
                let mut t: usize = 1;
                while t < group.term_indexes.len()
                    invariant
                        1 <= t <= group.term_indexes.len(),
                        0 <= group@.clause_index < n,
                        links_within(link_views(r@), n),
                        link_views(r@) == mid + Seq::new(
                            (t - 1) as nat,
                            |j: int|
                                (
                                    (group@.clause_index, group@.term_indexes[0]),
                                    (group@.clause_index, group@.term_indexes[j + 1]),
                                ),
                        ),
                    decreases group.term_indexes.len() - t,
                {
                    let ghost sofar = link_views(r@);
                    r.push(
                        (
                            (group.clause_index, group.term_indexes[0]),
                            (group.clause_index, group.term_indexes[t]),
                        ),
                    );
                    assert(link_views(r@) =~= sofar.push(
                        (
                            (group@.clause_index, group@.term_indexes[0]),
                            (group@.clause_index, group@.term_indexes[t as int]),
                        ),
                    ));
                    t = t + 1;
                    assert(link_views(r@) =~= mid + Seq::new(
                        (t - 1) as nat,
                        |j: int|
                            (
                                (group@.clause_index, group@.term_indexes[0]),
                                (group@.clause_index, group@.term_indexes[j + 1]),
                            ),
                    ));
                }
                assert(link_views(r@) =~= mid + group_links(group@));
                assert(link_views(r@) =~= before + (groups_links(views(groups@), g as int)
                    + group_links(group@)));
            }
            g = g + 1;
        }
        k = k + 1;
    }
    r
}

fn constants_of(rule: &Rule) -> (r: Vec<Condition>)
    ensures
        views(r@) == constant_filters(rule@, rule.body@.len() as int),
{
    let mut r: Vec<Condition> = Vec::new();
    let mut c: usize = 0;
    assert(views(r@) =~= Seq::<ConditionView>::empty());
    while c < rule.body.len()
        invariant
            c <= rule.body.len(),
            views(r@) == constant_filters(rule@, c as int),
        decreases rule.body.len() - c,
    {
        assert(rule@.body[c as int] == rule.body@[c as int]@);
        match &rule.body[c] {
            Clause::Atom(atom) => {
                let ghost before = views(r@);
                let mut t: usize = 0;
                assert(views(r@) =~= before + atom_constants(rule@, c as int, 0));
                while t < atom.terms.len()
                    invariant
                        t <= atom.terms.len(),
                        c < rule.body.len(),
                        rule@.body[c as int] == ClauseView::Atom(atom@),
                        views(r@) == before + atom_constants(rule@, c as int, t as int),
                    decreases atom.terms.len() - t,
                {
                    let ghost sofar = views(r@);
                    assert(rule@.body[c as int].terms()[t as int] == atom.terms@[t as int]@);
                    match &atom.terms[t] {
                        Term::Constant(k) => {
                            let column = column_for((c, t));
                            let condition = Condition::Constant(column, k.clone());
                            r.push(condition);
                            assert(views(r@) =~= sofar.push(condition@));
                            assert(views(r@) =~= before + atom_constants(rule@, c as int, t + 1));
                        },
                        _ => {},
                    }
                    t = t + 1;
                }
                assert(atom.terms@.len() == rule@.body[c as int].terms().len());
            },
            Clause::Arithmetic(_) => {},
        }
        c = c + 1;
    }
    r
}

/// Compiles a rule without negated atoms into the selection that computes
/// the rows of its head: against the tables of the body's predicates, or
/// in a semi-naive step against the rows that the last step added to the
/// head's own.
pub fn select(rule: &Rule, semi_naive: bool) -> (r: Result<Selection, Failure>)
    ensures
        result_view(r) == selection(rule@, semi_naive),
{
    let dict = VarDict::new(rule);
    proof {
        lemma_dict_within(rule@);
    }
    let projection = match project_all(rule, &dict, semi_naive) {
        Ok(p) => p,
        Err(e) => {
            return Err(e);
        },
    };
    let anchor_clause = anchor_of(rule, &dict);
    let from = match anchor_clause {
        Some(c) => Some((table_for(rule, c, semi_naive), c)),
        None => None,
    };
    let all = links_of(&dict, Ghost(rule.body@.len() as int));
    let joins = joins_of(rule, &dict, semi_naive, anchor_clause, &all);
    let own = self_links_of(&dict, Ghost(rule.body@.len() as int));
    let mut filters = conditions_of(&own);
    let mut constants = constants_of(rule);
    let ghost first = views(filters@);
    let ghost second = views(constants@);
    filters.append(&mut constants);
    assert(views(filters@) =~= first + second);
    let absent: Vec<Join> = Vec::new();
    assert(views(absent@) =~= Seq::<JoinView>::empty());
    Ok(Selection { projection, from, joins, filters, absent })
}

/// The rule without its negated atoms.
pub fn affirm(rule: &Rule) -> (plain: Rule)
    ensures
        plain@ == affirmed(rule@),
{
    let mut body: Vec<Clause> = Vec::new();
    let mut c: usize = 0;
    while c < rule.body.len()
        invariant
            c <= rule.body.len(),
            body@.len() == c,
            forall|k: int| 0 <= k < c ==> (#[trigger] body@[k])@ == affirmed(rule@).body[k],
        decreases rule.body.len() - c,
    {
        assert(rule@.body[c as int] == rule.body@[c as int]@);
        let negated = match &rule.body[c] {
            Clause::Atom(atom) => atom.negation,
            Clause::Arithmetic(_) => false,
        };
        if negated {
            let placeholder = Clause::Arithmetic(
                Arith {
                    operator: Operator::Leaf(Term::Constant(Constant::Boolean(true))),
                    lhs: None,
                    rhs: None,
                },
            );
            assert(placeholder@ == truth());
            body.push(placeholder);
        } else {
            body.push(rule.body[c].clone());
        }
        c = c + 1;
    }
    let plain = Rule { io: rule.io.clone(), head: rule.head.clone(), body };
    assert(plain@.body =~= affirmed(rule@).body);
    plain
}

/// The first position among the first `n` terms that holds the variable
/// `x`.
fn first_position(terms: &Vec<Term>, x: &String, n: usize) -> (r: Option<usize>)
    requires
        n <= terms@.len(),
    ensures
        match r {
            Some(j) => first_among(views(terms@), x@, n as int) == Some(j as int) && j < n,
            None => first_among(views(terms@), x@, n as int) is None,
        },
{
    let mut j: usize = 0;
    while j < n
        invariant
            j <= n <= terms@.len(),
            first_among(views(terms@), x@, j as int) is None,
        decreases n - j,
    {
        assert(views(terms@)[j as int] == terms@[j as int]@);
        let same = match &terms[j] {
            Term::Variable(Variable::Distinguished(name)) => *name == *x,
            Term::Variable(Variable::Undistinguished(name)) => *name == *x,
            _ => false,
        };
        if same {
            proof {
                lemma_first_among_stays(views(terms@), x@, j + 1, n as int);
            }
            return Some(j);
        }
        j = j + 1;
    }
    None
}

/// The first position that holds a variable stays the first.
pub proof fn lemma_first_among_stays(terms: Seq<TermView>, x: Seq<char>, n: int, m: int)
    requires
        0 <= n <= m,
        first_among(terms, x, n) is Some,
    ensures
        first_among(terms, x, m) == first_among(terms, x, n),
    decreases m - n,
{
    if n < m {
        lemma_first_among_stays(terms, x, n, m - 1);
    }
}

/// The conditions that no row of the table of the negated atom `atom` at
/// position `c` may meet.
fn absence_of(atom: &Atom, dict: &VarDict, c: usize, Ghost(n): Ghost<int>) -> (r: Vec<Condition>)
    requires
        forall|k: int| 0 <= k < dict@.body.len() ==> groups_within((#[trigger] dict@.body[k]).1, n),
    ensures
        views(r@) == absence_conditions(atom@.terms, dict@, c as int, atom@.terms.len() as int),
{
    let mut r: Vec<Condition> = Vec::new();
    let mut j: usize = 0;
    assert(atom@.terms == views(atom.terms@));
    assert(views(r@) =~= absence_conditions(atom@.terms, dict@, c as int, 0));
    while j < atom.terms.len()
        invariant
            j <= atom.terms.len(),
            atom@.terms == views(atom.terms@),
            forall|k: int|
                0 <= k < dict@.body.len() ==> groups_within((#[trigger] dict@.body[k]).1, n),
            views(r@) == absence_conditions(atom@.terms, dict@, c as int, j as int),
        decreases atom.terms.len() - j,
    {
        let ghost before = views(r@);
        assert(atom@.terms[j as int] == atom.terms@[j as int]@);
        let found: Option<Condition> = match &atom.terms[j] {
            Term::Constant(k) => Some(Condition::Constant(column_for((c, j)), k.clone())),
            Term::Variable(Variable::Free) => None,
            Term::Variable(Variable::Distinguished(x)) | Term::Variable(
                Variable::Undistinguished(x),
            ) => match source_of(dict, x, Ghost(n)) {
                Some(place) => Some(Condition::Columns(column_for(place), column_for((c, j)))),
                None => match first_position(&atom.terms, x, j) {
                    Some(first) => Some(
                        Condition::Columns(column_for((c, first)), column_for((c, j))),
                    ),
                    None => None,
                },
            },
        };
        assert(match found {
            Some(condition) => absence_condition(atom@.terms, dict@, c as int, j as int) == Some(
                condition@,
            ),
            None => absence_condition(atom@.terms, dict@, c as int, j as int) is None,
        });
        match found {
            Some(condition) => {
                r.push(condition);
                assert(views(r@) =~= before.push(condition@));
            },
            None => {},
        }
        j = j + 1;
    }
    r
}

/// What the negated atoms of `rule` ask, where `dict` indexes the rule
/// without them.
fn absences_of(rule: &Rule, dict: &VarDict, semi_naive: bool) -> (r: Vec<Join>)
    requires
        dict_within(dict@, rule.body@.len() as int),
    ensures
        views(r@) == absences(rule@, dict@, semi_naive, rule.body@.len() as int),
{
    let mut r: Vec<Join> = Vec::new();
    let mut c: usize = 0;
    assert(views(r@) =~= Seq::<JoinView>::empty());
    while c < rule.body.len()
        invariant
            c <= rule.body.len(),
            dict_within(dict@, rule.body@.len() as int),
            views(r@) == absences(rule@, dict@, semi_naive, c as int),
        decreases rule.body.len() - c,
    {
        let ghost before = views(r@);
        assert(rule@.body[c as int] == rule.body@[c as int]@);
        match &rule.body[c] {
            Clause::Atom(atom) => {
                if atom.negation {
                    let on = absence_of(atom, dict, c, Ghost(rule.body@.len() as int));
                    let asked = Join { table: table_for(rule, c, semi_naive), clause: c, on };
                    assert(asked@ == absence(rule@, dict@, semi_naive, c as int));
                    r.push(asked);
                    assert(views(r@) =~= before.push(asked@));
                }
            },
            Clause::Arithmetic(_) => {},
        }
        c = c + 1;
    }
    r
}

/// Compiles `rule` into the selection that computes the rows of its head:
/// against the tables of the body's predicates, or in a semi-naive step
/// against the rows that the last step added to the head's own. For each
/// negated atom the selection asks that its table has no row that stands
/// against the rule.
pub fn compile(rule: &Rule, semi_naive: bool) -> (r: Result<Selection, Failure>)
    ensures
        result_view(r) == compiled(rule@, semi_naive),
{
    let plain = affirm(rule);
    let chosen = match select(&plain, semi_naive) {
        Ok(s) => s,
        Err(e) => {
            return Err(e);
        },
    };
    let dict = VarDict::new(&plain);
    proof {
        lemma_dict_within(plain@);
    }
    let absent = absences_of(rule, &dict, semi_naive);
    Ok(
        Selection {
            projection: chosen.projection,
            from: chosen.from,
            joins: chosen.joins,
            filters: chosen.filters,
            absent,
        },
    )
}

} // verus!
