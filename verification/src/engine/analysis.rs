//! The per-rule index of variable occurrences, and column types.

use vstd::prelude::*;
use crate::error::{Failure, FailureView};
use crate::syntax::ast::{
    Atom, AtomView, Clause, ClauseView, collect_names, Constant, ConstantView, Rule, RuleView,
    Term, TermView, Variable, variable_names, VariableView,
};
use crate::syntax::context::{Context, ContextView};
use crate::text::{
    dedup_names, entry_index, find_key, first_occurrences, key_views, keys,
    lemma_entry_index_keys, views,
};

verus! {

/// The positions of one variable within one body clause.
#[derive(Debug, PartialEq, Eq)]
pub struct VarGroup {
    /// Whether the clause is an arithmetic expression.
    pub is_arith: bool,
    /// The position of the clause in the body.
    pub clause_index: usize,
    /// The positions within the clause, ascending.
    pub term_indexes: Vec<usize>,
}

/// The value of a `VarGroup`, as contracts speak of it.
pub struct VarGroupView {
    pub is_arith: bool,
    pub clause_index: int,
    pub term_indexes: Seq<int>,
}

/// A sequence of machine indices as mathematical integers.
pub open spec fn ints(s: Seq<usize>) -> Seq<int> {
    Seq::new(s.len(), |i: int| s[i] as int)
}

impl View for VarGroup {
    type V = VarGroupView;

    open spec fn view(&self) -> VarGroupView {
        VarGroupView {
            is_arith: self.is_arith,
            clause_index: self.clause_index as int,
            term_indexes: ints(self.term_indexes@),
        }
    }
}

/// The occurrences of the variables of one rule: for each variable of the
/// head its positions there, and for each variable of the body one group
/// for each clause that it occurs in. Variables stand in the order of their
/// first occurrence.
#[derive(Debug, PartialEq, Eq)]
pub struct VarDict {
    pub head_dict: Vec<(String, Vec<usize>)>,
    pub clause_dict: Vec<(String, Vec<VarGroup>)>,
}

/// The value of a `VarDict`, as contracts speak of it.
pub struct VarDictView {
    pub head: Seq<(Seq<char>, Seq<int>)>,
    pub body: Seq<(Seq<char>, Seq<VarGroupView>)>,
}

/// The entries of the head index as mathematical values.
pub open spec fn head_entries(entries: Seq<(String, Vec<usize>)>) -> Seq<(Seq<char>, Seq<int>)> {
    Seq::new(entries.len(), |i: int| (entries[i].0@, ints(entries[i].1@)))
}

/// The entries of the body index as mathematical values.
pub open spec fn body_entries(entries: Seq<(String, Vec<VarGroup>)>) -> Seq<
    (Seq<char>, Seq<VarGroupView>),
> {
    Seq::new(entries.len(), |i: int| (entries[i].0@, views(entries[i].1@)))
}

impl View for VarDict {
    type V = VarDictView;

    open spec fn view(&self) -> VarDictView {
        VarDictView {
            head: head_entries(self.head_dict@),
            body: body_entries(self.clause_dict@),
        }
    }
}

/// The positions below `n`, ascending, at which `terms` holds the variable
/// `name`.
pub open spec fn positions(terms: Seq<TermView>, name: Seq<char>, n: int) -> Seq<int>
    decreases n,
{
    if n <= 0 {
        Seq::empty()
    } else if terms[n - 1].variable_name() == Some(name) {
        positions(terms, name, n - 1).push(n - 1)
    } else {
        positions(terms, name, n - 1)
    }
}

/// The names of the variables of the first `n` clauses, in order of
/// occurrence, each as often as it occurs.
pub open spec fn body_variable_names(body: Seq<ClauseView>, n: int) -> Seq<Seq<char>>
    decreases n,
{
    if n <= 0 {
        Seq::empty()
    } else {
        body_variable_names(body, n - 1) + variable_names(
            body[n - 1].terms(),
            body[n - 1].terms().len() as int,
        )
    }
}

/// The group of `name` in the clause at position `c`.
pub open spec fn group_at(body: Seq<ClauseView>, name: Seq<char>, c: int) -> VarGroupView {
    VarGroupView {
        is_arith: body[c] is Arithmetic,
        clause_index: c,
        term_indexes: positions(body[c].terms(), name, body[c].terms().len() as int),
    }
}

/// The groups of `name` in the first `n` clauses: one for each clause that
/// `name` occurs in, in body order.
pub open spec fn groups(body: Seq<ClauseView>, name: Seq<char>, n: int) -> Seq<VarGroupView>
    decreases n,
{
    if n <= 0 {
        Seq::empty()
    } else if group_at(body, name, n - 1).term_indexes.len() > 0 {
        groups(body, name, n - 1).push(group_at(body, name, n - 1))
    } else {
        groups(body, name, n - 1)
    }
}

/// The index of the variable occurrences of `rule`.
pub open spec fn var_dict(rule: RuleView) -> VarDictView {
    let head_names = first_occurrences(rule.head_names());
    let body_names = first_occurrences(body_variable_names(rule.body, rule.body.len() as int));
    VarDictView {
        head: Seq::new(
            head_names.len(),
            |i: int|
                (
                    head_names[i],
                    positions(rule.head.terms, head_names[i], rule.head.terms.len() as int),
                ),
        ),
        body: Seq::new(
            body_names.len(),
            |i: int| (body_names[i], groups(rule.body, body_names[i], rule.body.len() as int)),
        ),
    }
}

/// The pairs of clause position and term position that the first `n`
/// groups list, in order.
pub open spec fn group_occurrences(groups: Seq<VarGroupView>, n: int) -> Seq<(int, int)>
    decreases n,
{
    if n <= 0 {
        Seq::empty()
    } else {
        group_occurrences(groups, n - 1) + Seq::new(
            groups[n - 1].term_indexes.len(),
            |j: int| (groups[n - 1].clause_index, groups[n - 1].term_indexes[j]),
        )
    }
}

impl VarDictView {
    /// Every occurrence of `name` in the body, as pairs of clause position
    /// and term position; none where `name` does not occur.
    pub open spec fn occurrences(self, name: Seq<char>) -> Seq<(int, int)> {
        let k = entry_index(self.body, name);
        if k < self.body.len() {
            group_occurrences(self.body[k].1, self.body[k].1.len() as int)
        } else {
            Seq::empty()
        }
    }
}

/// What holds of a group `g` of the variable `name` in `body`: it belongs to
/// one clause, and lists the positions of `name` there, of which there is
/// at least one.
pub open spec fn group_ok(body: Seq<ClauseView>, name: Seq<char>, g: VarGroupView) -> bool {
    &&& 0 <= g.clause_index < body.len()
    &&& g == group_at(body, name, g.clause_index)
    &&& g.term_indexes.len() > 0
}

/// The positions of a variable are exactly the places where it stands, in
/// ascending order.
pub proof fn lemma_positions(terms: Seq<TermView>, name: Seq<char>, n: int)
    requires
        0 <= n <= terms.len(),
    ensures
        forall|i: int|
            0 <= i < positions(terms, name, n).len() ==> 0 <= (#[trigger] positions(
                terms,
                name,
                n,
            )[i]) < n && terms[positions(terms, name, n)[i]].variable_name() == Some(name),
        forall|i: int, j: int|
            0 <= i < j < positions(terms, name, n).len() ==> positions(terms, name, n)[i]
                < positions(terms, name, n)[j],
        forall|p: int|
            0 <= p < n && (#[trigger] terms[p]).variable_name() == Some(name) ==> positions(
                terms,
                name,
                n,
            ).contains(p),
    decreases n,
{
    if n > 0 {
        lemma_positions(terms, name, n - 1);
        let before = positions(terms, name, n - 1);
        let now = positions(terms, name, n);
        if terms[n - 1].variable_name() == Some(name) {
            assert(now[now.len() - 1] == n - 1);
            assert forall|p: int|
                0 <= p < n && (#[trigger] terms[p]).variable_name() == Some(name) implies now.contains(
                p,
            ) by {
                if p < n - 1 {
                    let k = choose|k: int| 0 <= k < before.len() && before[k] == p;
                    assert(now[k] == p);
                } else {
                    assert(now[now.len() - 1] == p);
                }
            }
        }
    }
}

/// The groups of a variable stand in body order, one for each clause that
/// the variable occurs in.
pub proof fn lemma_groups(body: Seq<ClauseView>, name: Seq<char>, n: int)
    requires
        0 <= n <= body.len(),
    ensures
        forall|i: int|
            0 <= i < groups(body, name, n).len() ==> group_ok(
                body,
                name,
                #[trigger] groups(body, name, n)[i],
            ) && groups(body, name, n)[i].clause_index < n,
        forall|i: int, j: int|
            0 <= i < j < groups(body, name, n).len() ==> groups(body, name, n)[i].clause_index
                < groups(body, name, n)[j].clause_index,
        forall|c: int|
            0 <= c < n && group_at(body, name, c).term_indexes.len() > 0 ==> groups(
                body,
                name,
                n,
            ).contains(#[trigger] group_at(body, name, c)),
    decreases n,
{
    if n > 0 {
        lemma_groups(body, name, n - 1);
        let before = groups(body, name, n - 1);
        let now = groups(body, name, n);
        if group_at(body, name, n - 1).term_indexes.len() > 0 {
            assert(now[now.len() - 1] == group_at(body, name, n - 1));
            assert forall|c: int|
                0 <= c < n && group_at(body, name, c).term_indexes.len() > 0 implies now.contains(
                #[trigger] group_at(body, name, c),
            ) by {
                if c < n - 1 {
                    let k = choose|k: int|
                        0 <= k < before.len() && before[k] == group_at(body, name, c);
                    assert(now[k] == group_at(body, name, c));
                } else {
                    assert(now[now.len() - 1] == group_at(body, name, c));
                }
            }
        }
    }
}

impl VarDictView {
    /// Whether every group of the index is one of `rule`'s body.
    pub open spec fn well_formed(self, rule: RuleView) -> bool {
        forall|k: int, g: int|
            0 <= k < self.body.len() && 0 <= g < self.body[k].1.len() ==> group_ok(
                rule.body,
                self.body[k].0,
                #[trigger] self.body[k].1[g],
            )
    }
}

/// No variable stands twice in the index of a rule.
pub proof fn lemma_var_dict_unique(rule: RuleView)
    ensures
        keys(var_dict(rule).head).no_duplicates(),
        keys(var_dict(rule).body).no_duplicates(),
{
    let heads = rule.head_names();
    let bodies = body_variable_names(rule.body, rule.body.len() as int);
    crate::text::lemma_first_occurrences(heads);
    crate::text::lemma_first_occurrences(bodies);
    assert(keys(var_dict(rule).head) =~= first_occurrences(heads));
    assert(keys(var_dict(rule).body) =~= first_occurrences(bodies));
}

/// The index of a rule is well formed.
pub proof fn lemma_var_dict_well_formed(rule: RuleView)
    ensures
        var_dict(rule).well_formed(rule),
{
    let dict = var_dict(rule);
    assert forall|k: int, g: int|
        0 <= k < dict.body.len() && 0 <= g < dict.body[k].1.len() implies group_ok(
        rule.body,
        dict.body[k].0,
        #[trigger] dict.body[k].1[g],
    ) by {
        lemma_groups(rule.body, dict.body[k].0, rule.body.len() as int);
    }
}

/// Pairs of machine indices as pairs of mathematical integers.
pub open spec fn int_pairs(s: Seq<(usize, usize)>) -> Seq<(int, int)> {
    Seq::new(s.len(), |i: int| (s[i].0 as int, s[i].1 as int))
}

impl VarGroup {
    /// Whether the variable occurs more than once in the clause.
    pub fn contain_duplicate(&self) -> (r: bool)
        ensures
            r == (self@.term_indexes.len() > 1),
    {
        self.term_indexes.len() > 1
    }
}

/// The positions at which `terms` holds the variable `name`, ascending.
pub fn positions_in(terms: &Vec<Term>, name: &String) -> (r: Vec<usize>)
    ensures
        ints(r@) == positions(views(terms@), name@, terms@.len() as int),
{
    let mut r: Vec<usize> = Vec::new();
    let mut i: usize = 0;
    while i < terms.len()
        invariant
            i <= terms.len(),
            ints(r@) == positions(views(terms@), name@, i as int),
        decreases terms.len() - i,
    {
        let ghost before = ints(r@);
        match terms[i].is_nontrivial_variable() {
            Some(v) => {
                if v == *name {
                    r.push(i);
                    assert(ints(r@) =~= before.push(i as int));
                }
            },
            None => {},
        }
        i = i + 1;
    }
    r
}

/// The terms that a clause lists: those of the atom, or the leaves of the
/// expression.
pub fn clause_terms(clause: &Clause) -> (terms: Vec<Term>)
    ensures
        views(terms@) == clause@.terms(),
{
    match clause {
        Clause::Atom(atom) => crate::syntax::ast::clone_terms(&atom.terms),
        Clause::Arithmetic(e) => e.get_leaves(),
    }
}


/// The groups of `name` in the body whose clauses list `lists`.
fn groups_in(body: &Vec<Clause>, lists: &Vec<Vec<Term>>, name: &String) -> (r: Vec<VarGroup>)
    requires
        lists@.len() == body@.len(),
        forall|c: int| 0 <= c < body@.len() ==> views(#[trigger] lists@[c]@) == body@[c]@.terms(),
    ensures
        views(r@) == groups(views(body@), name@, body@.len() as int),
{
    let mut r: Vec<VarGroup> = Vec::new();
    let mut c: usize = 0;
    while c < body.len()
        invariant
            c <= body.len(),
            lists@.len() == body@.len(),
            forall|k: int|
                0 <= k < body@.len() ==> views(#[trigger] lists@[k]@) == body@[k]@.terms(),
            views(r@) == groups(views(body@), name@, c as int),
        decreases body.len() - c,
    {
        let ghost before = views(r@);
        let term_indexes = positions_in(&lists[c], name);
        let is_arith = match &body[c] {
            Clause::Atom(_) => false,
            Clause::Arithmetic(_) => true,
        };
        proof {
            assert(views(body@)[c as int] == body@[c as int]@);
            assert(views(lists@[c as int]@) == body@[c as int]@.terms());
            assert(lists@[c as int]@.len() == views(lists@[c as int]@).len());
        }
        if term_indexes.len() > 0 {
            let group = VarGroup { is_arith, clause_index: c, term_indexes };
            assert(group@ == group_at(views(body@), name@, c as int));
            r.push(group);
            assert(views(r@) =~= before.push(group_at(views(body@), name@, c as int)));
        } else {
            assert(ints(term_indexes@).len() == 0);
        }
        c = c + 1;
    }
    r
}

/// The position of the first entry under `name`, or the number of entries
/// where there is none.
fn find_entry(entries: &Vec<(String, Vec<VarGroup>)>, name: &String) -> (k: usize)
    ensures
        k <= entries@.len(),
        k == entry_index(body_entries(entries@), name@),
{
    let ghost all = body_entries(entries@);
    let mut k: usize = 0;
    assert(all.skip(0) =~= all);
    while k < entries.len()
        invariant
            k <= entries.len(),
            all == body_entries(entries@),
            entry_index(all, name@) == k + entry_index(all.skip(k as int), name@),
        decreases entries.len() - k,
    {
        let ghost rest = all.skip(k as int);
        proof {
            assert(rest[0] == all[k as int]);
            assert(rest.drop_first() =~= all.skip(k + 1));
        }
        if entries[k].0 == *name {
            return k;
        }
        k = k + 1;
    }
    assert(all.skip(k as int) =~= Seq::empty());
    k
}

impl VarDict {
    /// Builds the index of the variable occurrences of `rule`.
    pub fn new(rule: &Rule) -> (dict: VarDict)
        ensures
            dict@ == var_dict(rule@),
            keys(dict@.head).no_duplicates(),
            keys(dict@.body).no_duplicates(),
    {
        proof {
            lemma_var_dict_unique(rule@);
        }
        let head_all = collect_names(&rule.head.terms);
        let head_names = dedup_names(&head_all);
        let mut head_dict: Vec<(String, Vec<usize>)> = Vec::new();
        let mut i: usize = 0;
        while i < head_names.len()
            invariant
                i <= head_names.len(),
                head_dict@.len() == i,
                forall|k: int|
                    0 <= k < i ==> (#[trigger] head_dict@[k]).0@ == head_names@[k]@ && ints(
                        head_dict@[k].1@,
                    ) == positions(rule@.head.terms, head_names@[k]@, rule@.head.terms.len() as int),
            decreases head_names.len() - i,
        {
            let found = positions_in(&rule.head.terms, &head_names[i]);
            head_dict.push((head_names[i].clone(), found));
            i = i + 1;
        }
        let mut lists: Vec<Vec<Term>> = Vec::new();
        let mut body_all: Vec<String> = Vec::new();
        let mut c: usize = 0;
        while c < rule.body.len()
            invariant
                c <= rule.body.len(),
                lists@.len() == c,
                forall|k: int|
                    0 <= k < c ==> views(#[trigger] lists@[k]@) == rule.body@[k]@.terms(),
                views(body_all@) == body_variable_names(rule@.body, c as int),
            decreases rule.body.len() - c,
        {
            let ghost before = views(body_all@);
            let terms = clause_terms(&rule.body[c]);
            let mut names = collect_names(&terms);
            let ghost added = views(names@);
            proof {
                assert(rule@.body[c as int] == rule.body@[c as int]@);
                assert(terms@.len() == views(terms@).len());
            }
            body_all.append(&mut names);
            assert(views(body_all@) =~= before + added);
            lists.push(terms);
            c = c + 1;
        }
        let body_names = dedup_names(&body_all);
        let mut clause_dict: Vec<(String, Vec<VarGroup>)> = Vec::new();
        let mut j: usize = 0;
        while j < body_names.len()
            invariant
                j <= body_names.len(),
                clause_dict@.len() == j,
                lists@.len() == rule.body@.len(),
                forall|k: int|
                    0 <= k < rule.body@.len() ==> views(#[trigger] lists@[k]@)
                        == rule.body@[k]@.terms(),
                forall|k: int|
                    0 <= k < j ==> (#[trigger] clause_dict@[k]).0@ == body_names@[k]@ && views(
                        clause_dict@[k].1@,
                    ) == groups(rule@.body, body_names@[k]@, rule@.body.len() as int),
            decreases body_names.len() - j,
        {
            let found = groups_in(&rule.body, &lists, &body_names[j]);
            clause_dict.push((body_names[j].clone(), found));
            j = j + 1;
        }
        let dict = VarDict { head_dict, clause_dict };
        proof {
            assert(rule@.head.terms.len() == rule.head.terms@.len());
            assert(dict@.head =~= var_dict(rule@).head);
            assert(dict@.body =~= var_dict(rule@).body);
        }
        dict
    }

    /// The position of the entry of `var` in the body index, or the number
    /// of entries where `var` does not occur.
    pub fn find(&self, var: &String) -> (k: usize)
        ensures
            k <= self@.body.len(),
            k == entry_index(self@.body, var@),
    {
        find_entry(&self.clause_dict, var)
    }

    /// Every occurrence of `var` in the body, as pairs of clause position
    /// and term position, in body order; none where `var` does not occur.
    pub fn allocate(&self, var: &String) -> (r: Vec<(usize, usize)>)
        ensures
            int_pairs(r@) == self@.occurrences(var@),
    {
        let k = find_entry(&self.clause_dict, var);
        let mut r: Vec<(usize, usize)> = Vec::new();
        if k < self.clause_dict.len() {
            let entry = &self.clause_dict[k].1;
            let mut g: usize = 0;
            while g < entry.len()
                invariant
                    g <= entry.len(),
                    int_pairs(r@) == group_occurrences(views(entry@), g as int),
                decreases entry.len() - g,
            {
                let group = &entry[g];
                let ghost before = int_pairs(r@);
                let mut t: usize = 0;
                while t < group.term_indexes.len()
                    invariant
                        t <= group.term_indexes.len(),
                        int_pairs(r@) == before + Seq::new(
                            t as nat,
                            |j: int| (group@.clause_index, group@.term_indexes[j]),
                        ),
                    decreases group.term_indexes.len() - t,
                {
                    let ghost sofar = int_pairs(r@);
                    r.push((group.clause_index, group.term_indexes[t]));
                    assert(int_pairs(r@) =~= sofar.push(
                        (group@.clause_index, group@.term_indexes[t as int]),
                    ));
                    t = t + 1;
                    assert(int_pairs(r@) =~= before + Seq::new(
                        t as nat,
                        |j: int| (group@.clause_index, group@.term_indexes[j]),
                    ));
                }
                assert(views(entry@)[g as int] == group@);
                assert(group@.term_indexes.len() == group.term_indexes@.len());
                g = g + 1;
            }
            assert(self@.body[k as int].1 == views(entry@));
        }
        r
    }
}


/// The type of a column.
#[derive(Debug, Clone, Copy, PartialEq, Eq, Structural)]
pub enum DataType {
    Integer,
    Float,
    Symbol,
}

/// The column types of relations, by name.
pub type Types = Seq<(Seq<char>, Seq<DataType>)>;

/// The types of the variables of a rule, by name.
pub type Witnesses = Seq<(Seq<char>, DataType)>;

/// The column types of the relations that have been typed.
#[derive(Debug, PartialEq, Eq)]
pub struct Analyzer {
    pub data_types: Vec<(String, Vec<DataType>)>,
}

/// The entries of the analyzer as mathematical values.
pub open spec fn type_entries(entries: Seq<(String, Vec<DataType>)>) -> Types {
    Seq::new(entries.len(), |i: int| (entries[i].0@, entries[i].1@))
}

impl View for Analyzer {
    type V = Types;

    open spec fn view(&self) -> Types {
        type_entries(self.data_types@)
    }
}

/// The value under `name`, if there is one.
pub open spec fn lookup<T>(entries: Seq<(Seq<char>, T)>, name: Seq<char>) -> Option<T> {
    let k = entry_index(entries, name);
    if k < entries.len() {
        Some(entries[k].1)
    } else {
        None
    }
}

/// `entries` with `value` under `name`: in the place of the value that
/// stood there, or at the end.
pub open spec fn inserted<T>(entries: Seq<(Seq<char>, T)>, name: Seq<char>, value: T) -> Seq<
    (Seq<char>, T),
> {
    let k = entry_index(entries, name);
    if k < entries.len() {
        entries.update(k, (name, value))
    } else {
        entries.push((name, value))
    }
}

/// The type that a term of a base relation's head declares: `int`,
/// `float` or `sym`.
pub open spec fn declared_type(term: TermView) -> Result<DataType, FailureView> {
    match term {
        TermView::Constant(ConstantView::Symbol(s)) => if s == "int"@ {
            Ok(DataType::Integer)
        } else if s == "float"@ {
            Ok(DataType::Float)
        } else if s == "sym"@ {
            Ok(DataType::Symbol)
        } else {
            Err(FailureView::UnknownType(s))
        },
        _ => Err(FailureView::UnknownType(term.display())),
    }
}

/// The types that the first `n` terms declare, or the error of the first
/// that declares none.
pub open spec fn declared_types(terms: Seq<TermView>, n: int) -> Result<Seq<DataType>, FailureView>
    decreases n,
{
    if n <= 0 {
        Ok(Seq::empty())
    } else {
        match declared_types(terms, n - 1) {
            Err(e) => Err(e),
            Ok(before) => match declared_type(terms[n - 1]) {
                Err(e) => Err(e),
                Ok(t) => Ok(before.push(t)),
            },
        }
    }
}

/// The types after each of the first `n` base relations has declared its
/// own.
pub open spec fn declared(types: Types, edbs: Seq<RuleView>, n: int) -> Result<Types, FailureView>
    decreases n,
{
    if n <= 0 {
        Ok(types)
    } else {
        match declared(types, edbs, n - 1) {
            Err(e) => Err(e),
            Ok(before) => match declared_types(
                edbs[n - 1].head.terms,
                edbs[n - 1].head.terms.len() as int,
            ) {
                Err(e) => Err(e),
                Ok(t) => Ok(inserted(before, edbs[n - 1].head.predicate, t)),
            },
        }
    }
}

/// `witnesses` with `t` for `name`, unless `name` has a type already.
pub open spec fn witnessed(witnesses: Witnesses, name: Seq<char>, t: DataType) -> Witnesses {
    if entry_index(witnesses, name) < witnesses.len() {
        witnesses
    } else {
        witnesses.push((name, t))
    }
}

/// The witnesses after the first `n` terms of `atom`: each distinguished
/// variable takes the type of the column it stands in, unless it has one.
/// An atom over a relation without types, or with more terms than the
/// relation has columns, is an error where it holds such a variable.
pub open spec fn atom_witnesses(
    columns: Option<Seq<DataType>>,
    atom: AtomView,
    witnesses: Witnesses,
    n: int,
) -> Result<Witnesses, FailureView>
    decreases n,
{
    if n <= 0 {
        Ok(witnesses)
    } else {
        match atom_witnesses(columns, atom, witnesses, n - 1) {
            Err(e) => Err(e),
            Ok(before) => match atom.terms[n - 1] {
                TermView::Variable(VariableView::Distinguished(v)) => match columns {
                    None => Err(FailureView::UnknownType(atom.predicate)),
                    Some(c) => if n - 1 < c.len() {
                        Ok(witnessed(before, v, c[n - 1]))
                    } else {
                        Err(FailureView::ArityMismatch(atom.predicate))
                    },
                },
                _ => Ok(before),
            },
        }
    }
}

/// The witnesses after the atoms among the first `n` clauses.
pub open spec fn body_witnesses(types: Types, body: Seq<ClauseView>, n: int) -> Result<
    Witnesses,
    FailureView,
>
    decreases n,
{
    if n <= 0 {
        Ok(Seq::empty())
    } else {
        match body_witnesses(types, body, n - 1) {
            Err(e) => Err(e),
            Ok(before) => match body[n - 1] {
                ClauseView::Atom(atom) => atom_witnesses(
                    lookup(types, atom.predicate),
                    atom,
                    before,
                    atom.terms.len() as int,
                ),
                ClauseView::Arithmetic(_) => Ok(before),
            },
        }
    }
}

/// The first distinguished variable among the first `n` head terms that
/// has no witness.
pub open spec fn unwitnessed(witnesses: Witnesses, head: AtomView, n: int) -> Option<FailureView>
    decreases n,
{
    if n <= 0 {
        None
    } else {
        match unwitnessed(witnesses, head, n - 1) {
            Some(e) => Some(e),
            None => match head.terms[n - 1] {
                TermView::Variable(VariableView::Distinguished(v)) => if lookup(witnesses, v)
                    is None {
                    Some(FailureView::UnwitnessedHeadVar { variable: v, predicate: head.predicate })
                } else {
                    None
                },
                _ => None,
            },
        }
    }
}

/// The column type of a constant: that of its kind. A truth value has
/// none.
pub open spec fn kind_type(k: ConstantView) -> Option<DataType> {
    match k {
        ConstantView::Integer(_) => Some(DataType::Integer),
        ConstantView::Float(_) => Some(DataType::Float),
        ConstantView::Symbol(_) => Some(DataType::Symbol),
        ConstantView::Boolean(_) => None,
    }
}

/// The types of the first `n` head terms: for a distinguished variable
/// that of its witness, for a constant that of its kind. Any other term is
/// an error.
pub open spec fn head_types(witnesses: Witnesses, head: AtomView, n: int) -> Result<
    Seq<DataType>,
    FailureView,
>
    decreases n,
{
    if n <= 0 {
        Ok(Seq::empty())
    } else {
        match head_types(witnesses, head, n - 1) {
            Err(e) => Err(e),
            Ok(before) => match head.terms[n - 1] {
                TermView::Variable(VariableView::Distinguished(v)) => match lookup(witnesses, v) {
                    Some(t) => Ok(before.push(t)),
                    None => Err(
                        FailureView::UnwitnessedHeadVar { variable: v, predicate: head.predicate },
                    ),
                },
                TermView::Constant(k) => match kind_type(k) {
                    Some(t) => Ok(before.push(t)),
                    None => Err(FailureView::UnknownType(head.terms[n - 1].display())),
                },
                other => Err(FailureView::UnknownType(other.display())),
            },
        }
    }
}

/// The column types that `rule` gives its head under `types`.
pub open spec fn rule_types(types: Types, rule: RuleView) -> Result<Seq<DataType>, FailureView> {
    match body_witnesses(types, rule.body, rule.body.len() as int) {
        Err(e) => Err(e),
        Ok(witnesses) => match unwitnessed(witnesses, rule.head, rule.head.terms.len() as int) {
            Some(e) => Err(e),
            None => head_types(witnesses, rule.head, rule.head.terms.len() as int),
        },
    }
}

/// The types after the base cases among the first `n` of `rules`: each
/// gives its head its types, a later one in place of an earlier.
pub open spec fn group_types(types: Types, rules: Seq<RuleView>, previous: Seq<Seq<char>>, n: int) -> Result<
    Types,
    FailureView,
>
    decreases n,
{
    if n <= 0 {
        Ok(types)
    } else {
        match group_types(types, rules, previous, n - 1) {
            Err(e) => Err(e),
            Ok(before) => if rules[n - 1].is_base_case(previous) {
                match rule_types(before, rules[n - 1]) {
                    Err(e) => Err(e),
                    Ok(t) => Ok(inserted(before, rules[n - 1].head.predicate, t)),
                }
            } else {
                Ok(before)
            },
        }
    }
}

/// The types after the first `n` derived relations of `order`; a relation
/// is typed from those before it and from the base relations.
pub open spec fn derived_types(
    types: Types,
    idbs: Seq<(Seq<char>, Seq<RuleView>)>,
    base: Seq<Seq<char>>,
    order: Seq<Seq<char>>,
    n: int,
) -> Result<Types, FailureView>
    decreases n,
{
    if n <= 0 {
        Ok(types)
    } else {
        match derived_types(types, idbs, base, order, n - 1) {
            Err(e) => Err(e),
            Ok(before) => match lookup(idbs, order[n - 1]) {
                None => Err(FailureView::UndefinedPredicate(order[n - 1])),
                Some(rules) => group_types(
                    before,
                    rules,
                    base + order.take(n - 1),
                    rules.len() as int,
                ),
            },
        }
    }
}

/// The types after inference over `context`, starting from `types`: the
/// base relations declare theirs, then the derived relations are typed in
/// the order of evaluation.
pub open spec fn inferred(types: Types, context: ContextView) -> Result<Types, FailureView> {
    match declared(types, context.edbs, context.edbs.len() as int) {
        Err(e) => Err(e),
        Ok(after) => derived_types(
            after,
            context.idbs,
            context.edb_names(),
            context.ordered_idbs(),
            context.ordered_idbs().len() as int,
        ),
    }
}


fn declare(term: &Term) -> (r: Result<DataType, Failure>)
    ensures
        match r {
            Ok(t) => declared_type(term@) == Ok::<DataType, FailureView>(t),
            Err(e) => declared_type(term@) == Err::<DataType, FailureView>(e@),
        },
{
    match term {
        Term::Constant(Constant::Symbol(s)) => {
            if *s == String::from_str("int") {
                Ok(DataType::Integer)
            } else if *s == String::from_str("float") {
                Ok(DataType::Float)
            } else if *s == String::from_str("sym") {
                Ok(DataType::Symbol)
            } else {
                Err(Failure::UnknownType(s.clone()))
            }
        },
        _ => Err(Failure::UnknownType(term.display())),
    }
}

fn declare_all(terms: &Vec<Term>) -> (r: Result<Vec<DataType>, Failure>)
    ensures
        match r {
            Ok(t) => declared_types(views(terms@), terms@.len() as int) == Ok::<
                Seq<DataType>,
                FailureView,
            >(t@),
            Err(e) => declared_types(views(terms@), terms@.len() as int) == Err::<
                Seq<DataType>,
                FailureView,
            >(e@),
        },
{
    let mut types: Vec<DataType> = Vec::new();
    let mut i: usize = 0;
    while i < terms.len()
        invariant
            i <= terms.len(),
            declared_types(views(terms@), i as int) == Ok::<Seq<DataType>, FailureView>(types@),
        decreases terms.len() - i,
    {
        assert(views(terms@)[i as int] == terms@[i as int]@);
        match declare(&terms[i]) {
            Ok(t) => {
                types.push(t);
            },
            Err(e) => {
                proof {
                    lemma_declared_types_fail(views(terms@), i + 1, terms@.len() as int);
                }
                return Err(e);
            },
        }
        i = i + 1;
    }
    Ok(types)
}

/// Once a term declares no type, the error stays.
pub proof fn lemma_declared_types_fail(terms: Seq<TermView>, n: int, m: int)
    requires
        0 <= n <= m,
        declared_types(terms, n) is Err,
    ensures
        declared_types(terms, m) == declared_types(terms, n),
    decreases m - n,
{
    if n < m {
        lemma_declared_types_fail(terms, n, m - 1);
    }
}

/// Once a base relation declares no types, the error stays.
pub proof fn lemma_declared_fail(types: Types, edbs: Seq<RuleView>, n: int, m: int)
    requires
        0 <= n <= m,
        declared(types, edbs, n) is Err,
    ensures
        declared(types, edbs, m) == declared(types, edbs, n),
    decreases m - n,
{
    if n < m {
        lemma_declared_fail(types, edbs, n, m - 1);
    }
}

/// Once a term of an atom fails, the error stays.
pub proof fn lemma_atom_witnesses_fail(
    columns: Option<Seq<DataType>>,
    atom: AtomView,
    witnesses: Witnesses,
    n: int,
    m: int,
)
    requires
        0 <= n <= m,
        atom_witnesses(columns, atom, witnesses, n) is Err,
    ensures
        atom_witnesses(columns, atom, witnesses, m) == atom_witnesses(columns, atom, witnesses, n),
    decreases m - n,
{
    if n < m {
        lemma_atom_witnesses_fail(columns, atom, witnesses, n, m - 1);
    }
}

/// Once a clause fails, the error stays.
pub proof fn lemma_body_witnesses_fail(types: Types, body: Seq<ClauseView>, n: int, m: int)
    requires
        0 <= n <= m,
        body_witnesses(types, body, n) is Err,
    ensures
        body_witnesses(types, body, m) == body_witnesses(types, body, n),
    decreases m - n,
{
    if n < m {
        lemma_body_witnesses_fail(types, body, n, m - 1);
    }
}

/// Once a head variable is found without witness, it stays the first.
pub proof fn lemma_unwitnessed_stays(witnesses: Witnesses, head: AtomView, n: int, m: int)
    requires
        0 <= n <= m,
        unwitnessed(witnesses, head, n) is Some,
    ensures
        unwitnessed(witnesses, head, m) == unwitnessed(witnesses, head, n),
    decreases m - n,
{
    if n < m {
        lemma_unwitnessed_stays(witnesses, head, n, m - 1);
    }
}

/// Once a head term has no type, the error stays.
pub proof fn lemma_head_types_fail(witnesses: Witnesses, head: AtomView, n: int, m: int)
    requires
        0 <= n <= m,
        head_types(witnesses, head, n) is Err,
    ensures
        head_types(witnesses, head, m) == head_types(witnesses, head, n),
    decreases m - n,
{
    if n < m {
        lemma_head_types_fail(witnesses, head, n, m - 1);
    }
}

/// Once a rule cannot be typed, the error stays.
pub proof fn lemma_group_types_fail(
    types: Types,
    rules: Seq<RuleView>,
    previous: Seq<Seq<char>>,
    n: int,
    m: int,
)
    requires
        0 <= n <= m,
        group_types(types, rules, previous, n) is Err,
    ensures
        group_types(types, rules, previous, m) == group_types(types, rules, previous, n),
    decreases m - n,
{
    if n < m {
        lemma_group_types_fail(types, rules, previous, n, m - 1);
    }
}

/// Once a derived relation cannot be typed, the error stays.
pub proof fn lemma_derived_types_fail(
    types: Types,
    idbs: Seq<(Seq<char>, Seq<RuleView>)>,
    base: Seq<Seq<char>>,
    order: Seq<Seq<char>>,
    n: int,
    m: int,
)
    requires
        0 <= n <= m,
        derived_types(types, idbs, base, order, n) is Err,
    ensures
        derived_types(types, idbs, base, order, m) == derived_types(types, idbs, base, order, n),
    decreases m - n,
{
    if n < m {
        lemma_derived_types_fail(types, idbs, base, order, n, m - 1);
    }
}

/// The witnesses as mathematical values.
pub open spec fn witness_entries(entries: Seq<(String, DataType)>) -> Witnesses {
    Seq::new(entries.len(), |i: int| (entries[i].0@, entries[i].1))
}

fn witness_of(witnesses: &Vec<(String, DataType)>, name: &String) -> (r: Option<DataType>)
    ensures
        r == lookup(witness_entries(witnesses@), name@),
{
    let k = find_key(witnesses, name);
    proof {
        lemma_entry_index_keys(witness_entries(witnesses@), name@);
        assert(keys(witness_entries(witnesses@)) =~= key_views(witnesses@));
    }
    if k < witnesses.len() {
        Some(witnesses[k].1)
    } else {
        None
    }
}

impl Analyzer {
    /// An analyzer that has typed nothing yet.
    pub fn new() -> (r: Analyzer)
        ensures
            r@ == Seq::<(Seq<char>, Seq<DataType>)>::empty(),
    {
        let r = Analyzer { data_types: Vec::new() };
        assert(r@ =~= Seq::<(Seq<char>, Seq<DataType>)>::empty());
        r
    }

    /// The position of the types of `name`, or the number of typed
    /// relations where `name` has none.
    pub fn find(&self, name: &String) -> (k: usize)
        ensures
            k <= self@.len(),
            k == entry_index(self@, name@),
            k < self@.len() ==> lookup(self@, name@) == Some(self.data_types@[k as int].1@),
            k == self@.len() ==> lookup(self@, name@) is None,
    {
        let k = find_key(&self.data_types, name);
        proof {
            lemma_entry_index_keys(self@, name@);
            assert(keys(self@) =~= key_views(self.data_types@));
        }
        k
    }

    /// Puts `types` under `name`: in the place of the types that stood
    /// there, or at the end.
    pub fn insert(&mut self, name: String, types: Vec<DataType>)
        ensures
            final(self)@ == inserted(old(self)@, name@, types@),
            keys(old(self)@).no_duplicates() ==> keys(final(self)@).no_duplicates(),
    {
        proof {
            if keys(self@).no_duplicates() {
                crate::engine::typing::lemma_inserted_unique(self@, name@, types@);
            }
        }
        let k = self.find(&name);
        if k < self.data_types.len() {
            self.data_types.set(k, (name, types));
            assert(self@ =~= inserted(old(self)@, name@, types@));
        } else {
            self.data_types.push((name, types));
            assert(self@ =~= inserted(old(self)@, name@, types@));
        }
    }

    fn scan_atom(&self, atom: &Atom, witnesses: &mut Vec<(String, DataType)>) -> (r: Result<
        (),
        Failure,
    >)
        ensures
            match r {
                Ok(()) => atom_witnesses(
                    lookup(self@, atom@.predicate),
                    atom@,
                    witness_entries(old(witnesses)@),
                    atom@.terms.len() as int,
                ) == Ok::<Witnesses, FailureView>(witness_entries(final(witnesses)@)),
                Err(e) => atom_witnesses(
                    lookup(self@, atom@.predicate),
                    atom@,
                    witness_entries(old(witnesses)@),
                    atom@.terms.len() as int,
                ) == Err::<Witnesses, FailureView>(e@),
            },
    {
        let k = self.find(&atom.predicate);
        let ghost columns = lookup(self@, atom@.predicate);
        let ghost start = witness_entries(witnesses@);
        let mut i: usize = 0;
        while i < atom.terms.len()
            invariant
                i <= atom.terms.len(),
                k <= self@.len(),
                start == witness_entries(old(witnesses)@),
                columns == lookup(self@, atom@.predicate),
                k < self@.len() ==> columns == Some(self.data_types@[k as int].1@),
                k == self@.len() ==> columns is None,
                atom_witnesses(columns, atom@, start, i as int) == Ok::<Witnesses, FailureView>(
                    witness_entries(witnesses@),
                ),
            decreases atom.terms.len() - i,
        {
            assert(atom@.terms[i as int] == atom.terms@[i as int]@);
            let ghost before = witness_entries(witnesses@);
            match &atom.terms[i] {
                Term::Variable(Variable::Distinguished(v)) => {
                    if k >= self.data_types.len() {
                        proof {
                            assert(atom_witnesses(columns, atom@, start, i + 1) == Err::<
                                Witnesses,
                                FailureView,
                            >(FailureView::UnknownType(atom@.predicate)));
                            lemma_atom_witnesses_fail(
                                columns,
                                atom@,
                                start,
                                i + 1,
                                atom@.terms.len() as int,
                            );
                        }
                        return Err(Failure::UnknownType(atom.predicate.clone()));
                    }
                    let known = &self.data_types[k].1;
                    if i >= known.len() {
                        proof {
                            assert(atom_witnesses(columns, atom@, start, i + 1) == Err::<
                                Witnesses,
                                FailureView,
                            >(FailureView::ArityMismatch(atom@.predicate)));
                            lemma_atom_witnesses_fail(
                                columns,
                                atom@,
                                start,
                                i + 1,
                                atom@.terms.len() as int,
                            );
                        }
                        return Err(Failure::ArityMismatch(atom.predicate.clone()));
                    }
                    if witness_of(witnesses, v).is_none() {
                        witnesses.push((v.clone(), known[i]));
                        assert(witness_entries(witnesses@) =~= before.push((v@, known@[i as int])));
                    }
                },
                _ => {},
            }
            i = i + 1;
        }
        Ok(())
    }

    /// The column types that `rule` gives its head.
    pub fn types_of_rule(&self, rule: &Rule) -> (r: Result<Vec<DataType>, Failure>)
        ensures
            match r {
                Ok(t) => rule_types(self@, rule@) == Ok::<Seq<DataType>, FailureView>(t@),
                Err(e) => rule_types(self@, rule@) == Err::<Seq<DataType>, FailureView>(e@),
            },
    {
        let mut witnesses: Vec<(String, DataType)> = Vec::new();
        let mut c: usize = 0;
        assert(witness_entries(witnesses@) =~= Seq::<(Seq<char>, DataType)>::empty());
        while c < rule.body.len()
            invariant
                c <= rule.body.len(),
                body_witnesses(self@, rule@.body, c as int) == Ok::<Witnesses, FailureView>(
                    witness_entries(witnesses@),
                ),
            decreases rule.body.len() - c,
        {
            assert(rule@.body[c as int] == rule.body@[c as int]@);
            match &rule.body[c] {
                Clause::Atom(atom) => {
                    match self.scan_atom(atom, &mut witnesses) {
                        Ok(()) => {},
                        Err(e) => {
                            proof {
                                lemma_body_witnesses_fail(
                                    self@,
                                    rule@.body,
                                    c + 1,
                                    rule@.body.len() as int,
                                );
                            }
                            return Err(e);
                        },
                    }
                },
                Clause::Arithmetic(_) => {},
            }
            c = c + 1;
        }
        let ghost found = witness_entries(witnesses@);
        let mut i: usize = 0;
        while i < rule.head.terms.len()
            invariant
                i <= rule.head.terms.len(),
                found == witness_entries(witnesses@),
                body_witnesses(self@, rule@.body, rule@.body.len() as int) == Ok::<
                    Witnesses,
                    FailureView,
                >(found),
                unwitnessed(found, rule@.head, i as int) is None,
            decreases rule.head.terms.len() - i,
        {
            assert(rule@.head.terms[i as int] == rule.head.terms@[i as int]@);
            match &rule.head.terms[i] {
                Term::Variable(Variable::Distinguished(v)) => {
                    if witness_of(&witnesses, v).is_none() {
                        proof {
                            assert(unwitnessed(found, rule@.head, i + 1) == Some(
                                FailureView::UnwitnessedHeadVar {
                                    variable: v@,
                                    predicate: rule@.head.predicate,
                                },
                            ));
                            lemma_unwitnessed_stays(
                                found,
                                rule@.head,
                                i + 1,
                                rule@.head.terms.len() as int,
                            );
                        }
                        return Err(
                            Failure::UnwitnessedHeadVar {
                                variable: v.clone(),
                                predicate: rule.head.predicate.clone(),
                            },
                        );
                    }
                },
                _ => {},
            }
            i = i + 1;
        }
        let mut types: Vec<DataType> = Vec::new();
        let mut j: usize = 0;
        while j < rule.head.terms.len()
            invariant
                j <= rule.head.terms.len(),
                found == witness_entries(witnesses@),
                body_witnesses(self@, rule@.body, rule@.body.len() as int) == Ok::<
                    Witnesses,
                    FailureView,
                >(found),
                unwitnessed(found, rule@.head, rule@.head.terms.len() as int) is None,
                head_types(found, rule@.head, j as int) == Ok::<Seq<DataType>, FailureView>(types@),
            decreases rule.head.terms.len() - j,
        {
            assert(rule@.head.terms[j as int] == rule.head.terms@[j as int]@);
            let mut failed: Option<Failure> = None;
            match &rule.head.terms[j] {
                Term::Variable(Variable::Distinguished(v)) => {
                    match witness_of(&witnesses, v) {
                        Some(t) => {
                            types.push(t);
                        },
                        None => {
                            failed = Some(
                                Failure::UnwitnessedHeadVar {
                                    variable: v.clone(),
                                    predicate: rule.head.predicate.clone(),
                                },
                            );
                        },
                    }
                },
                Term::Constant(Constant::Integer(_)) => {
                    types.push(DataType::Integer);
                },
                Term::Constant(Constant::Float(_)) => {
                    types.push(DataType::Float);
                },
                Term::Constant(Constant::Symbol(_)) => {
                    types.push(DataType::Symbol);
                },
                other => {
                    failed = Some(Failure::UnknownType(other.display()));
                },
            }
            match failed {
                Some(e) => {
                    proof {
                        assert(head_types(found, rule@.head, j + 1) == Err::<
                            Seq<DataType>,
                            FailureView,
                        >(e@));
                        lemma_head_types_fail(
                            found,
                            rule@.head,
                            j + 1,
                            rule@.head.terms.len() as int,
                        );
                    }
                    return Err(e);
                },
                None => {},
            }
            j = j + 1;
        }
        Ok(types)
    }
}


impl Analyzer {
    fn declare_edbs(&mut self, edbs: &Vec<Rule>) -> (r: Result<(), Failure>)
        ensures
            match r {
                Ok(()) => declared(old(self)@, views(edbs@), edbs@.len() as int) == Ok::<
                    Types,
                    FailureView,
                >(final(self)@),
                Err(e) => declared(old(self)@, views(edbs@), edbs@.len() as int) == Err::<
                    Types,
                    FailureView,
                >(e@),
            },
    {
        let mut i: usize = 0;
        while i < edbs.len()
            invariant
                i <= edbs.len(),
                declared(old(self)@, views(edbs@), i as int) == Ok::<Types, FailureView>(self@),
            decreases edbs.len() - i,
        {
            let rule = &edbs[i];
            assert(views(edbs@)[i as int] == rule@);
            assert(rule@.head.terms.len() == rule.head.terms@.len());
            match declare_all(&rule.head.terms) {
                Ok(types) => {
                    self.insert(rule.head.predicate.clone(), types);
                },
                Err(e) => {
                    proof {
                        assert(declared(old(self)@, views(edbs@), i + 1) == Err::<
                            Types,
                            FailureView,
                        >(e@));
                        lemma_declared_fail(old(self)@, views(edbs@), i + 1, edbs@.len() as int);
                    }
                    return Err(e);
                },
            }
            i = i + 1;
        }
        Ok(())
    }

    fn type_group(&mut self, rules: &Vec<Rule>, previous: &Vec<String>) -> (r: Result<(), Failure>)
        ensures
            match r {
                Ok(()) => group_types(
                    old(self)@,
                    views(rules@),
                    views(previous@),
                    rules@.len() as int,
                ) == Ok::<Types, FailureView>(final(self)@),
                Err(e) => group_types(
                    old(self)@,
                    views(rules@),
                    views(previous@),
                    rules@.len() as int,
                ) == Err::<Types, FailureView>(e@),
            },
    {
        let mut i: usize = 0;
        while i < rules.len()
            invariant
                i <= rules.len(),
                group_types(old(self)@, views(rules@), views(previous@), i as int) == Ok::<
                    Types,
                    FailureView,
                >(self@),
            decreases rules.len() - i,
        {
            let rule = &rules[i];
            assert(views(rules@)[i as int] == rule@);
            if rule.is_base_case(previous) {
                match self.types_of_rule(rule) {
                    Ok(types) => {
                        self.insert(rule.head.predicate.clone(), types);
                    },
                    Err(e) => {
                        proof {
                            assert(group_types(
                                old(self)@,
                                views(rules@),
                                views(previous@),
                                i + 1,
                            ) == Err::<Types, FailureView>(e@));
                            lemma_group_types_fail(
                                old(self)@,
                                views(rules@),
                                views(previous@),
                                i + 1,
                                rules@.len() as int,
                            );
                        }
                        return Err(e);
                    },
                }
            }
            i = i + 1;
        }
        Ok(())
    }

    /// Infers the column types of the relations of `context`: each base
    /// relation declares its own by the terms of its head; each derived
    /// relation, in the order of evaluation, takes those that its base
    /// cases give it.
    pub fn type_inference(&mut self, context: &Context) -> (r: Result<(), Failure>)
        ensures
            match r {
                Ok(()) => inferred(old(self)@, context@) == Ok::<Types, FailureView>(final(self)@),
                Err(e) => inferred(old(self)@, context@) == Err::<Types, FailureView>(e@),
            },
            r is Ok && keys(old(self)@).no_duplicates() ==> keys(final(self)@).no_duplicates(),
    {
        proof {
            if keys(self@).no_duplicates() && inferred(self@, context@) is Ok {
                crate::engine::typing::law_types_unique(self@, context@);
            }
        }
        match self.declare_edbs(&context.edbs) {
            Ok(()) => {},
            Err(e) => {
                return Err(e);
            },
        }
        let ghost after = self@;
        let ghost idbs = context@.idbs;
        let ghost base = context@.edb_names();
        let mut previous = context.edb_names();
        let order = context.ordered_idbs();
        let ghost names = views(order@);
        let mut k: usize = 0;
        assert(names.take(0) =~= Seq::<Seq<char>>::empty());
        assert(views(previous@) =~= base + names.take(0));
        while k < order.len()
            invariant
                k <= order.len(),
                names == views(order@),
                names == context@.ordered_idbs(),
                idbs == context@.idbs,
                base == context@.edb_names(),
                declared(old(self)@, context@.edbs, context@.edbs.len() as int) == Ok::<
                    Types,
                    FailureView,
                >(after),
                views(previous@) == base + names.take(k as int),
                derived_types(after, idbs, base, names, k as int) == Ok::<Types, FailureView>(self@),
            decreases order.len() - k,
        {
            let name = &order[k];
            let ghost before = views(previous@);
            let g = find_key(&context.idbs, name);
            proof {
                lemma_entry_index_keys(idbs, name@);
                assert(keys(idbs) =~= key_views(context.idbs@));
            }
            if g >= context.idbs.len() {
                proof {
                    assert(derived_types(after, idbs, base, names, k + 1) == Err::<
                        Types,
                        FailureView,
                    >(FailureView::UndefinedPredicate(name@)));
                    lemma_derived_types_fail(after, idbs, base, names, k + 1, names.len() as int);
                }
                return Err(Failure::UndefinedPredicate(name.clone()));
            }
            let rules = &context.idbs[g].1;
            assert(idbs[g as int].1 == views(rules@));
            match self.type_group(rules, &previous) {
                Ok(()) => {},
                Err(e) => {
                    proof {
                        assert(derived_types(after, idbs, base, names, k + 1) == Err::<
                            Types,
                            FailureView,
                        >(e@));
                        lemma_derived_types_fail(
                            after,
                            idbs,
                            base,
                            names,
                            k + 1,
                            names.len() as int,
                        );
                    }
                    return Err(e);
                },
            }
            previous.push(name.clone());
            assert(views(previous@) =~= before.push(name@));
            assert(names.take(k + 1) =~= names.take(k as int).push(name@));
            assert(views(previous@) =~= base + names.take(k + 1));
            k = k + 1;
        }
        Ok(())
    }
}

} // verus!
