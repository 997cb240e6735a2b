//! The context of a run: the rules of a program sorted into base
//! relations, derived relations and queries, checked, and stratified.

use vstd::prelude::*;
use crate::error::{Failure, FailureView, Violation};
use crate::syntax::ast::{
    Clause, ClauseView, IO, IOView, Program, Rule, RuleView, Term, TermView, Variable,
    VariableView,
};
use crate::syntax::stratify::{
    covers, dependency_views, levels_match, node_names, respects, strata_are_components,
    strata_distinct, strata_part, Stratum, stratum_of, StratumView,
};
use crate::text::{contains_name, dedup_names, first_occurrences, lemma_first_occurrences, views};

verus! {

/// A checked and stratified program.
#[derive(Debug, PartialEq, Eq)]
pub struct Context {
    /// The strata of the predicates.
    pub stratum: Stratum,
    /// The rules that declare base relations, in source order.
    pub edbs: Vec<Rule>,
    /// The rules of each derived relation, in source order; the relations
    /// stand in the order of their first rule.
    pub idbs: Vec<(String, Vec<Rule>)>,
    /// The query of each queried predicate; the predicates stand in the
    /// order of their first query.
    pub queries: Vec<Rule>,
}

/// The value of a `Context`, as contracts speak of it.
pub struct ContextView {
    pub stratum: StratumView,
    pub edbs: Seq<RuleView>,
    pub idbs: Seq<(Seq<char>, Seq<RuleView>)>,
    pub queries: Seq<RuleView>,
}

/// The groups of derived rules as mathematical values.
pub open spec fn group_views(groups: Seq<(String, Vec<Rule>)>) -> Seq<(Seq<char>, Seq<RuleView>)> {
    Seq::new(groups.len(), |i: int| (groups[i].0@, views(groups[i].1@)))
}

impl View for Context {
    type V = ContextView;

    open spec fn view(&self) -> ContextView {
        ContextView {
            stratum: self.stratum@,
            edbs: views(self.edbs@),
            idbs: group_views(self.idbs@),
            queries: views(self.queries@),
        }
    }
}

/// Among the first `n` rules, those that `keep` holds of, in order.
pub open spec fn rules_where(
    program: Seq<RuleView>,
    keep: spec_fn(RuleView) -> bool,
    n: int,
) -> Seq<RuleView>
    decreases n,
{
    if n <= 0 {
        Seq::empty()
    } else if keep(program[n - 1]) {
        rules_where(program, keep, n - 1).push(program[n - 1])
    } else {
        rules_where(program, keep, n - 1)
    }
}

/// The head predicates of `rules`, in order.
pub open spec fn head_names(rules: Seq<RuleView>) -> Seq<Seq<char>> {
    Seq::new(rules.len(), |i: int| rules[i].head.predicate)
}

/// Whether the rule declares a base relation.
pub open spec fn is_read(rule: RuleView) -> bool {
    rule.io is Read
}

/// Whether the rule is a derived rule.
pub open spec fn is_silent(rule: RuleView) -> bool {
    rule.io is Silent
}

/// Whether the rule is a query.
pub open spec fn is_write(rule: RuleView) -> bool {
    rule.io is Write
}

/// The rules among the first `n` that declare a base relation.
pub open spec fn edb_rules(program: Seq<RuleView>, n: int) -> Seq<RuleView> {
    rules_where(program, |r: RuleView| is_read(r), n)
}

/// The derived rules among the first `n`.
pub open spec fn idb_rules(program: Seq<RuleView>, n: int) -> Seq<RuleView> {
    rules_where(program, |r: RuleView| is_silent(r), n)
}

/// The derived rules of `name` among the first `n`.
pub open spec fn rules_of(program: Seq<RuleView>, name: Seq<char>, n: int) -> Seq<RuleView> {
    rules_where(program, |r: RuleView| is_silent(r) && r.head.predicate == name, n)
}

/// The names of the base relations of the program.
pub open spec fn edb_names(program: Seq<RuleView>) -> Seq<Seq<char>> {
    head_names(edb_rules(program, program.len() as int))
}

/// The names of the derived relations of the program, in the order of
/// their first rule, each once.
pub open spec fn idb_names(program: Seq<RuleView>) -> Seq<Seq<char>> {
    first_occurrences(head_names(idb_rules(program, program.len() as int)))
}

/// The names of the queried predicates, in the order of their first
/// query, each once.
pub open spec fn query_names(program: Seq<RuleView>) -> Seq<Seq<char>> {
    first_occurrences(head_names(rules_where(program, |r: RuleView| is_write(r), program.len() as int)))
}

/// The last query of `name` among the first `n` rules, if there is one.
pub open spec fn last_query(program: Seq<RuleView>, name: Seq<char>, n: int) -> Option<RuleView>
    decreases n,
{
    if n <= 0 {
        None
    } else if is_write(program[n - 1]) && program[n - 1].head.predicate == name {
        Some(program[n - 1])
    } else {
        last_query(program, name, n - 1)
    }
}

/// Whether the head of `rule` holds the anonymous placeholder.
pub open spec fn has_free_head(rule: RuleView) -> bool {
    exists|t: int|
        0 <= t < rule.head.terms.len() && #[trigger] rule.head.terms[t] == TermView::Variable(
            VariableView::Free,
        )
}

/// Whether some rule of the program defines `predicate`.
pub open spec fn defined(program: Seq<RuleView>, predicate: Seq<char>) -> bool {
    edb_names(program).contains(predicate) || idb_names(program).contains(predicate)
}

/// The predicate of the first atom among the first `n` clauses of `body`
/// that no rule defines.
pub open spec fn first_undefined(program: Seq<RuleView>, body: Seq<ClauseView>, n: int) -> Option<
    Seq<char>,
>
    decreases n,
{
    if n <= 0 {
        None
    } else {
        match first_undefined(program, body, n - 1) {
            Some(p) => Some(p),
            None => match body[n - 1] {
                ClauseView::Atom(a) => if defined(program, a.predicate) {
                    None
                } else {
                    Some(a.predicate)
                },
                ClauseView::Arithmetic(_) => None,
            },
        }
    }
}

/// What is wrong with the rule at position `i`, seen by itself: a base
/// relation that an earlier rule has declared; a derived rule under the
/// name of a base relation, with the placeholder in its head, or over a
/// predicate that no rule defines.
pub open spec fn rule_error(program: Seq<RuleView>, i: int) -> Option<FailureView> {
    let rule = program[i];
    let name = rule.head.predicate;
    match rule.io {
        IOView::Read(_) => if head_names(edb_rules(program, i)).contains(name) {
            Some(FailureView::DuplicatePredicate(name))
        } else {
            None
        },
        IOView::Silent => if edb_names(program).contains(name) {
            Some(FailureView::DuplicatePredicate(name))
        } else if has_free_head(rule) {
            Some(FailureView::FreeVarInHead(name))
        } else {
            match first_undefined(program, rule.body, rule.body.len() as int) {
                Some(p) => Some(FailureView::UndefinedPredicate(p)),
                None => None,
            }
        },
        IOView::Write(_) => None,
    }
}

/// The error of the first of the first `n` rules that has one.
pub open spec fn first_error(program: Seq<RuleView>, n: int) -> Option<FailureView>
    decreases n,
{
    if n <= 0 {
        None
    } else {
        match first_error(program, n - 1) {
            Some(e) => Some(e),
            None => rule_error(program, n - 1),
        }
    }
}

/// The dependencies of a head on the atoms among the first `n` clauses of
/// its body.
pub open spec fn body_dependencies(head: Seq<char>, body: Seq<ClauseView>, n: int) -> Seq<
    (Seq<char>, Seq<char>),
>
    decreases n,
{
    if n <= 0 {
        Seq::empty()
    } else {
        match body[n - 1] {
            ClauseView::Atom(a) => body_dependencies(head, body, n - 1).push((head, a.predicate)),
            ClauseView::Arithmetic(_) => body_dependencies(head, body, n - 1),
        }
    }
}

/// The dependencies of the derived rules among the first `n`: one from the
/// head to each body atom.
pub open spec fn dependencies(program: Seq<RuleView>, n: int) -> Seq<(Seq<char>, Seq<char>)>
    decreases n,
{
    if n <= 0 {
        Seq::empty()
    } else if is_silent(program[n - 1]) {
        dependencies(program, n - 1) + body_dependencies(
            program[n - 1].head.predicate,
            program[n - 1].body,
            program[n - 1].body.len() as int,
        )
    } else {
        dependencies(program, n - 1)
    }
}

/// What is wrong with a clause under a head at `head_level`: a negated
/// atom must lie strictly below its head.
pub open spec fn clause_violation(
    stratum: StratumView,
    head_level: int,
    clause: ClauseView,
) -> Option<FailureView> {
    match clause {
        ClauseView::Atom(a) => if a.negation {
            match stratum.level(a.predicate) {
                Some(level) => if head_level < level {
                    Some(
                        FailureView::StratificationViolation {
                            predicate: a.predicate,
                            kind: Violation::Cyclic,
                        },
                    )
                } else if head_level == level {
                    Some(
                        FailureView::StratificationViolation {
                            predicate: a.predicate,
                            kind: Violation::Mutual,
                        },
                    )
                } else {
                    None
                },
                None => Some(FailureView::UndefinedPredicate(a.predicate)),
            }
        } else {
            None
        },
        ClauseView::Arithmetic(_) => None,
    }
}

/// The violation of the first of the first `n` clauses that has one.
pub open spec fn body_violation(
    stratum: StratumView,
    head_level: int,
    body: Seq<ClauseView>,
    n: int,
) -> Option<FailureView>
    decreases n,
{
    if n <= 0 {
        None
    } else {
        match body_violation(stratum, head_level, body, n - 1) {
            Some(e) => Some(e),
            None => clause_violation(stratum, head_level, body[n - 1]),
        }
    }
}

/// The violation of a rule: of a derived rule whose head has no level, or
/// of its first clause that has one.
pub open spec fn rule_violation(stratum: StratumView, rule: RuleView) -> Option<FailureView> {
    if is_silent(rule) {
        match stratum.level(rule.head.predicate) {
            Some(level) => body_violation(stratum, level, rule.body, rule.body.len() as int),
            None => Some(FailureView::UndefinedPredicate(rule.head.predicate)),
        }
    } else {
        None
    }
}

/// The violation of the first of the first `n` rules that has one.
pub open spec fn first_violation(stratum: StratumView, program: Seq<RuleView>, n: int) -> Option<
    FailureView,
>
    decreases n,
{
    if n <= 0 {
        None
    } else {
        match first_violation(stratum, program, n - 1) {
            Some(e) => Some(e),
            None => rule_violation(stratum, program[n - 1]),
        }
    }
}

/// Each of `rules`, annotated.
pub open spec fn annotated_rules(rules: Seq<RuleView>) -> Seq<RuleView> {
    Seq::new(rules.len(), |i: int| rules[i].annotated())
}

/// The context of `program` under `stratum`: the violation of the first
/// rule that breaks the stratification, or else the base relations, the
/// derived rules by relation with their variables annotated, and the last
/// query of each queried predicate.
pub open spec fn assembled(program: Seq<RuleView>, stratum: StratumView) -> Result<
    ContextView,
    FailureView,
> {
    match first_violation(stratum, program, program.len() as int) {
        Some(e) => Err(e),
        None => Ok(
            ContextView {
                stratum,
                edbs: edb_rules(program, program.len() as int),
                idbs: Seq::new(
                    idb_names(program).len(),
                    |i: int|
                        (
                            idb_names(program)[i],
                            annotated_rules(
                                rules_of(program, idb_names(program)[i], program.len() as int),
                            ),
                        ),
                ),
                queries: Seq::new(
                    query_names(program).len(),
                    |i: int| last_query(program, query_names(program)[i], program.len() as int)->0,
                ),
            },
        ),
    }
}

/// The predicates of the program: the base relations, then the derived
/// relations.
pub open spec fn predicates(program: Seq<RuleView>) -> Seq<Seq<char>> {
    edb_names(program) + idb_names(program)
}

/// The strata of the program: those of the graph with one node for each
/// predicate, and one edge from the head of each derived rule to each atom
/// of its body.
pub open spec fn program_strata(program: Seq<RuleView>) -> StratumView {
    stratum_of(predicates(program), dependencies(program, program.len() as int))
}

/// The context of `program`: the error of the first rule that is wrong by
/// itself, or else what the program gives under its stratification.
pub open spec fn context_of(program: Seq<RuleView>) -> Result<ContextView, FailureView> {
    match first_error(program, program.len() as int) {
        Some(e) => Err(e),
        None => assembled(program, program_strata(program)),
    }
}

/// Whether every negated body atom of a derived rule has a level strictly
/// below that of the rule's head.
pub open spec fn negations_lower(program: Seq<RuleView>, stratum: StratumView) -> bool {
    forall|i: int, c: int|
        0 <= i < program.len() && is_silent(program[i]) && 0 <= c < program[i].body.len() ==> (
        #[trigger] program[i].body[c] matches ClauseView::Atom(a) ==> a.negation ==> {
            &&& stratum.level(a.predicate) is Some
            &&& stratum.level(program[i].head.predicate) is Some
            &&& stratum.level(a.predicate)->0 < stratum.level(program[i].head.predicate)->0
        })
}

/// Whether the head of every derived rule has a level.
pub open spec fn heads_have_levels(program: Seq<RuleView>, stratum: StratumView) -> bool {
    forall|i: int|
        0 <= i < program.len() && is_silent(#[trigger] program[i]) ==> stratum.level(
            program[i].head.predicate,
        ) is Some
}


/// A result of building a context as mathematical values.
pub open spec fn result_view(r: Result<Context, Failure>) -> Result<ContextView, FailureView> {
    match r {
        Ok(c) => Ok(c@),
        Err(e) => Err(e@),
    }
}

fn edbs_in(program: &Vec<Rule>) -> (r: Vec<Rule>)
    ensures
        views(r@) == edb_rules(views(program@), program@.len() as int),
{
    let mut r: Vec<Rule> = Vec::new();
    let mut i: usize = 0;
    assert(views(r@) =~= Seq::<RuleView>::empty());
    while i < program.len()
        invariant
            i <= program.len(),
            views(r@) == edb_rules(views(program@), i as int),
        decreases program.len() - i,
    {
        let ghost before = views(r@);
        assert(views(program@)[i as int] == program@[i as int]@);
        match &program[i].io {
            IO::Read(_) => {
                r.push(program[i].clone());
                assert(views(r@) =~= before.push(program@[i as int]@));
            },
            _ => {},
        }
        i = i + 1;
    }
    r
}

fn names_of(rules: &Vec<Rule>) -> (r: Vec<String>)
    ensures
        views(r@) == head_names(views(rules@)),
{
    let mut r: Vec<String> = Vec::new();
    let mut i: usize = 0;
    while i < rules.len()
        invariant
            i <= rules.len(),
            r@.len() == i,
            forall|k: int| 0 <= k < i ==> (#[trigger] r@[k])@ == rules@[k]@.head.predicate,
        decreases rules.len() - i,
    {
        r.push(rules[i].head.predicate.clone());
        i = i + 1;
    }
    assert(views(r@) =~= head_names(views(rules@)));
    r
}

fn idb_names_in(program: &Vec<Rule>) -> (r: Vec<String>)
    ensures
        views(r@) == idb_names(views(program@)),
{
    let mut all: Vec<String> = Vec::new();
    let mut i: usize = 0;
    assert(views(all@) =~= head_names(idb_rules(views(program@), 0)));
    while i < program.len()
        invariant
            i <= program.len(),
            views(all@) == head_names(idb_rules(views(program@), i as int)),
        decreases program.len() - i,
    {
        let ghost before = views(all@);
        assert(views(program@)[i as int] == program@[i as int]@);
        match &program[i].io {
            IO::Silent => {
                all.push(program[i].head.predicate.clone());
                assert(views(all@) =~= before.push(program@[i as int]@.head.predicate));
                assert(views(all@) =~= head_names(idb_rules(views(program@), i + 1)));
            },
            _ => {},
        }
        i = i + 1;
    }
    dedup_names(&all)
}

fn query_names_in(program: &Vec<Rule>) -> (r: Vec<String>)
    ensures
        views(r@) == query_names(views(program@)),
{
    let mut all: Vec<String> = Vec::new();
    let mut i: usize = 0;
    let ghost keep = |r: RuleView| is_write(r);
    assert(views(all@) =~= head_names(rules_where(views(program@), keep, 0)));
    while i < program.len()
        invariant
            i <= program.len(),
            keep == |r: RuleView| is_write(r),
            views(all@) == head_names(rules_where(views(program@), keep, i as int)),
        decreases program.len() - i,
    {
        let ghost before = views(all@);
        assert(views(program@)[i as int] == program@[i as int]@);
        match &program[i].io {
            IO::Write(_) => {
                all.push(program[i].head.predicate.clone());
                assert(views(all@) =~= before.push(program@[i as int]@.head.predicate));
                assert(views(all@) =~= head_names(rules_where(views(program@), keep, i + 1)));
            },
            _ => {},
        }
        i = i + 1;
    }
    dedup_names(&all)
}

fn annotated_rules_of(program: &Vec<Rule>, name: &String) -> (r: Vec<Rule>)
    ensures
        views(r@) == annotated_rules(rules_of(views(program@), name@, program@.len() as int)),
{
    let mut r: Vec<Rule> = Vec::new();
    let mut i: usize = 0;
    assert(views(r@) =~= annotated_rules(rules_of(views(program@), name@, 0)));
    while i < program.len()
        invariant
            i <= program.len(),
            views(r@) == annotated_rules(rules_of(views(program@), name@, i as int)),
        decreases program.len() - i,
    {
        let ghost before = views(r@);
        assert(views(program@)[i as int] == program@[i as int]@);
        let silent = match &program[i].io {
            IO::Silent => true,
            _ => false,
        };
        if silent && program[i].head.predicate == *name {
            let mut rule = program[i].clone();
            rule.annotate_variable();
            r.push(rule);
            assert(views(r@) =~= before.push(program@[i as int]@.annotated()));
            assert(views(r@) =~= annotated_rules(rules_of(views(program@), name@, i + 1)));
        }
        i = i + 1;
    }
    r
}

fn last_query_in(program: &Vec<Rule>, name: &String) -> (r: Option<Rule>)
    ensures
        match r {
            Some(rule) => last_query(views(program@), name@, program@.len() as int) == Some(rule@),
            None => last_query(views(program@), name@, program@.len() as int) is None,
        },
{
    let mut i: usize = program.len();
    while i > 0
        invariant
            i <= program.len(),
            last_query(views(program@), name@, program@.len() as int) == last_query(
                views(program@),
                name@,
                i as int,
            ),
        decreases i,
    {
        i = i - 1;
        assert(views(program@)[i as int] == program@[i as int]@);
        let write = match &program[i].io {
            IO::Write(_) => true,
            _ => false,
        };
        if write && program[i].head.predicate == *name {
            return Some(program[i].clone());
        }
    }
    None
}

fn head_is_free(rule: &Rule) -> (r: bool)
    ensures
        r == has_free_head(rule@),
{
    let mut t: usize = 0;
    while t < rule.head.terms.len()
        invariant
            t <= rule.head.terms.len(),
            forall|k: int|
                0 <= k < t ==> #[trigger] rule@.head.terms[k] != TermView::Variable(
                    VariableView::Free,
                ),
        decreases rule.head.terms.len() - t,
    {
        assert(rule@.head.terms[t as int] == rule.head.terms@[t as int]@);
        match &rule.head.terms[t] {
            Term::Variable(Variable::Free) => {
                return true;
            },
            _ => {},
        }
        t = t + 1;
    }
    false
}

fn undefined_in(Ghost(program): Ghost<Seq<RuleView>>, rule: &Rule, edbs: &Vec<String>, idbs: &Vec<String>) -> (r:
    Option<String>)
    requires
        views(edbs@) == edb_names(program),
        views(idbs@) == idb_names(program),
    ensures
        match r {
            Some(p) => first_undefined(program, rule@.body, rule@.body.len() as int) == Some(p@),
            None => first_undefined(program, rule@.body, rule@.body.len() as int) is None,
        },
{
    let mut c: usize = 0;
    while c < rule.body.len()
        invariant
            c <= rule.body.len(),
            views(edbs@) == edb_names(program),
            views(idbs@) == idb_names(program),
            first_undefined(program, rule@.body, c as int) is None,
        decreases rule.body.len() - c,
    {
        assert(rule@.body[c as int] == rule.body@[c as int]@);
        match &rule.body[c] {
            Clause::Atom(atom) => {
                if !contains_name(edbs, &atom.predicate) && !contains_name(idbs, &atom.predicate) {
                    proof {
                        lemma_undefined_stays(program, rule@.body, c + 1, rule@.body.len() as int);
                    }
                    return Some(atom.predicate.clone());
                }
            },
            Clause::Arithmetic(_) => {},
        }
        c = c + 1;
    }
    None
}

/// Once an undefined predicate is found, it stays the first.
pub proof fn lemma_undefined_stays(program: Seq<RuleView>, body: Seq<ClauseView>, n: int, m: int)
    requires
        0 <= n <= m,
        first_undefined(program, body, n) is Some,
    ensures
        first_undefined(program, body, m) == first_undefined(program, body, n),
    decreases m - n,
{
    if n < m {
        lemma_undefined_stays(program, body, n, m - 1);
    }
}

/// Once a rule is found wrong, its error stays the first.
pub proof fn lemma_error_stays(program: Seq<RuleView>, n: int, m: int)
    requires
        0 <= n <= m,
        first_error(program, n) is Some,
    ensures
        first_error(program, m) == first_error(program, n),
    decreases m - n,
{
    if n < m {
        lemma_error_stays(program, n, m - 1);
    }
}

fn check_rules(program: &Vec<Rule>, edbs: &Vec<String>, idbs: &Vec<String>) -> (r: Option<Failure>)
    requires
        views(edbs@) == edb_names(views(program@)),
        views(idbs@) == idb_names(views(program@)),
    ensures
        match r {
            Some(e) => first_error(views(program@), program@.len() as int) == Some(e@),
            None => first_error(views(program@), program@.len() as int) is None,
        },
{
    let ghost rules = views(program@);
    let mut seen: Vec<String> = Vec::new();
    let mut i: usize = 0;
    assert(views(seen@) =~= head_names(edb_rules(rules, 0)));
    while i < program.len()
        invariant
            i <= program.len(),
            rules == views(program@),
            views(edbs@) == edb_names(rules),
            views(idbs@) == idb_names(rules),
            views(seen@) == head_names(edb_rules(rules, i as int)),
            first_error(rules, i as int) is None,
        decreases program.len() - i,
    {
        let rule = &program[i];
        let ghost before = views(seen@);
        assert(rules[i as int] == rule@);
        let mut found: Option<Failure> = None;
        match &rule.io {
            IO::Read(_) => {
                if contains_name(&seen, &rule.head.predicate) {
                    found = Some(Failure::DuplicatePredicate(rule.head.predicate.clone()));
                } else {
                    seen.push(rule.head.predicate.clone());
                    assert(views(seen@) =~= before.push(rule@.head.predicate));
                    assert(views(seen@) =~= head_names(edb_rules(rules, i + 1)));
                }
            },
            IO::Silent => {
                if contains_name(edbs, &rule.head.predicate) {
                    found = Some(Failure::DuplicatePredicate(rule.head.predicate.clone()));
                } else if head_is_free(rule) {
                    found = Some(Failure::FreeVarInHead(rule.head.predicate.clone()));
                } else {
                    match undefined_in(Ghost(rules), rule, edbs, idbs) {
                        Some(p) => {
                            found = Some(Failure::UndefinedPredicate(p));
                        },
                        None => {},
                    }
                }
            },
            IO::Write(_) => {},
        }
        match found {
            Some(e) => {
                proof {
                    assert(rule_error(rules, i as int) == Some(e@));
                    lemma_error_stays(rules, i + 1, program@.len() as int);
                }
                return Some(e);
            },
            None => {
                assert(rule_error(rules, i as int) is None);
            },
        }
        i = i + 1;
    }
    None
}


fn dependencies_in(program: &Vec<Rule>) -> (r: Vec<(String, String)>)
    ensures
        dependency_views(r@) == dependencies(views(program@), program@.len() as int),
{
    let ghost rules = views(program@);
    let mut r: Vec<(String, String)> = Vec::new();
    let mut i: usize = 0;
    assert(dependency_views(r@) =~= Seq::<(Seq<char>, Seq<char>)>::empty());
    while i < program.len()
        invariant
            i <= program.len(),
            rules == views(program@),
            dependency_views(r@) == dependencies(rules, i as int),
        decreases program.len() - i,
    {
        let rule = &program[i];
        assert(rules[i as int] == rule@);
        match &rule.io {
            IO::Silent => {
                let ghost before = dependency_views(r@);
                let mut c: usize = 0;
                assert(dependency_views(r@) =~= before + body_dependencies(
                    rule@.head.predicate,
                    rule@.body,
                    0,
                ));
                while c < rule.body.len()
                    invariant
                        c <= rule.body.len(),
                        dependency_views(r@) == before + body_dependencies(
                            rule@.head.predicate,
                            rule@.body,
                            c as int,
                        ),
                    decreases rule.body.len() - c,
                {
                    let ghost sofar = dependency_views(r@);
                    assert(rule@.body[c as int] == rule.body@[c as int]@);
                    match &rule.body[c] {
                        Clause::Atom(atom) => {
                            r.push((rule.head.predicate.clone(), atom.predicate.clone()));
                            assert(dependency_views(r@) =~= sofar.push(
                                (rule@.head.predicate, atom@.predicate),
                            ));
                            assert(dependency_views(r@) =~= before + body_dependencies(
                                rule@.head.predicate,
                                rule@.body,
                                c + 1,
                            ));
                        },
                        Clause::Arithmetic(_) => {},
                    }
                    c = c + 1;
                }
            },
            _ => {},
        }
        i = i + 1;
    }
    r
}

fn violation_of_clause(stratum: &Stratum, head_level: usize, clause: &Clause) -> (r: Option<Failure>)
    ensures
        match r {
            Some(e) => clause_violation(stratum@, head_level as int, clause@) == Some(e@),
            None => clause_violation(stratum@, head_level as int, clause@) is None,
        },
{
    match clause {
        Clause::Atom(atom) => {
            if atom.negation {
                match stratum.level(&atom.predicate) {
                    Some(level) => {
                        if head_level < level {
                            Some(
                                Failure::StratificationViolation {
                                    predicate: atom.predicate.clone(),
                                    kind: Violation::Cyclic,
                                },
                            )
                        } else if head_level == level {
                            Some(
                                Failure::StratificationViolation {
                                    predicate: atom.predicate.clone(),
                                    kind: Violation::Mutual,
                                },
                            )
                        } else {
                            None
                        }
                    },
                    None => Some(Failure::UndefinedPredicate(atom.predicate.clone())),
                }
            } else {
                None
            }
        },
        Clause::Arithmetic(_) => None,
    }
}

/// Once a clause is found in violation, its error stays the first.
pub proof fn lemma_body_violation_stays(
    stratum: StratumView,
    head_level: int,
    body: Seq<ClauseView>,
    n: int,
    m: int,
)
    requires
        0 <= n <= m,
        body_violation(stratum, head_level, body, n) is Some,
    ensures
        body_violation(stratum, head_level, body, m) == body_violation(
            stratum,
            head_level,
            body,
            n,
        ),
    decreases m - n,
{
    if n < m {
        lemma_body_violation_stays(stratum, head_level, body, n, m - 1);
    }
}

/// Once a rule is found in violation, its error stays the first.
pub proof fn lemma_violation_stays(stratum: StratumView, program: Seq<RuleView>, n: int, m: int)
    requires
        0 <= n <= m,
        first_violation(stratum, program, n) is Some,
    ensures
        first_violation(stratum, program, m) == first_violation(stratum, program, n),
    decreases m - n,
{
    if n < m {
        lemma_violation_stays(stratum, program, n, m - 1);
    }
}

fn violation_of_rule(stratum: &Stratum, rule: &Rule) -> (r: Option<Failure>)
    ensures
        match r {
            Some(e) => rule_violation(stratum@, rule@) == Some(e@),
            None => rule_violation(stratum@, rule@) is None,
        },
{
    match &rule.io {
        IO::Silent => {},
        _ => {
            return None;
        },
    }
    let head_level = match stratum.level(&rule.head.predicate) {
        Some(level) => level,
        None => {
            return Some(Failure::UndefinedPredicate(rule.head.predicate.clone()));
        },
    };
    let mut c: usize = 0;
    while c < rule.body.len()
        invariant
            c <= rule.body.len(),
            is_silent(rule@),
            stratum@.level(rule@.head.predicate) == Some(head_level as int),
            body_violation(stratum@, head_level as int, rule@.body, c as int) is None,
        decreases rule.body.len() - c,
    {
        assert(rule@.body[c as int] == rule.body@[c as int]@);
        match violation_of_clause(stratum, head_level, &rule.body[c]) {
            Some(e) => {
                proof {
                    assert(body_violation(stratum@, head_level as int, rule@.body, c + 1) == Some(
                        e@,
                    ));
                    lemma_body_violation_stays(
                        stratum@,
                        head_level as int,
                        rule@.body,
                        c + 1,
                        rule@.body.len() as int,
                    );
                }
                return Some(e);
            },
            None => {},
        }
        c = c + 1;
    }
    None
}

impl Context {
    /// Sorts the rules of `program` into a context under `stratum`, after
    /// checking that every negated atom lies strictly below its head.
    pub fn assemble(program: &Program, stratum: Stratum) -> (r: Result<Context, Failure>)
        ensures
            result_view(r) == assembled(views(program@), stratum@),
            r is Ok ==> r->Ok_0@.stratified(),
    {
        let ghost rules = views(program@);
        let mut i: usize = 0;
        while i < program.len()
            invariant
                i <= program.len(),
                rules == views(program@),
                first_violation(stratum@, rules, i as int) is None,
            decreases program.len() - i,
        {
            assert(rules[i as int] == program@[i as int]@);
            match violation_of_rule(&stratum, &program[i]) {
                Some(e) => {
                    proof {
                        lemma_violation_stays(stratum@, rules, i + 1, program@.len() as int);
                    }
                    return Err(e);
                },
                None => {},
            }
            i = i + 1;
        }
        let edbs = edbs_in(program);
        let names = idb_names_in(program);
        let mut idbs: Vec<(String, Vec<Rule>)> = Vec::new();
        let mut k: usize = 0;
        while k < names.len()
            invariant
                k <= names.len(),
                rules == views(program@),
                views(names@) == idb_names(rules),
                idbs@.len() == k,
                forall|j: int|
                    0 <= j < k ==> (#[trigger] idbs@[j]).0@ == names@[j]@ && views(idbs@[j].1@)
                        == annotated_rules(rules_of(rules, names@[j]@, rules.len() as int)),
            decreases names.len() - k,
        {
            let group = annotated_rules_of(program, &names[k]);
            idbs.push((names[k].clone(), group));
            k = k + 1;
        }
        let asked = query_names_in(program);
        let mut queries: Vec<Rule> = Vec::new();
        let mut q: usize = 0;
        while q < asked.len()
            invariant
                q <= asked.len(),
                rules == views(program@),
                views(asked@) == query_names(rules),
                queries@.len() == q,
                forall|j: int|
                    0 <= j < q ==> Some((#[trigger] queries@[j])@) == last_query(
                        rules,
                        asked@[j]@,
                        rules.len() as int,
                    ),
            decreases asked.len() - q,
        {
            match last_query_in(program, &asked[q]) {
                Some(rule) => {
                    queries.push(rule);
                },
                None => {
                    proof {
                        lemma_query_names(rules, q as int);
                    }
                },
            }
            q = q + 1;
        }
        let context = Context { stratum, edbs, idbs, queries };
        proof {
            let expected = assembled(rules, stratum@)->Ok_0;
            assert(context@.idbs =~= expected.idbs);
            assert(context@.queries =~= expected.queries);
            lemma_assembled_stratified(rules, stratum@);
        }
        Ok(context)
    }

    /// Builds the context of `program`: sorts its rules, rejects a program
    /// with a rule that is wrong, stratifies the predicates, and rejects a
    /// program with a negated atom that is not strictly below its head.
    ///
    /// The call fails exactly where a rule is wrong by itself or a negated
    /// atom is not strictly below its head: where no rule is wrong, the
    /// strata are sound, and the result is `Ok` exactly if every negated
    /// atom lies below its head.
    pub fn new(program: &Program) -> (r: Result<Context, Failure>)
        ensures
            result_view(r) == context_of(views(program@)),
            first_error(views(program@), program@.len() as int) is None ==> sound_strata(
                views(program@),
                program_strata(views(program@)),
            ),
            first_error(views(program@), program@.len() as int) is None ==> (r is Ok
                <==> negations_lower(views(program@), program_strata(views(program@)))),
            r is Ok ==> r->Ok_0@.well_formed() && r->Ok_0@.stratified(),
            r is Ok ==> r->Ok_0@.unique_names(),
            r is Ok ==> sound_strata(views(program@), r->Ok_0@.stratum),
    {
        let edbs = edbs_in(program);
        let edb_names = names_of(&edbs);
        let idb_names = idb_names_in(program);
        match check_rules(program, &edb_names, &idb_names) {
            Some(e) => {
                return Err(e);
            },
            None => {},
        }
        let dependencies = dependencies_in(program);
        let mut all_names = names_of(&edbs);
        let mut derived = idb_names_in(program);
        let ghost first = views(all_names@);
        let ghost second = views(derived@);
        all_names.append(&mut derived);
        assert(views(all_names@) =~= first + second);
        let stratum = Stratum::new(&all_names, &dependencies);
        proof {
            lemma_heads_have_levels(views(program@), stratum@);
            lemma_violation_iff(views(program@), stratum@);
        }
        let r = Context::assemble(program, stratum);
        proof {
            if r is Ok {
                lemma_context_well_formed(views(program@));
                lemma_context_unique(views(program@), stratum@);
            }
        }
        r
    }
}

/// Whether the strata are those of the dependency graph of the program:
/// they part the predicates, none empty and no predicate twice; every
/// predicate, so the head of every derived rule, has a level, which is
/// the position of its stratum; two predicates share a stratum exactly if
/// each depends on the other; and no predicate depends on one of a higher
/// level.
pub open spec fn sound_strata(program: Seq<RuleView>, stratum: StratumView) -> bool {
    let wanted = dependencies(program, program.len() as int);
    let names = node_names(predicates(program), wanted);
    &&& covers(stratum, names)
    &&& strata_part(stratum, names)
    &&& heads_have_levels(program, stratum)
    &&& levels_match(stratum)
    &&& strata_are_components(stratum, names, wanted)
    &&& respects(stratum, wanted)
}

/// Strata that give every predicate of the program a level give the head
/// of every derived rule one.
pub proof fn lemma_heads_have_levels(program: Seq<RuleView>, stratum: StratumView)
    requires
        covers(
            stratum,
            node_names(predicates(program), dependencies(program, program.len() as int)),
        ),
    ensures
        heads_have_levels(program, stratum),
{
    let wanted = dependencies(program, program.len() as int);
    let names = node_names(predicates(program), wanted);
    let all = predicates(program) + crate::syntax::stratify::ends(wanted, wanted.len() as int);
    lemma_first_occurrences(all);
    assert forall|i: int| 0 <= i < program.len() && is_silent(#[trigger] program[i]) implies stratum.level(
        program[i].head.predicate,
    ) is Some by {
        let name = program[i].head.predicate;
        let keep = |x: RuleView| is_silent(x);
        let silent = idb_rules(program, program.len() as int);
        lemma_rules_where(program, keep, program.len() as int);
        assert(silent.contains(program[i]));
        let k = choose|k: int| 0 <= k < silent.len() && silent[k] == program[i];
        assert(head_names(silent)[k] == name);
        assert(head_names(silent).contains(name));
        lemma_first_occurrences(head_names(silent));
        assert(idb_names(program).contains(name));
        let m = choose|m: int| 0 <= m < idb_names(program).len() && idb_names(program)[m] == name;
        assert(all[edb_names(program).len() + m] == name);
        assert(all.contains(name));
        assert(names.contains(name));
        let n = choose|n: int| 0 <= n < names.len() && names[n] == name;
        assert(stratum.level(names[n]) is Some);
    }
}

/// Where no clause among the first `n` is in violation, none is the
/// first.
pub proof fn lemma_body_clear(stratum: StratumView, head_level: int, body: Seq<ClauseView>, n: int)
    requires
        0 <= n <= body.len(),
        forall|c: int|
            0 <= c < n ==> clause_violation(stratum, head_level, #[trigger] body[c]) is None,
    ensures
        body_violation(stratum, head_level, body, n) is None,
    decreases n,
{
    if n > 0 {
        lemma_body_clear(stratum, head_level, body, n - 1);
    }
}

/// Where no rule among the first `n` is in violation, none is the first.
pub proof fn lemma_rules_clear(stratum: StratumView, program: Seq<RuleView>, n: int)
    requires
        0 <= n <= program.len(),
        forall|i: int| 0 <= i < n ==> rule_violation(stratum, #[trigger] program[i]) is None,
    ensures
        first_violation(stratum, program, n) is None,
    decreases n,
{
    if n > 0 {
        lemma_rules_clear(stratum, program, n - 1);
    }
}

/// Under strata that give the head of every derived rule a level, no rule
/// is in violation exactly if every negated atom lies below its head.
pub proof fn lemma_violation_iff(program: Seq<RuleView>, stratum: StratumView)
    requires
        heads_have_levels(program, stratum),
    ensures
        first_violation(stratum, program, program.len() as int) is None <==> negations_lower(
            program,
            stratum,
        ),
{
    if first_violation(stratum, program, program.len() as int) is None {
        assert forall|i: int, c: int|
            0 <= i < program.len() && is_silent(program[i]) && 0 <= c
                < program[i].body.len() implies (
        #[trigger] program[i].body[c] matches ClauseView::Atom(a) ==> a.negation ==> {
            &&& stratum.level(a.predicate) is Some
            &&& stratum.level(program[i].head.predicate) is Some
            &&& stratum.level(a.predicate)->0 < stratum.level(program[i].head.predicate)->0
        }) by {
            lemma_no_violation(stratum, program, i, program.len() as int);
            let level = stratum.level(program[i].head.predicate)->0;
            lemma_no_clause_violation(
                stratum,
                level,
                program[i].body,
                c,
                program[i].body.len() as int,
            );
        }
    }
    if negations_lower(program, stratum) {
        assert forall|i: int| 0 <= i < program.len() implies rule_violation(
            stratum,
            #[trigger] program[i],
        ) is None by {
            if is_silent(program[i]) {
                let level = stratum.level(program[i].head.predicate)->0;
                assert forall|c: int| 0 <= c < program[i].body.len() implies clause_violation(
                    stratum,
                    level,
                    #[trigger] program[i].body[c],
                ) is None by {
                }
                lemma_body_clear(stratum, level, program[i].body, program[i].body.len() as int);
            }
        }
        lemma_rules_clear(stratum, program, program.len() as int);
    }
}

/// Every queried predicate has a query.
pub proof fn lemma_query_names(program: Seq<RuleView>, q: int)
    requires
        0 <= q < query_names(program).len(),
    ensures
        last_query(program, query_names(program)[q], program.len() as int) is Some,
{
    let keep = |r: RuleView| is_write(r);
    let written = rules_where(program, keep, program.len() as int);
    let name = query_names(program)[q];
    lemma_first_occurrences(head_names(written));
    assert(query_names(program).contains(name));
    assert(head_names(written).contains(name));
    let k = choose|k: int| 0 <= k < written.len() && head_names(written)[k] == name;
    lemma_rules_where(program, keep, program.len() as int);
    assert(written.contains(written[k]));
    let i = choose|i: int| 0 <= i < program.len() && keep(program[i]) && program[i] == written[k];
    lemma_last_query(program, name, i, program.len() as int);
}

/// Each rule that `rules_where` keeps is one of the first `n` rules, and
/// `keep` holds of it; and each such rule is kept.
pub proof fn lemma_rules_where(program: Seq<RuleView>, keep: spec_fn(RuleView) -> bool, n: int)
    requires
        0 <= n <= program.len(),
    ensures
        forall|r: RuleView| #[trigger]
            rules_where(program, keep, n).contains(r) ==> exists|i: int|
                0 <= i < n && keep(program[i]) && program[i] == r,
        forall|i: int|
            0 <= i < n && keep(#[trigger] program[i]) ==> rules_where(program, keep, n).contains(
                program[i],
            ),
    decreases n,
{
    if n > 0 {
        lemma_rules_where(program, keep, n - 1);
        let before = rules_where(program, keep, n - 1);
        let now = rules_where(program, keep, n);
        assert forall|r: RuleView| #[trigger] now.contains(r) implies exists|i: int|
            0 <= i < n && keep(program[i]) && program[i] == r by {
            let k = choose|k: int| 0 <= k < now.len() && now[k] == r;
            if k < before.len() {
                assert(before[k] == r);
                assert(before.contains(r));
                let i = choose|i: int| 0 <= i < n - 1 && keep(program[i]) && program[i] == r;
                assert(0 <= i < n && keep(program[i]) && program[i] == r);
            } else {
                assert(keep(program[n - 1]) && program[n - 1] == r);
            }
        }
        assert forall|i: int| 0 <= i < n && keep(#[trigger] program[i]) implies now.contains(
            program[i],
        ) by {
            if i < n - 1 {
                assert(before.contains(program[i]));
                let k = choose|k: int| 0 <= k < before.len() && before[k] == program[i];
                assert(now[k] == program[i]);
            } else {
                assert(now[now.len() - 1] == program[i]);
            }
        }
    }
}

/// A query among the first `n` rules gives its predicate a last query.
pub proof fn lemma_last_query(program: Seq<RuleView>, name: Seq<char>, i: int, n: int)
    requires
        0 <= i < n <= program.len(),
        is_write(program[i]),
        program[i].head.predicate == name,
    ensures
        last_query(program, name, n) is Some,
    decreases n,
{
    if i < n - 1 {
        lemma_last_query(program, name, i, n - 1);
    }
}


impl ContextView {
    /// The names of the base relations.
    pub open spec fn edb_names(self) -> Seq<Seq<char>> {
        head_names(self.edbs)
    }

    /// The names of the derived relations.
    pub open spec fn idb_names(self) -> Seq<Seq<char>> {
        Seq::new(self.idbs.len(), |g: int| self.idbs[g].0)
    }

    /// Whether every negated body atom of a derived rule lies in a stratum
    /// strictly below that of the rule's head.
    pub open spec fn stratified(self) -> bool {
        forall|g: int, r: int, c: int|
            0 <= g < self.idbs.len() && 0 <= r < self.idbs[g].1.len() && 0 <= c
                < self.idbs[g].1[r].body.len() ==> (
            #[trigger] self.idbs[g].1[r].body[c] matches ClauseView::Atom(a) ==> a.negation ==> {
                &&& self.stratum.level(a.predicate) is Some
                &&& self.stratum.level(self.idbs[g].1[r].head.predicate) is Some
                &&& self.stratum.level(a.predicate)->0 < self.stratum.level(
                    self.idbs[g].1[r].head.predicate,
                )->0
            })
    }

    /// Whether no name stands twice among the base relations, among the
    /// derived relations, or among the queried predicates.
    pub open spec fn unique_names(self) -> bool {
        &&& head_names(self.edbs).no_duplicates()
        &&& self.idb_names().no_duplicates()
        &&& head_names(self.queries).no_duplicates()
    }

    /// Whether the rules are sound by themselves: no name is both base and
    /// derived, each derived rule stands under the name of its head, no
    /// head of a derived rule holds the placeholder, and every body atom of
    /// a derived rule is over a base or a derived relation.
    pub open spec fn well_formed(self) -> bool {
        &&& forall|e: int, g: int|
            0 <= e < self.edbs.len() && 0 <= g < self.idbs.len() ==> (
            #[trigger] self.edbs[e]).head.predicate != (#[trigger] self.idbs[g]).0
        &&& forall|g: int, r: int|
            0 <= g < self.idbs.len() && 0 <= r < self.idbs[g].1.len() ==> {
                &&& (#[trigger] self.idbs[g].1[r]).head.predicate == self.idbs[g].0
                &&& !has_free_head(self.idbs[g].1[r])
            }
        &&& forall|g: int, r: int, c: int|
            0 <= g < self.idbs.len() && 0 <= r < self.idbs[g].1.len() && 0 <= c
                < self.idbs[g].1[r].body.len() ==> (
            #[trigger] self.idbs[g].1[r].body[c] matches ClauseView::Atom(a) ==> (
            self.edb_names().contains(a.predicate) || self.idb_names().contains(a.predicate)))
    }
}

/// A rule without error among the first `n` rules.
pub proof fn lemma_no_error(program: Seq<RuleView>, i: int, n: int)
    requires
        0 <= i < n <= program.len(),
        first_error(program, n) is None,
    ensures
        rule_error(program, i) is None,
    decreases n,
{
    if i < n - 1 {
        lemma_no_error(program, i, n - 1);
    }
}

/// A rule without violation among the first `n` rules.
pub proof fn lemma_no_violation(stratum: StratumView, program: Seq<RuleView>, i: int, n: int)
    requires
        0 <= i < n <= program.len(),
        first_violation(stratum, program, n) is None,
    ensures
        rule_violation(stratum, program[i]) is None,
    decreases n,
{
    if i < n - 1 {
        lemma_no_violation(stratum, program, i, n - 1);
    }
}

/// A clause without violation among the first `n` clauses.
pub proof fn lemma_no_clause_violation(
    stratum: StratumView,
    head_level: int,
    body: Seq<ClauseView>,
    c: int,
    n: int,
)
    requires
        0 <= c < n <= body.len(),
        body_violation(stratum, head_level, body, n) is None,
    ensures
        clause_violation(stratum, head_level, body[c]) is None,
    decreases n,
{
    if c < n - 1 {
        lemma_no_clause_violation(stratum, head_level, body, c, n - 1);
    }
}

/// An atom without fault among the first `n` clauses is over a defined
/// predicate.
pub proof fn lemma_all_defined(program: Seq<RuleView>, body: Seq<ClauseView>, c: int, n: int)
    requires
        0 <= c < n <= body.len(),
        first_undefined(program, body, n) is None,
    ensures
        body[c] matches ClauseView::Atom(a) ==> defined(program, a.predicate),
    decreases n,
{
    if c < n - 1 {
        lemma_all_defined(program, body, c, n - 1);
    }
}

/// The rule at position `r` of the group at position `g` of an assembled
/// context is a derived rule of the program, annotated.
pub proof fn lemma_group_rule(program: Seq<RuleView>, stratum: StratumView, g: int, r: int) -> (i:
    int)
    requires
        assembled(program, stratum) is Ok,
        0 <= g < assembled(program, stratum)->Ok_0.idbs.len(),
        0 <= r < assembled(program, stratum)->Ok_0.idbs[g].1.len(),
    ensures
        0 <= i < program.len(),
        is_silent(program[i]),
        program[i].head.predicate == assembled(program, stratum)->Ok_0.idbs[g].0,
        assembled(program, stratum)->Ok_0.idbs[g].1[r] == program[i].annotated(),
{
    let context = assembled(program, stratum)->Ok_0;
    let name = idb_names(program)[g];
    let keep = |x: RuleView| is_silent(x) && x.head.predicate == name;
    let kept = rules_of(program, name, program.len() as int);
    lemma_rules_where(program, keep, program.len() as int);
    assert(kept.contains(kept[r]));
    let i = choose|i: int| 0 <= i < program.len() && keep(program[i]) && program[i] == kept[r];
    i
}

/// In a context that was assembled, every negated body atom lies in a
/// stratum strictly below that of its head.
pub proof fn lemma_assembled_stratified(program: Seq<RuleView>, stratum: StratumView)
    requires
        assembled(program, stratum) is Ok,
    ensures
        assembled(program, stratum)->Ok_0.stratified(),
{
    let context = assembled(program, stratum)->Ok_0;
    assert forall|g: int, r: int, c: int|
        0 <= g < context.idbs.len() && 0 <= r < context.idbs[g].1.len() && 0 <= c
            < context.idbs[g].1[r].body.len() implies (
    #[trigger] context.idbs[g].1[r].body[c] matches ClauseView::Atom(a) ==> a.negation ==> {
        &&& context.stratum.level(a.predicate) is Some
        &&& context.stratum.level(context.idbs[g].1[r].head.predicate) is Some
        &&& context.stratum.level(a.predicate)->0 < context.stratum.level(
            context.idbs[g].1[r].head.predicate,
        )->0
    }) by {
        let i = lemma_group_rule(program, stratum, g, r);
        let rule = program[i];
        lemma_no_violation(stratum, program, i, program.len() as int);
        let level = stratum.level(rule.head.predicate)->0;
        lemma_no_clause_violation(stratum, level, rule.body, c, rule.body.len() as int);
    }
}

/// Where no rule among the first `n` is wrong, no two base relations
/// among them share a name.
pub proof fn lemma_edbs_unique(program: Seq<RuleView>, n: int)
    requires
        0 <= n <= program.len(),
        first_error(program, n) is None,
    ensures
        head_names(edb_rules(program, n)).no_duplicates(),
    decreases n,
{
    if n > 0 {
        lemma_edbs_unique(program, n - 1);
        let before = edb_rules(program, n - 1);
        let now = edb_rules(program, n);
        if is_read(program[n - 1]) {
            assert(rule_error(program, n - 1) is None);
            assert(head_names(now) =~= head_names(before).push(program[n - 1].head.predicate));
        }
    }
}

/// The last query of a predicate is a query of it.
pub proof fn lemma_last_query_name(program: Seq<RuleView>, name: Seq<char>, n: int)
    requires
        0 <= n <= program.len(),
    ensures
        last_query(program, name, n) matches Some(rule) ==> rule.head.predicate == name,
    decreases n,
{
    if n > 0 {
        lemma_last_query_name(program, name, n - 1);
    }
}

/// In an assembled context no name stands twice among the derived
/// relations or among the queried predicates; in the context of a program
/// none stands twice among the base relations either.
pub proof fn lemma_context_unique(program: Seq<RuleView>, stratum: StratumView)
    requires
        assembled(program, stratum) is Ok,
    ensures
        assembled(program, stratum)->Ok_0.idb_names().no_duplicates(),
        head_names(assembled(program, stratum)->Ok_0.queries).no_duplicates(),
        first_error(program, program.len() as int) is None ==> assembled(
            program,
            stratum,
        )->Ok_0.unique_names(),
{
    let context = assembled(program, stratum)->Ok_0;
    lemma_first_occurrences(head_names(idb_rules(program, program.len() as int)));
    assert(context.idb_names() =~= idb_names(program));
    let written = rules_where(program, |r: RuleView| is_write(r), program.len() as int);
    lemma_first_occurrences(head_names(written));
    assert(head_names(context.queries) =~= query_names(program)) by {
        assert forall|q: int| 0 <= q < query_names(program).len() implies head_names(
            context.queries,
        )[q] == query_names(program)[q] by {
            lemma_query_names(program, q);
            lemma_last_query_name(program, query_names(program)[q], program.len() as int);
        }
    }
    if first_error(program, program.len() as int) is None {
        lemma_edbs_unique(program, program.len() as int);
    }
}

/// In the context of a program the rules are sound by themselves.
pub proof fn lemma_context_well_formed(program: Seq<RuleView>)
    requires
        context_of(program) is Ok,
    ensures
        context_of(program)->Ok_0.well_formed(),
        context_of(program)->Ok_0.stratified(),
{
    let stratum = program_strata(program);
    let context = context_of(program)->Ok_0;
    lemma_assembled_stratified(program, stratum);
    assert(context.edb_names() == edb_names(program));
    assert(context.idb_names() =~= idb_names(program));
    assert forall|e: int, g: int|
        0 <= e < context.edbs.len() && 0 <= g < context.idbs.len() implies (
    #[trigger] context.edbs[e]).head.predicate != (#[trigger] context.idbs[g]).0 by {
        let name = idb_names(program)[g];
        let silent = idb_rules(program, program.len() as int);
        lemma_first_occurrences(head_names(silent));
        assert(idb_names(program).contains(name));
        assert(head_names(silent).contains(name));
        let k = choose|k: int| 0 <= k < silent.len() && head_names(silent)[k] == name;
        let keep = |x: RuleView| is_silent(x);
        lemma_rules_where(program, keep, program.len() as int);
        assert(silent.contains(silent[k]));
        let i = choose|i: int| 0 <= i < program.len() && keep(program[i]) && program[i] == silent[k];
        lemma_no_error(program, i, program.len() as int);
        assert(!edb_names(program).contains(name));
        assert(head_names(context.edbs)[e] == context.edbs[e].head.predicate);
    }
    assert forall|g: int, r: int|
        0 <= g < context.idbs.len() && 0 <= r < context.idbs[g].1.len() implies {
        &&& (#[trigger] context.idbs[g].1[r]).head.predicate == context.idbs[g].0
        &&& !has_free_head(context.idbs[g].1[r])
    } by {
        let i = lemma_group_rule(program, stratum, g, r);
        lemma_no_error(program, i, program.len() as int);
        let rule = program[i];
        if has_free_head(rule.annotated()) {
            let t = choose|t: int|
                0 <= t < rule.annotated().head.terms.len() && #[trigger] rule.annotated().head.terms[t]
                    == TermView::Variable(VariableView::Free);
            assert(rule.head.terms[t] == TermView::Variable(VariableView::Free));
        }
    }
    assert forall|g: int, r: int, c: int|
        0 <= g < context.idbs.len() && 0 <= r < context.idbs[g].1.len() && 0 <= c
            < context.idbs[g].1[r].body.len() implies (
    #[trigger] context.idbs[g].1[r].body[c] matches ClauseView::Atom(a) ==> (
    context.edb_names().contains(a.predicate) || context.idb_names().contains(a.predicate))) by {
        let i = lemma_group_rule(program, stratum, g, r);
        lemma_no_error(program, i, program.len() as int);
        lemma_all_defined(program, program[i].body, c, program[i].body.len() as int);
    }
}

impl Context {
    /// The names of the derived relations in the order of evaluation:
    /// stratum by stratum from the lowest, without the base relations.
    pub fn ordered_idbs(&self) -> (queue: Vec<String>)
        ensures
            views(queue@) == self@.ordered_idbs(),
            strata_distinct(self@.stratum.strata) ==> views(queue@).no_duplicates(),
    {
        proof {
            if strata_distinct(self@.stratum.strata) {
                lemma_derived_distinct(
                    self@.edb_names(),
                    self@.stratum.strata,
                    self@.stratum.strata.len() as int,
                );
            }
        }
        let names = names_of(&self.edbs);
        let mut queue: Vec<String> = Vec::new();
        let mut i: usize = 0;
        assert(views(queue@) =~= derived_in(self@.edb_names(), self@.stratum.strata, 0));
        while i < self.stratum.strata.len()
            invariant
                i <= self.stratum.strata.len(),
                views(names@) == self@.edb_names(),
                views(queue@) == derived_in(self@.edb_names(), self@.stratum.strata, i as int),
            decreases self.stratum.strata.len() - i,
        {
            let stratum = &self.stratum.strata[i];
            let ghost before = views(queue@);
            let mut j: usize = 0;
            assert(self@.stratum.strata[i as int] == views(stratum@));
            assert(views(queue@) =~= before + without(self@.edb_names(), views(stratum@), 0));
            while j < stratum.len()
                invariant
                    j <= stratum.len(),
                    views(names@) == self@.edb_names(),
                    views(queue@) == before + without(
                        self@.edb_names(),
                        views(stratum@),
                        j as int,
                    ),
                decreases stratum.len() - j,
            {
                let ghost sofar = views(queue@);
                if !contains_name(&names, &stratum[j]) {
                    queue.push(stratum[j].clone());
                    assert(views(queue@) =~= sofar.push(stratum@[j as int]@));
                    assert(views(queue@) =~= before + without(
                        self@.edb_names(),
                        views(stratum@),
                        j + 1,
                    ));
                }
                j = j + 1;
            }
            i = i + 1;
        }
        queue
    }

    /// The names of the base relations.
    pub fn edb_names(&self) -> (names: Vec<String>)
        ensures
            views(names@) == self@.edb_names(),
    {
        names_of(&self.edbs)
    }

    /// The names of the queried predicates.
    pub fn queries(&self) -> (names: Vec<String>)
        ensures
            views(names@) == head_names(self@.queries),
    {
        names_of(&self.queries)
    }
}

/// Those of the first `n` of `names` that are not among `excluded`.
pub open spec fn without(excluded: Seq<Seq<char>>, names: Seq<Seq<char>>, n: int) -> Seq<Seq<char>>
    decreases n,
{
    if n <= 0 {
        Seq::empty()
    } else if excluded.contains(names[n - 1]) {
        without(excluded, names, n - 1)
    } else {
        without(excluded, names, n - 1).push(names[n - 1])
    }
}

/// The predicates of the first `n` strata that are not among `excluded`.
pub open spec fn derived_in(excluded: Seq<Seq<char>>, strata: Seq<Seq<Seq<char>>>, n: int) -> Seq<
    Seq<char>,
>
    decreases n,
{
    if n <= 0 {
        Seq::empty()
    } else {
        derived_in(excluded, strata, n - 1) + without(
            excluded,
            strata[n - 1],
            strata[n - 1].len() as int,
        )
    }
}

/// Whether `name` stands in one of the first `n` strata, at one of the
/// first `m` places if it is the last of them.
pub open spec fn in_first(strata: Seq<Seq<Seq<char>>>, n: int, m: int, name: Seq<char>) -> bool {
    exists|i: int, j: int|
        0 <= i < n && 0 <= j < strata[i].len() && (i == n - 1 ==> j < m) && #[trigger] strata[i][j]
            == name
}

/// The predicates kept from a stratum stand in it, each once.
pub proof fn lemma_without_distinct(
    excluded: Seq<Seq<char>>,
    strata: Seq<Seq<Seq<char>>>,
    before: Seq<Seq<char>>,
    n: int,
    m: int,
)
    requires
        strata_distinct(strata),
        1 <= n <= strata.len(),
        0 <= m <= strata[n - 1].len(),
        before.no_duplicates(),
        forall|k: int| 0 <= k < before.len() ==> in_first(strata, n, 0, #[trigger] before[k]),
    ensures
        (before + without(excluded, strata[n - 1], m)).no_duplicates(),
        forall|k: int|
            0 <= k < (before + without(excluded, strata[n - 1], m)).len() ==> in_first(
                strata,
                n,
                m,
                #[trigger] (before + without(excluded, strata[n - 1], m))[k],
            ),
    decreases m,
{
    let now = before + without(excluded, strata[n - 1], m);
    if m == 0 {
        assert(now =~= before);
    } else {
        lemma_without_distinct(excluded, strata, before, n, m - 1);
        let earlier = before + without(excluded, strata[n - 1], m - 1);
        let name = strata[n - 1][m - 1];
        assert forall|k: int| 0 <= k < earlier.len() implies in_first(
            strata,
            n,
            m,
            #[trigger] earlier[k],
        ) && earlier[k] != name by {
            assert(in_first(strata, n, m - 1, earlier[k]));
            let (i, j) = choose|i: int, j: int|
                0 <= i < n && 0 <= j < strata[i].len() && (i == n - 1 ==> j < m - 1)
                    && #[trigger] strata[i][j] == earlier[k];
            assert(0 <= i < n && 0 <= j < strata[i].len() && (i == n - 1 ==> j < m) && strata[i][j]
                == earlier[k]);
        }
        if excluded.contains(name) {
            assert(now =~= earlier);
        } else {
            assert(now =~= earlier.push(name));
            assert(in_first(strata, n, m, name));
        }
    }
}

/// The predicates kept from strata in which none stands twice stand in
/// the strata, each once.
pub proof fn lemma_derived_distinct(excluded: Seq<Seq<char>>, strata: Seq<Seq<Seq<char>>>, n: int)
    requires
        strata_distinct(strata),
        0 <= n <= strata.len(),
    ensures
        derived_in(excluded, strata, n).no_duplicates(),
        forall|k: int|
            0 <= k < derived_in(excluded, strata, n).len() ==> in_first(
                strata,
                n + 1,
                0,
                #[trigger] derived_in(excluded, strata, n)[k],
            ),
    decreases n,
{
    if n > 0 {
        lemma_derived_distinct(excluded, strata, n - 1);
        let before = derived_in(excluded, strata, n - 1);
        assert forall|k: int| 0 <= k < before.len() implies in_first(
            strata,
            n,
            0,
            #[trigger] before[k],
        ) by {
            assert(in_first(strata, n, 0, before[k]));
        }
        lemma_without_distinct(excluded, strata, before, n, strata[n - 1].len() as int);
        let now = derived_in(excluded, strata, n);
        assert forall|k: int| 0 <= k < now.len() implies in_first(
            strata,
            n + 1,
            0,
            #[trigger] now[k],
        ) by {
            assert(in_first(strata, n, strata[n - 1].len() as int, now[k]));
            let (i, j) = choose|i: int, j: int|
                0 <= i < n && 0 <= j < strata[i].len() && (i == n - 1 ==> j < strata[n
                    - 1].len()) && #[trigger] strata[i][j] == now[k];
            assert(0 <= i < n + 1 && 0 <= j < strata[i].len() && (i == n ==> j < 0) && strata[i][j]
                == now[k]);
        }
    }
}

impl ContextView {
    /// The names of the derived relations in the order of evaluation:
    /// stratum by stratum from the lowest, without the base relations.
    pub open spec fn ordered_idbs(self) -> Seq<Seq<char>> {
        derived_in(self.edb_names(), self.stratum.strata, self.stratum.strata.len() as int)
    }
}

/// The names that `without` keeps are not among those it leaves out.
pub proof fn lemma_without_apart(excluded: Seq<Seq<char>>, names: Seq<Seq<char>>, m: int)
    requires
        0 <= m <= names.len(),
    ensures
        forall|k: int|
            0 <= k < without(excluded, names, m).len() ==> !excluded.contains(
                #[trigger] without(excluded, names, m)[k],
            ),
    decreases m,
{
    if m > 0 {
        lemma_without_apart(excluded, names, m - 1);
        let before = without(excluded, names, m - 1);
        let now = without(excluded, names, m);
        assert forall|k: int| 0 <= k < now.len() implies !excluded.contains(#[trigger] now[k]) by {
            if k < before.len() {
                assert(now[k] == before[k]);
            }
        }
    }
}

/// The derived relations in the order of evaluation are not among the
/// relations that were left out.
pub proof fn lemma_derived_apart(excluded: Seq<Seq<char>>, strata: Seq<Seq<Seq<char>>>, n: int)
    requires
        0 <= n <= strata.len(),
    ensures
        forall|k: int|
            0 <= k < derived_in(excluded, strata, n).len() ==> !excluded.contains(
                #[trigger] derived_in(excluded, strata, n)[k],
            ),
    decreases n,
{
    if n > 0 {
        lemma_derived_apart(excluded, strata, n - 1);
        lemma_without_apart(excluded, strata[n - 1], strata[n - 1].len() as int);
        let before = derived_in(excluded, strata, n - 1);
        let last = without(excluded, strata[n - 1], strata[n - 1].len() as int);
        let now = derived_in(excluded, strata, n);
        assert forall|k: int| 0 <= k < now.len() implies !excluded.contains(#[trigger] now[k]) by {
            if k < before.len() {
                assert(now[k] == before[k]);
            } else {
                assert(now[k] == last[k - before.len()]);
            }
        }
    }
}

/// The names that `without` keeps among more names start with those that
/// it keeps among fewer, and it keeps each name that is not left out.
pub proof fn lemma_without_keeps(excluded: Seq<Seq<char>>, names: Seq<Seq<char>>, m: int)
    requires
        0 <= m <= names.len(),
    ensures
        forall|j: int|
            0 <= j < m && !excluded.contains(#[trigger] names[j]) ==> without(
                excluded,
                names,
                m,
            ).contains(names[j]),
    decreases m,
{
    if m > 0 {
        lemma_without_keeps(excluded, names, m - 1);
        let before = without(excluded, names, m - 1);
        let now = without(excluded, names, m);
        assert forall|j: int| 0 <= j < m && !excluded.contains(#[trigger] names[j]) implies now.contains(
            names[j],
        ) by {
            if j < m - 1 {
                assert(before.contains(names[j]));
                let p = choose|p: int| 0 <= p < before.len() && before[p] == names[j];
                assert(now[p] == names[j]);
            } else {
                assert(now[now.len() - 1] == names[j]);
            }
        }
    }
}

/// The derived relations of the first strata come first among those of
/// more strata.
pub proof fn lemma_derived_prefix(
    excluded: Seq<Seq<char>>,
    strata: Seq<Seq<Seq<char>>>,
    n: int,
    m: int,
)
    requires
        0 <= n <= m <= strata.len(),
    ensures
        derived_in(excluded, strata, n).len() <= derived_in(excluded, strata, m).len(),
        forall|p: int|
            0 <= p < derived_in(excluded, strata, n).len() ==> derived_in(excluded, strata, m)[p]
                == #[trigger] derived_in(excluded, strata, n)[p],
    decreases m - n,
{
    if n < m {
        lemma_derived_prefix(excluded, strata, n, m - 1);
    }
}

/// Of two predicates that are not left out, the one in the lower stratum
/// comes first in the order of evaluation.
pub proof fn lemma_derived_before(
    excluded: Seq<Seq<char>>,
    strata: Seq<Seq<Seq<char>>>,
    lower: (int, int),
    upper: (int, int),
) -> (places: (int, int))
    requires
        strata_distinct(strata),
        0 <= lower.0 < upper.0 < strata.len(),
        0 <= lower.1 < strata[lower.0].len(),
        0 <= upper.1 < strata[upper.0].len(),
        !excluded.contains(strata[lower.0][lower.1]),
        !excluded.contains(strata[upper.0][upper.1]),
    ensures
        0 <= places.0 < places.1 < derived_in(excluded, strata, strata.len() as int).len(),
        derived_in(excluded, strata, strata.len() as int)[places.0] == strata[lower.0][lower.1],
        derived_in(excluded, strata, strata.len() as int)[places.1] == strata[upper.0][upper.1],
{
    let all = derived_in(excluded, strata, strata.len() as int);
    let a = strata[lower.0][lower.1];
    let b = strata[upper.0][upper.1];
    let low = derived_in(excluded, strata, lower.0 + 1);
    let below = derived_in(excluded, strata, upper.0);
    let high = derived_in(excluded, strata, upper.0 + 1);
    lemma_without_keeps(excluded, strata[lower.0], strata[lower.0].len() as int);
    lemma_without_keeps(excluded, strata[upper.0], strata[upper.0].len() as int);
    let mine = without(excluded, strata[lower.0], strata[lower.0].len() as int);
    let yours = without(excluded, strata[upper.0], strata[upper.0].len() as int);
    assert(mine.contains(a));
    assert(yours.contains(b));
    let ja = choose|j: int| 0 <= j < mine.len() && mine[j] == a;
    let jb = choose|j: int| 0 <= j < yours.len() && yours[j] == b;
    let pa = derived_in(excluded, strata, lower.0).len() + ja;
    let pb = below.len() + jb;
    assert(low[pa] == a);
    assert(high[pb] == b);
    lemma_derived_prefix(excluded, strata, lower.0 + 1, upper.0);
    lemma_derived_prefix(excluded, strata, lower.0 + 1, strata.len() as int);
    lemma_derived_prefix(excluded, strata, upper.0 + 1, strata.len() as int);
    (pa, pb)
}

} // verus!
