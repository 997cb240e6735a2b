//! Terms, atoms, arithmetic expressions, clauses and rules, each with the
//! mathematical value (its view) that contracts speak of.

use vstd::prelude::*;
use crate::text::{
    column_names, contains_name, join, join_strings, render_columns, render_i64, signed_decimal,
    views,
};

verus! {

/// A program is the list of its rules, in source order.
pub type Program = Vec<Rule>;

/// How a rule takes part in input and output.
#[derive(Debug, PartialEq, Eq)]
pub enum IO {
    /// The head is a base relation that the store already holds.
    Read(Option<String>),
    /// The head is a query whose result is reported.
    Write(Option<String>),
    /// An ordinary derived rule.
    Silent,
}

/// The value of an `IO`, as contracts speak of it.
pub enum IOView {
    Read(Option<Seq<char>>),
    Write(Option<Seq<char>>),
    Silent,
}

/// A variable, classified by its place in the rule.
#[derive(Debug, PartialEq, Eq, Hash)]
pub enum Variable {
    /// A variable whose name occurs in the head.
    Distinguished(String),
    /// A variable that occurs in the body only.
    Undistinguished(String),
    /// The anonymous placeholder `_`.
    Free,
}

/// The value of a `Variable`, as contracts speak of it.
pub enum VariableView {
    Distinguished(Seq<char>),
    Undistinguished(Seq<char>),
    Free,
}

/// A constant. A number with a fraction is kept as its decimal text.
#[derive(Debug, PartialEq, Eq, Hash)]
pub enum Constant {
    Integer(i64),
    Float(String),
    Symbol(String),
    Boolean(bool),
}

/// The value of a `Constant`, as contracts speak of it.
pub enum ConstantView {
    Integer(int),
    Float(Seq<char>),
    Symbol(Seq<char>),
    Boolean(bool),
}

/// A term of an atom.
#[derive(Debug, PartialEq, Eq, Hash)]
pub enum Term {
    Variable(Variable),
    Constant(Constant),
}

/// The value of a `Term`, as contracts speak of it.
pub enum TermView {
    Variable(VariableView),
    Constant(ConstantView),
}

/// A predicate applied to terms, possibly negated.
#[derive(Debug, PartialEq, Eq)]
pub struct Atom {
    pub negation: bool,
    pub predicate: String,
    pub terms: Vec<Term>,
}

/// The value of an `Atom`, as contracts speak of it.
pub struct AtomView {
    pub negation: bool,
    pub predicate: Seq<char>,
    pub terms: Seq<TermView>,
}

/// The operator at a node of an arithmetic expression, or the term at a leaf.
#[derive(Debug, PartialEq, Eq)]
pub enum Operator {
    Unifier,
    Disunifier,
    Less,
    LessEqual,
    Greater,
    GreaterEqual,
    And,
    Or,
    Neg,
    Add,
    Sub,
    Mul,
    Div,
    Leaf(Term),
}

/// The value of an `Operator`, as contracts speak of it.
pub enum OperatorView {
    Unifier,
    Disunifier,
    Less,
    LessEqual,
    Greater,
    GreaterEqual,
    And,
    Or,
    Neg,
    Add,
    Sub,
    Mul,
    Div,
    Leaf(TermView),
}

/// An arithmetic expression: a binary tree of operators over term leaves.
#[derive(Debug, PartialEq, Eq)]
pub struct Arith {
    pub operator: Operator,
    pub lhs: Option<Box<Arith>>,
    pub rhs: Option<Box<Arith>>,
}

/// The value of an `Arith`, as contracts speak of it.
pub struct ArithView {
    pub operator: OperatorView,
    pub lhs: Option<Box<ArithView>>,
    pub rhs: Option<Box<ArithView>>,
}

/// A body clause: an atom or an arithmetic expression.
#[derive(Debug, PartialEq, Eq)]
pub enum Clause {
    Atom(Atom),
    Arithmetic(Arith),
}

/// The value of a `Clause`, as contracts speak of it.
pub enum ClauseView {
    Atom(AtomView),
    Arithmetic(ArithView),
}

/// A rule: a head and the clauses it follows from. An empty body is a fact.
#[derive(Debug, PartialEq, Eq)]
pub struct Rule {
    pub io: IO,
    pub head: Atom,
    pub body: Vec<Clause>,
}

/// The value of a `Rule`, as contracts speak of it.
pub struct RuleView {
    pub io: IOView,
    pub head: AtomView,
    pub body: Seq<ClauseView>,
}

/// The text of an optional string.
pub open spec fn option_view(o: Option<String>) -> Option<Seq<char>> {
    match o {
        Some(s) => Some(s@),
        None => None,
    }
}

impl View for IO {
    type V = IOView;

    open spec fn view(&self) -> IOView {
        match *self {
            IO::Read(o) => IOView::Read(option_view(o)),
            IO::Write(o) => IOView::Write(option_view(o)),
            IO::Silent => IOView::Silent,
        }
    }
}

impl View for Variable {
    type V = VariableView;

    open spec fn view(&self) -> VariableView {
        match *self {
            Variable::Distinguished(n) => VariableView::Distinguished(n@),
            Variable::Undistinguished(n) => VariableView::Undistinguished(n@),
            Variable::Free => VariableView::Free,
        }
    }
}

impl View for Constant {
    type V = ConstantView;

    open spec fn view(&self) -> ConstantView {
        match *self {
            Constant::Integer(i) => ConstantView::Integer(i as int),
            Constant::Float(t) => ConstantView::Float(t@),
            Constant::Symbol(s) => ConstantView::Symbol(s@),
            Constant::Boolean(b) => ConstantView::Boolean(b),
        }
    }
}

impl View for Term {
    type V = TermView;

    open spec fn view(&self) -> TermView {
        match *self {
            Term::Variable(v) => TermView::Variable(v@),
            Term::Constant(c) => TermView::Constant(c@),
        }
    }
}

impl View for Atom {
    type V = AtomView;

    open spec fn view(&self) -> AtomView {
        AtomView { negation: self.negation, predicate: self.predicate@, terms: views(self.terms@) }
    }
}

impl View for Operator {
    type V = OperatorView;

    open spec fn view(&self) -> OperatorView {
        match *self {
            Operator::Unifier => OperatorView::Unifier,
            Operator::Disunifier => OperatorView::Disunifier,
            Operator::Less => OperatorView::Less,
            Operator::LessEqual => OperatorView::LessEqual,
            Operator::Greater => OperatorView::Greater,
            Operator::GreaterEqual => OperatorView::GreaterEqual,
            Operator::And => OperatorView::And,
            Operator::Or => OperatorView::Or,
            Operator::Neg => OperatorView::Neg,
            Operator::Add => OperatorView::Add,
            Operator::Sub => OperatorView::Sub,
            Operator::Mul => OperatorView::Mul,
            Operator::Div => OperatorView::Div,
            Operator::Leaf(t) => OperatorView::Leaf(t@),
        }
    }
}

/// The value of an arithmetic expression tree.
pub open spec fn arith_view(e: Arith) -> ArithView
    decreases e,
{
    ArithView {
        operator: e.operator@,
        lhs: match e.lhs {
            Some(l) => Some(Box::new(arith_view(*l))),
            None => None,
        },
        rhs: match e.rhs {
            Some(r) => Some(Box::new(arith_view(*r))),
            None => None,
        },
    }
}

impl View for Arith {
    type V = ArithView;

    open spec fn view(&self) -> ArithView {
        arith_view(*self)
    }
}

impl View for Clause {
    type V = ClauseView;

    open spec fn view(&self) -> ClauseView {
        match *self {
            Clause::Atom(a) => ClauseView::Atom(a@),
            Clause::Arithmetic(e) => ClauseView::Arithmetic(e@),
        }
    }
}

impl View for Rule {
    type V = RuleView;

    open spec fn view(&self) -> RuleView {
        RuleView { io: self.io@, head: self.head@, body: views(self.body@) }
    }
}


impl TermView {
    /// The name of the variable that this term is, unless it is the
    /// anonymous placeholder or a constant.
    pub open spec fn variable_name(self) -> Option<Seq<char>> {
        match self {
            TermView::Variable(VariableView::Distinguished(n)) => Some(n),
            TermView::Variable(VariableView::Undistinguished(n)) => Some(n),
            _ => None,
        }
    }

    /// This term, made distinguished if it is a body-only variable whose
    /// name is among `names`.
    pub open spec fn promoted(self, names: Seq<Seq<char>>) -> TermView {
        match self {
            TermView::Variable(VariableView::Undistinguished(n)) => if names.contains(n) {
                TermView::Variable(VariableView::Distinguished(n))
            } else {
                self
            },
            _ => self,
        }
    }
}

/// Each term of `terms`, promoted against `names`.
pub open spec fn promoted_terms(terms: Seq<TermView>, names: Seq<Seq<char>>) -> Seq<TermView> {
    Seq::new(terms.len(), |i: int| terms[i].promoted(names))
}

/// The names of the variables among the first `n` terms, in order of
/// occurrence, each as often as it occurs.
pub open spec fn variable_names(terms: Seq<TermView>, n: int) -> Seq<Seq<char>>
    decreases n,
{
    if n <= 0 {
        Seq::empty()
    } else {
        match terms[n - 1].variable_name() {
            Some(name) => variable_names(terms, n - 1).push(name),
            None => variable_names(terms, n - 1),
        }
    }
}

impl ArithView {
    /// The terms at the leaves, from left to right.
    pub open spec fn leaves(self) -> Seq<TermView>
        decreases self,
    {
        match self.operator {
            OperatorView::Leaf(t) => seq![t],
            _ => (match self.lhs {
                Some(l) => l.leaves(),
                None => Seq::empty(),
            }) + (match self.rhs {
                Some(r) => r.leaves(),
                None => Seq::empty(),
            }),
        }
    }

    /// The same tree with each leaf promoted against `names`.
    pub open spec fn promoted(self, names: Seq<Seq<char>>) -> ArithView
        decreases self,
    {
        ArithView {
            operator: match self.operator {
                OperatorView::Leaf(t) => OperatorView::Leaf(t.promoted(names)),
                _ => self.operator,
            },
            lhs: match self.lhs {
                Some(l) => Some(Box::new(l.promoted(names))),
                None => None,
            },
            rhs: match self.rhs {
                Some(r) => Some(Box::new(r.promoted(names))),
                None => None,
            },
        }
    }
}

impl AtomView {
    /// The atom as a table with its column list: `p(column_0, column_1)`.
    pub open spec fn to_string(self) -> Seq<char> {
        self.predicate + "("@ + join(column_names(self.terms.len()), ", "@) + ")"@
    }

    /// The atom with each term promoted against `names`.
    pub open spec fn promoted(self, names: Seq<Seq<char>>) -> AtomView {
        AtomView {
            negation: self.negation,
            predicate: self.predicate,
            terms: promoted_terms(self.terms, names),
        }
    }
}

impl ClauseView {
    /// The terms that the clause lists: those of the atom, or the leaves of
    /// the expression.
    pub open spec fn terms(self) -> Seq<TermView> {
        match self {
            ClauseView::Atom(a) => a.terms,
            ClauseView::Arithmetic(e) => e.leaves(),
        }
    }

    /// The short name of the clause: the predicate of an atom, `arith` for
    /// an expression.
    pub open spec fn to_string(self) -> Seq<char> {
        match self {
            ClauseView::Atom(a) => a.predicate,
            ClauseView::Arithmetic(_) => "arith"@,
        }
    }

    /// The clause with each term promoted against `names`.
    pub open spec fn promoted(self, names: Seq<Seq<char>>) -> ClauseView {
        match self {
            ClauseView::Atom(a) => ClauseView::Atom(a.promoted(names)),
            ClauseView::Arithmetic(e) => ClauseView::Arithmetic(e.promoted(names)),
        }
    }
}

impl RuleView {
    /// Whether every body clause is an atom over one of `predicates`.
    pub open spec fn is_base_case(self, predicates: Seq<Seq<char>>) -> bool {
        forall|i: int|
            0 <= i < self.body.len() ==> (#[trigger] self.body[i] matches ClauseView::Atom(a)
                && predicates.contains(a.predicate))
    }

    /// The names of the head's variables.
    pub open spec fn head_names(self) -> Seq<Seq<char>> {
        variable_names(self.head.terms, self.head.terms.len() as int)
    }

    /// The rule with every occurrence of a head variable marked as
    /// distinguished, in the head and in the body.
    pub open spec fn annotated(self) -> RuleView {
        let names = self.head_names();
        RuleView {
            io: self.io,
            head: self.head.promoted(names),
            body: Seq::new(self.body.len(), |i: int| self.body[i].promoted(names)),
        }
    }
}

impl Clone for IO {
    fn clone(&self) -> (r: Self)
        ensures
            r@ == self@,
    {
        match self {
            IO::Read(Some(s)) => IO::Read(Some(s.clone())),
            IO::Read(None) => IO::Read(None),
            IO::Write(Some(s)) => IO::Write(Some(s.clone())),
            IO::Write(None) => IO::Write(None),
            IO::Silent => IO::Silent,
        }
    }
}

impl Clone for Variable {
    fn clone(&self) -> (r: Self)
        ensures
            r@ == self@,
    {
        match self {
            Variable::Distinguished(n) => Variable::Distinguished(n.clone()),
            Variable::Undistinguished(n) => Variable::Undistinguished(n.clone()),
            Variable::Free => Variable::Free,
        }
    }
}

impl Clone for Constant {
    fn clone(&self) -> (r: Self)
        ensures
            r@ == self@,
    {
        match self {
            Constant::Integer(i) => Constant::Integer(*i),
            Constant::Float(t) => Constant::Float(t.clone()),
            Constant::Symbol(s) => Constant::Symbol(s.clone()),
            Constant::Boolean(b) => Constant::Boolean(*b),
        }
    }
}

impl Clone for Term {
    fn clone(&self) -> (r: Self)
        ensures
            r@ == self@,
    {
        match self {
            Term::Variable(v) => Term::Variable(v.clone()),
            Term::Constant(c) => Term::Constant(c.clone()),
        }
    }
}

/// A copy of a list of terms.
pub fn clone_terms(terms: &Vec<Term>) -> (r: Vec<Term>)
    ensures
        views(r@) == views(terms@),
{
    let mut r: Vec<Term> = Vec::new();
    let mut i: usize = 0;
    while i < terms.len()
        invariant
            i <= terms.len(),
            r@.len() == i,
            forall|k: int| 0 <= k < i ==> r@[k]@ == terms@[k]@,
        decreases terms.len() - i,
    {
        r.push(terms[i].clone());
        i = i + 1;
    }
    assert(views(r@) =~= views(terms@));
    r
}

impl Clone for Atom {
    fn clone(&self) -> (r: Self)
        ensures
            r@ == self@,
    {
        Atom {
            negation: self.negation,
            predicate: self.predicate.clone(),
            terms: clone_terms(&self.terms),
        }
    }
}

impl Clone for Operator {
    fn clone(&self) -> (r: Self)
        ensures
            r@ == self@,
    {
        match self {
            Operator::Unifier => Operator::Unifier,
            Operator::Disunifier => Operator::Disunifier,
            Operator::Less => Operator::Less,
            Operator::LessEqual => Operator::LessEqual,
            Operator::Greater => Operator::Greater,
            Operator::GreaterEqual => Operator::GreaterEqual,
            Operator::And => Operator::And,
            Operator::Or => Operator::Or,
            Operator::Neg => Operator::Neg,
            Operator::Add => Operator::Add,
            Operator::Sub => Operator::Sub,
            Operator::Mul => Operator::Mul,
            Operator::Div => Operator::Div,
            Operator::Leaf(t) => Operator::Leaf(t.clone()),
        }
    }
}

fn clone_arith(e: &Arith) -> (r: Arith)
    ensures
        r@ == e@,
    decreases e,
{
    let lhs = match &e.lhs {
        Some(l) => Some(Box::new(clone_arith(l))),
        None => None,
    };
    let rhs = match &e.rhs {
        Some(x) => Some(Box::new(clone_arith(x))),
        None => None,
    };
    Arith { operator: e.operator.clone(), lhs, rhs }
}

impl Clone for Arith {
    fn clone(&self) -> (r: Self)
        ensures
            r@ == self@,
    {
        clone_arith(self)
    }
}

impl Clone for Clause {
    fn clone(&self) -> (r: Self)
        ensures
            r@ == self@,
    {
        match self {
            Clause::Atom(a) => Clause::Atom(a.clone()),
            Clause::Arithmetic(e) => Clause::Arithmetic(e.clone()),
        }
    }
}

/// A copy of a list of clauses.
pub fn clone_clauses(clauses: &Vec<Clause>) -> (r: Vec<Clause>)
    ensures
        views(r@) == views(clauses@),
{
    let mut r: Vec<Clause> = Vec::new();
    let mut i: usize = 0;
    while i < clauses.len()
        invariant
            i <= clauses.len(),
            r@.len() == i,
            forall|k: int| 0 <= k < i ==> r@[k]@ == clauses@[k]@,
        decreases clauses.len() - i,
    {
        r.push(clauses[i].clone());
        i = i + 1;
    }
    assert(views(r@) =~= views(clauses@));
    r
}

impl Clone for Rule {
    fn clone(&self) -> (r: Self)
        ensures
            r@ == self@,
    {
        Rule { io: self.io.clone(), head: self.head.clone(), body: clone_clauses(&self.body) }
    }
}


impl Term {
    /// The name of the variable, unless the term is the anonymous
    /// placeholder or a constant.
    pub fn is_nontrivial_variable(&self) -> (r: Option<String>)
        ensures
            r is Some <==> self@.variable_name() is Some,
            r is Some ==> r->0@ == self@.variable_name()->0,
    {
        match self {
            Term::Variable(Variable::Distinguished(n)) => Some(n.clone()),
            Term::Variable(Variable::Undistinguished(n)) => Some(n.clone()),
            _ => None,
        }
    }

    /// The term, made distinguished if it is a body-only variable named in
    /// `names`.
    pub fn promote(&self, names: &Vec<String>) -> (r: Term)
        ensures
            r@ == self@.promoted(views(names@)),
    {
        match self {
            Term::Variable(Variable::Undistinguished(n)) => {
                if contains_name(names, n) {
                    Term::Variable(Variable::Distinguished(n.clone()))
                } else {
                    self.clone()
                }
            },
            _ => self.clone(),
        }
    }
}

/// Promotes each term of a list against `names`.
pub fn promote_terms(terms: &Vec<Term>, names: &Vec<String>) -> (r: Vec<Term>)
    ensures
        views(r@) == promoted_terms(views(terms@), views(names@)),
{
    let mut r: Vec<Term> = Vec::new();
    let mut i: usize = 0;
    while i < terms.len()
        invariant
            i <= terms.len(),
            r@.len() == i,
            forall|k: int| 0 <= k < i ==> r@[k]@ == terms@[k]@.promoted(views(names@)),
        decreases terms.len() - i,
    {
        r.push(terms[i].promote(names));
        i = i + 1;
    }
    assert(views(r@) =~= promoted_terms(views(terms@), views(names@)));
    r
}

/// The names of the variables of a list of terms, in order of occurrence.
pub fn collect_names(terms: &Vec<Term>) -> (names: Vec<String>)
    ensures
        views(names@) == variable_names(views(terms@), terms@.len() as int),
{
    let mut names: Vec<String> = Vec::new();
    let mut i: usize = 0;
    while i < terms.len()
        invariant
            i <= terms.len(),
            views(names@) == variable_names(views(terms@), i as int),
        decreases terms.len() - i,
    {
        let ghost before = views(names@);
        match terms[i].is_nontrivial_variable() {
            Some(name) => {
                names.push(name);
                assert(views(names@) =~= before.push(name@));
            },
            None => {},
        }
        i = i + 1;
    }
    names
}

impl Arith {
    /// The terms at the leaves of the expression, from left to right.
    pub fn get_leaves(&self) -> (leaves: Vec<Term>)
        ensures
            views(leaves@) == self@.leaves(),
        decreases self,
    {
        let mut leaves: Vec<Term> = Vec::new();
        match &self.operator {
            Operator::Leaf(term) => {
                leaves.push(term.clone());
                assert(views(leaves@) =~= seq![term@]);
            },
            _ => {
                if let Some(lhs) = &self.lhs {
                    let mut left = lhs.get_leaves();
                    leaves.append(&mut left);
                }
                let ghost first = views(leaves@);
                if let Some(rhs) = &self.rhs {
                    let mut right = rhs.get_leaves();
                    let ghost second = views(right@);
                    leaves.append(&mut right);
                    assert(views(leaves@) =~= first + second);
                } else {
                    assert(views(leaves@) =~= first + Seq::<TermView>::empty());
                }
                assert(first =~= match self@.lhs {
                    Some(l) => l.leaves(),
                    None => Seq::empty(),
                });
            },
        }
        leaves
    }

    /// The expression with each leaf promoted against `names`.
    pub fn promote(&self, names: &Vec<String>) -> (r: Arith)
        ensures
            r@ == self@.promoted(views(names@)),
        decreases self,
    {
        let operator = match &self.operator {
            Operator::Leaf(term) => Operator::Leaf(term.promote(names)),
            _ => self.operator.clone(),
        };
        let lhs = match &self.lhs {
            Some(l) => Some(Box::new(l.promote(names))),
            None => None,
        };
        let rhs = match &self.rhs {
            Some(x) => Some(Box::new(x.promote(names))),
            None => None,
        };
        Arith { operator, lhs, rhs }
    }
}

impl Atom {
    /// The atom as a table with its column list: `p(column_0, column_1)`.
    pub fn to_string(&self) -> (s: String)
        ensures
            s@ == self@.to_string(),
    {
        let mut s = self.predicate.clone();
        s.append("(");
        let columns = render_columns(self.terms.len());
        let list = join_strings(&columns, ", ");
        s.append(list.as_str());
        s.append(")");
        s
    }

    /// The atom with each term promoted against `names`.
    pub fn promote(&self, names: &Vec<String>) -> (r: Atom)
        ensures
            r@ == self@.promoted(views(names@)),
    {
        Atom {
            negation: self.negation,
            predicate: self.predicate.clone(),
            terms: promote_terms(&self.terms, names),
        }
    }
}

impl Clause {
    /// The short name of the clause: the predicate of an atom, `arith` for
    /// an expression.
    pub fn to_string(&self) -> (s: String)
        ensures
            s@ == self@.to_string(),
    {
        match self {
            Clause::Atom(atom) => atom.predicate.clone(),
            Clause::Arithmetic(_) => String::from_str("arith"),
        }
    }

    /// The clause with each term promoted against `names`.
    pub fn promote(&self, names: &Vec<String>) -> (r: Clause)
        ensures
            r@ == self@.promoted(views(names@)),
    {
        match self {
            Clause::Atom(atom) => Clause::Atom(atom.promote(names)),
            Clause::Arithmetic(e) => Clause::Arithmetic(e.promote(names)),
        }
    }
}

impl Rule {
    /// Marks every occurrence of a head variable as distinguished, in the
    /// head and in the body.
    pub fn annotate_variable(&mut self)
        ensures
            final(self)@ == old(self)@.annotated(),
    {
        let names = collect_names(&self.head.terms);
        let head = self.head.promote(&names);
        let mut body: Vec<Clause> = Vec::new();
        let mut i: usize = 0;
        while i < self.body.len()
            invariant
                i <= self.body.len(),
                body@.len() == i,
                forall|k: int| 0 <= k < i ==> body@[k]@ == self.body@[k]@.promoted(views(names@)),
            decreases self.body.len() - i,
        {
            body.push(self.body[i].promote(&names));
            i = i + 1;
        }
        assert(views(body@) =~= old(self)@.annotated().body);
        self.head = head;
        self.body = body;
    }

    /// Whether the rule can be evaluated from `predicates` alone: every
    /// body clause is an atom over one of them.
    pub fn is_base_case(&self, predicates: &Vec<String>) -> (r: bool)
        ensures
            r == self@.is_base_case(views(predicates@)),
    {
        let mut i: usize = 0;
        while i < self.body.len()
            invariant
                i <= self.body.len(),
                forall|k: int|
                    0 <= k < i ==> (#[trigger] self@.body[k] matches ClauseView::Atom(a)
                        && views(predicates@).contains(a.predicate)),
            decreases self.body.len() - i,
        {
            match &self.body[i] {
                Clause::Atom(atom) => {
                    if !contains_name(predicates, &atom.predicate) {
                        assert(self@.body[i as int] == self.body@[i as int]@);
                        return false;
                    }
                },
                Clause::Arithmetic(_) => {
                    assert(self@.body[i as int] == self.body@[i as int]@);
                    return false;
                },
            }
            assert(self@.body[i as int] == self.body@[i as int]@);
            i = i + 1;
        }
        true
    }
}


impl ConstantView {
    /// The constant as it is written in a query and in a report: a symbol
    /// between single quotes, anything else as it is.
    pub open spec fn literal(self) -> Seq<char> {
        match self {
            ConstantView::Integer(i) => signed_decimal(i),
            ConstantView::Float(t) => t,
            ConstantView::Symbol(s) => "'"@ + s + "'"@,
            ConstantView::Boolean(b) => if b {
                "true"@
            } else {
                "false"@
            },
        }
    }
}

impl TermView {
    /// The term as it is written in a report.
    pub open spec fn display(self) -> Seq<char> {
        match self {
            TermView::Variable(VariableView::Distinguished(n)) => n,
            TermView::Variable(VariableView::Undistinguished(n)) => n,
            TermView::Variable(VariableView::Free) => "_"@,
            TermView::Constant(c) => c.literal(),
        }
    }
}

/// The terms of `terms` as they are written in a report.
pub open spec fn displays(terms: Seq<TermView>) -> Seq<Seq<char>> {
    Seq::new(terms.len(), |i: int| terms[i].display())
}

impl AtomView {
    /// The atom as it is written in a report: `p(X, 'a')`, after `not `
    /// where it is negated.
    pub open spec fn display(self) -> Seq<char> {
        (if self.negation {
            "not "@
        } else {
            Seq::empty()
        }) + self.predicate + "("@ + join(displays(self.terms), ", "@) + ")"@
    }
}

impl Constant {
    /// Writes the constant as a literal.
    pub fn literal(&self) -> (s: String)
        ensures
            s@ == self@.literal(),
    {
        match self {
            Constant::Integer(i) => render_i64(*i),
            Constant::Float(t) => t.clone(),
            Constant::Symbol(name) => {
                let mut s = String::from_str("'");
                s.append(name.as_str());
                s.append("'");
                s
            },
            Constant::Boolean(b) => {
                if *b {
                    String::from_str("true")
                } else {
                    String::from_str("false")
                }
            },
        }
    }
}

impl Term {
    /// Writes the term as it stands in a report.
    pub fn display(&self) -> (s: String)
        ensures
            s@ == self@.display(),
    {
        match self {
            Term::Variable(Variable::Distinguished(n)) => n.clone(),
            Term::Variable(Variable::Undistinguished(n)) => n.clone(),
            Term::Variable(Variable::Free) => String::from_str("_"),
            Term::Constant(c) => c.literal(),
        }
    }
}

impl Atom {
    /// Writes the atom as it stands in a report.
    pub fn display(&self) -> (s: String)
        ensures
            s@ == self@.display(),
    {
        let mut parts: Vec<String> = Vec::new();
        let mut i: usize = 0;
        while i < self.terms.len()
            invariant
                i <= self.terms.len(),
                parts@.len() == i,
                forall|k: int| 0 <= k < i ==> parts@[k]@ == self.terms@[k]@.display(),
            decreases self.terms.len() - i,
        {
            parts.push(self.terms[i].display());
            i = i + 1;
        }
        assert(views(parts@) =~= displays(self@.terms));
        let mut s = if self.negation {
            String::from_str("not ")
        } else {
            String::new()
        };
        s.append(self.predicate.as_str());
        s.append("(");
        let list = join_strings(&parts, ", ");
        s.append(list.as_str());
        s.append(")");
        s
    }
}

} // verus!
