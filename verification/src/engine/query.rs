//! Relational queries: projection, equi-joins and filters over tables, and
//! their wording in SQL.

use vstd::prelude::*;
use crate::syntax::ast::{Constant, ConstantView};
use crate::text::{
    column_name, column_names, decimal, join, join_strings, render_column, render_columns,
    render_usize, views,
};

verus! {

/// A column of the table that a body clause reads: the position of the
/// clause in the body, and the position of the column in the table. Each
/// clause reads its table under a name of its own, so that two clauses
/// over one table are told apart.
#[derive(Debug, PartialEq, Eq)]
pub struct Column {
    pub clause: usize,
    pub index: usize,
}

/// The value of a `Column`, as contracts speak of it.
pub struct ColumnView {
    pub clause: int,
    pub index: int,
}

impl View for Column {
    type V = ColumnView;

    open spec fn view(&self) -> ColumnView {
        ColumnView { clause: self.clause as int, index: self.index as int }
    }
}

/// A condition on the rows that a query reads.
#[derive(Debug, PartialEq, Eq)]
pub enum Condition {
    /// Two columns hold the same value.
    Columns(Column, Column),
    /// A column holds a given constant.
    Constant(Column, Constant),
}

/// The value of a `Condition`, as contracts speak of it.
pub enum ConditionView {
    Columns(ColumnView, ColumnView),
    Constant(ColumnView, ConstantView),
}

impl View for Condition {
    type V = ConditionView;

    open spec fn view(&self) -> ConditionView {
        match *self {
            Condition::Columns(a, b) => ConditionView::Columns(a@, b@),
            Condition::Constant(a, k) => ConditionView::Constant(a@, k@),
        }
    }
}

/// What one column of the result holds.
#[derive(Debug, PartialEq, Eq)]
pub enum Projection {
    /// The value of a column that the query reads.
    Column(Column),
    /// A constant.
    Literal(Constant),
}

/// The value of a `Projection`, as contracts speak of it.
pub enum ProjectionView {
    Column(ColumnView),
    Literal(ConstantView),
}

impl View for Projection {
    type V = ProjectionView;

    open spec fn view(&self) -> ProjectionView {
        match *self {
            Projection::Column(c) => ProjectionView::Column(c@),
            Projection::Literal(k) => ProjectionView::Literal(k@),
        }
    }
}

/// The table of a body clause beside the anchor, with the position of
/// the clause and conditions on its rows. For an atom the table is joined
/// on the conditions; for a negated atom the selection asks that the table
/// has no row that meets them.
#[derive(Debug, PartialEq, Eq)]
pub struct Join {
    pub table: String,
    pub clause: usize,
    pub on: Vec<Condition>,
}

/// The value of a `Join`, as contracts speak of it.
pub struct JoinView {
    pub table: Seq<char>,
    pub clause: int,
    pub on: Seq<ConditionView>,
}

impl View for Join {
    type V = JoinView;

    open spec fn view(&self) -> JoinView {
        JoinView { table: self.table@, clause: self.clause as int, on: views(self.on@) }
    }
}

/// A selection: what is projected, from which tables, under which
/// conditions.
#[derive(Debug, PartialEq, Eq)]
pub struct Selection {
    pub projection: Vec<Projection>,
    /// The table of the anchor and the position of its clause.
    pub from: Option<(String, usize)>,
    pub joins: Vec<Join>,
    pub filters: Vec<Condition>,
    /// For each negated atom its table, with the conditions that no row of
    /// it may meet.
    pub absent: Vec<Join>,
}

/// The value of a `Selection`, as contracts speak of it.
pub struct SelectionView {
    pub projection: Seq<ProjectionView>,
    pub from: Option<(Seq<char>, int)>,
    pub joins: Seq<JoinView>,
    pub filters: Seq<ConditionView>,
    pub absent: Seq<JoinView>,
}

impl View for Selection {
    type V = SelectionView;

    open spec fn view(&self) -> SelectionView {
        SelectionView {
            projection: views(self.projection@),
            from: match self.from {
                Some(anchor) => Some((anchor.0@, anchor.1 as int)),
                None => None,
            },
            joins: views(self.joins@),
            filters: views(self.filters@),
            absent: views(self.absent@),
        }
    }
}

/// The name under which the clause at position `c` reads its table: `t`
/// and the position.
pub open spec fn alias(c: nat) -> Seq<char> {
    "t"@ + decimal(c)
}

impl ColumnView {
    /// `tc.column_i`
    pub open spec fn sql(self) -> Seq<char> {
        alias(self.clause as nat) + "."@ + column_name(self.index as nat)
    }
}

impl ConditionView {
    /// `a.column_i = b.column_j`, or `a.column_i = literal`
    pub open spec fn sql(self) -> Seq<char> {
        match self {
            ConditionView::Columns(a, b) => a.sql() + " = "@ + b.sql(),
            ConditionView::Constant(a, k) => a.sql() + " = "@ + k.literal(),
        }
    }
}

/// The wording of each condition of `conditions`.
pub open spec fn condition_sqls(conditions: Seq<ConditionView>) -> Seq<Seq<char>> {
    Seq::new(conditions.len(), |i: int| conditions[i].sql())
}

impl ProjectionView {
    /// `source AS column_i`, for the column at position `i` of the result.
    pub open spec fn sql(self, i: int) -> Seq<char> {
        (match self {
            ProjectionView::Column(c) => c.sql(),
            ProjectionView::Literal(k) => k.literal(),
        }) + " AS "@ + column_name(i as nat)
    }
}

/// The wording of each projection of `projection`.
pub open spec fn projection_sqls(projection: Seq<ProjectionView>) -> Seq<Seq<char>> {
    Seq::new(projection.len(), |i: int| projection[i].sql(i))
}

impl JoinView {
    /// `table AS tc`, and after `word` the conditions with `AND` between
    /// them, where there is one.
    pub open spec fn reading(self, word: Seq<char>) -> Seq<char> {
        self.table + " AS "@ + alias(self.clause as nat) + (if self.on.len() > 0 {
            word + join(condition_sqls(self.on), " AND "@)
        } else {
            Seq::empty()
        })
    }

    /// `JOIN table AS tc ON condition AND condition`
    pub open spec fn sql(self) -> Seq<char> {
        "JOIN "@ + self.reading(" ON "@)
    }

    /// `NOT EXISTS (SELECT 1 FROM table AS tc WHERE condition AND condition)`
    pub open spec fn absence_sql(self) -> Seq<char> {
        "NOT EXISTS (SELECT 1 FROM "@ + self.reading(" WHERE "@) + ")"@
    }
}

/// The wording of each join of `joins`.
pub open spec fn join_sqls(joins: Seq<JoinView>) -> Seq<Seq<char>> {
    Seq::new(joins.len(), |i: int| joins[i].sql())
}

/// The wording of each of `absent`.
pub open spec fn absence_sqls(absent: Seq<JoinView>) -> Seq<Seq<char>> {
    Seq::new(absent.len(), |i: int| absent[i].absence_sql())
}

impl SelectionView {
    /// What the rows must meet: the filters, then for each negated atom
    /// that its table has no row that meets its conditions.
    pub open spec fn demands(self) -> Seq<Seq<char>> {
        condition_sqls(self.filters) + absence_sqls(self.absent)
    }

    /// The lines of the selection: `SELECT`, then `FROM` where a table is
    /// read, a line for each join, and `WHERE` where the rows must meet
    /// something.
    pub open spec fn lines(self) -> Seq<Seq<char>> {
        seq!["SELECT "@ + join(projection_sqls(self.projection), ", "@)] + (match self.from {
            Some(anchor) => seq!["FROM "@ + anchor.0 + " AS "@ + alias(anchor.1 as nat)],
            None => Seq::empty(),
        }) + join_sqls(self.joins) + (if self.demands().len() > 0 {
            seq!["WHERE "@ + join(self.demands(), " AND "@)]
        } else {
            Seq::empty()
        })
    }
}

/// What separates the lines of a statement: a line break and an indent.
pub open spec fn line_break() -> Seq<char> {
    "\n         "@
}

/// The statement that adds the rows of `selection` to the table `dest` of
/// `arity` columns, leaving out rows that the table holds already.
pub open spec fn insertion_sql(dest: Seq<char>, arity: nat, selection: SelectionView) -> Seq<char> {
    join(
        seq![
            "INSERT OR IGNORE INTO "@ + dest + "("@ + join(column_names(arity), ", "@) + ")"@,
        ] + selection.lines(),
        line_break(),
    )
}

/// Writes the name under which the clause at position `c` reads its
/// table.
pub fn render_alias(c: usize) -> (s: String)
    ensures
        s@ == alias(c as nat),
{
    let mut s = String::from_str("t");
    let digits = render_usize(c);
    s.append(digits.as_str());
    s
}

impl Column {
    /// Writes the column as `tc.column_i`.
    pub fn to_sql(&self) -> (s: String)
        ensures
            s@ == self@.sql(),
    {
        let mut s = render_alias(self.clause);
        s.append(".");
        let name = render_column(self.index);
        s.append(name.as_str());
        s
    }
}

impl Clone for Column {
    fn clone(&self) -> (r: Self)
        ensures
            r@ == self@,
    {
        Column { clause: self.clause, index: self.index }
    }
}

impl Condition {
    /// Writes the condition in SQL.
    pub fn to_sql(&self) -> (s: String)
        ensures
            s@ == self@.sql(),
    {
        match self {
            Condition::Columns(a, b) => {
                let mut s = a.to_sql();
                s.append(" = ");
                let right = b.to_sql();
                s.append(right.as_str());
                s
            },
            Condition::Constant(a, k) => {
                let mut s = a.to_sql();
                s.append(" = ");
                let right = k.literal();
                s.append(right.as_str());
                s
            },
        }
    }
}

impl Clone for Condition {
    fn clone(&self) -> (r: Self)
        ensures
            r@ == self@,
    {
        match self {
            Condition::Columns(a, b) => Condition::Columns(a.clone(), b.clone()),
            Condition::Constant(a, k) => Condition::Constant(a.clone(), k.clone()),
        }
    }
}

/// Writes each condition of `conditions` in SQL.
pub fn conditions_to_sql(conditions: &Vec<Condition>) -> (r: Vec<String>)
    ensures
        views(r@) == condition_sqls(views(conditions@)),
{
    let mut r: Vec<String> = Vec::new();
    let mut i: usize = 0;
    while i < conditions.len()
        invariant
            i <= conditions.len(),
            r@.len() == i,
            forall|k: int| 0 <= k < i ==> r@[k]@ == conditions@[k]@.sql(),
        decreases conditions.len() - i,
    {
        r.push(conditions[i].to_sql());
        i = i + 1;
    }
    assert(views(r@) =~= condition_sqls(views(conditions@)));
    r
}

impl Projection {
    /// Writes the projection of the column at position `i` of the result.
    pub fn to_sql(&self, i: usize) -> (s: String)
        ensures
            s@ == self@.sql(i as int),
    {
        let mut s = match self {
            Projection::Column(c) => c.to_sql(),
            Projection::Literal(k) => k.literal(),
        };
        s.append(" AS ");
        let name = render_column(i);
        s.append(name.as_str());
        s
    }
}

impl Join {
    /// Adds to `s` the table under its name and, after `word`, the
    /// conditions, where there is one.
    pub fn write_reading(&self, s: &mut String, word: &str)
        ensures
            final(s)@ == old(s)@ + self@.reading(word@),
    {
        let ghost start = s@;
        s.append(self.table.as_str());
        s.append(" AS ");
        let name = render_alias(self.clause);
        s.append(name.as_str());
        assert(self@.on.len() == self.on@.len());
        if self.on.len() > 0 {
            s.append(word);
            let parts = conditions_to_sql(&self.on);
            let list = join_strings(&parts, " AND ");
            s.append(list.as_str());
            assert(s@ =~= start + self@.reading(word@));
        } else {
            assert(s@ =~= start + self@.reading(word@));
        }
    }

    /// Writes the join in SQL.
    pub fn to_sql(&self) -> (s: String)
        ensures
            s@ == self@.sql(),
    {
        let mut s = String::from_str("JOIN ");
        self.write_reading(&mut s, " ON ");
        s
    }

    /// Writes in SQL that the table has no row that meets the conditions.
    pub fn to_absence_sql(&self) -> (s: String)
        ensures
            s@ == self@.absence_sql(),
    {
        let mut s = String::from_str("NOT EXISTS (SELECT 1 FROM ");
        self.write_reading(&mut s, " WHERE ");
        s.append(")");
        s
    }
}

impl Selection {
    /// Writes the lines of the selection.
    pub fn to_lines(&self) -> (lines: Vec<String>)
        ensures
            views(lines@) == self@.lines(),
    {
        let mut parts: Vec<String> = Vec::new();
        let mut i: usize = 0;
        while i < self.projection.len()
            invariant
                i <= self.projection.len(),
                parts@.len() == i,
                forall|k: int| 0 <= k < i ==> parts@[k]@ == self.projection@[k]@.sql(k),
            decreases self.projection.len() - i,
        {
            parts.push(self.projection[i].to_sql(i));
            i = i + 1;
        }
        assert(views(parts@) =~= projection_sqls(self@.projection));
        let mut select = String::from_str("SELECT ");
        let list = join_strings(&parts, ", ");
        select.append(list.as_str());
        let mut lines: Vec<String> = Vec::new();
        lines.push(select);
        match &self.from {
            Some(anchor) => {
                let mut from = String::from_str("FROM ");
                from.append(anchor.0.as_str());
                from.append(" AS ");
                let name = render_alias(anchor.1);
                from.append(name.as_str());
                lines.push(from);
            },
            None => {},
        }
        let ghost head = views(lines@);
        assert(head =~= seq!["SELECT "@ + join(projection_sqls(self@.projection), ", "@)] + (
        match self@.from {
            Some(anchor) => seq!["FROM "@ + anchor.0 + " AS "@ + alias(anchor.1 as nat)],
            None => Seq::empty(),
        }));
        let mut j: usize = 0;
        while j < self.joins.len()
            invariant
                j <= self.joins.len(),
                views(lines@) == head + join_sqls(self@.joins).take(j as int),
            decreases self.joins.len() - j,
        {
            let ghost before = views(lines@);
            let line = self.joins[j].to_sql();
            lines.push(line);
            assert(views(lines@) =~= before.push(self.joins@[j as int]@.sql()));
            assert(join_sqls(self@.joins).take(j + 1) =~= join_sqls(self@.joins).take(
                j as int,
            ).push(self.joins@[j as int]@.sql()));
            j = j + 1;
        }
        assert(join_sqls(self@.joins).take(self.joins.len() as int) =~= join_sqls(self@.joins));
        let mut demands = conditions_to_sql(&self.filters);
        let ghost first = views(demands@);
        let mut a: usize = 0;
        assert(views(demands@) =~= first + absence_sqls(self@.absent).take(0));
        while a < self.absent.len()
            invariant
                a <= self.absent.len(),
                first == condition_sqls(self@.filters),
                views(demands@) == first + absence_sqls(self@.absent).take(a as int),
            decreases self.absent.len() - a,
        {
            let ghost before = views(demands@);
            demands.push(self.absent[a].to_absence_sql());
            assert(views(demands@) =~= before.push(self.absent@[a as int]@.absence_sql()));
            assert(absence_sqls(self@.absent).take(a + 1) =~= absence_sqls(self@.absent).take(
                a as int,
            ).push(self.absent@[a as int]@.absence_sql()));
            a = a + 1;
        }
        assert(absence_sqls(self@.absent).take(self.absent.len() as int) =~= absence_sqls(
            self@.absent,
        ));
        assert(views(demands@) == self@.demands());
        if demands.len() > 0 {
            let ghost before = views(lines@);
            let mut filter = String::from_str("WHERE ");
            let list = join_strings(&demands, " AND ");
            filter.append(list.as_str());
            lines.push(filter);
            assert(views(lines@) =~= before + seq!["WHERE "@ + join(self@.demands(), " AND "@)]);
        } else {
            assert(views(lines@) =~= views(lines@) + Seq::<Seq<char>>::empty());
        }
        lines
    }
}

/// Writes the statement that adds the rows of `selection` to the table
/// `dest` of `arity` columns.
pub fn insertion_to_sql(dest: &str, arity: usize, selection: &Selection) -> (s: String)
    ensures
        s@ == insertion_sql(dest@, arity as nat, selection@),
{
    let mut first = String::from_str("INSERT OR IGNORE INTO ");
    first.append(dest);
    first.append("(");
    let columns = render_columns(arity);
    let list = join_strings(&columns, ", ");
    first.append(list.as_str());
    first.append(")");
    let mut lines: Vec<String> = Vec::new();
    lines.push(first);
    let mut rest = selection.to_lines();
    let ghost tail = views(rest@);
    let ghost head = views(lines@);
    lines.append(&mut rest);
    assert(views(lines@) =~= head + tail);
    assert(head =~= seq![
        "INSERT OR IGNORE INTO "@ + dest@ + "("@ + join(column_names(arity as nat), ", "@) + ")"@,
    ]);
    join_strings(&lines, "\n         ")
}

} // verus!
