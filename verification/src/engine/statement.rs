//! The statements that the evaluator sends to the store, and their wording
//! in SQL.

use vstd::prelude::*;
use crate::engine::analysis::DataType;
use crate::engine::query::{insertion_sql, insertion_to_sql, line_break, Selection, SelectionView};
use crate::syntax::ast::{Constant, ConstantView};
use crate::text::{
    column_name, column_names, join, join_strings, render_column, render_columns, views,
};

verus! {

/// A condition on the columns of one table.
#[derive(Debug, PartialEq, Eq)]
pub enum Check {
    /// The column at a position holds a constant.
    Constant(usize, Constant),
    /// The columns at two positions hold the same value.
    Same(usize, usize),
}

/// The value of a `Check`, as contracts speak of it.
pub enum CheckView {
    Constant(int, ConstantView),
    Same(int, int),
}

impl View for Check {
    type V = CheckView;

    open spec fn view(&self) -> CheckView {
        match *self {
            Check::Constant(i, k) => CheckView::Constant(i as int, k@),
            Check::Same(i, j) => CheckView::Same(i as int, j as int),
        }
    }
}

/// A statement for the store.
#[derive(Debug, PartialEq, Eq)]
pub enum Statement {
    /// Creates a table with typed columns, unless it exists; no row occurs
    /// twice in it.
    CreateTable { table: String, types: Vec<DataType> },
    /// Adds the rows of a selection to a table, but for those it holds.
    Insert { dest: String, arity: usize, selection: Selection },
    /// Creates a table as a copy of another.
    Copy { dest: String, source: String },
    /// Creates an empty table with the columns of another.
    CopyEmpty { dest: String, source: String },
    /// Removes every row of a table.
    Clear { table: String },
    /// Adds to `dest` the rows of `source` that `minus` lacks.
    Difference { dest: String, source: String, minus: String, arity: usize },
    /// Adds the rows of `source` to `dest`.
    Union { dest: String, source: String },
    /// Removes a table.
    Drop { table: String },
    /// Asks for the number of rows of a table.
    Count { table: String },
    /// Asks whether a table exists: one row if so, none if not.
    Exists { table: String },
    /// Asks for the columns of a table: one row for each.
    Columns { table: String },
    /// Asks for the rows of a table that meet every check, each of its
    /// `arity` columns as text.
    Select { table: String, arity: usize, checks: Vec<Check> },
}

/// The value of a `Statement`, as contracts speak of it.
pub enum StatementView {
    CreateTable { table: Seq<char>, types: Seq<DataType> },
    Insert { dest: Seq<char>, arity: int, selection: SelectionView },
    Copy { dest: Seq<char>, source: Seq<char> },
    CopyEmpty { dest: Seq<char>, source: Seq<char> },
    Clear { table: Seq<char> },
    Difference { dest: Seq<char>, source: Seq<char>, minus: Seq<char>, arity: int },
    Union { dest: Seq<char>, source: Seq<char> },
    Drop { table: Seq<char> },
    Count { table: Seq<char> },
    Exists { table: Seq<char> },
    Columns { table: Seq<char> },
    Select { table: Seq<char>, arity: int, checks: Seq<CheckView> },
}

impl View for Statement {
    type V = StatementView;

    open spec fn view(&self) -> StatementView {
        match *self {
            Statement::CreateTable { table, types } => StatementView::CreateTable {
                table: table@,
                types: types@,
            },
            Statement::Insert { dest, arity, selection } => StatementView::Insert {
                dest: dest@,
                arity: arity as int,
                selection: selection@,
            },
            Statement::Copy { dest, source } => StatementView::Copy {
                dest: dest@,
                source: source@,
            },
            Statement::CopyEmpty { dest, source } => StatementView::CopyEmpty {
                dest: dest@,
                source: source@,
            },
            Statement::Clear { table } => StatementView::Clear { table: table@ },
            Statement::Difference { dest, source, minus, arity } => StatementView::Difference {
                dest: dest@,
                source: source@,
                minus: minus@,
                arity: arity as int,
            },
            Statement::Union { dest, source } => StatementView::Union {
                dest: dest@,
                source: source@,
            },
            Statement::Drop { table } => StatementView::Drop { table: table@ },
            Statement::Count { table } => StatementView::Count { table: table@ },
            Statement::Exists { table } => StatementView::Exists { table: table@ },
            Statement::Columns { table } => StatementView::Columns { table: table@ },
            Statement::Select { table, arity, checks } => StatementView::Select {
                table: table@,
                arity: arity as int,
                checks: views(checks@),
            },
        }
    }
}

/// The name of a column type in the store.
pub open spec fn store_type(t: DataType) -> Seq<char> {
    match t {
        DataType::Integer => "INTEGER"@,
        DataType::Symbol => "TEXT"@,
        DataType::Float => "REAL"@,
    }
}

/// The declarations of the columns: `column_i TYPE` for each.
pub open spec fn column_declarations(types: Seq<DataType>) -> Seq<Seq<char>> {
    Seq::new(types.len(), |i: int| column_name(i as nat) + " "@ + store_type(types[i]))
}

/// `left.column_i = right.column_i` for each of the first `arity` columns.
pub open spec fn column_matches(left: Seq<char>, right: Seq<char>, arity: nat) -> Seq<Seq<char>> {
    Seq::new(
        arity,
        |i: int| left + "."@ + column_name(i as nat) + " = "@ + right + "."@ + column_name(i as nat),
    )
}

/// `CAST(column_i AS TEXT)` for each of the first `arity` columns.
pub open spec fn column_texts(arity: nat) -> Seq<Seq<char>> {
    Seq::new(arity, |i: int| "CAST("@ + column_name(i as nat) + " AS TEXT)"@)
}

/// `table.column_i IS NULL` for each of the first `arity` columns.
pub open spec fn column_nulls(table: Seq<char>, arity: nat) -> Seq<Seq<char>> {
    Seq::new(arity, |i: int| table + "."@ + column_name(i as nat) + " IS NULL"@)
}

impl CheckView {
    /// `column_i = literal`, or `column_i = column_j`
    pub open spec fn sql(self) -> Seq<char> {
        match self {
            CheckView::Constant(i, k) => column_name(i as nat) + " = "@ + k.literal(),
            CheckView::Same(i, j) => column_name(i as nat) + " = "@ + column_name(j as nat),
        }
    }
}

/// The wording of each check of `checks`.
pub open spec fn check_sqls(checks: Seq<CheckView>) -> Seq<Seq<char>> {
    Seq::new(checks.len(), |i: int| checks[i].sql())
}

impl StatementView {
    /// The statement in SQL.
    pub open spec fn sql(self) -> Seq<char> {
        match self {
            StatementView::CreateTable { table, types } => "CREATE TABLE IF NOT EXISTS "@ + table
                + " ("@ + join(column_declarations(types), ", "@) + ", UNIQUE("@ + join(
                column_names(types.len()),
                ", "@,
            ) + "));"@,
            StatementView::Insert { dest, arity, selection } => insertion_sql(
                dest,
                arity as nat,
                selection,
            ),
            StatementView::Copy { dest, source } => "CREATE TABLE "@ + dest + " AS SELECT * FROM "@
                + source,
            StatementView::CopyEmpty { dest, source } => "CREATE TABLE "@ + dest
                + " AS SELECT * FROM "@ + source + " WHERE 1 = 0"@,
            StatementView::Clear { table } => "DELETE FROM "@ + table,
            StatementView::Difference { dest, source, minus, arity } => "INSERT OR IGNORE INTO "@
                + dest + line_break() + "SELECT "@ + source + ".* FROM "@ + source + line_break()
                + "LEFT JOIN "@ + minus + " ON "@ + join(
                column_matches(source, minus, arity as nat),
                " AND "@,
            ) + line_break() + "WHERE "@ + join(column_nulls(minus, arity as nat), " AND "@),
            StatementView::Union { dest, source } => "INSERT OR IGNORE INTO "@ + dest + line_break()
                + "SELECT * FROM "@ + source + ";"@,
            StatementView::Drop { table } => "DROP TABLE "@ + table + ";"@,
            StatementView::Count { table } => "SELECT COUNT(*) FROM "@ + table,
            StatementView::Exists { table } =>
                "SELECT name FROM sqlite_master WHERE type='table' AND name='"@ + table + "';"@,
            StatementView::Columns { table } => "SELECT name FROM pragma_table_info('"@ + table
                + "')"@,
            StatementView::Select { table, arity, checks } => "SELECT "@ + join(
                column_texts(arity as nat),
                ", "@,
            ) + " FROM "@ + table + (if checks.len() > 0 {
                " WHERE "@ + join(check_sqls(checks), " AND "@)
            } else {
                Seq::empty()
            }) + ";"@,
        }
    }
}

fn render_type(t: DataType) -> (s: String)
    ensures
        s@ == store_type(t),
{
    match t {
        DataType::Integer => String::from_str("INTEGER"),
        DataType::Symbol => String::from_str("TEXT"),
        DataType::Float => String::from_str("REAL"),
    }
}

fn render_declarations(types: &Vec<DataType>) -> (r: Vec<String>)
    ensures
        views(r@) == column_declarations(types@),
{
    let mut r: Vec<String> = Vec::new();
    let mut i: usize = 0;
    while i < types.len()
        invariant
            i <= types.len(),
            r@.len() == i,
            forall|k: int|
                0 <= k < i ==> (#[trigger] r@[k])@ == column_name(k as nat) + " "@ + store_type(
                    types@[k],
                ),
        decreases types.len() - i,
    {
        let mut s = render_column(i);
        s.append(" ");
        let name = render_type(types[i]);
        s.append(name.as_str());
        r.push(s);
        i = i + 1;
    }
    assert(views(r@) =~= column_declarations(types@));
    r
}

fn render_matches(left: &str, right: &str, arity: usize) -> (r: Vec<String>)
    ensures
        views(r@) == column_matches(left@, right@, arity as nat),
{
    let mut r: Vec<String> = Vec::new();
    let mut i: usize = 0;
    while i < arity
        invariant
            i <= arity,
            r@.len() == i,
            forall|k: int|
                0 <= k < i ==> (#[trigger] r@[k])@ == left@ + "."@ + column_name(k as nat) + " = "@
                    + right@ + "."@ + column_name(k as nat),
        decreases arity - i,
    {
        let name = render_column(i);
        let mut s = String::from_str(left);
        s.append(".");
        s.append(name.as_str());
        s.append(" = ");
        s.append(right);
        s.append(".");
        s.append(name.as_str());
        r.push(s);
        i = i + 1;
    }
    assert(views(r@) =~= column_matches(left@, right@, arity as nat));
    r
}

fn render_texts(arity: usize) -> (r: Vec<String>)
    ensures
        views(r@) == column_texts(arity as nat),
{
    let mut r: Vec<String> = Vec::new();
    let mut i: usize = 0;
    while i < arity
        invariant
            i <= arity,
            r@.len() == i,
            forall|k: int|
                0 <= k < i ==> (#[trigger] r@[k])@ == "CAST("@ + column_name(k as nat)
                    + " AS TEXT)"@,
        decreases arity - i,
    {
        let name = render_column(i);
        let mut s = String::from_str("CAST(");
        s.append(name.as_str());
        s.append(" AS TEXT)");
        r.push(s);
        i = i + 1;
    }
    assert(views(r@) =~= column_texts(arity as nat));
    r
}

fn render_nulls(table: &str, arity: usize) -> (r: Vec<String>)
    ensures
        views(r@) == column_nulls(table@, arity as nat),
{
    let mut r: Vec<String> = Vec::new();
    let mut i: usize = 0;
    while i < arity
        invariant
            i <= arity,
            r@.len() == i,
            forall|k: int|
                0 <= k < i ==> (#[trigger] r@[k])@ == table@ + "."@ + column_name(k as nat)
                    + " IS NULL"@,
        decreases arity - i,
    {
        let name = render_column(i);
        let mut s = String::from_str(table);
        s.append(".");
        s.append(name.as_str());
        s.append(" IS NULL");
        r.push(s);
        i = i + 1;
    }
    assert(views(r@) =~= column_nulls(table@, arity as nat));
    r
}

impl Check {
    /// Writes the check in SQL.
    pub fn to_sql(&self) -> (s: String)
        ensures
            s@ == self@.sql(),
    {
        match self {
            Check::Constant(i, k) => {
                let mut s = render_column(*i);
                s.append(" = ");
                let literal = k.literal();
                s.append(literal.as_str());
                s
            },
            Check::Same(i, j) => {
                let mut s = render_column(*i);
                s.append(" = ");
                let other = render_column(*j);
                s.append(other.as_str());
                s
            },
        }
    }
}

fn render_checks(checks: &Vec<Check>) -> (r: Vec<String>)
    ensures
        views(r@) == check_sqls(views(checks@)),
{
    let mut r: Vec<String> = Vec::new();
    let mut i: usize = 0;
    while i < checks.len()
        invariant
            i <= checks.len(),
            r@.len() == i,
            forall|k: int| 0 <= k < i ==> (#[trigger] r@[k])@ == checks@[k]@.sql(),
        decreases checks.len() - i,
    {
        r.push(checks[i].to_sql());
        i = i + 1;
    }
    assert(views(r@) =~= check_sqls(views(checks@)));
    r
}

impl Statement {
    /// Writes the statement in SQL.
    pub fn to_sql(&self) -> (s: String)
        ensures
            s@ == self@.sql(),
    {
        match self {
            Statement::CreateTable { table, types } => {
                let mut s = String::from_str("CREATE TABLE IF NOT EXISTS ");
                s.append(table.as_str());
                s.append(" (");
                let declarations = render_declarations(types);
                let list = join_strings(&declarations, ", ");
                s.append(list.as_str());
                s.append(", UNIQUE(");
                let columns = render_columns(types.len());
                let names = join_strings(&columns, ", ");
                s.append(names.as_str());
                s.append("));");
                s
            },
            Statement::Insert { dest, arity, selection } => insertion_to_sql(
                dest.as_str(),
                *arity,
                selection,
            ),
            Statement::Copy { dest, source } => {
                let mut s = String::from_str("CREATE TABLE ");
                s.append(dest.as_str());
                s.append(" AS SELECT * FROM ");
                s.append(source.as_str());
                s
            },
            Statement::CopyEmpty { dest, source } => {
                let mut s = String::from_str("CREATE TABLE ");
                s.append(dest.as_str());
                s.append(" AS SELECT * FROM ");
                s.append(source.as_str());
                s.append(" WHERE 1 = 0");
                s
            },
            Statement::Clear { table } => {
                let mut s = String::from_str("DELETE FROM ");
                s.append(table.as_str());
                s
            },
            Statement::Difference { dest, source, minus, arity } => {
                let mut s = String::from_str("INSERT OR IGNORE INTO ");
                s.append(dest.as_str());
                s.append("\n         ");
                s.append("SELECT ");
                s.append(source.as_str());
                s.append(".* FROM ");
                s.append(source.as_str());
                s.append("\n         ");
                s.append("LEFT JOIN ");
                s.append(minus.as_str());
                s.append(" ON ");
                let matches = render_matches(source.as_str(), minus.as_str(), *arity);
                let on = join_strings(&matches, " AND ");
                s.append(on.as_str());
                s.append("\n         ");
                s.append("WHERE ");
                let nulls = render_nulls(minus.as_str(), *arity);
                let filter = join_strings(&nulls, " AND ");
                s.append(filter.as_str());
                s
            },
            Statement::Union { dest, source } => {
                let mut s = String::from_str("INSERT OR IGNORE INTO ");
                s.append(dest.as_str());
                s.append("\n         ");
                s.append("SELECT * FROM ");
                s.append(source.as_str());
                s.append(";");
                s
            },
            Statement::Drop { table } => {
                let mut s = String::from_str("DROP TABLE ");
                s.append(table.as_str());
                s.append(";");
                s
            },
            Statement::Count { table } => {
                let mut s = String::from_str("SELECT COUNT(*) FROM ");
                s.append(table.as_str());
                s
            },
            Statement::Exists { table } => {
                let mut s = String::from_str(
                    "SELECT name FROM sqlite_master WHERE type='table' AND name='",
                );
                s.append(table.as_str());
                s.append("';");
                s
            },
            Statement::Columns { table } => {
                let mut s = String::from_str("SELECT name FROM pragma_table_info('");
                s.append(table.as_str());
                s.append("')");
                s
            },
            Statement::Select { table, arity, checks } => {
                let mut s = String::from_str("SELECT ");
                let texts = render_texts(*arity);
                let columns = join_strings(&texts, ", ");
                s.append(columns.as_str());
                s.append(" FROM ");
                s.append(table.as_str());
                let ghost start = s@;
                if checks.len() > 0 {
                    s.append(" WHERE ");
                    let parts = render_checks(checks);
                    let list = join_strings(&parts, " AND ");
                    s.append(list.as_str());
                    assert(s@ =~= start + (" WHERE "@ + join(
                        check_sqls(views(checks@)),
                        " AND "@,
                    )));
                } else {
                    assert(s@ =~= start + Seq::<char>::empty());
                }
                s.append(";");
                s
            },
        }
    }
}

} // verus!
