//! What the statements mean: a model of the store as tables of rows, the
//! rows that a selection yields over it, and the store after a statement.
//! The laws of the fixpoint loop are stated and proved over this model. It
//! says what a store does that accepts each statement; the store itself is
//! outside what is proved.

use vstd::prelude::*;
use crate::engine::query::{
    ColumnView, ConditionView, JoinView, ProjectionView, SelectionView,
};
use crate::engine::runtime::{
    case_insertions, closing_statements, delta_table, fixpoint_statements, insertion,
    opening_statements, plan_statements, PlanView, relation_plan, step_statements,
    steps_statements, temp_table, update_statements,
};
use crate::engine::analysis::{Types, var_dict, VarDictView, VarGroupView};
use crate::engine::compile::{
    absence, absences, affirmed, anchor, atom_firsts, compiled, first_atom,
    groups_within, is_negated, joins, lemma_dict_within, Place, places_within,
    selection, smallest, source, table_name,
};
use crate::engine::meaning::lemma_anchor;
use crate::engine::statement::StatementView;
use crate::syntax::ast::{ClauseView, ConstantView, RuleView};

verus! {

/// A value in a row.
pub type Value = ConstantView;

/// A row of a table.
pub type Row = Seq<Value>;

/// The rows of a table; none occurs twice.
pub type Table = Set<Row>;

/// The tables of a store, by name.
pub type Store = Map<Seq<char>, Table>;

/// One row for each clause that a selection reads a table for, by the
/// position of the clause.
pub type Binding = Map<int, Row>;

/// The rows of the table `name`; none where the store has no such table.
pub open spec fn table_of(store: Store, name: Seq<char>) -> Table {
    if store.dom().contains(name) {
        store[name]
    } else {
        Set::empty()
    }
}

/// Whether the selection asks that the table `name` has no row that meets
/// some conditions.
pub open spec fn denies(selection: SelectionView, name: Seq<char>) -> bool {
    exists|j: int|
        0 <= j < selection.absent.len() && (#[trigger] selection.absent[j]).table == name
}

/// Whether the selection reads the table `name`: after `FROM`, in a join,
/// or to ask that it has no row that meets some conditions.
pub open spec fn reads(selection: SelectionView, name: Seq<char>) -> bool {
    ||| selection.from matches Some(first) && first.0 == name
    ||| exists|j: int|
        0 <= j < selection.joins.len() && (#[trigger] selection.joins[j]).table == name
    ||| denies(selection, name)
}

/// Whether the selection reads a table for the clause at position `c`:
/// after `FROM`, or in a join.
pub open spec fn binds(selection: SelectionView, c: int) -> bool {
    (selection.from matches Some(first) && first.1 == c) || exists|j: int|
        0 <= j < selection.joins.len() && (#[trigger] selection.joins[j]).clause == c
}

/// Whether the selection reads the table `name` for one clause at most.
pub open spec fn reads_once(selection: SelectionView, name: Seq<char>) -> bool {
    &&& forall|i: int, j: int|
        0 <= i < selection.joins.len() && 0 <= j < selection.joins.len() && (
        #[trigger] selection.joins[i]).table == name && (#[trigger] selection.joins[j]).table
            == name ==> i == j
    &&& selection.from matches Some(first) ==> first.0 == name ==> forall|j: int|
        0 <= j < selection.joins.len() ==> (#[trigger] selection.joins[j]).table != name
}

/// The value of a column under a binding, where the binding has a row
/// for its clause that is long enough.
pub open spec fn cell(binding: Binding, column: ColumnView) -> Option<Value> {
    if binding.dom().contains(column.clause) && 0 <= column.index < binding[column.clause].len() {
        Some(binding[column.clause][column.index])
    } else {
        None
    }
}

/// Whether a condition holds under a binding.
pub open spec fn holds(condition: ConditionView, binding: Binding) -> bool {
    match condition {
        ConditionView::Columns(a, b) => cell(binding, a) is Some && cell(binding, a) == cell(
            binding,
            b,
        ),
        ConditionView::Constant(a, k) => cell(binding, a) == Some(k),
    }
}

/// Whether each of `conditions` holds under a binding.
pub open spec fn met(conditions: Seq<ConditionView>, binding: Binding) -> bool {
    forall|k: int| 0 <= k < conditions.len() ==> holds(#[trigger] conditions[k], binding)
}

/// Whether no table that the selection denies has a row that, taken for
/// the clause of the table, meets the conditions under the binding.
pub open spec fn absent_from(selection: SelectionView, binding: Binding, store: Store) -> bool {
    forall|j: int, r: Row|
        0 <= j < selection.absent.len() && #[trigger] table_of(
            store,
            selection.absent[j].table,
        ).contains(r) ==> !met(selection.absent[j].on, binding.insert(selection.absent[j].clause, r))
}

/// Whether a projection has a value under a binding.
pub open spec fn projects(projection: ProjectionView, binding: Binding) -> bool {
    match projection {
        ProjectionView::Column(c) => cell(binding, c) is Some,
        ProjectionView::Literal(_) => true,
    }
}

/// The value of a projection under a binding.
pub open spec fn projected_value(projection: ProjectionView, binding: Binding) -> Value {
    match projection {
        ProjectionView::Column(c) => cell(binding, c)->0,
        ProjectionView::Literal(k) => k,
    }
}

/// Whether a binding meets a selection, apart from where its rows come
/// from: it has a row for each clause that a table is read for and for no
/// other, every condition holds, and every projection has a value.
pub open spec fn fits(selection: SelectionView, binding: Binding) -> bool {
    &&& forall|c: int| binding.dom().contains(c) <==> binds(selection, c)
    &&& forall|j: int, k: int|
        0 <= j < selection.joins.len() && 0 <= k < selection.joins[j].on.len() ==> holds(
            #[trigger] selection.joins[j].on[k],
            binding,
        )
    &&& forall|k: int|
        0 <= k < selection.filters.len() ==> holds(#[trigger] selection.filters[k], binding)
    &&& forall|i: int|
        0 <= i < selection.projection.len() ==> projects(
            #[trigger] selection.projection[i],
            binding,
        )
}

/// Whether the row that a binding has for a clause is a row of the table
/// that the selection reads for it, for each such clause.
pub open spec fn drawn_from(selection: SelectionView, binding: Binding, store: Store) -> bool {
    &&& selection.from matches Some(first) ==> store.dom().contains(first.0)
        && store[first.0].contains(binding[first.1])
    &&& forall|j: int|
        0 <= j < selection.joins.len() ==> store.dom().contains(
            (#[trigger] selection.joins[j]).table,
        ) && store[selection.joins[j].table].contains(binding[selection.joins[j].clause])
}

/// The row that a selection yields under a binding.
pub open spec fn projected(selection: SelectionView, binding: Binding) -> Row {
    Seq::new(
        selection.projection.len(),
        |i: int| projected_value(selection.projection[i], binding),
    )
}

/// Whether the selection yields `row` over the store under `binding`.
pub open spec fn yields(selection: SelectionView, store: Store, binding: Binding, row: Row) -> bool {
    fits(selection, binding) && drawn_from(selection, binding, store) && absent_from(
        selection,
        binding,
        store,
    ) && row == projected(selection, binding)
}

/// The rows that a selection yields over a store.
pub open spec fn rows(selection: SelectionView, store: Store) -> Table {
    Set::new(|row: Row| exists|binding: Binding| yields(selection, store, binding, row))
}

/// The store after a statement. A statement that only asks leaves the
/// store as it is.
pub open spec fn effect(statement: StatementView, store: Store) -> Store {
    match statement {
        StatementView::CreateTable { table, types } => if store.dom().contains(table) {
            store
        } else {
            store.insert(table, Set::empty())
        },
        StatementView::Insert { dest, arity, selection } => store.insert(
            dest,
            table_of(store, dest).union(rows(selection, store)),
        ),
        StatementView::Copy { dest, source } => store.insert(dest, table_of(store, source)),
        StatementView::CopyEmpty { dest, source } => store.insert(dest, Set::empty()),
        StatementView::Clear { table } => store.insert(table, Set::empty()),
        StatementView::Difference { dest, source, minus, arity } => store.insert(
            dest,
            table_of(store, dest).union(
                table_of(store, source).difference(table_of(store, minus)),
            ),
        ),
        StatementView::Union { dest, source } => store.insert(
            dest,
            table_of(store, dest).union(table_of(store, source)),
        ),
        StatementView::Drop { table } => store.remove(table),
        StatementView::Count { table } => store,
        StatementView::Exists { table } => store,
        StatementView::Columns { table } => store,
        StatementView::Select { table, arity, checks } => store,
    }
}

/// The store after a list of statements, in order.
pub open spec fn run(statements: Seq<StatementView>, store: Store) -> Store
    decreases statements.len(),
{
    if statements.len() == 0 {
        store
    } else {
        effect(statements.last(), run(statements.drop_last(), store))
    }
}

/// Running two lists, one after the other, is running the second on what
/// the first leaves.
pub proof fn lemma_run_add(x: Seq<StatementView>, y: Seq<StatementView>, store: Store)
    ensures
        run(x + y, store) == run(y, run(x, store)),
    decreases y.len(),
{
    if y.len() == 0 {
        assert(x + y =~= x);
    } else {
        lemma_run_add(x, y.drop_last(), store);
        assert((x + y).drop_last() =~= x + y.drop_last());
        assert((x + y).last() == y.last());
    }
}

/// Running one statement is its effect.
pub proof fn lemma_run_one(statement: StatementView, store: Store)
    ensures
        run(seq![statement], store) == effect(statement, store),
{
    reveal_with_fuel(run, 2);
    assert(seq![statement].drop_last() =~= Seq::<StatementView>::empty());
    assert(seq![statement].last() == statement);
}

/// Rows that are drawn from a store are drawn from a store whose tables,
/// as far as the selection reads them, hold no fewer rows.
pub proof fn lemma_drawn_frame(selection: SelectionView, binding: Binding, a: Store, b: Store)
    requires
        drawn_from(selection, binding, a),
        forall|t: Seq<char>|
            reads(selection, t) && a.dom().contains(t) ==> b.dom().contains(t) && a[t].subset_of(
                b[t],
            ),
    ensures
        drawn_from(selection, binding, b),
{
    if selection.from is Some {
        let first = selection.from->Some_0;
        assert(reads(selection, first.0));
        assert(a[first.0].subset_of(b[first.0]));
    }
    assert forall|j: int| 0 <= j < selection.joins.len() implies b.dom().contains(
        (#[trigger] selection.joins[j]).table,
    ) && b[selection.joins[j].table].contains(binding[selection.joins[j].clause]) by {
        let t = selection.joins[j].table;
        assert(reads(selection, t));
        assert(a[t].subset_of(b[t]));
    }
}

/// What a store lacks, a store lacks whose tables, as far as the
/// selection denies them, hold no more rows.
pub proof fn lemma_absent_frame(selection: SelectionView, binding: Binding, a: Store, b: Store)
    requires
        absent_from(selection, binding, a),
        forall|t: Seq<char>| denies(selection, t) ==> table_of(b, t).subset_of(table_of(a, t)),
    ensures
        absent_from(selection, binding, b),
{
    assert forall|j: int, r: Row|
        0 <= j < selection.absent.len() && #[trigger] table_of(
            b,
            selection.absent[j].table,
        ).contains(r) implies !met(
        selection.absent[j].on,
        binding.insert(selection.absent[j].clause, r),
    ) by {
        let t = selection.absent[j].table;
        assert(denies(selection, t));
        assert(table_of(a, t).contains(r));
    }
}

/// A selection yields the same rows over stores that agree on the tables
/// it reads.
pub proof fn lemma_rows_frame(selection: SelectionView, a: Store, b: Store)
    requires
        forall|t: Seq<char>|
            reads(selection, t) ==> (a.dom().contains(t) <==> b.dom().contains(t)) && (
            a.dom().contains(t) ==> a[t] == b[t]),
    ensures
        rows(selection, a) == rows(selection, b),
{
    assert forall|row: Row| rows(selection, a).contains(row) <==> rows(selection, b).contains(
        row,
    ) by {
        if rows(selection, a).contains(row) {
            let binding = choose|binding: Binding| yields(selection, a, binding, row);
            lemma_drawn_frame(selection, binding, a, b);
            lemma_absent_frame(selection, binding, a, b);
            assert(yields(selection, b, binding, row));
        }
        if rows(selection, b).contains(row) {
            let binding = choose|binding: Binding| yields(selection, b, binding, row);
            lemma_drawn_frame(selection, binding, b, a);
            lemma_absent_frame(selection, binding, b, a);
            assert(yields(selection, a, binding, row));
        }
    }
    assert(rows(selection, a) =~= rows(selection, b));
}

/// A selection yields no fewer rows over a store whose tables hold no
/// fewer rows, and those that the selection denies no more.
pub proof fn lemma_rows_grow(selection: SelectionView, a: Store, b: Store)
    requires
        forall|t: Seq<char>|
            reads(selection, t) && a.dom().contains(t) ==> b.dom().contains(t) && a[t].subset_of(
                b[t],
            ),
        forall|t: Seq<char>| denies(selection, t) ==> table_of(b, t).subset_of(table_of(a, t)),
    ensures
        rows(selection, a).subset_of(rows(selection, b)),
{
    assert forall|row: Row| rows(selection, a).contains(row) implies rows(selection, b).contains(
        row,
    ) by {
        let binding = choose|binding: Binding| yields(selection, a, binding, row);
        lemma_drawn_frame(selection, binding, a, b);
        lemma_absent_frame(selection, binding, a, b);
        assert(yields(selection, b, binding, row));
    }
}

/// Over a table that is the union of two, a selection that reads the
/// table for one clause at most yields the rows that it yields over the
/// one and those that it yields over the other.
pub proof fn lemma_rows_split(
    selection: SelectionView,
    store: Store,
    name: Seq<char>,
    x: Table,
    y: Table,
)
    requires
        reads_once(selection, name),
        !denies(selection, name),
    ensures
        rows(selection, store.insert(name, x.union(y))) == rows(
            selection,
            store.insert(name, x),
        ).union(rows(selection, store.insert(name, y))),
{
    let whole = store.insert(name, x.union(y));
    let left = store.insert(name, x);
    let right = store.insert(name, y);
    assert forall|t: Seq<char>| denies(selection, t) implies table_of(whole, t).subset_of(
        table_of(left, t),
    ) && table_of(whole, t).subset_of(table_of(right, t)) by {
        assert(t != name);
    }
    lemma_rows_grow(selection, left, whole);
    lemma_rows_grow(selection, right, whole);
    assert forall|row: Row| rows(selection, whole).contains(row) implies rows(
        selection,
        left,
    ).union(rows(selection, right)).contains(row) by {
        let binding = choose|binding: Binding| yields(selection, whole, binding, row);
        let at_anchor = selection.from matches Some(first) && first.0 == name;
        let at_join = exists|j: int|
            0 <= j < selection.joins.len() && (#[trigger] selection.joins[j]).table == name;
        let read = if at_anchor {
            binding[selection.from->Some_0.1]
        } else {
            let j = choose|j: int|
                0 <= j < selection.joins.len() && (#[trigger] selection.joins[j]).table == name;
            binding[selection.joins[j].clause]
        };
        let side = if (at_anchor || at_join) && !x.contains(read) {
            right
        } else {
            left
        };
        if selection.from is Some {
            let first = selection.from->Some_0;
            assert(whole[first.0].contains(binding[first.1]));
        }
        assert forall|j: int| 0 <= j < selection.joins.len() implies side.dom().contains(
            (#[trigger] selection.joins[j]).table,
        ) && side[selection.joins[j].table].contains(binding[selection.joins[j].clause]) by {
            assert(whole[selection.joins[j].table].contains(binding[selection.joins[j].clause]));
        }
        assert forall|t: Seq<char>| denies(selection, t) implies table_of(side, t).subset_of(
            table_of(whole, t),
        ) by {
            assert(t != name);
        }
        lemma_absent_frame(selection, binding, whole, side);
        assert(yields(selection, side, binding, row));
    }
    assert(rows(selection, whole) =~= rows(selection, left).union(rows(selection, right)));
}


/// The selection of an insertion.
pub open spec fn selection_of(statement: StatementView) -> SelectionView {
    statement->Insert_selection
}

/// Whether each of `inserts` adds to the table `dest` the rows of a
/// selection that reads none of the tables `apart`.
pub open spec fn insert_into(inserts: Seq<StatementView>, dest: Seq<char>, apart: Set<Seq<char>>) -> bool {
    forall|j: int|
        0 <= j < inserts.len() ==> {
            &&& (#[trigger] inserts[j]) is Insert
            &&& inserts[j]->Insert_dest == dest
            &&& forall|t: Seq<char>| apart.contains(t) ==> !reads(selection_of(inserts[j]), t)
        }
}

/// Whether the selection of each of `inserts` reads the table `name` for
/// one clause at most.
pub open spec fn read_once(inserts: Seq<StatementView>, name: Seq<char>) -> bool {
    forall|j: int|
        0 <= j < inserts.len() ==> reads_once(selection_of(#[trigger] inserts[j]), name)
}

/// Whether the selection of none of `inserts` denies the table `name`.
pub open spec fn undenied(inserts: Seq<StatementView>, name: Seq<char>) -> bool {
    forall|j: int| 0 <= j < inserts.len() ==> !denies(selection_of(#[trigger] inserts[j]), name)
}

/// The rows that the selections of the first `n` insertions yield over a
/// store.
pub open spec fn produced(inserts: Seq<StatementView>, store: Store, n: int) -> Table
    decreases n,
{
    if n <= 0 {
        Set::empty()
    } else {
        produced(inserts, store, n - 1).union(rows(selection_of(inserts[n - 1]), store))
    }
}

/// Whether two stores agree but for the tables `apart`.
pub open spec fn agree_apart(a: Store, b: Store, apart: Set<Seq<char>>) -> bool {
    forall|t: Seq<char>|
        !apart.contains(t) ==> (a.dom().contains(t) <==> b.dom().contains(t)) && (a.dom().contains(
            t,
        ) ==> a[t] == b[t])
}

/// Insertions whose selections read none of the tables `apart` yield the
/// same rows over stores that agree but for those tables.
pub proof fn lemma_produced_frame(
    inserts: Seq<StatementView>,
    dest: Seq<char>,
    apart: Set<Seq<char>>,
    a: Store,
    b: Store,
    n: int,
)
    requires
        0 <= n <= inserts.len(),
        insert_into(inserts, dest, apart),
        agree_apart(a, b, apart),
    ensures
        produced(inserts, a, n) == produced(inserts, b, n),
    decreases n,
{
    if n > 0 {
        lemma_produced_frame(inserts, dest, apart, a, b, n - 1);
        let selection = selection_of(inserts[n - 1]);
        assert forall|t: Seq<char>| reads(selection, t) implies (a.dom().contains(t)
            <==> b.dom().contains(t)) && (a.dom().contains(t) ==> a[t] == b[t]) by {
            assert(!apart.contains(t));
        }
        lemma_rows_frame(selection, a, b);
    }
}

/// Insertions that do not deny a table yield no fewer rows over it where
/// it holds no fewer rows.
pub proof fn lemma_produced_grow(
    inserts: Seq<StatementView>,
    store: Store,
    name: Seq<char>,
    x: Table,
    y: Table,
    n: int,
)
    requires
        0 <= n <= inserts.len(),
        undenied(inserts, name),
        x.subset_of(y),
    ensures
        produced(inserts, store.insert(name, x), n).subset_of(
            produced(inserts, store.insert(name, y), n),
        ),
    decreases n,
{
    if n > 0 {
        lemma_produced_grow(inserts, store, name, x, y, n - 1);
        assert forall|t: Seq<char>| denies(selection_of(inserts[n - 1]), t) implies table_of(
            store.insert(name, y),
            t,
        ).subset_of(table_of(store.insert(name, x), t)) by {
            assert(t != name);
        }
        lemma_rows_grow(
            selection_of(inserts[n - 1]),
            store.insert(name, x),
            store.insert(name, y),
        );
    }
}

/// Over a table that is the union of two, insertions that read the table
/// for one clause at most yield the rows that they yield over the one and
/// those that they yield over the other.
pub proof fn lemma_produced_split(
    inserts: Seq<StatementView>,
    store: Store,
    name: Seq<char>,
    x: Table,
    y: Table,
    n: int,
)
    requires
        0 <= n <= inserts.len(),
        read_once(inserts, name),
        undenied(inserts, name),
    ensures
        produced(inserts, store.insert(name, x.union(y)), n) == produced(
            inserts,
            store.insert(name, x),
            n,
        ).union(produced(inserts, store.insert(name, y), n)),
    decreases n,
{
    if n > 0 {
        lemma_produced_split(inserts, store, name, x, y, n - 1);
        lemma_rows_split(selection_of(inserts[n - 1]), store, name, x, y);
    }
    assert(produced(inserts, store.insert(name, x.union(y)), n) =~= produced(
        inserts,
        store.insert(name, x),
        n,
    ).union(produced(inserts, store.insert(name, y), n)));
}

/// Insertions into a table that their selections do not read add to it
/// the rows that the selections yield over the store as it was.
pub proof fn lemma_run_inserts(
    inserts: Seq<StatementView>,
    dest: Seq<char>,
    apart: Set<Seq<char>>,
    store: Store,
    n: int,
)
    requires
        0 <= n <= inserts.len(),
        insert_into(inserts, dest, apart),
        apart.contains(dest),
        store.dom().contains(dest),
    ensures
        run(inserts.take(n), store) == store.insert(
            dest,
            store[dest].union(produced(inserts, store, n)),
        ),
    decreases n,
{
    if n == 0 {
        assert(inserts.take(0) =~= Seq::<StatementView>::empty());
        assert(store.insert(dest, store[dest].union(produced(inserts, store, 0))) =~= store) by {
            assert(store[dest].union(Set::<Row>::empty()) =~= store[dest]);
        }
    } else {
        lemma_run_inserts(inserts, dest, apart, store, n - 1);
        let before = run(inserts.take(n - 1), store);
        assert(inserts.take(n).drop_last() =~= inserts.take(n - 1));
        assert(inserts.take(n).last() == inserts[n - 1]);
        let selection = selection_of(inserts[n - 1]);
        assert(agree_apart(before, store, apart));
        assert forall|t: Seq<char>| reads(selection, t) implies (before.dom().contains(t)
            <==> store.dom().contains(t)) && (before.dom().contains(t) ==> before[t]
            == store[t]) by {
            assert(!apart.contains(t));
        }
        lemma_rows_frame(selection, before, store);
        assert(run(inserts.take(n), store) =~= store.insert(
            dest,
            store[dest].union(produced(inserts, store, n)),
        )) by {
            assert(store[dest].union(produced(inserts, store, n - 1)).union(
                rows(selection, store),
            ) =~= store[dest].union(produced(inserts, store, n)));
        }
    }
}

/// The working tables of a relation have names of their own.
pub proof fn lemma_working_names(predicate: Seq<char>)
    ensures
        delta_table(predicate) != predicate,
        temp_table(predicate) != predicate,
        delta_table(predicate) != temp_table(predicate),
{
    reveal_strlit("delta_");
    reveal_strlit("temp_");
    assert(delta_table(predicate).len() == predicate.len() + 6);
    assert(temp_table(predicate).len() == predicate.len() + 5);
}

/// The three tables that the loop of a relation works on.
pub open spec fn working(predicate: Seq<char>) -> Set<Seq<char>> {
    set![predicate, delta_table(predicate), temp_table(predicate)]
}

/// The tables that the step insertions do not read: the relation itself
/// and its table of produced rows.
pub open spec fn unread(predicate: Seq<char>) -> Set<Seq<char>> {
    set![predicate, temp_table(predicate)]
}

/// The store after one step, table by table: the table of produced rows
/// gains what the insertions yield; the delta becomes the produced rows
/// that the relation lacks; the relation gains the delta.
pub open spec fn stepped(predicate: Seq<char>, inserts: Seq<StatementView>, store: Store) -> Store {
    let made = store[temp_table(predicate)].union(
        produced(inserts, store, inserts.len() as int),
    );
    let added = made.difference(store[predicate]);
    store.insert(temp_table(predicate), made).insert(delta_table(predicate), added).insert(
        predicate,
        store[predicate].union(added),
    )
}

/// One step takes a store with the three working tables to `stepped`.
pub proof fn lemma_step(
    predicate: Seq<char>,
    arity: int,
    inserts: Seq<StatementView>,
    store: Store,
)
    requires
        insert_into(inserts, temp_table(predicate), unread(predicate)),
        store.dom().contains(predicate),
        store.dom().contains(delta_table(predicate)),
        store.dom().contains(temp_table(predicate)),
    ensures
        run(step_statements(predicate, arity, inserts), store) == stepped(
            predicate,
            inserts,
            store,
        ),
{
    let p = predicate;
    let d = delta_table(p);
    let t = temp_table(p);
    lemma_working_names(p);
    let update = update_statements(p, arity);
    let count = seq![StatementView::Count { table: d }];
    lemma_run_add(inserts + update, count, store);
    lemma_run_add(inserts, update, store);
    lemma_run_one(StatementView::Count { table: d }, run(inserts + update, store));
    assert(inserts.take(inserts.len() as int) =~= inserts);
    lemma_run_inserts(inserts, t, unread(p), store, inserts.len() as int);
    let s1 = run(inserts, store);
    let made = store[t].union(produced(inserts, store, inserts.len() as int));
    assert(s1 == store.insert(t, made));
    reveal_with_fuel(run, 4);
    assert(update.drop_last() =~= seq![update[0], update[1]]);
    assert(update.drop_last().drop_last() =~= seq![update[0]]);
    assert(update.drop_last().drop_last().drop_last() =~= Seq::<StatementView>::empty());
    let s2 = effect(update[0], s1);
    let s3 = effect(update[1], s2);
    let s4 = effect(update[2], s3);
    assert(run(update, s1) == s4);
    let added = made.difference(store[p]);
    assert(s2 == s1.insert(d, Set::empty()));
    assert(table_of(s2, d).union(table_of(s2, t).difference(table_of(s2, p))) =~= added);
    assert(s3 == s2.insert(d, added));
    assert(table_of(s3, p).union(table_of(s3, d)) =~= store[p].union(added));
    assert(s4 =~= stepped(p, inserts, store));
}


/// The store after `k` steps.
pub open spec fn after_steps(
    predicate: Seq<char>,
    arity: int,
    inserts: Seq<StatementView>,
    store: Store,
    k: nat,
) -> Store {
    run(steps_statements(predicate, arity, inserts, k), store)
}

/// Whether the store has the three working tables of a relation.
pub open spec fn has_working(store: Store, predicate: Seq<char>) -> bool {
    &&& store.dom().contains(predicate)
    &&& store.dom().contains(delta_table(predicate))
    &&& store.dom().contains(temp_table(predicate))
}

/// Each step takes the store to `stepped`; the working tables stay, and
/// no other table changes.
pub proof fn lemma_steps(
    predicate: Seq<char>,
    arity: int,
    inserts: Seq<StatementView>,
    store: Store,
    k: nat,
)
    requires
        insert_into(inserts, temp_table(predicate), unread(predicate)),
        has_working(store, predicate),
    ensures
        has_working(after_steps(predicate, arity, inserts, store, k), predicate),
        agree_apart(
            after_steps(predicate, arity, inserts, store, k),
            store,
            working(predicate),
        ),
        after_steps(predicate, arity, inserts, store, k + 1) == stepped(
            predicate,
            inserts,
            after_steps(predicate, arity, inserts, store, k),
        ),
    decreases k,
{
    let now = after_steps(predicate, arity, inserts, store, k);
    if k > 0 {
        lemma_steps(predicate, arity, inserts, store, (k - 1) as nat);
    }
    lemma_run_add(
        steps_statements(predicate, arity, inserts, k),
        step_statements(predicate, arity, inserts),
        store,
    );
    lemma_step(predicate, arity, inserts, now);
}

/// With each step the relation holds no fewer rows: the rows after `k`
/// steps are among those after `m` steps, for `k` at most `m`.
pub proof fn law_iteration_grows(
    predicate: Seq<char>,
    arity: int,
    inserts: Seq<StatementView>,
    store: Store,
    k: nat,
    m: nat,
)
    requires
        insert_into(inserts, temp_table(predicate), unread(predicate)),
        has_working(store, predicate),
        k <= m,
    ensures
        table_of(after_steps(predicate, arity, inserts, store, k), predicate).subset_of(
            table_of(after_steps(predicate, arity, inserts, store, m), predicate),
        ),
    decreases m,
{
    if k < m {
        law_iteration_grows(predicate, arity, inserts, store, k, (m - 1) as nat);
        lemma_steps(predicate, arity, inserts, store, (m - 1) as nat);
        lemma_steps(predicate, arity, inserts, store, m);
        lemma_steps(predicate, arity, inserts, store, k);
    }
}

/// Whether each of the steps from the first to step `k` added a row: the
/// delta that it left is not empty.
pub open spec fn steps_added(
    predicate: Seq<char>,
    arity: int,
    inserts: Seq<StatementView>,
    start: Store,
    k: nat,
) -> bool {
    forall|j: nat|
        1 <= j <= k ==> (#[trigger] after_steps(predicate, arity, inserts, start, j))[delta_table(
            predicate,
        )] != Set::<Row>::empty()
}

/// A step that leaves a delta that is not empty adds to the relation a
/// row that it lacked.
pub proof fn lemma_step_adds(
    predicate: Seq<char>,
    arity: int,
    inserts: Seq<StatementView>,
    start: Store,
    k: nat,
) -> (row: Row)
    requires
        insert_into(inserts, temp_table(predicate), unread(predicate)),
        has_working(start, predicate),
        after_steps(predicate, arity, inserts, start, k + 1)[delta_table(predicate)] != Set::<
            Row,
        >::empty(),
    ensures
        after_steps(predicate, arity, inserts, start, k + 1)[predicate].contains(row),
        !after_steps(predicate, arity, inserts, start, k)[predicate].contains(row),
        after_steps(predicate, arity, inserts, start, k)[predicate].subset_of(
            after_steps(predicate, arity, inserts, start, k + 1)[predicate],
        ),
{
    lemma_working_names(predicate);
    lemma_steps(predicate, arity, inserts, start, k);
    let delta = after_steps(predicate, arity, inserts, start, k + 1)[delta_table(predicate)];
    if forall|row: Row| !delta.contains(row) {
        assert(delta =~= Set::<Row>::empty());
    }
    choose|row: Row| delta.contains(row)
}

/// After `k` steps that each added a row, the relation holds at least `k`
/// rows more than at the start, where it holds finitely many.
pub proof fn lemma_steps_count(
    predicate: Seq<char>,
    arity: int,
    inserts: Seq<StatementView>,
    start: Store,
    k: nat,
)
    requires
        insert_into(inserts, temp_table(predicate), unread(predicate)),
        has_working(start, predicate),
        after_steps(predicate, arity, inserts, start, k)[predicate].finite(),
        steps_added(predicate, arity, inserts, start, k),
    ensures
        start[predicate].finite(),
        start[predicate].len() + k <= after_steps(predicate, arity, inserts, start, k)[predicate].len(),
    decreases k,
{
    let now = after_steps(predicate, arity, inserts, start, k)[predicate];
    if k == 0 {
        assert(after_steps(predicate, arity, inserts, start, 0) == start);
    } else {
        let m = (k - 1) as nat;
        let before = after_steps(predicate, arity, inserts, start, m)[predicate];
        assert(after_steps(predicate, arity, inserts, start, k)[delta_table(predicate)] != Set::<
            Row,
        >::empty());
        let row = lemma_step_adds(predicate, arity, inserts, start, m);
        assert(before.subset_of(now.remove(row)));
        vstd::set_lib::lemma_len_subset(before, now.remove(row));
        assert(now.len() == now.remove(row).len() + 1);
        assert(steps_added(predicate, arity, inserts, start, m)) by {
            assert forall|j: nat| 1 <= j <= m implies (#[trigger] after_steps(
                predicate,
                arity,
                inserts,
                start,
                j,
            ))[delta_table(predicate)] != Set::<Row>::empty() by {}
        }
        lemma_steps_count(predicate, arity, inserts, start, m);
    }
}

/// The loop ends: where every row that the relation can hold is one of
/// the finitely many rows of `universe`, at most as many steps add a row
/// as `universe` has rows that the relation lacked at the start.
pub proof fn law_steps_bounded(
    predicate: Seq<char>,
    arity: int,
    inserts: Seq<StatementView>,
    start: Store,
    universe: Set<Row>,
    k: nat,
)
    requires
        insert_into(inserts, temp_table(predicate), unread(predicate)),
        has_working(start, predicate),
        universe.finite(),
        after_steps(predicate, arity, inserts, start, k)[predicate].subset_of(universe),
        steps_added(predicate, arity, inserts, start, k),
    ensures
        start[predicate].len() + k <= universe.len(),
{
    let now = after_steps(predicate, arity, inserts, start, k)[predicate];
    vstd::set_lib::lemma_len_subset(now, universe);
    lemma_steps_count(predicate, arity, inserts, start, k);
}

/// The rows that the step insertions yield where the delta is `x`: what
/// the recursive rules derive from the rows `x` of their own relation.
pub open spec fn derived(
    inserts: Seq<StatementView>,
    store: Store,
    predicate: Seq<char>,
    x: Table,
) -> Table {
    produced(inserts, store.insert(delta_table(predicate), x), inserts.len() as int)
}

/// Whether the loop of a relation starts from `store`: the delta is a
/// copy of the relation, and no row has been produced.
pub open spec fn opened(store: Store, predicate: Seq<char>) -> bool {
    &&& has_working(store, predicate)
    &&& store[delta_table(predicate)] == store[predicate]
    &&& store[temp_table(predicate)] == Set::<Row>::empty()
}

/// In the loop, what the insertions yield is what the rules derive from
/// the delta.
pub proof fn lemma_produced_derived(
    predicate: Seq<char>,
    inserts: Seq<StatementView>,
    start: Store,
    now: Store,
)
    requires
        insert_into(inserts, temp_table(predicate), unread(predicate)),
        has_working(now, predicate),
        agree_apart(now, start, working(predicate)),
    ensures
        produced(inserts, now, inserts.len() as int) == derived(
            inserts,
            start,
            predicate,
            now[delta_table(predicate)],
        ),
{
    let p = predicate;
    let apart = unread(p);
    lemma_working_names(p);
    let other = start.insert(delta_table(p), now[delta_table(p)]);
    assert(agree_apart(now, other, apart)) by {
        assert forall|t: Seq<char>| !apart.contains(t) implies (now.dom().contains(t)
            <==> other.dom().contains(t)) && (now.dom().contains(t) ==> now[t] == other[t]) by {
            if t != delta_table(p) {
                assert(!working(p).contains(t));
            }
        }
    }
    lemma_produced_frame(inserts, temp_table(p), apart, now, other, inserts.len() as int);
}

/// What holds after `k` steps of a loop that started from `start`: the
/// delta and the produced rows are rows of the relation, which has lost
/// none; each row of the relation was there at the start or is derived by
/// the rules from the relation; and, where each insertion reads the delta
/// for one clause at most, whatever the rules derive from the rows before
/// the last delta is in the relation.
pub open spec fn loop_invariant(
    predicate: Seq<char>,
    inserts: Seq<StatementView>,
    start: Store,
    now: Store,
    k: nat,
) -> bool {
    let p = now[predicate];
    let d = now[delta_table(predicate)];
    let t = now[temp_table(predicate)];
    &&& has_working(now, predicate)
    &&& agree_apart(now, start, working(predicate))
    &&& d.subset_of(p)
    &&& t.subset_of(p)
    &&& start[predicate].subset_of(p)
    &&& k >= 1 && read_once(inserts, delta_table(predicate)) ==> derived(
        inserts,
        start,
        predicate,
        p.difference(d),
    ).subset_of(p)
    &&& k == 0 ==> now == start
    &&& p.subset_of(start[predicate].union(derived(inserts, start, predicate, p)))
    &&& t.subset_of(derived(inserts, start, predicate, p))
}

/// The invariant of the loop holds after every number of steps.
pub proof fn lemma_loop(
    predicate: Seq<char>,
    arity: int,
    inserts: Seq<StatementView>,
    start: Store,
    k: nat,
)
    requires
        insert_into(inserts, temp_table(predicate), unread(predicate)),
        undenied(inserts, delta_table(predicate)),
        opened(start, predicate),
    ensures
        loop_invariant(
            predicate,
            inserts,
            start,
            after_steps(predicate, arity, inserts, start, k),
            k,
        ),
    decreases k,
{
    let pn = predicate;
    lemma_working_names(pn);
    if k == 0 {
        assert(after_steps(pn, arity, inserts, start, 0) == start);
    } else {
        lemma_loop(pn, arity, inserts, start, (k - 1) as nat);
        lemma_steps(pn, arity, inserts, start, (k - 1) as nat);
        lemma_steps(pn, arity, inserts, start, k);
        let before = after_steps(pn, arity, inserts, start, (k - 1) as nat);
        let now = after_steps(pn, arity, inserts, start, k);
        assert(now == stepped(pn, inserts, before));
        let old_rows = before[pn];
        let old_delta = before[delta_table(pn)];
        let old_made = before[temp_table(pn)];
        let p = now[pn];
        let d = now[delta_table(pn)];
        let t = now[temp_table(pn)];
        lemma_produced_derived(pn, inserts, start, before);
        let yielded = derived(inserts, start, pn, old_delta);
        assert(t == old_made.union(yielded));
        assert(d == t.difference(old_rows));
        assert(p == old_rows.union(d));
        let n = inserts.len() as int;
        // whatever is derived from the rows before the last delta is there
        assert(p.difference(d) =~= old_rows);
        if read_once(inserts, delta_table(pn)) {
            if k == 1 {
                assert(old_rows == old_delta);
            } else {
                assert(old_rows =~= old_rows.difference(old_delta).union(old_delta));
                lemma_produced_split(
                    inserts,
                    start,
                    delta_table(pn),
                    old_rows.difference(old_delta),
                    old_delta,
                    n,
                );
            }
            assert(derived(inserts, start, pn, old_rows).subset_of(p));
        }
        // each row was there at the start or is derived from the relation
        lemma_produced_grow(inserts, start, delta_table(pn), old_rows, p, n);
        lemma_produced_grow(inserts, start, delta_table(pn), old_delta, p, n);
    }
}


/// Whether a plan is one of a relation with working tables of its own:
/// its first statement creates the table of the relation; the seeds add to
/// the relation, the steps to its table of produced rows; and no
/// selection reads the relation itself or one of its two working tables,
/// but for the delta, which the steps read.
pub open spec fn plan_fits(plan: PlanView) -> bool {
    &&& plan.create is CreateTable
    &&& plan.create->CreateTable_table == plan.predicate
    &&& insert_into(plan.seeds, plan.predicate, working(plan.predicate))
    &&& insert_into(plan.steps, temp_table(plan.predicate), unread(plan.predicate))
    &&& undenied(plan.steps, delta_table(plan.predicate))
}

/// The store after the table of the relation was created and seeded.
pub open spec fn seeded(plan: PlanView, store: Store) -> Store {
    run(seq![plan.create] + plan.seeds, store)
}

/// The store after the loop of a plan has made `n` steps, before the
/// working tables are dropped.
pub open spec fn looped(plan: PlanView, store: Store, n: nat) -> Store {
    after_steps(
        plan.predicate,
        plan.arity,
        plan.steps,
        run(opening_statements(plan.predicate), seeded(plan, store)),
        n,
    )
}

/// The store after a plan whose loop, if it has one, ends after `n`
/// steps.
pub open spec fn evaluated(plan: PlanView, store: Store, n: nat) -> Store {
    run(plan_statements(plan, n), store)
}

/// Seeding adds to the relation what the seeds yield, and changes no
/// other table.
pub proof fn lemma_seeded(plan: PlanView, store: Store)
    requires
        plan_fits(plan),
    ensures
        seeded(plan, store).dom().contains(plan.predicate),
        seeded(plan, store)[plan.predicate] == table_of(store, plan.predicate).union(
            produced(plan.seeds, seeded(plan, store), plan.seeds.len() as int),
        ),
        agree_apart(seeded(plan, store), store, working(plan.predicate)),
        forall|x: Table|
            derived(plan.steps, seeded(plan, store), plan.predicate, x) == derived(
                plan.steps,
                store,
                plan.predicate,
                x,
            ),
{
    let p = plan.predicate;
    lemma_run_add(seq![plan.create], plan.seeds, store);
    lemma_run_one(plan.create, store);
    let created = effect(plan.create, store);
    assert(created.dom().contains(p));
    assert(created[p] == table_of(store, p));
    assert(plan.seeds.take(plan.seeds.len() as int) =~= plan.seeds);
    lemma_run_inserts(plan.seeds, p, working(p), created, plan.seeds.len() as int);
    let after = seeded(plan, store);
    assert(agree_apart(after, created, working(p)));
    lemma_produced_frame(plan.seeds, p, working(p), after, created, plan.seeds.len() as int);
    assert forall|x: Table|
        derived(plan.steps, after, p, x) == derived(plan.steps, store, p, x) by {
        lemma_derived_frame(plan, after, store, x);
    }
}

/// What the steps derive does not depend on the working tables.
pub proof fn lemma_derived_frame(plan: PlanView, a: Store, b: Store, x: Table)
    requires
        plan_fits(plan),
        agree_apart(a, b, working(plan.predicate)),
    ensures
        derived(plan.steps, a, plan.predicate, x) == derived(plan.steps, b, plan.predicate, x),
{
    let p = plan.predicate;
    let apart = unread(p);
    lemma_working_names(p);
    let left = a.insert(delta_table(p), x);
    let right = b.insert(delta_table(p), x);
    assert(agree_apart(left, right, apart)) by {
        assert forall|t: Seq<char>| !apart.contains(t) implies (left.dom().contains(t)
            <==> right.dom().contains(t)) && (left.dom().contains(t) ==> left[t]
            == right[t]) by {
            if t != delta_table(p) {
                assert(!working(p).contains(t));
            }
        }
    }
    lemma_produced_frame(plan.steps, temp_table(p), apart, left, right, plan.steps.len() as int);
}

/// The loop of a plan starts opened, keeps its invariant, and leaves,
/// once the working tables are dropped, the relation as the loop left it
/// and every other table as it was.
pub proof fn lemma_looped(plan: PlanView, store: Store, n: nat)
    requires
        plan_fits(plan),
        plan.steps.len() > 0,
    ensures
        opened(run(opening_statements(plan.predicate), seeded(plan, store)), plan.predicate),
        run(opening_statements(plan.predicate), seeded(plan, store))[plan.predicate] == seeded(
            plan,
            store,
        )[plan.predicate],
        loop_invariant(
            plan.predicate,
            plan.steps,
            run(opening_statements(plan.predicate), seeded(plan, store)),
            looped(plan, store, n),
            n,
        ),
        evaluated(plan, store, n) == looped(plan, store, n).remove(
            delta_table(plan.predicate),
        ).remove(temp_table(plan.predicate)),
        agree_apart(looped(plan, store, n), store, working(plan.predicate)),
{
    let p = plan.predicate;
    lemma_working_names(p);
    lemma_seeded(plan, store);
    let s2 = seeded(plan, store);
    let opening = opening_statements(p);
    reveal_with_fuel(run, 3);
    assert(opening.drop_last() =~= seq![opening[0]]);
    assert(opening.drop_last().drop_last() =~= Seq::<StatementView>::empty());
    let s3 = run(opening, s2);
    assert(s3 == effect(opening[1], effect(opening[0], s2)));
    assert(opened(s3, p));
    lemma_loop(p, plan.arity, plan.steps, s3, n);
    let s4 = looped(plan, store, n);
    let closing = closing_statements(p);
    assert(closing.drop_last() =~= seq![closing[0]]);
    assert(closing.drop_last().drop_last() =~= Seq::<StatementView>::empty());
    assert(run(closing, s4) == s4.remove(delta_table(p)).remove(temp_table(p)));
    let fix = fixpoint_statements(p, plan.arity, plan.steps, n);
    let steps = steps_statements(p, plan.arity, plan.steps, n);
    assert(plan_statements(plan, n) =~= (seq![plan.create] + plan.seeds) + fix);
    lemma_run_add(seq![plan.create] + plan.seeds, fix, store);
    assert(fix =~= (opening + steps) + closing);
    lemma_run_add(opening + steps, closing, s2);
    lemma_run_add(opening, steps, s2);
}

/// Completeness of the fixpoint, for steps that read the delta for one
/// clause at most: once a step has added nothing, no rule of the relation
/// yields a row that the relation lacks. The seeds yield none over the
/// store as it is left, and the steps derive none from the whole relation.
pub proof fn law_fixpoint_complete(plan: PlanView, store: Store, n: nat)
    requires
        plan_fits(plan),
        read_once(plan.steps, delta_table(plan.predicate)),
        plan.steps.len() > 0,
        n >= 1,
        looped(plan, store, n)[delta_table(plan.predicate)] == Set::<Row>::empty(),
    ensures
        produced(plan.seeds, evaluated(plan, store, n), plan.seeds.len() as int).subset_of(
            table_of(evaluated(plan, store, n), plan.predicate),
        ),
        derived(
            plan.steps,
            evaluated(plan, store, n),
            plan.predicate,
            table_of(evaluated(plan, store, n), plan.predicate),
        ).subset_of(table_of(evaluated(plan, store, n), plan.predicate)),
{
    let p = plan.predicate;
    lemma_working_names(p);
    lemma_seeded(plan, store);
    lemma_looped(plan, store, n);
    let s2 = seeded(plan, store);
    let s3 = run(opening_statements(p), s2);
    let s4 = looped(plan, store, n);
    let end = evaluated(plan, store, n);
    assert(end[p] == s4[p]);
    assert(s4[p].difference(s4[delta_table(p)]) =~= s4[p]);
    assert(agree_apart(end, s3, working(p)));
    lemma_derived_frame(plan, end, s3, s4[p]);
    assert(agree_apart(end, s2, working(p)));
    lemma_produced_frame(plan.seeds, p, working(p), end, s2, plan.seeds.len() as int);
}

/// Soundness of the fixpoint: every row of the relation was there before
/// the evaluation, or a seed yields it over the store as it is left, or
/// the steps derive it from the relation.
pub proof fn law_fixpoint_sound(plan: PlanView, store: Store, n: nat)
    requires
        plan_fits(plan),
        plan.steps.len() > 0,
    ensures
        table_of(evaluated(plan, store, n), plan.predicate).subset_of(
            table_of(store, plan.predicate).union(
                produced(plan.seeds, evaluated(plan, store, n), plan.seeds.len() as int),
            ).union(
                derived(
                    plan.steps,
                    evaluated(plan, store, n),
                    plan.predicate,
                    table_of(evaluated(plan, store, n), plan.predicate),
                ),
            ),
        ),
{
    let p = plan.predicate;
    lemma_working_names(p);
    lemma_seeded(plan, store);
    lemma_looped(plan, store, n);
    let s2 = seeded(plan, store);
    let s3 = run(opening_statements(p), s2);
    let s4 = looped(plan, store, n);
    let end = evaluated(plan, store, n);
    assert(end[p] == s4[p]);
    assert(agree_apart(end, s3, working(p)));
    lemma_derived_frame(plan, end, s3, s4[p]);
    assert(agree_apart(end, s2, working(p)));
    lemma_produced_frame(plan.seeds, p, working(p), end, s2, plan.seeds.len() as int);
}

/// A relation without recursive rules holds, once evaluated, what it held
/// before and what its seeds yield.
pub proof fn law_seeds_exact(plan: PlanView, store: Store)
    requires
        plan_fits(plan),
        plan.steps.len() == 0,
    ensures
        table_of(evaluated(plan, store, 0), plan.predicate) == table_of(
            store,
            plan.predicate,
        ).union(produced(plan.seeds, evaluated(plan, store, 0), plan.seeds.len() as int)),
{
    lemma_seeded(plan, store);
    assert(plan_statements(plan, 0) =~= seq![plan.create] + plan.seeds);
}

/// Idempotence: where the relation is there and complete, so that
/// neither the seeds nor the steps yield a row that it lacks, the first
/// step adds nothing, and the evaluation leaves the relation as it was.
pub proof fn law_idempotent(plan: PlanView, store: Store)
    requires
        plan_fits(plan),
        store.dom().contains(plan.predicate),
        produced(plan.seeds, store, plan.seeds.len() as int).subset_of(store[plan.predicate]),
        derived(plan.steps, store, plan.predicate, store[plan.predicate]).subset_of(
            store[plan.predicate],
        ),
    ensures
        plan.steps.len() > 0 ==> looped(plan, store, 1)[delta_table(plan.predicate)]
            == Set::<Row>::empty() && table_of(evaluated(plan, store, 1), plan.predicate)
            == store[plan.predicate],
        plan.steps.len() == 0 ==> table_of(evaluated(plan, store, 0), plan.predicate)
            == store[plan.predicate],
{
    let p = plan.predicate;
    lemma_working_names(p);
    lemma_seeded(plan, store);
    let s2 = seeded(plan, store);
    lemma_produced_frame(plan.seeds, p, working(p), s2, store, plan.seeds.len() as int);
    assert(s2[p] =~= store[p]);
    if plan.steps.len() == 0 {
        assert(plan_statements(plan, 0) =~= seq![plan.create] + plan.seeds);
    } else {
        lemma_looped(plan, store, 0);
        lemma_looped(plan, store, 1);
        let s3 = run(opening_statements(p), s2);
        assert(looped(plan, store, 0) == s3);
        lemma_steps(p, plan.arity, plan.steps, s3, 0);
        let s4 = looped(plan, store, 1);
        assert(s4 == stepped(p, plan.steps, s3));
        lemma_produced_derived(p, plan.steps, s3, s3);
        lemma_derived_frame(plan, s3, store, store[p]);
        assert(s4[delta_table(p)] =~= Set::<Row>::empty());
        assert(s4[p] =~= store[p]);
    }
}


/// The first occurrences in atoms lie in the clauses of their groups.
pub proof fn lemma_atom_firsts_within(groups: Seq<VarGroupView>, n: int, bound: int)
    requires
        0 <= n <= groups.len(),
        groups_within(groups, bound),
    ensures
        places_within(atom_firsts(groups, n), bound),
    decreases n,
{
    if n > 0 {
        lemma_atom_firsts_within(groups, n - 1, bound);
        assert(0 <= groups[n - 1].clause_index < bound);
    }
}

/// The place with the smallest term position is one of the places.
pub proof fn lemma_smallest_is_one(places: Seq<Place>, n: int)
    requires
        1 <= n <= places.len(),
    ensures
        exists|k: int| 0 <= k < n && places[k] == smallest(places, n),
    decreases n,
{
    if n > 1 {
        lemma_smallest_is_one(places, n - 1);
        if places[n - 1].1 < smallest(places, n - 1).1 {
            assert(places[n - 1] == smallest(places, n));
        } else {
            let k = choose|k: int| 0 <= k < n - 1 && places[k] == smallest(places, n - 1);
            assert(places[k] == smallest(places, n));
        }
    } else {
        assert(places[0] == smallest(places, n));
    }
}

/// The first atom among the first `n` clauses is one of them.
pub proof fn lemma_first_atom_within(body: Seq<ClauseView>, n: int)
    requires
        0 <= n,
    ensures
        first_atom(body, n) is Some ==> 0 <= first_atom(body, n)->0 < n,
    decreases n,
{
    if n > 0 {
        lemma_first_atom_within(body, n - 1);
    }
}

/// Whether `table` is the table of an atom among the first `n` clauses.
pub open spec fn is_atom_table(rule: RuleView, semi_naive: bool, n: int, table: Seq<char>) -> bool {
    exists|c: int|
        0 <= c < n && c < rule.body.len() && (#[trigger] rule.body[c]) is Atom && table
            == table_name(rule, c, semi_naive)
}

/// Each join of the first `n` clauses reads the table of one of them, an
/// atom.
pub proof fn lemma_joins_tables(rule: RuleView, dict: VarDictView, semi_naive: bool, n: int)
    requires
        0 <= n <= rule.body.len(),
    ensures
        forall|j: int|
            0 <= j < joins(rule, dict, semi_naive, n).len() ==> is_atom_table(
                rule,
                semi_naive,
                n,
                (#[trigger] joins(rule, dict, semi_naive, n)[j]).table,
            ),
    decreases n,
{
    if n > 0 {
        lemma_joins_tables(rule, dict, semi_naive, n - 1);
        let before = joins(rule, dict, semi_naive, n - 1);
        let now = joins(rule, dict, semi_naive, n);
        assert forall|j: int| 0 <= j < now.len() implies is_atom_table(
            rule,
            semi_naive,
            n,
            (#[trigger] now[j]).table,
        ) by {
            if j < before.len() {
                assert(now[j] == before[j]);
                assert(is_atom_table(rule, semi_naive, n - 1, before[j].table));
                let c = choose|c: int|
                    0 <= c < n - 1 && c < rule.body.len() && (#[trigger] rule.body[c]) is Atom
                        && before[j].table == table_name(rule, c, semi_naive);
                assert(0 <= c < n && rule.body[c] is Atom && now[j].table == table_name(
                    rule,
                    c,
                    semi_naive,
                ));
            } else {
                assert(rule.body[n - 1] is Atom && now[j].table == table_name(
                    rule,
                    n - 1,
                    semi_naive,
                ));
            }
        }
    }
}

/// Whether `asked` is what a negated atom among the first `n` clauses
/// asks.
pub open spec fn is_absence(
    rule: RuleView,
    dict: VarDictView,
    semi_naive: bool,
    n: int,
    asked: JoinView,
) -> bool {
    exists|c: int|
        0 <= c < n && #[trigger] is_negated(rule, c) && asked == absence(rule, dict, semi_naive, c)
}

/// What the negated atoms among the first `n` clauses ask is what each of
/// them asks.
pub proof fn lemma_absences_tables(rule: RuleView, dict: VarDictView, semi_naive: bool, n: int)
    requires
        0 <= n <= rule.body.len(),
    ensures
        forall|j: int|
            0 <= j < absences(rule, dict, semi_naive, n).len() ==> is_absence(
                rule,
                dict,
                semi_naive,
                n,
                #[trigger] absences(rule, dict, semi_naive, n)[j],
            ),
        forall|c: int|
            0 <= c < n && #[trigger] is_negated(rule, c) ==> absences(
                rule,
                dict,
                semi_naive,
                n,
            ).contains(absence(rule, dict, semi_naive, c)),
    decreases n,
{
    if n > 0 {
        lemma_absences_tables(rule, dict, semi_naive, n - 1);
        let before = absences(rule, dict, semi_naive, n - 1);
        let now = absences(rule, dict, semi_naive, n);
        assert forall|j: int| 0 <= j < now.len() implies is_absence(
            rule,
            dict,
            semi_naive,
            n,
            #[trigger] now[j],
        ) by {
            if j < before.len() {
                assert(now[j] == before[j]);
                assert(is_absence(rule, dict, semi_naive, n - 1, before[j]));
                let c = choose|c: int|
                    0 <= c < n - 1 && #[trigger] is_negated(rule, c) && before[j] == absence(
                        rule,
                        dict,
                        semi_naive,
                        c,
                    );
                assert(0 <= c < n && is_negated(rule, c) && now[j] == absence(
                    rule,
                    dict,
                    semi_naive,
                    c,
                ));
            } else {
                assert(is_negated(rule, n - 1) && now[j] == absence(
                    rule,
                    dict,
                    semi_naive,
                    n - 1,
                ));
            }
        }
        assert forall|c: int| 0 <= c < n && #[trigger] is_negated(rule, c) implies now.contains(
            absence(rule, dict, semi_naive, c),
        ) by {
            if c < n - 1 {
                let wanted = absence(rule, dict, semi_naive, c);
                assert(before.contains(wanted));
                let j = choose|j: int| 0 <= j < before.len() && before[j] == wanted;
                assert(now[j] == wanted);
            } else {
                assert(now[now.len() - 1] == absence(rule, dict, semi_naive, c));
            }
        }
    }
}

/// The selection of a rule without negated atoms reads only tables of
/// atoms of the body.
pub proof fn lemma_selection_reads(rule: RuleView, semi_naive: bool, t: Seq<char>)
    requires
        selection(rule, semi_naive) is Ok,
        reads(selection(rule, semi_naive)->Ok_0, t),
    ensures
        exists|c: int|
            0 <= c < rule.body.len() && rule.body[c] is Atom && t == table_name(
                rule,
                c,
                semi_naive,
            ),
{
    let dict = var_dict(rule);
    let chosen = selection(rule, semi_naive)->Ok_0;
    lemma_dict_within(rule);
    assert(!denies(chosen, t));
    if chosen.from matches Some(first) && first.0 == t {
        let c = anchor(rule, dict)->0;
        lemma_anchor(rule);
        assert(0 <= c < rule.body.len() && rule.body[c] is Atom && t == table_name(
            rule,
            c,
            semi_naive,
        ));
    } else {
        let j = choose|j: int|
            0 <= j < chosen.joins.len() && (#[trigger] chosen.joins[j]).table == t;
        lemma_joins_tables(rule, dict, semi_naive, rule.body.len() as int);
        assert(is_atom_table(rule, semi_naive, rule.body.len() as int, chosen.joins[j].table));
        let c = choose|c: int|
            0 <= c < rule.body.len() && c < rule.body.len() && (#[trigger] rule.body[c]) is Atom
                && chosen.joins[j].table == table_name(rule, c, semi_naive);
        assert(0 <= c < rule.body.len() && rule.body[c] is Atom && t == table_name(
            rule,
            c,
            semi_naive,
        ));
    }
}

/// A compiled selection reads only tables of atoms of the body, and
/// denies only tables of negated atoms.
pub proof fn lemma_compiled_reads(rule: RuleView, semi_naive: bool, t: Seq<char>)
    requires
        compiled(rule, semi_naive) is Ok,
        reads(compiled(rule, semi_naive)->Ok_0, t),
    ensures
        exists|c: int| 0 <= c < rule.body.len() && t == table_name(rule, c, semi_naive),
        denies(compiled(rule, semi_naive)->Ok_0, t) ==> exists|c: int|
            is_negated(rule, c) && t == table_name(rule, c, semi_naive),
{
    let plain = affirmed(rule);
    let chosen = compiled(rule, semi_naive)->Ok_0;
    let dict = var_dict(plain);
    if denies(chosen, t) {
        let j = choose|j: int|
            0 <= j < chosen.absent.len() && (#[trigger] chosen.absent[j]).table == t;
        lemma_absences_tables(rule, dict, semi_naive, rule.body.len() as int);
        assert(is_absence(rule, dict, semi_naive, rule.body.len() as int, chosen.absent[j]));
        let c = choose|c: int|
            0 <= c < rule.body.len() && #[trigger] is_negated(rule, c) && chosen.absent[j]
                == absence(rule, dict, semi_naive, c);
        assert(is_negated(rule, c) && t == table_name(rule, c, semi_naive));
    } else {
        let base = selection(plain, semi_naive)->Ok_0;
        assert(reads(base, t));
        lemma_selection_reads(plain, semi_naive, t);
        let c = choose|c: int|
            0 <= c < plain.body.len() && plain.body[c] is Atom && t == table_name(
                plain,
                c,
                semi_naive,
            );
        assert(plain.body[c] == rule.body[c]);
        assert(t == table_name(rule, c, semi_naive));
    }
}

/// Whether the rules of the relation `name` leave its working tables to
/// the loop: each rule has the relation as its head, and no clause is
/// over one of the two working tables.
pub open spec fn clean_rules(name: Seq<char>, rules: Seq<RuleView>) -> bool {
    forall|i: int|
        0 <= i < rules.len() ==> {
            &&& (#[trigger] rules[i]).head.predicate == name
            &&& forall|c: int|
                0 <= c < rules[i].body.len() ==> (#[trigger] rules[i].body[c]).to_string()
                    != delta_table(name) && rules[i].body[c].to_string() != temp_table(name)
                    && !(is_negated(rules[i], c) && rules[i].body[c].to_string() == name)
        }
}

/// The insertions of the cases of a relation add to the table they are
/// meant for and read none of the tables they must not read.
pub proof fn lemma_case_insertions_fit(
    name: Seq<char>,
    rules: Seq<RuleView>,
    previous: Seq<Seq<char>>,
    base: bool,
    n: int,
)
    requires
        0 <= n <= rules.len(),
        clean_rules(name, rules),
        !previous.contains(name),
        case_insertions(rules, previous, base, n) is Ok,
    ensures
        base ==> insert_into(
            case_insertions(rules, previous, base, n)->Ok_0,
            name,
            working(name),
        ),
        !base ==> insert_into(
            case_insertions(rules, previous, base, n)->Ok_0,
            temp_table(name),
            unread(name),
        ) && undenied(case_insertions(rules, previous, base, n)->Ok_0, delta_table(name)),
    decreases n,
{
    lemma_working_names(name);
    reveal_strlit("delta_");
    reveal_strlit("temp_");
    if n > 0 {
        lemma_case_insertions_fit(name, rules, previous, base, n - 1);
        let before = case_insertions(rules, previous, base, n - 1)->Ok_0;
        let now = case_insertions(rules, previous, base, n)->Ok_0;
        let rule = rules[n - 1];
        if rule.is_base_case(previous) == base {
            let last = insertion(rule, !base)->Ok_0;
            assert(now == before.push(last));
            let chosen = selection_of(last);
            assert(chosen == compiled(rule, !base)->Ok_0);
            let apart = if base {
                working(name)
            } else {
                unread(name)
            };
            if !base && denies(chosen, delta_table(name)) {
                lemma_compiled_reads(rule, true, delta_table(name));
                let c = choose|c: int|
                    is_negated(rule, c) && delta_table(name) == table_name(rule, c, true);
                assert(rule.body[c].to_string() == name);
            }
            assert forall|t: Seq<char>| apart.contains(t) implies !reads(chosen, t) by {
                if reads(chosen, t) {
                    let semi_naive = !base;
                    lemma_compiled_reads(rule, semi_naive, t);
                    let c = choose|c: int|
                        0 <= c < rule.body.len() && t == table_name(rule, c, semi_naive);
                    let written = rule.body[c].to_string();
                    if base {
                        assert(rule.body[c] matches ClauseView::Atom(a) && previous.contains(
                            a.predicate,
                        ));
                    } else {
                        if written == name {
                            assert(t == delta_table(name));
                        }
                    }
                }
            }
            let dest = if base {
                name
            } else {
                temp_table(name)
            };
            assert forall|j: int| 0 <= j < now.len() implies {
                &&& (#[trigger] now[j]) is Insert
                &&& now[j]->Insert_dest == dest
                &&& forall|t: Seq<char>| apart.contains(t) ==> !reads(selection_of(now[j]), t)
            } by {
                if j < before.len() {
                    assert(now[j] == before[j]);
                }
            }
            if !base {
                assert forall|j: int| 0 <= j < now.len() implies !denies(
                    selection_of(#[trigger] now[j]),
                    delta_table(name),
                ) by {
                    if j < before.len() {
                        assert(now[j] == before[j]);
                    }
                }
            }
        }
    }
}

/// The plan of a relation with clean rules, which is not among the
/// relations evaluated before it, fits: the laws of the fixpoint hold of
/// it.
pub proof fn law_plan_fits(
    types: Types,
    name: Seq<char>,
    rules: Seq<RuleView>,
    previous: Seq<Seq<char>>,
)
    requires
        clean_rules(name, rules),
        !previous.contains(name),
        relation_plan(types, name, rules, previous) is Ok,
    ensures
        plan_fits(relation_plan(types, name, rules, previous)->Ok_0),
        relation_plan(types, name, rules, previous)->Ok_0.predicate == name,
{
    lemma_case_insertions_fit(name, rules, previous, true, rules.len() as int);
    lemma_case_insertions_fit(name, rules, previous, false, rules.len() as int);
}

} // verus!
