//! Turning fetched rows into SQL insert statements, one statement per table,
//! tables of lower levels first.

use std::collections::HashMap;

use vstd::prelude::*;
use vstd::std_specs::iter::IteratorSpec;

use crate::dto::{
    column_names_of, column_value_of, table_id_text, PsqlTable, PsqlTableIdentity, PsqlTableRow,
    RowModel, TableIdModel,
};
use crate::text::{join_strings, join_with, views};

verus! {

// ---------------------------------------------------------------------
// Specifications
// ---------------------------------------------------------------------

/// The views of a sequence of borrowed rows.
pub open spec fn row_ref_views(rows: Seq<&PsqlTableRow>) -> Seq<RowModel> {
    rows.map_values(|r: &PsqlTableRow| r@)
}

/// The views of a sequence of rows.
pub open spec fn row_views(rows: Seq<PsqlTableRow>) -> Seq<RowModel> {
    rows.map_values(|r: PsqlTableRow| r@)
}

/// The values of row `r` for the columns `cols`, in that order, as
/// `(v1, v2, ...)`.
pub open spec fn row_values_text(r: RowModel, cols: Seq<Seq<char>>) -> Seq<char> {
    "("@ + join_with(
        cols.map_values(|c: Seq<char>| column_value_of(r.columns, c).unwrap()),
        ", "@,
    ) + ")"@
}

/// Every row holds every column of the first row.
pub open spec fn statement_ready(rows: Seq<RowModel>) -> bool {
    &&& rows.len() > 0
    &&& forall|i: int, c: Seq<char>|
        0 <= i < rows.len() && column_names_of(rows[0].columns).contains(c) ==> (
        #[trigger] column_value_of(rows[i].columns, c)) is Some
}

/// The insert statement of `rows` into table `id`, the columns taken from the
/// first row:
///
/// ```text
/// ------------------------------------------------
/// -- insert into table {id}
/// ------------------------------------------------
/// insert into {id} ({columns}) VALUES
///   {row values, one row per line};
/// ---------------
///
/// ```
pub open spec fn insert_statement_text(id: TableIdModel, rows: Seq<RowModel>) -> Seq<char> {
    let cols = column_names_of(rows[0].columns);
    let idt = table_id_text(id);
    "------------------------------------------------\n-- insert into table "@ + idt
        + "\n------------------------------------------------\ninsert into "@ + idt + " ("@
        + join_with(cols, ", "@) + ") VALUES\n  "@ + join_with(
        rows.map_values(|r: RowModel| row_values_text(r, cols)),
        ",\n"@,
    ) + ";\n---------------\n\n"@
}

/// The table identities of `rows` in order of first appearance.
pub open spec fn first_seen_ids(rows: Seq<RowModel>) -> Seq<TableIdModel>
    decreases rows.len(),
{
    if rows.len() == 0 {
        Seq::empty()
    } else {
        let d = first_seen_ids(rows.drop_last());
        if d.contains(rows.last().table.id) {
            d
        } else {
            d.push(rows.last().table.id)
        }
    }
}

/// The rows of table `id`, in order.
pub open spec fn rows_of_table(rows: Seq<RowModel>, id: TableIdModel) -> Seq<RowModel>
    decreases rows.len(),
{
    if rows.len() == 0 {
        Seq::empty()
    } else {
        let g = rows_of_table(rows.drop_last(), id);
        if rows.last().table.id == id {
            g.push(rows.last())
        } else {
            g
        }
    }
}

/// The rows of every table are ready for an insert statement.
pub open spec fn groups_ready(rows: Seq<RowModel>) -> bool {
    forall|id: TableIdModel|
        first_seen_ids(rows).contains(id) ==> #[trigger] statement_ready(rows_of_table(rows, id))
}

/// One insert statement per table of `rows`, tables in order of first
/// appearance, each holding the rows of its table in order.
pub open spec fn table_statements(rows: Seq<RowModel>) -> Seq<Seq<char>> {
    first_seen_ids(rows).map_values(
        |id: TableIdModel| insert_statement_text(id, rows_of_table(rows, id)),
    )
}

/// The sequences one after the other.
pub open spec fn concat_all(s: Seq<Seq<Seq<char>>>) -> Seq<Seq<char>>
    decreases s.len(),
{
    if s.len() == 0 {
        Seq::empty()
    } else {
        concat_all(s.drop_last()) + s.last()
    }
}

/// Strictly increasing.
pub open spec fn strictly_sorted(s: Seq<i32>) -> bool {
    forall|i: int, j: int| 0 <= i < j < s.len() ==> s[i] < s[j]
}

/// The levels of a finite set, in increasing order.
pub open spec fn sorted_levels(levels: Set<i32>) -> Seq<i32> {
    choose|s: Seq<i32>| strictly_sorted(s) && s.to_set() == levels
}

/// The statements of all levels, lower levels first.
pub open spec fn level_statements(m: Map<i32, Vec<PsqlTableRow>>) -> Seq<Seq<char>> {
    concat_all(
        sorted_levels(m.dom()).map_values(|l: i32| table_statements(row_views(m[l]@))),
    )
}

// ---------------------------------------------------------------------
// Lemmas
// ---------------------------------------------------------------------

/// Two strictly increasing sequences with the same elements are equal.
pub proof fn lemma_sorted_unique(a: Seq<i32>, b: Seq<i32>)
    requires
        strictly_sorted(a),
        strictly_sorted(b),
        a.to_set() == b.to_set(),
    ensures
        a == b,
    decreases a.len(),
{
    if a.len() == 0 {
        if b.len() > 0 {
            assert(b.to_set().contains(b[0]));
        }
        assert(a =~= b);
    } else {
        assert(a.to_set().contains(a[0]));
        assert(b.len() > 0);
        assert(b.to_set().contains(b[0]));
        let j = choose|j: int| 0 <= j < b.len() && b[j] == a[0];
        let i = choose|i: int| 0 <= i < a.len() && a[i] == b[0];
        assert(a[0] == b[0]) by {
            if i > 0 {
                assert(a[0] < a[i]);
            }
            if j > 0 {
                assert(b[0] < b[j]);
            }
        }
        let ra = a.drop_first();
        let rb = b.drop_first();
        assert(ra.to_set() =~= rb.to_set()) by {
            assert forall|x: i32| ra.to_set().contains(x) <==> rb.to_set().contains(x) by {
                if ra.to_set().contains(x) {
                    let k = choose|k: int| 0 <= k < ra.len() && ra[k] == x;
                    assert(a[k + 1] == x && a[0] < a[k + 1]);
                    assert(a.to_set().contains(x));
                    let m = choose|m: int| 0 <= m < b.len() && b[m] == x;
                    assert(m != 0);
                    assert(rb[m - 1] == x);
                }
                if rb.to_set().contains(x) {
                    let k = choose|k: int| 0 <= k < rb.len() && rb[k] == x;
                    assert(b[k + 1] == x && b[0] < b[k + 1]);
                    assert(b.to_set().contains(x));
                    let m = choose|m: int| 0 <= m < a.len() && a[m] == x;
                    assert(m != 0);
                    assert(ra[m - 1] == x);
                }
            }
        }
        lemma_sorted_unique(ra, rb);
        assert(a =~= seq![a[0]] + ra);
        assert(b =~= seq![b[0]] + rb);
    }
}

/// A finite non-empty set of levels has a greatest level.
proof fn lemma_greatest_level(levels: Set<i32>) -> (m: i32)
    requires
        levels.finite(),
        levels.len() > 0,
    ensures
        levels.contains(m),
        forall|y: i32| levels.contains(y) ==> y <= m,
    decreases levels.len(),
{
    let c = levels.choose();
    let rest = levels.remove(c);
    if rest.len() == 0 {
        assert forall|y: i32| levels.contains(y) implies y <= c by {
            if y != c {
                assert(rest.contains(y));
            }
        }
        c
    } else {
        let m = lemma_greatest_level(rest);
        if c > m {
            assert forall|y: i32| levels.contains(y) implies y <= c by {
                if y != c {
                    assert(rest.contains(y));
                }
            }
            c
        } else {
            assert forall|y: i32| levels.contains(y) implies y <= m by {
                if y != c {
                    assert(rest.contains(y));
                }
            }
            m
        }
    }
}

/// The levels of a finite set, listed in increasing order.
proof fn lemma_sorted_listing(levels: Set<i32>) -> (w: Seq<i32>)
    requires
        levels.finite(),
    ensures
        strictly_sorted(w),
        w.to_set() == levels,
    decreases levels.len(),
{
    if levels.len() == 0 {
        let w = Seq::<i32>::empty();
        assert(w.to_set() =~= levels) by {
            if exists|x: i32| levels.contains(x) {
                let x = choose|x: i32| levels.contains(x);
                assert(levels.remove(x).len() < levels.len());
            }
        }
        w
    } else {
        let m = lemma_greatest_level(levels);
        let rest = levels.remove(m);
        let w0 = lemma_sorted_listing(rest);
        let w = w0.push(m);
        assert forall|i: int, j: int| 0 <= i < j < w.len() implies w[i] < w[j] by {
            if j == w.len() - 1 {
                assert(w0.to_set().contains(w0[i]));
                assert(rest.contains(w[i]));
            } else {
                assert(w[i] == w0[i] && w[j] == w0[j]);
            }
        }
        assert(w.to_set() =~= levels) by {
            assert forall|x: i32| w.to_set().contains(x) <==> levels.contains(x) by {
                if w.to_set().contains(x) {
                    let k = choose|k: int| 0 <= k < w.len() && w[k] == x;
                    if k < w0.len() {
                        assert(w0[k] == x);
                        assert(w0.to_set().contains(x));
                    }
                }
                if levels.contains(x) {
                    if x == m {
                        assert(w[w.len() - 1] == x);
                    } else {
                        assert(rest.contains(x));
                        assert(w0.to_set().contains(x));
                        let k = choose|k: int| 0 <= k < w0.len() && w0[k] == x;
                        assert(w[k] == x);
                    }
                }
            }
        }
        w
    }
}

/// Every finite set of levels has its levels listed once each, in increasing
/// order, by `sorted_levels`: the insert statements of lower levels (the rows
/// that others refer to) come before those of higher levels.
pub proof fn lemma_levels_in_order(levels: Set<i32>)
    requires
        levels.finite(),
    ensures
        strictly_sorted(sorted_levels(levels)),
        sorted_levels(levels).to_set() == levels,
{
    let w = lemma_sorted_listing(levels);
    assert(strictly_sorted(w) && w.to_set() == levels);
}

/// The statements of `table_rows_into_insert_statement` come one per
/// distinct table: the identities they are made for are distinct, and they
/// are exactly the identities of the rows, each with all the rows of its
/// table.
pub proof fn lemma_one_statement_per_table(rows: Seq<RowModel>)
    ensures
        first_seen_ids(rows).no_duplicates(),
        forall|id: TableIdModel|
            first_seen_ids(rows).contains(id) <==> exists|i: int| 0 <= i < rows.len() && (#[trigger] rows[i]).table.id == id,
        table_statements(rows).len() == first_seen_ids(rows).len(),
    decreases rows.len(),
{
    if rows.len() > 0 {
        let init = rows.drop_last();
        let d = first_seen_ids(init);
        lemma_one_statement_per_table(init);
        let x = rows.last().table.id;
        assert forall|id: TableIdModel|
            first_seen_ids(rows).contains(id) <==> exists|i: int| 0 <= i < rows.len() && (#[trigger] rows[i]).table.id == id by {
            if first_seen_ids(rows).contains(id) {
                if d.contains(id) {
                    let i = choose|i: int| 0 <= i < init.len() && (#[trigger] init[i]).table.id == id;
                    assert(rows[i] == init[i]);
                } else {
                    assert(id == x);
                    assert(rows[rows.len() - 1].table.id == id);
                }
            }
            if exists|i: int| 0 <= i < rows.len() && (#[trigger] rows[i]).table.id == id {
                let i = choose|i: int| 0 <= i < rows.len() && (#[trigger] rows[i]).table.id == id;
                if i < init.len() {
                    assert(init[i] == rows[i]);
                    assert(d.contains(id));
                    if !d.contains(x) {
                        let q = choose|q: int| 0 <= q < d.len() && d[q] == id;
                        assert(d.push(x)[q] == id);
                    }
                } else {
                    if !d.contains(x) {
                        assert(d.push(x)[d.len() as int] == x);
                    }
                }
            }
        }
    }
}

/// Every identity seen in `rows` has rows.
pub proof fn lemma_first_seen_rows(rows: Seq<RowModel>, id: TableIdModel)
    requires
        first_seen_ids(rows).contains(id),
    ensures
        rows_of_table(rows, id).len() > 0,
    decreases rows.len(),
{
    if rows.len() > 0 {
        let d = first_seen_ids(rows.drop_last());
        if rows.last().table.id != id {
            assert(d.contains(id)) by {
                if !d.contains(rows.last().table.id) {
                    let k = choose|k: int|
                        0 <= k < d.push(rows.last().table.id).len() && d.push(
                            rows.last().table.id,
                        )[k] == id;
                    assert(k < d.len());
                }
            }
            lemma_first_seen_rows(rows.drop_last(), id);
        }
    }
}

/// The rows of table `id` are rows of that table.
pub proof fn lemma_rows_of_table_ids(rows: Seq<RowModel>, id: TableIdModel)
    ensures
        forall|i: int|
            0 <= i < rows_of_table(rows, id).len() ==> #[trigger] rows_of_table(rows, id)[i].table.id
                == id,
    decreases rows.len(),
{
    if rows.len() > 0 {
        lemma_rows_of_table_ids(rows.drop_last(), id);
        let g = rows_of_table(rows.drop_last(), id);
        if rows.last().table.id == id {
            assert forall|i: int|
                0 <= i < g.push(rows.last()).len() implies #[trigger] g.push(rows.last())[i].table.id
                == id by {
                if i < g.len() {
                    assert(g.push(rows.last())[i] == g[i]);
                }
            }
        }
    }
}

// ---------------------------------------------------------------------
// Statement pieces
// ---------------------------------------------------------------------

/// The column list of an insert statement.
pub struct TableInsertRowColumns {
    pub column_names: Vec<String>,
}

impl TableInsertRowColumns {
    /// The column names separated by `, `.
    pub fn to_string(&self) -> (s: String)
        ensures
            s@ == join_with(views(self.column_names@), ", "@),
    {
        join_strings(&self.column_names, ", ")
    }
}

/// The values of one row in an insert statement.
pub struct TableInsertRowValues {
    pub values: Vec<String>,
}

impl TableInsertRowValues {
    /// The values separated by `, `, in parentheses.
    pub fn to_string(&self) -> (s: String)
        ensures
            s@ == "("@ + join_with(views(self.values@), ", "@) + ")"@,
    {
        let mut s = String::from_str("(");
        let inner = join_strings(&self.values, ", ");
        s.append(inner.as_str());
        s.append(")");
        s
    }
}

/// An insert statement of rows into one table.
pub struct TableInsertStatement {
    pub table: PsqlTable,
    pub columns: TableInsertRowColumns,
    pub row_values: Vec<TableInsertRowValues>,
}

/// The texts of the rows of an insert statement.
pub open spec fn row_values_texts(rows: Seq<TableInsertRowValues>) -> Seq<Seq<char>> {
    rows.map_values(|r: TableInsertRowValues| "("@ + join_with(views(r.values@), ", "@) + ")"@)
}

impl TableInsertStatement {
    /// The statement's text (see `insert_statement_text`).
    pub fn to_string(&self) -> (s: String)
        ensures
            s@ == "------------------------------------------------\n-- insert into table "@
                + table_id_text(self.table.id@)
                + "\n------------------------------------------------\ninsert into "@
                + table_id_text(self.table.id@) + " ("@ + join_with(
                views(self.columns.column_names@),
                ", "@,
            ) + ") VALUES\n  "@ + join_with(row_values_texts(self.row_values@), ",\n"@)
                + ";\n---------------\n\n"@,
    {
        let mut rows: Vec<String> = Vec::new();
        let mut i: usize = 0;
        while i < self.row_values.len()
            invariant
                i <= self.row_values@.len(),
                views(rows@) == row_values_texts(self.row_values@).take(i as int),
            decreases self.row_values@.len() - i,
        {
            let ghost old_rows = views(rows@);
            let t = self.row_values[i].to_string();
            rows.push(t);
            assert(views(rows@) =~= old_rows.push(t@));
            assert(views(rows@) =~= row_values_texts(self.row_values@).take(i + 1));
            i = i + 1;
        }
        assert(row_values_texts(self.row_values@).take(i as int) =~= row_values_texts(
            self.row_values@,
        ));
        let id = self.table.id.display();
        let mut s = String::from_str(
            "------------------------------------------------\n-- insert into table ",
        );
        s.append(id.as_str());
        s.append("\n------------------------------------------------\ninsert into ");
        s.append(id.as_str());
        s.append(" (");
        let columns = self.columns.to_string();
        s.append(columns.as_str());
        s.append(") VALUES\n  ");
        let values = join_strings(&rows, ",\n");
        s.append(values.as_str());
        s.append(";\n---------------\n\n");
        s
    }
}

/// Insert statements for fetched rows.
pub struct RelationInsert {}

impl RelationInsert {
    /// The insert statement of `rows` into `table`, columns as in the first row.
    pub fn table_row_into_insert_statement(table: &PsqlTable, rows: &Vec<&PsqlTableRow>) -> (s:
        String)
        requires
            statement_ready(row_ref_views(rows@)),
        ensures
            s@ == insert_statement_text(table.id@, row_ref_views(rows@)),
    {
        let ghost rv = row_ref_views(rows@);
        let first_row: &PsqlTableRow = rows[0];
        let column_names = first_row.get_column_names();
        let ghost cols = column_names_of(rv[0].columns);
        assert(views(column_names@) == cols);
        let mut row_values: Vec<TableInsertRowValues> = Vec::new();
        let mut i: usize = 0;
        while i < rows.len()
            invariant
                i <= rows@.len(),
                rv == row_ref_views(rows@),
                statement_ready(rv),
                views(column_names@) == cols,
                cols == column_names_of(rv[0].columns),
                row_values_texts(row_values@) == rv.take(i as int).map_values(
                    |r: RowModel| row_values_text(r, cols),
                ),
            decreases rows@.len() - i,
        {
            let row: &PsqlTableRow = rows[i];
            assert(row@ == rv[i as int]);
            let mut values: Vec<String> = Vec::new();
            let mut j: usize = 0;
            while j < column_names.len()
                invariant
                    i < rows@.len(),
                    rv == row_ref_views(rows@),
                    row@ == rv[i as int],
                    statement_ready(rv),
                    views(column_names@) == cols,
                    cols == column_names_of(rv[0].columns),
                    j <= column_names@.len(),
                    views(values@) == cols.take(j as int).map_values(
                        |c: Seq<char>| column_value_of(rv[i as int].columns, c).unwrap(),
                    ),
                decreases column_names@.len() - j,
            {
                let name = &column_names[j];
                assert(cols[j as int] == name@);
                assert(cols.contains(name@));
                assert(column_value_of(rv[i as int].columns, name@) is Some);
                let v = row.get_column_value(name.as_str()).unwrap();
                let ghost old_values = views(values@);
                values.push(v.clone());
                assert(views(values@) =~= old_values.push(v@));
                assert(views(values@) =~= cols.take(j + 1).map_values(
                    |c: Seq<char>| column_value_of(rv[i as int].columns, c).unwrap(),
                ));
                j = j + 1;
            }
            assert(cols.take(j as int) =~= cols);
            let ghost old_rows = row_values_texts(row_values@);
            let rvals = TableInsertRowValues { values };
            row_values.push(rvals);
            assert(row_values_texts(row_values@) =~= old_rows.push(row_values_text(rv[i as int], cols)));
            assert(row_values_texts(row_values@) =~= rv.take(i + 1).map_values(
                |r: RowModel| row_values_text(r, cols),
            ));
            i = i + 1;
        }
        assert(rv.take(i as int) =~= rv);
        let statement = TableInsertStatement {
            table: table.clone(),
            columns: TableInsertRowColumns { column_names },
            row_values,
        };
        statement.to_string()
    }

    /// Whether `ids` holds an identity equal to `id`.
    fn has_id(ids: &Vec<PsqlTableIdentity>, id: &PsqlTableIdentity) -> (r: bool)
        ensures
            r == ids@.map_values(|x: PsqlTableIdentity| x@).contains(id@),
    {
        let ghost iv = ids@.map_values(|x: PsqlTableIdentity| x@);
        let mut i: usize = 0;
        while i < ids.len()
            invariant
                i <= ids@.len(),
                iv == ids@.map_values(|x: PsqlTableIdentity| x@),
                forall|j: int| 0 <= j < i ==> iv[j] != id@,
            decreases ids@.len() - i,
        {
            if ids[i].same_as(id) {
                assert(iv[i as int] == id@);
                return true;
            }
            i = i + 1;
        }
        false
    }

    /// One insert statement per table of `rows`, tables in order of first
    /// appearance, each with the rows of its table in order.
    pub fn table_rows_into_insert_statement(rows: &Vec<PsqlTableRow>) -> (statements: Vec<String>)
        requires
            groups_ready(row_views(rows@)),
        ensures
            views(statements@) == table_statements(row_views(rows@)),
    {
        let ghost rv = row_views(rows@);
        let mut ids: Vec<PsqlTableIdentity> = Vec::new();
        let mut i: usize = 0;
        while i < rows.len()
            invariant
                i <= rows@.len(),
                rv == row_views(rows@),
                ids@.map_values(|x: PsqlTableIdentity| x@) == first_seen_ids(rv.take(i as int)),
            decreases rows@.len() - i,
        {
            assert(rv.take(i + 1).drop_last() =~= rv.take(i as int));
            assert(rv.take(i + 1).last() == rows@[i as int]@);
            let ghost old_ids = ids@.map_values(|x: PsqlTableIdentity| x@);
            if !RelationInsert::has_id(&ids, &rows[i].table.id) {
                ids.push(rows[i].table.id.clone());
                assert(ids@.map_values(|x: PsqlTableIdentity| x@) =~= old_ids.push(
                    rows@[i as int].table.id@,
                ));
            }
            i = i + 1;
        }
        assert(rv.take(i as int) =~= rv);
        let ghost idv = first_seen_ids(rv);
        let mut statements: Vec<String> = Vec::new();
        let mut k: usize = 0;
        while k < ids.len()
            invariant
                k <= ids@.len(),
                rv == row_views(rows@),
                groups_ready(rv),
                ids@.map_values(|x: PsqlTableIdentity| x@) == idv,
                idv == first_seen_ids(rv),
                views(statements@) == table_statements(rv).take(k as int),
            decreases ids@.len() - k,
        {
            let id = &ids[k];
            assert(idv[k as int] == id@);
            let mut group: Vec<&PsqlTableRow> = Vec::new();
            let mut j: usize = 0;
            while j < rows.len()
                invariant
                    j <= rows@.len(),
                    rv == row_views(rows@),
                    row_ref_views(group@) == rows_of_table(rv.take(j as int), id@),
                decreases rows@.len() - j,
            {
                assert(rv.take(j + 1).drop_last() =~= rv.take(j as int));
                assert(rv.take(j + 1).last() == rows@[j as int]@);
                let ghost old_group = row_ref_views(group@);
                if rows[j].table.id.same_as(id) {
                    group.push(&rows[j]);
                    assert(row_ref_views(group@) =~= old_group.push(rows@[j as int]@));
                }
                j = j + 1;
            }
            assert(rv.take(j as int) =~= rv);
            assert(idv.contains(id@));
            assert(statement_ready(rows_of_table(rv, id@)));
            let statement = RelationInsert::table_row_into_insert_statement(&group[0].table, &group);
            assert(group@[0].table.id@ == id@) by {
                lemma_first_seen_rows(rv, id@);
                lemma_rows_of_table_ids(rv, id@);
                assert(row_ref_views(group@)[0] == rows_of_table(rv, id@)[0]);
                assert(rows_of_table(rv, id@)[0].table.id == id@);
            }
            let ghost old_statements = views(statements@);
            assert(statement@ == table_statements(rv)[k as int]);
            statements.push(statement);
            assert(views(statements@) =~= old_statements.push(statement@));
            assert(views(statements@) =~= table_statements(rv).take(k + 1));
            k = k + 1;
        }
        assert(table_statements(rv).take(k as int) =~= table_statements(rv));
        statements
    }

    /// The insert statements of every level, lower levels first; within a
    /// level one statement per table, as `table_rows_into_insert_statement`
    /// gives them.
    pub fn into_insert_statements(rows_by_level: HashMap<i32, Vec<PsqlTableRow>>) -> (statements:
        Vec<String>)
        requires
            forall|l: i32|
                rows_by_level@.contains_key(l) ==> groups_ready(
                    #[trigger] row_views(rows_by_level@[l]@),
                ),
        ensures
            views(statements@) == level_statements(rows_by_level@),
    {
        broadcast use vstd::std_specs::hash::group_hash_axioms;

        let ghost m = rows_by_level@;
        let ghost ks: Seq<i32> = rows_by_level.keys().remaining().unref();
        assert(ks.to_set() == m.dom() && ks.no_duplicates());
        let mut levels: Vec<i32> = Vec::new();
        let ghost mut count: int = 0;
        for level in it: rows_by_level.keys()
            invariant
                m == rows_by_level@,
                ks.to_set() == m.dom(),
                ks.no_duplicates(),
                it.seq().unref() == ks,
                count == it.index(),
                strictly_sorted(levels@),
                levels@.to_set() == ks.take(count).to_set(),
        {
            let ghost done = ks.take(count);
            assert(ks[count] == *level);
            assert(!levels@.contains(*level)) by {
                if levels@.contains(*level) {
                    assert(levels@.to_set().contains(*level));
                    let j = choose|j: int| 0 <= j < done.len() && done[j] == *level;
                    assert(ks[j] == *level);
                }
            }
            insert_sorted(&mut levels, *level);
            proof {
                let ghost grown = ks.take(count + 1);
                assert(grown =~= done.push(*level));
                assert forall|y: i32|
                    ks.take(count + 1).to_set().contains(y) <==> done.to_set().insert(
                        *level,
                    ).contains(y) by {
                    if grown.to_set().contains(y) {
                        let j = choose|j: int| 0 <= j < grown.len() && grown[j] == y;
                        if j < count {
                            assert(done[j] == y);
                        }
                    }
                    if done.to_set().contains(y) {
                        let j = choose|j: int| 0 <= j < done.len() && done[j] == y;
                        assert(grown[j] == y);
                    }
                    if y == *level {
                        assert(grown[count] == y);
                    }
                }
                assert(ks.take(count + 1).to_set() =~= done.to_set().insert(*level));
                count = count + 1;
            }
        }
        assert(levels@.to_set() =~= m.dom()) by {
            assert(ks.take(count) =~= ks);
        }
        assert(strictly_sorted(sorted_levels(m.dom())) && sorted_levels(m.dom()).to_set()
            == m.dom());
        proof {
            lemma_sorted_unique(levels@, sorted_levels(m.dom()));
        }
        let ghost per_level = levels@.map_values(|l: i32| table_statements(row_views(m[l]@)));
        let mut statements: Vec<String> = Vec::new();
        let mut i: usize = 0;
        while i < levels.len()
            invariant
                i <= levels@.len(),
                m == rows_by_level@,
                levels@.to_set() == m.dom(),
                forall|l: i32| m.contains_key(l) ==> groups_ready(#[trigger] row_views(m[l]@)),
                per_level == levels@.map_values(|l: i32| table_statements(row_views(m[l]@))),
                views(statements@) == concat_all(per_level.take(i as int)),
            decreases levels@.len() - i,
        {
            let level = levels[i];
            assert(levels@.to_set().contains(level));
            let rows = rows_by_level.get(&level).unwrap();
            let mut level_statements = RelationInsert::table_rows_into_insert_statement(rows);
            let ghost before = views(statements@);
            statements.append(&mut level_statements);
            assert(per_level.take(i + 1).drop_last() =~= per_level.take(i as int));
            assert(views(statements@) =~= before + per_level[i as int]);
            i = i + 1;
        }
        assert(per_level.take(i as int) =~= per_level);
        statements
    }
}

/// Puts `x` into the strictly increasing `v`, keeping it so.
fn insert_sorted(v: &mut Vec<i32>, x: i32)
    requires
        strictly_sorted(old(v)@),
        !old(v)@.contains(x),
    ensures
        strictly_sorted(final(v)@),
        final(v)@.to_set() == old(v)@.to_set().insert(x),
{
    let mut i: usize = 0;
    while i < v.len() && v[i] < x
        invariant
            i <= v@.len(),
            forall|j: int| 0 <= j < i ==> v@[j] < x,
        decreases v@.len() - i,
    {
        i = i + 1;
    }
    let ghost before = v@;
    assert(i < before.len() ==> before[i as int] > x) by {
        if i < before.len() {
            assert(before[i as int] != x);
        }
    }
    v.insert(i, x);
    assert(v@ =~= before.insert(i as int, x));
    assert forall|y: i32| v@.to_set().contains(y) <==> before.to_set().insert(x).contains(y) by {
        if v@.to_set().contains(y) {
            let k = choose|k: int| 0 <= k < v@.len() && v@[k] == y;
            if k < i {
                assert(before[k] == y);
            } else if k > i {
                assert(before[k - 1] == y);
            }
        }
        if before.to_set().contains(y) {
            let k = choose|k: int| 0 <= k < before.len() && before[k] == y;
            if k < i {
                assert(v@[k] == y);
            } else {
                assert(v@[k + 1] == y);
            }
        }
        if y == x {
            assert(v@[i as int] == x);
        }
    }
    assert(v@.to_set() =~= before.to_set().insert(x));
}

} // verus!
