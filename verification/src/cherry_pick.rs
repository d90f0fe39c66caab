//! Cherry picking a row: the choices of the `db cherry-pick` command (output
//! format, columns shown per table, source database) and how a row is
//! labelled in a graph.

use vstd::prelude::*;

use crate::config::{last_index_of, Config, DbConfig};
use crate::db_metadata::PsqlTableMap;
use crate::dto::{column_value_of, table_id_text, PsqlTable, PsqlTableIdentity, PsqlTableRow, TableIdModel};
use crate::text::{
    append_str, join_strings, join_with, split_on, split_once_char, split_once_seq, split_str,
    cut_from, lemma_trim_seq_core, lemma_trim_seq_trimmed, str_eq, trim_char, trim_char_seq, trim_seq, trim_str, views,
};

verus! {

// ---------------------------------------------------------------------
// Output format
// ---------------------------------------------------------------------

/// What `str::to_uppercase` makes of a text (Unicode upper case).
pub uninterp spec fn uppercase_text(s: Seq<char>) -> Seq<char>;

/// `str::to_uppercase`; its result is given a name only.
#[verifier::external_body]
fn to_uppercase(s: &str) -> (r: String)
    ensures
        r@ == uppercase_text(s@),
{
    s.to_uppercase()
}

/// How the picked rows are printed.
#[derive(Debug, Clone, Copy, PartialEq, Eq, Structural)]
pub enum CherryPickOutputFormatEnum {
    /// Insert statements, parents before children.
    InsertStatement,
    /// The graph of the rows, in graphviz's dot language.
    Graphviz,
}

impl CherryPickOutputFormatEnum {
    /// The format that `s` names, in any case: `graphviz`, and insert
    /// statements for anything else.
    pub fn from(s: &str) -> (f: CherryPickOutputFormatEnum)
        ensures
            f == (if uppercase_text(s@) == "GRAPHVIZ"@ {
                CherryPickOutputFormatEnum::Graphviz
            } else {
                CherryPickOutputFormatEnum::InsertStatement
            }),
    {
        let upper = to_uppercase(s);
        if str_eq(upper.as_str(), "GRAPHVIZ") {
            CherryPickOutputFormatEnum::Graphviz
        } else {
            CherryPickOutputFormatEnum::InsertStatement
        }
    }

    /// The name of the format on the command line.
    pub fn to_string(&self) -> (s: String)
        ensures
            s@ == (match *self {
                CherryPickOutputFormatEnum::InsertStatement => "insert-statement"@,
                CherryPickOutputFormatEnum::Graphviz => "graphviz"@,
            }),
    {
        match self {
            CherryPickOutputFormatEnum::InsertStatement => "insert-statement".to_owned(),
            CherryPickOutputFormatEnum::Graphviz => "graphviz".to_owned(),
        }
    }
}

// ---------------------------------------------------------------------
// Columns shown per table
// ---------------------------------------------------------------------

/// The table that a text names: `schema.name`, or a bare `name` in the
/// `public` schema.
pub open spec fn table_id_of(text: Seq<char>) -> TableIdModel {
    match split_once_seq(text, '.') {
        Some((schema, name)) => (schema, name),
        None => ("public"@, text),
    }
}

/// The table that a text names: `schema.name`, or a bare `name` in the
/// `public` schema.
pub fn table_identity_from_text(text: &str) -> (id: PsqlTableIdentity)
    ensures
        id@ == table_id_of(text@),
{
    match split_once_char(text, '.') {
        Some((schema, name)) => PsqlTableIdentity { schema, name },
        None => PsqlTableIdentity { schema: "public".to_owned(), name: text.to_owned() },
    }
}

/// What one `{table}:{column_1}|{column_n}` parameter gives: the table and
/// its columns (without surrounding white space), or nothing without a `:`.
pub open spec fn param_entry(param: Seq<char>) -> Option<(TableIdModel, Seq<Seq<char>>)> {
    match split_once_seq(param, ':') {
        Some((table, columns)) => Some(
            (
                table_id_of(table),
                split_on(columns, '|').map_values(|c: Seq<char>| trim_seq(c)),
            ),
        ),
        None => None,
    }
}

/// The table of a parameter with a `:`.
pub open spec fn param_table(param: Seq<char>) -> TableIdModel {
    match param_entry(param) {
        Some((table, _)) => table,
        None => table_id_of(param),
    }
}

/// The columns of a parameter with a `:`.
pub open spec fn param_columns(param: Seq<char>) -> Seq<Seq<char>> {
    match param_entry(param) {
        Some((_, columns)) => columns,
        None => Seq::empty(),
    }
}

/// The index of the first parameter without a `:`.
pub open spec fn first_bad_param(params: Seq<Seq<char>>) -> Option<int>
    decreases params.len(),
{
    if params.len() == 0 {
        None
    } else if param_entry(params[0]) is None {
        Some(0)
    } else {
        match first_bad_param(params.drop_first()) {
            Some(i) => Some(i + 1),
            None => None,
        }
    }
}

/// The index of the last parameter about table `id`.
pub open spec fn last_param_for(params: Seq<Seq<char>>, id: TableIdModel) -> Option<int>
    decreases params.len(),
{
    if params.len() == 0 {
        None
    } else if param_entry(params.last()) matches Some(e) && e.0 == id {
        Some(params.len() - 1)
    } else {
        last_param_for(params.drop_last(), id)
    }
}

/// The views of `(table, columns)` entries.
pub open spec fn field_entries(entries: Seq<(PsqlTableIdentity, Vec<String>)>) -> Seq<
    (TableIdModel, Seq<Seq<char>>),
> {
    entries.map_values(|e: (PsqlTableIdentity, Vec<String>)| (e.0@, views(e.1@)))
}

/// The columns shown per table, as a map built from the parameters in
/// order: each table once, with the columns of its last parameter.
pub open spec fn fields_by_table(
    entries: Seq<(TableIdModel, Seq<Seq<char>>)>,
    params: Seq<Seq<char>>,
) -> bool {
    &&& forall|a: int, b: int|
        0 <= a < b < entries.len() ==> #[trigger] entries[a].0 != #[trigger] entries[b].0
    &&& forall|e: int|
        0 <= e < entries.len() ==> (last_param_for(params, #[trigger] entries[e].0) matches Some(i)
            && entries[e].1 == param_columns(params[i]))
    &&& forall|i: int|
        0 <= i < params.len() ==> exists|e: int|
            0 <= e < entries.len() && #[trigger] entries[e].0 == param_table(#[trigger] params[i])
}

/// Facts about `first_bad_param`.
proof fn lemma_first_bad_param(params: Seq<Seq<char>>)
    ensures
        first_bad_param(params) matches Some(i) ==> 0 <= i < params.len() && param_entry(
            params[i],
        ) is None && forall|j: int| 0 <= j < i ==> param_entry(params[j]) is Some,
        first_bad_param(params) is None ==> forall|j: int|
            0 <= j < params.len() ==> param_entry(params[j]) is Some,
    decreases params.len(),
{
    if params.len() > 0 && param_entry(params[0]) is Some {
        let rest = params.drop_first();
        lemma_first_bad_param(rest);
        assert forall|j: int| 1 <= j < params.len() implies params[j] == rest[j - 1] by {}
    }
}

/// The parameter `last_param_for` finds is one of the parameters.
proof fn lemma_last_param_for(params: Seq<Seq<char>>, id: TableIdModel)
    ensures
        last_param_for(params, id) matches Some(i) ==> 0 <= i < params.len(),
    decreases params.len(),
{
    if params.len() > 0 {
        lemma_last_param_for(params.drop_last(), id);
    }
}

/// The parameter `last_param_for` finds has a `:` and names the table.
proof fn lemma_last_param_for_entry(params: Seq<Seq<char>>, id: TableIdModel)
    ensures
        last_param_for(params, id) matches Some(i) ==> 0 <= i < params.len() && (param_entry(params[i])
            matches Some(e) && e.0 == id),
    decreases params.len(),
{
    if params.len() > 0 {
        lemma_last_param_for_entry(params.drop_last(), id);
        if last_param_for(params, id) != Some(params.len() - 1) {
            if let Some(i) = last_param_for(params, id) {
                assert(params.drop_last()[i] == params[i]);
            }
        }
    }
}

/// Every column a parameter chooses is free of surrounding white space:
/// trimming it changes nothing, and it neither starts nor ends with white
/// space.
pub proof fn lemma_param_columns_trimmed(param: Seq<char>)
    ensures
        forall|k: int|
            0 <= k < param_columns(param).len() ==> trim_seq(#[trigger] param_columns(param)[k])
                == param_columns(param)[k],
{
    assert forall|k: int| 0 <= k < param_columns(param).len() implies trim_seq(
        #[trigger] param_columns(param)[k],
    ) == param_columns(param)[k] by {
        if let Some((table, columns)) = split_once_seq(param, ':') {
            let c = split_on(columns, '|')[k];
            assert(param_columns(param)[k] == trim_seq(c));
            lemma_trim_seq_trimmed(c);
        }
    }
}

/// The columns a parameter chooses are its `|`-separated pieces after the
/// `:`, one per piece, in order, each the piece with only its surrounding
/// white space cut away.
pub proof fn lemma_param_columns_are_pieces(param: Seq<char>)
    ensures
        split_once_seq(param, ':') matches Some((table, columns)) ==> param_columns(param).len() == split_on(
            columns,
            '|',
        ).len() && forall|k: int|
            0 <= k < split_on(columns, '|').len() ==> cut_from(
                #[trigger] param_columns(param)[k],
                split_on(columns, '|')[k],
            ),
{
    if let Some((table, columns)) = split_once_seq(param, ':') {
        let pieces = split_on(columns, '|');
        assert forall|k: int| 0 <= k < pieces.len() implies cut_from(#[trigger] param_columns(param)[k], pieces[k]) by {
            assert(param_columns(param)[k] == trim_seq(pieces[k]));
            lemma_trim_seq_core(pieces[k]);
        }
        assert(param_columns(param).len() == pieces.len());
    }
}

/// The columns shown per table (as `create_displayed_fields_by_table_id_from_param`
/// gives them) are all free of surrounding white space.
pub proof fn lemma_displayed_fields_trimmed(
    entries: Seq<(TableIdModel, Seq<Seq<char>>)>,
    params: Seq<Seq<char>>,
)
    requires
        fields_by_table(entries, params),
    ensures
        forall|e: int, k: int|
            0 <= e < entries.len() && 0 <= k < entries[e].1.len() ==> trim_seq(#[trigger] entries[e].1[k])
                == entries[e].1[k],
{
    assert forall|e: int, k: int| 0 <= e < entries.len() && 0 <= k < entries[e].1.len() implies trim_seq(
        #[trigger] entries[e].1[k],
    ) == entries[e].1[k] by {
        lemma_last_param_for_entry(params, entries[e].0);
        let i = last_param_for(params, entries[e].0)->0;
        assert(entries[e].1 == param_columns(params[i]));
        lemma_param_columns_trimmed(params[i]);
        assert(trim_seq(param_columns(params[i])[k]) == param_columns(params[i])[k]);
    }
}

/// The columns of the parameter, without surrounding white space.
fn trimmed_columns(columns: &str) -> (r: Vec<String>)
    ensures
        views(r@) == split_on(columns@, '|').map_values(|c: Seq<char>| trim_seq(c)),
{
    let parts = split_str(columns, '|');
    let ghost pv = views(parts@);
    let mut r: Vec<String> = Vec::new();
    let mut i: usize = 0;
    while i < parts.len()
        invariant
            i <= parts@.len(),
            pv == views(parts@),
            pv == split_on(columns@, '|'),
            views(r@) == pv.map_values(|c: Seq<char>| trim_seq(c)).take(i as int),
        decreases parts@.len() - i,
    {
        let ghost before = views(r@);
        r.push(trim_str(parts[i].as_str()));
        assert(views(r@) =~= before.push(trim_seq(pv[i as int])));
        assert(pv.map_values(|c: Seq<char>| trim_seq(c)).take(i + 1) =~= pv.map_values(
            |c: Seq<char>| trim_seq(c),
        ).take(i as int).push(trim_seq(pv[i as int])));
        i = i + 1;
    }
    assert(pv.map_values(|c: Seq<char>| trim_seq(c)).take(i as int) =~= pv.map_values(
        |c: Seq<char>| trim_seq(c),
    ));
    r
}

/// The position of the entry about table `id`, if any.
fn position_of_table(entries: &Vec<(PsqlTableIdentity, Vec<String>)>, id: &PsqlTableIdentity) -> (r:
    Option<usize>)
    ensures
        r matches Some(at) ==> at < entries@.len() && entries@[at as int].0@ == id@,
        r is None ==> forall|q: int| 0 <= q < entries@.len() ==> entries@[q].0@ != id@,
{
    let mut at: usize = 0;
    while at < entries.len()
        invariant
            at <= entries@.len(),
            forall|q: int| 0 <= q < at ==> entries@[q].0@ != id@,
        decreases entries@.len() - at,
    {
        if entries[at].0.same_as(id) {
            return Some(at);
        }
        at = at + 1;
    }
    None
}

/// The state of a `db cherry-pick` command.
pub struct CherryPickInput;

impl CherryPickInput {
    /// The columns to show per table, from parameters written
    /// `{table}:{column_1}|{column_n}`: a later parameter about a table
    /// replaces an earlier one. The first parameter without a `:` is refused.
    pub fn create_displayed_fields_by_table_id_from_param(graph_table_columns: Vec<String>) -> (r:
        Result<Vec<(PsqlTableIdentity, Vec<String>)>, String>)
        ensures
            match first_bad_param(views(graph_table_columns@)) {
                Some(i) => r matches Err(m) && m@
                    == "Display table columsn should be in format {tableIdentity}:{column_1}|{column_n}, got "@
                    + graph_table_columns@[i]@ + " instead"@,
                None => r matches Ok(entries) && fields_by_table(
                    field_entries(entries@),
                    views(graph_table_columns@),
                ),
            },
    {
        let ghost params = views(graph_table_columns@);
        proof {
            lemma_first_bad_param(params);
        }
        let mut entries: Vec<(PsqlTableIdentity, Vec<String>)> = Vec::new();
        let mut i: usize = 0;
        while i < graph_table_columns.len()
            invariant
                i <= graph_table_columns@.len(),
                params == views(graph_table_columns@),
                first_bad_param(params) matches Some(b) ==> i <= b,
                first_bad_param(params) matches Some(b) ==> 0 <= b < params.len() && param_entry(
                    params[b],
                ) is None && forall|j: int| 0 <= j < b ==> param_entry(params[j]) is Some,
                first_bad_param(params) is None ==> forall|j: int|
                    0 <= j < params.len() ==> param_entry(params[j]) is Some,
                fields_by_table(field_entries(entries@), params.take(i as int)),
            decreases graph_table_columns@.len() - i,
        {
            let param = graph_table_columns[i].as_str();
            match split_once_char(param, ':') {
                None => {
                    let mut m = String::new();
                    append_str(
                        &mut m,
                        "Display table columsn should be in format {tableIdentity}:{column_1}|{column_n}, got ",
                    );
                    append_str(&mut m, param);
                    append_str(&mut m, " instead");
                    assert(param_entry(params[i as int]) is None);
                    return Err(m);
                },
                Some((table, columns)) => {
                    let id = table_identity_from_text(table.as_str());
                    let cols = trimmed_columns(columns.as_str());
                    let ghost prev = params.take(i as int);
                    let ghost next = params.take(i + 1);
                    assert(next.drop_last() =~= prev);
                    assert(next.last() == params[i as int]);
                    assert forall|q: int| 0 <= q < i implies next[q] == prev[q] by {}
                    let ghost entry = (param_table(params[i as int]), param_columns(params[i as int]));
                    assert(entry == (id@, views(cols@)));
                    let ghost e0 = field_entries(entries@);
                    let at = match position_of_table(&entries, &id) {
                        Some(at) => {
                            entries.set(at, (id, cols));
                            assert(field_entries(entries@) =~= e0.update(at as int, entry));
                            at
                        },
                        None => {
                            let at = entries.len();
                            entries.push((id, cols));
                            assert(field_entries(entries@) =~= e0.push(entry));
                            at
                        },
                    };
                    assert((at < e0.len() && e0[at as int].0 == entry.0) || (at == e0.len() && forall|q: int|
                        0 <= q < e0.len() ==> e0[q].0 != entry.0));
                    proof {
                        let e1 = field_entries(entries@);
                        assert(last_param_for(next, entry.0) == Some(i as int));
                        assert forall|a: int, b: int|
                            0 <= a < b < e1.len() implies #[trigger] e1[a].0 != #[trigger] e1[b].0 by {
                            if a != at && b != at {
                                assert(e1[a] == e0[a] && e1[b] == e0[b]);
                            } else if a == at && b < e0.len() {
                                assert(e1[b] == e0[b]);
                                assert(e0[a].0 != e0[b].0);
                                assert(e0[b].0 != entry.0);
                            } else if b == at && a < e0.len() {
                                assert(e1[a] == e0[a]);
                                assert(e0[a].0 != entry.0);
                            }
                        }
                        assert forall|e: int| 0 <= e < e1.len() implies (last_param_for(
                            next,
                            #[trigger] e1[e].0,
                        ) matches Some(q) && e1[e].1 == param_columns(next[q])) by {
                            if e != at {
                                assert(e1[e] == e0[e]);
                                assert(e0[e].0 != entry.0);
                                assert(last_param_for(next, e0[e].0) == last_param_for(prev, e0[e].0));
                                lemma_last_param_for(prev, e0[e].0);
                                let q = last_param_for(prev, e0[e].0)->0;
                                assert(prev[q] == next[q]);
                            }
                        }
                        assert forall|q: int| 0 <= q < next.len() implies exists|e: int|
                            0 <= e < e1.len() && #[trigger] e1[e].0 == param_table(#[trigger] next[q]) by {
                            if q < i {
                                assert(prev[q] == next[q]);
                                let e = choose|e: int|
                                    0 <= e < e0.len() && #[trigger] e0[e].0 == param_table(prev[q]);
                                if e != at {
                                    assert(e1[e] == e0[e]);
                                } else {
                                    assert(e1[e].0 == entry.0);
                                }
                            } else {
                                assert(e1[at as int].0 == entry.0);
                            }
                        }
                    }
                },
            }
            i = i + 1;
        }
        assert(params.take(i as int) =~= params);
        Ok(entries)
    }
}

// ---------------------------------------------------------------------
// Labels of rows in a graph
// ---------------------------------------------------------------------

/// The columns shown for table `id`: those of the last entry about it.
pub open spec fn fields_for(entries: Seq<(TableIdModel, Seq<Seq<char>>)>, id: TableIdModel) -> Option<
    Seq<Seq<char>>,
>
    decreases entries.len(),
{
    if entries.len() == 0 {
        None
    } else if entries.last().0 == id {
        Some(entries.last().1)
    } else {
        fields_for(entries.drop_last(), id)
    }
}

/// One line per shown column that the row has: `` `column` value``, the
/// value without its surrounding single quotes.
pub open spec fn label_lines(columns: Seq<(Seq<char>, Seq<char>)>, fields: Seq<Seq<char>>) -> Seq<
    Seq<char>,
>
    decreases fields.len(),
{
    if fields.len() == 0 {
        Seq::empty()
    } else {
        let prev = label_lines(columns, fields.drop_last());
        match column_value_of(columns, fields.last()) {
            Some(v) => prev.push("`"@ + fields.last() + "` "@ + trim_char_seq(v, '\'')),
            None => prev,
        }
    }
}

/// The label of a row: its table, then the shown columns one per line, or
/// its id when no columns are chosen for its table.
pub open spec fn row_label(
    row: crate::dto::RowModel,
    entries: Seq<(TableIdModel, Seq<Seq<char>>)>,
) -> Seq<char> {
    table_id_text(row.table.id) + "\n"@ + match fields_for(entries, row.table.id) {
        Some(fields) => join_with(label_lines(row.columns, fields), "\n"@),
        None => "`id` "@ + row.row_id,
    }
}

/// The columns chosen for table `id`: those of the last entry about it.
fn find_fields<'a>(entries: &'a Vec<(PsqlTableIdentity, Vec<String>)>, id: &PsqlTableIdentity) -> (r:
    Option<&'a Vec<String>>)
    ensures
        match fields_for(field_entries(entries@), id@) {
            Some(fs) => r matches Some(v) && views(v@) == fs,
            None => r is None,
        },
{
    let ghost all = field_entries(entries@);
    let mut i: usize = entries.len();
    assert(all.take(i as int) =~= all);
    while i > 0
        invariant
            i <= entries@.len(),
            all == field_entries(entries@),
            fields_for(all, id@) == fields_for(all.take(i as int), id@),
        decreases i,
    {
        assert(all.take(i as int).drop_last() =~= all.take(i - 1));
        if entries[i - 1].0.same_as(id) {
            return Some(&entries[i - 1].1);
        }
        i = i - 1;
    }
    None
}

/// A row as a node of a graph, labelled with the columns chosen for its
/// table.
pub struct PsqlTableRowDynamicVisual<'a> {
    pub displayed_fields_by_table_id: &'a Vec<(PsqlTableIdentity, Vec<String>)>,
    pub inner: &'a PsqlTableRow,
}

impl<'a> PsqlTableRowDynamicVisual<'a> {
    pub fn new(
        inner: &'a PsqlTableRow,
        displayed_fields_by_table_id: &'a Vec<(PsqlTableIdentity, Vec<String>)>,
    ) -> (v: PsqlTableRowDynamicVisual<'a>)
        ensures
            v.inner == inner,
            v.displayed_fields_by_table_id == displayed_fields_by_table_id,
    {
        PsqlTableRowDynamicVisual { displayed_fields_by_table_id, inner }
    }

    /// The label of the row: its table, then the chosen columns one per line
    /// (`` `column` value``), or `` `id` {row id}`` when no columns are chosen
    /// for its table.
    pub fn to_string(&self) -> (s: String)
        ensures
            s@ == row_label(self.inner@, field_entries(self.displayed_fields_by_table_id@)),
    {
        let row = self.inner;
        let ghost entries = field_entries(self.displayed_fields_by_table_id@);
        let fields = find_fields(self.displayed_fields_by_table_id, &row.table.id);
        let mut s = row.table.id.display();
        append_str(&mut s, "\n");
        match fields {
            Some(fs) => {
                let ghost fv = views(fs@);
                let mut lines: Vec<String> = Vec::new();
                let mut k: usize = 0;
                while k < fs.len()
                    invariant
                        k <= fs@.len(),
                        fv == views(fs@),
                        views(lines@) == label_lines(row@.columns, fv.take(k as int)),
                    decreases fs@.len() - k,
                {
                    assert(fv.take(k + 1).drop_last() =~= fv.take(k as int));
                    assert(fv.take(k + 1).last() == fs@[k as int]@);
                    match row.get_column_value(fs[k].as_str()) {
                        Some(v) => {
                            let mut line = String::new();
                            append_str(&mut line, "`");
                            append_str(&mut line, fs[k].as_str());
                            append_str(&mut line, "` ");
                            let value = trim_char(v.as_str(), '\'');
                            append_str(&mut line, value.as_str());
                            let ghost before = views(lines@);
                            lines.push(line);
                            assert(views(lines@) =~= before.push(line@));
                        },
                        None => {},
                    }
                    k = k + 1;
                }
                assert(fv.take(k as int) =~= fv);
                let joined = join_strings(&lines, "\n");
                append_str(&mut s, joined.as_str());
            },
            None => {
                append_str(&mut s, "`id` ");
                append_str(&mut s, row.row_id_representation.as_str());
            },
        }
        s
    }
}

// ---------------------------------------------------------------------
// Source database and connection
// ---------------------------------------------------------------------

/// The `db` command.
pub struct DbCli;

/// The names of the configured databases, in order.
pub open spec fn db_names(dbs: Seq<(String, DbConfig)>) -> Seq<Seq<char>> {
    dbs.map_values(|e: (String, DbConfig)| e.0@)
}

impl DbCli {
    /// The configuration of the database named `source_db`: refused with
    /// `Db config is not set` when no database is configured, and with
    /// `Source db {source_db} is not registered` when none has that name.
    pub fn source_db_config<'a>(config: &'a Config, source_db: &str) -> (r: Result<
        &'a DbConfig,
        String,
    >)
        ensures
            match config.db_by_name {
                None => r matches Err(m) && m@ == "Db config is not set"@,
                Some(dbs) => match last_index_of(db_names(dbs@), source_db@) {
                    Some(i) => r matches Ok(c) && *c == dbs@[i].1,
                    None => r matches Err(m) && m@ == "Source db "@ + source_db@
                        + " is not registered"@,
                },
            },
    {
        match &config.db_by_name {
            None => Err("Db config is not set".to_owned()),
            Some(dbs) => {
                let ghost names = db_names(dbs@);
                let mut i: usize = dbs.len();
                assert(names.take(i as int) =~= names);
                while i > 0
                    invariant
                        config.db_by_name == Some(*dbs),
                        i <= dbs@.len(),
                        names == db_names(dbs@),
                        last_index_of(names, source_db@) == last_index_of(
                            names.take(i as int),
                            source_db@,
                        ),
                    decreases i,
                {
                    assert(names.take(i as int).drop_last() =~= names.take(i - 1));
                    assert(names.take(i as int).last() == dbs@[i - 1].0@);
                    if str_eq(dbs[i - 1].0.as_str(), source_db) {
                        return Ok(&dbs[i - 1].1);
                    }
                    i = i - 1;
                }
                let mut m = String::new();
                append_str(&mut m, "Source db ");
                append_str(&mut m, source_db);
                append_str(&mut m, " is not registered");
                Err(m)
            },
        }
    }

    /// The table with identity `id`, or the message `Table {schema.name} not found`.
    pub fn find_table<'a>(tables: &'a PsqlTableMap, id: &PsqlTableIdentity) -> (r: Result<
        &'a PsqlTable,
        String,
    >)
        ensures
            r matches Ok(t) ==> tables@.contains_key(id@) && tables@[id@] == t@,
            r matches Err(m) ==> !tables@.contains_key(id@) && m@ == "Table "@ + table_id_text(
                id@,
            ) + " not found"@,
            r is Ok <==> tables@.contains_key(id@),
    {
        match tables.get(id) {
            Some(t) => Ok(t),
            None => {
                let mut m = String::new();
                append_str(&mut m, "Table ");
                let text = id.display();
                append_str(&mut m, text.as_str());
                append_str(&mut m, " not found");
                Err(m)
            },
        }
    }
}

/// What connecting to postgres needs.
#[derive(Debug)]
pub struct PsqlCreds {
    pub host: String,
    pub database_name: String,
    pub username: String,
    pub password: Option<String>,
}

impl PsqlCreds {
    /// The credentials of a configured database.
    pub fn from_db_config(config: &DbConfig) -> (c: PsqlCreds)
        ensures
            c.host@ == config.host@,
            c.database_name@ == config.database@,
            c.username@ == config.username@,
            crate::deployment::opt_view(c.password) == crate::deployment::opt_view(config.password),
    {
        PsqlCreds {
            host: config.host.clone(),
            database_name: config.database.clone(),
            username: config.username.clone(),
            password: match &config.password {
                Some(p) => Some(p.clone()),
                None => None,
            },
        }
    }

    /// The password to connect with: the empty one when none is set.
    pub fn password_or_empty(&self) -> (p: String)
        ensures
            p@ == (match self.password {
                Some(q) => q@,
                None => Seq::empty(),
            }),
    {
        match &self.password {
            Some(p) => p.clone(),
            None => String::new(),
        }
    }
}

/// Why connecting to postgres failed.
#[derive(Debug)]
pub enum PsqlConnectionError {
    InitializeConnectionError(String),
}

impl PsqlConnectionError {
    /// The message of the error.
    pub fn to_string(&self) -> (s: String)
        ensures
            s@ == "Error when initialization connection "@ + self->InitializeConnectionError_0@,
    {
        let mut s = String::new();
        append_str(&mut s, "Error when initialization connection ");
        match self {
            PsqlConnectionError::InitializeConnectionError(e) => append_str(&mut s, e.as_str()),
        }
        s
    }
}

} // verus!
