//! Postgres table metadata: columns, foreign keys, table identities, tables,
//! fetched rows and uuids, each with a mathematical view.

use vstd::prelude::*;

use crate::text::{append_str, push_char, replace_seq, replace_str, str_eq};

verus! {

/// A view of a column: its name and its data type.
pub type ColumnModel = (Seq<char>, Seq<char>);

/// A view of a table identity: its schema and its name.
pub type TableIdModel = (Seq<char>, Seq<char>);

#[derive(PartialEq, Hash, Eq, Debug)]
pub struct PsqlTableColumn {
    pub name: String,
    pub data_type: String,
}

impl View for PsqlTableColumn {
    type V = ColumnModel;

    open spec fn view(&self) -> ColumnModel {
        (self.name@, self.data_type@)
    }
}

impl Clone for PsqlTableColumn {
    fn clone(&self) -> (r: Self)
        ensures
            r == *self,
    {
        PsqlTableColumn { name: self.name.clone(), data_type: self.data_type.clone() }
    }
}

impl PsqlTableColumn {
    pub fn new(name: &str, data_type: &str) -> (column: PsqlTableColumn)
        ensures
            column@ == (name@, data_type@),
    {
        PsqlTableColumn { name: name.to_owned(), data_type: data_type.to_owned() }
    }
}

/// A view of a foreign key.
#[verifier::ext_equal]
pub struct ForeignKeyModel {
    pub name: Seq<char>,
    pub column: ColumnModel,
    pub foreign_table: TableIdModel,
}

#[derive(PartialEq, Eq, Debug)]
pub struct PsqlForeignKey {
    pub name: String,
    pub column: PsqlTableColumn,
    pub foreign_table_schema: String,
    pub foreign_table_name: String,
}

impl View for PsqlForeignKey {
    type V = ForeignKeyModel;

    open spec fn view(&self) -> ForeignKeyModel {
        ForeignKeyModel {
            name: self.name@,
            column: self.column@,
            foreign_table: (self.foreign_table_schema@, self.foreign_table_name@),
        }
    }
}

impl Clone for PsqlForeignKey {
    fn clone(&self) -> (r: Self)
        ensures
            r == *self,
    {
        PsqlForeignKey {
            name: self.name.clone(),
            column: self.column.clone(),
            foreign_table_schema: self.foreign_table_schema.clone(),
            foreign_table_name: self.foreign_table_name.clone(),
        }
    }
}

impl PsqlForeignKey {
    pub fn new(
        name: &str,
        column: PsqlTableColumn,
        foreign_table_schema: &str,
        foreign_table_name: &str,
    ) -> (fk: PsqlForeignKey)
        ensures
            fk@ == (ForeignKeyModel {
                name: name@,
                column: column@,
                foreign_table: (foreign_table_schema@, foreign_table_name@),
            }),
    {
        PsqlForeignKey {
            name: name.to_owned(),
            column,
            foreign_table_schema: foreign_table_schema.to_owned(),
            foreign_table_name: foreign_table_name.to_owned(),
        }
    }
}

#[derive(PartialEq, Eq, Debug, Hash)]
pub struct PsqlTableIdentity {
    pub schema: String,
    pub name: String,
}

impl View for PsqlTableIdentity {
    type V = TableIdModel;

    open spec fn view(&self) -> TableIdModel {
        (self.schema@, self.name@)
    }
}

impl Clone for PsqlTableIdentity {
    fn clone(&self) -> (r: Self)
        ensures
            r == *self,
    {
        PsqlTableIdentity { schema: self.schema.clone(), name: self.name.clone() }
    }
}

/// The text of a table identity: `schema.name`.
pub open spec fn table_id_text(id: TableIdModel) -> Seq<char> {
    id.0 + seq!['.'] + id.1
}

impl PsqlTableIdentity {
    pub fn new(schema: &str, name: &str) -> (id: PsqlTableIdentity)
        ensures
            id@ == (schema@, name@),
    {
        PsqlTableIdentity { schema: schema.to_owned(), name: name.to_owned() }
    }

    /// Both identities name the same table.
    pub fn same_as(&self, other: &PsqlTableIdentity) -> (r: bool)
        ensures
            r == (self@ == other@),
    {
        str_eq(self.schema.as_str(), other.schema.as_str()) && str_eq(
            self.name.as_str(),
            other.name.as_str(),
        )
    }

    /// The identity as text, `schema.name`.
    pub fn display(&self) -> (s: String)
        ensures
            s@ == table_id_text(self@),
    {
        let mut s = self.schema.clone();
        push_char(&mut s, '.');
        s.append(self.name.as_str());
        s
    }
}

// ---------------------------------------------------------------------
// Foreign keys by constraint name
// ---------------------------------------------------------------------

/// The map that a list of `(name, key)` entries stands for: a later entry
/// replaces an earlier one with the same name.
pub open spec fn fk_entries_map(entries: Seq<(String, PsqlForeignKey)>) -> Map<
    Seq<char>,
    ForeignKeyModel,
>
    decreases entries.len(),
{
    if entries.len() == 0 {
        Map::empty()
    } else {
        fk_entries_map(entries.drop_last()).insert(entries.last().0@, entries.last().1@)
    }
}

/// Foreign keys indexed by their constraint name.
#[derive(PartialEq, Eq, Debug)]
pub struct ForeignKeysByName {
    entries: Vec<(String, PsqlForeignKey)>,
}

impl View for ForeignKeysByName {
    type V = Map<Seq<char>, ForeignKeyModel>;

    closed spec fn view(&self) -> Map<Seq<char>, ForeignKeyModel> {
        fk_entries_map(self.entries@)
    }
}

/// No two entries carry the same name.
pub open spec fn names_distinct(entries: Seq<(String, PsqlForeignKey)>) -> bool {
    forall|i: int, j: int|
        0 <= i < entries.len() && 0 <= j < entries.len() && i != j ==> entries[i].0@
            != entries[j].0@
}

/// With distinct names, the map holds one key per entry.
proof fn lemma_fk_entries_map_len(entries: Seq<(String, PsqlForeignKey)>)
    requires
        names_distinct(entries),
    ensures
        fk_entries_map(entries).dom().finite(),
        fk_entries_map(entries).dom().len() == entries.len(),
        forall|k: Seq<char>|
            fk_entries_map(entries).contains_key(k) <==> exists|i: int|
                0 <= i < entries.len() && entries[i].0@ == k,
    decreases entries.len(),
{
    if entries.len() > 0 {
        let init = entries.drop_last();
        lemma_fk_entries_map_len(init);
        assert(!fk_entries_map(init).contains_key(entries.last().0@)) by {
            if fk_entries_map(init).contains_key(entries.last().0@) {
                let i = choose|i: int| 0 <= i < init.len() && init[i].0@ == entries.last().0@;
                assert(entries[i].0@ == entries[entries.len() - 1].0@);
            }
        }
        assert forall|k: Seq<char>|
            fk_entries_map(entries).contains_key(k) <==> exists|i: int|
                0 <= i < entries.len() && entries[i].0@ == k by {
            if fk_entries_map(entries).contains_key(k) && k != entries.last().0@ {
                let i = choose|i: int| 0 <= i < init.len() && init[i].0@ == k;
                assert(entries[i].0@ == k);
            }
            if exists|i: int| 0 <= i < entries.len() && entries[i].0@ == k {
                let i = choose|i: int| 0 <= i < entries.len() && entries[i].0@ == k;
                if i < entries.len() - 1 {
                    assert(init[i].0@ == k);
                }
            }
        }
    }
}

/// The entry at `i` is the value of its name when no later entry has that name.
proof fn lemma_fk_entries_map_at(entries: Seq<(String, PsqlForeignKey)>, i: int)
    requires
        0 <= i < entries.len(),
        forall|j: int| i < j < entries.len() ==> entries[j].0@ != entries[i].0@,
    ensures
        fk_entries_map(entries).contains_key(entries[i].0@),
        fk_entries_map(entries)[entries[i].0@] == entries[i].1@,
    decreases entries.len(),
{
    if i < entries.len() - 1 {
        lemma_fk_entries_map_at(entries.drop_last(), i);
    }
}

/// No entry after `i` carries the name `k`, so the map of the first `i`
/// entries knows `k` as the map of all of them does.
proof fn lemma_fk_entries_map_absent(entries: Seq<(String, PsqlForeignKey)>, k: Seq<char>)
    requires
        forall|j: int| 0 <= j < entries.len() ==> entries[j].0@ != k,
    ensures
        !fk_entries_map(entries).contains_key(k),
    decreases entries.len(),
{
    if entries.len() > 0 {
        lemma_fk_entries_map_absent(entries.drop_last(), k);
    }
}

/// After `insert(name, fk)`, `get(name)` gives `fk`, and `get` of any other
/// name gives what it gave before.
pub proof fn lemma_foreign_keys_read_after_insert(
    before: Map<Seq<char>, ForeignKeyModel>,
    name: Seq<char>,
    fk: ForeignKeyModel,
    other: Seq<char>,
)
    ensures
        before.insert(name, fk).contains_key(name),
        before.insert(name, fk)[name] == fk,
        other != name ==> (before.insert(name, fk).contains_key(other) == before.contains_key(other)),
        other != name && before.contains_key(other) ==> before.insert(name, fk)[other] == before[other],
{
}

impl ForeignKeysByName {
    #[verifier::type_invariant]
    closed spec fn inv(self) -> bool {
        names_distinct(self.entries@)
    }

    /// No foreign keys.
    pub fn new() -> (m: ForeignKeysByName)
        ensures
            m@ == Map::<Seq<char>, ForeignKeyModel>::empty(),
    {
        ForeignKeysByName { entries: Vec::new() }
    }

    /// The number of constraint names.
    pub fn len(&self) -> (n: usize)
        ensures
            n == self@.dom().len(),
            self@.dom().finite(),
    {
        proof {
            use_type_invariant(self);
            lemma_fk_entries_map_len(self.entries@);
        }
        self.entries.len()
    }

    /// The index of the entry named `name`.
    fn position(&self, name: &str) -> (r: Option<usize>)
        ensures
            r matches Some(i) ==> i < self.entries@.len() && self.entries@[i as int].0@ == name@,
            r is None ==> forall|j: int|
                0 <= j < self.entries@.len() ==> self.entries@[j].0@ != name@,
    {
        let mut i: usize = 0;
        while i < self.entries.len()
            invariant
                i <= self.entries@.len(),
                forall|j: int| 0 <= j < i ==> self.entries@[j].0@ != name@,
            decreases self.entries@.len() - i,
        {
            if str_eq(self.entries[i].0.as_str(), name) {
                return Some(i);
            }
            i = i + 1;
        }
        None
    }

    /// The foreign key with constraint name `name`.
    pub fn get(&self, name: &str) -> (r: Option<&PsqlForeignKey>)
        ensures
            r matches Some(fk) ==> self@.contains_key(name@) && self@[name@] == fk@,
            r is None ==> !self@.contains_key(name@),
    {
        proof {
            use_type_invariant(self);
        }
        match self.position(name) {
            Some(i) => {
                proof {
                    lemma_fk_entries_map_at(self.entries@, i as int);
                }
                Some(&self.entries[i].1)
            },
            None => {
                proof {
                    lemma_fk_entries_map_absent(self.entries@, name@);
                }
                None
            },
        }
    }

    /// Sets the foreign key of constraint name `name`, replacing the one it had.
    pub fn insert(&mut self, name: String, fk: PsqlForeignKey)
        ensures
            final(self)@ == old(self)@.insert(name@, fk@),
    {
        proof {
            use_type_invariant(&*self);
        }
        let ghost old_entries = self.entries@;
        let found = self.position(name.as_str());
        let mut entries: Vec<(String, PsqlForeignKey)> = Vec::new();
        std::mem::swap(&mut entries, &mut self.entries);
        match found {
            Some(i) => {
                let ghost k = name@;
                entries.set(i, (name, fk));
                proof {
                    assert forall|j: int|
                        0 <= j < entries@.len() && j != i implies entries@[j].0@ != k by {
                        assert(entries@[j] == old_entries[j]);
                    }
                    assert(names_distinct(entries@));
                }
                self.entries = entries;
                proof {
                    assert forall|j: int|
                        0 <= j < self.entries@.len() && j != i implies self.entries@[j].0@ != k by {
                        assert(self.entries@[j] == old_entries[j]);
                    }
                    let new_entries = self.entries@;
                    lemma_fk_entries_map_len(old_entries);
                    lemma_fk_entries_map_len(new_entries);
                    lemma_fk_entries_map_at(new_entries, i as int);
                    assert forall|key: Seq<char>|
                        fk_entries_map(new_entries).contains_key(key) <==> fk_entries_map(
                            old_entries,
                        ).insert(k, fk@).contains_key(key) by {
                        if exists|j: int| 0 <= j < new_entries.len() && new_entries[j].0@ == key {
                            let j = choose|j: int|
                                0 <= j < new_entries.len() && new_entries[j].0@ == key;
                            if j != i {
                                assert(old_entries[j].0@ == key);
                            }
                        }
                        if exists|j: int| 0 <= j < old_entries.len() && old_entries[j].0@ == key {
                            let j = choose|j: int|
                                0 <= j < old_entries.len() && old_entries[j].0@ == key;
                            if j != i {
                                assert(new_entries[j].0@ == key);
                            }
                        }
                    }
                    assert forall|key: Seq<char>|
                        #![trigger fk_entries_map(new_entries).contains_key(key)]
                        fk_entries_map(new_entries).contains_key(key) && key != k
                            implies fk_entries_map(new_entries)[key] == fk_entries_map(
                            old_entries,
                        )[key] by {
                        let j = choose|j: int| 0 <= j < new_entries.len() && new_entries[j].0@ == key;
                        assert(j != i);
                        assert(new_entries[j] == old_entries[j]);
                        lemma_fk_entries_map_at(new_entries, j);
                        lemma_fk_entries_map_at(old_entries, j);
                    }
                    assert(fk_entries_map(new_entries) =~= fk_entries_map(old_entries).insert(
                        k,
                        fk@,
                    ));
                }
            },
            None => {
                let ghost k = name@;
                entries.push((name, fk));
                assert(entries@.drop_last() =~= old_entries);
                assert(names_distinct(entries@));
                self.entries = entries;
            },
        }
    }

    /// The foreign keys with their names, in insertion order.
    pub closed spec fn entry_views(&self) -> Seq<(Seq<char>, ForeignKeyModel)> {
        self.entries@.map_values(|e: (String, PsqlForeignKey)| (e.0@, e.1@))
    }

    /// The foreign keys, in insertion order, with their names.
    pub fn entries(&self) -> (r: &Vec<(String, PsqlForeignKey)>)
        ensures
            fk_entries_map(r@) == self@,
            names_distinct(r@),
            r@.map_values(|e: (String, PsqlForeignKey)| (e.0@, e.1@)) == self.entry_views(),
            forall|k: int|
                0 <= k < self.entry_views().len() ==> self@.contains_key(
                    (#[trigger] self.entry_views()[k]).0,
                ) && self@[self.entry_views()[k].0] == self.entry_views()[k].1,
            forall|name: Seq<char>|
                #[trigger] self@.contains_key(name) ==> exists|k: int|
                    0 <= k < self.entry_views().len() && self.entry_views()[k].0 == name,
    {
        proof {
            use_type_invariant(self);
            lemma_fk_entries_map_len(self.entries@);
            assert forall|name: Seq<char>| #[trigger] self@.contains_key(name) implies exists|k: int|
                0 <= k < self.entry_views().len() && self.entry_views()[k].0 == name by {
                let k = choose|i: int| 0 <= i < self.entries@.len() && self.entries@[i].0@ == name;
                assert(self.entry_views()[k] == (self.entries@[k].0@, self.entries@[k].1@));
            }
            assert forall|k: int| 0 <= k < self.entry_views().len() implies self@.contains_key(
                (#[trigger] self.entry_views()[k]).0,
            ) && self@[self.entry_views()[k].0] == self.entry_views()[k].1 by {
                assert(self.entry_views()[k] == (self.entries@[k].0@, self.entries@[k].1@));
                lemma_fk_entries_map_at(self.entries@, k);
            }
        }
        &self.entries
    }
}

impl Clone for ForeignKeysByName {
    fn clone(&self) -> (r: Self)
        ensures
            r@ == self@,
    {
        proof {
            use_type_invariant(self);
        }
        let mut entries: Vec<(String, PsqlForeignKey)> = Vec::new();
        let mut i: usize = 0;
        while i < self.entries.len()
            invariant
                i <= self.entries@.len(),
                entries@ == self.entries@.take(i as int),
            decreases self.entries@.len() - i,
        {
            let e = (self.entries[i].0.clone(), self.entries[i].1.clone());
            entries.push(e);
            assert(entries@ =~= self.entries@.take(i + 1));
            i = i + 1;
        }
        assert(entries@ =~= self.entries@);
        ForeignKeysByName { entries }
    }
}

// ---------------------------------------------------------------------
// Tables
// ---------------------------------------------------------------------

/// A view of a table.
#[verifier::ext_equal]
pub struct TableModel {
    pub id: TableIdModel,
    pub primary_column: ColumnModel,
    pub columns: Seq<ColumnModel>,
    pub referenced_fk_by_constraint_name: Map<Seq<char>, ForeignKeyModel>,
    pub referencing_fk_by_constraint_name: Map<Seq<char>, ForeignKeyModel>,
}

/// The views of a sequence of columns.
pub open spec fn column_views(s: Seq<PsqlTableColumn>) -> Seq<ColumnModel> {
    s.map_values(|c: PsqlTableColumn| c@)
}

#[derive(PartialEq, Eq, Debug)]
pub struct PsqlTable {
    pub id: PsqlTableIdentity,
    pub primary_column: PsqlTableColumn,
    pub columns: Vec<PsqlTableColumn>,
    pub referenced_fk_by_constraint_name: ForeignKeysByName,
    pub referencing_fk_by_constraint_name: ForeignKeysByName,
}

impl View for PsqlTable {
    type V = TableModel;

    open spec fn view(&self) -> TableModel {
        TableModel {
            id: self.id@,
            primary_column: self.primary_column@,
            columns: column_views(self.columns@),
            referenced_fk_by_constraint_name: self.referenced_fk_by_constraint_name@,
            referencing_fk_by_constraint_name: self.referencing_fk_by_constraint_name@,
        }
    }
}

impl Clone for PsqlTable {
    fn clone(&self) -> (r: Self)
        ensures
            r@ == self@,
    {
        let columns = self.columns.clone();
        assert(column_views(columns@) =~= column_views(self.columns@));
        PsqlTable {
            id: self.id.clone(),
            primary_column: self.primary_column.clone(),
            columns,
            referenced_fk_by_constraint_name: self.referenced_fk_by_constraint_name.clone(),
            referencing_fk_by_constraint_name: self.referencing_fk_by_constraint_name.clone(),
        }
    }
}

impl PsqlTable {
    pub fn new(
        schema: &str,
        name: &str,
        primary_column: PsqlTableColumn,
        columns: Vec<PsqlTableColumn>,
        referenced_fk_by_constraint_name: ForeignKeysByName,
        referencing_fk_by_constraint_name: ForeignKeysByName,
    ) -> (table: PsqlTable)
        ensures
            table@ == (TableModel {
                id: (schema@, name@),
                primary_column: primary_column@,
                columns: column_views(columns@),
                referenced_fk_by_constraint_name: referenced_fk_by_constraint_name@,
                referencing_fk_by_constraint_name: referencing_fk_by_constraint_name@,
            }),
    {
        PsqlTable {
            id: PsqlTableIdentity::new(schema, name),
            primary_column,
            columns,
            referenced_fk_by_constraint_name,
            referencing_fk_by_constraint_name,
        }
    }
}

// ---------------------------------------------------------------------
// Rows
// ---------------------------------------------------------------------

/// One column of a fetched row: its name and its value written as an SQL
/// literal, ready to stand in an insert statement.
#[derive(PartialEq, Eq, Debug, Hash)]
pub struct PsqlColumnValue {
    pub name: String,
    pub value: String,
}

/// The SQL string literal of a text: the text in single quotes, every single
/// quote in it doubled.
pub open spec fn sql_text_literal(s: Seq<char>) -> Seq<char> {
    "'"@ + replace_seq(s, "'"@, "''"@) + "'"@
}

impl PsqlColumnValue {
    /// The column `name` holding the text `value`, written as an SQL string
    /// literal.
    pub fn text(name: &str, value: &str) -> (c: PsqlColumnValue)
        ensures
            c.name@ == name@,
            c.value@ == sql_text_literal(value@),
    {
        proof {
            reveal_strlit("'");
            reveal_strlit("''");
        }
        let escaped = replace_str(value, "'", "''");
        let mut literal = String::new();
        append_str(&mut literal, "'");
        append_str(&mut literal, escaped.as_str());
        append_str(&mut literal, "'");
        PsqlColumnValue { name: name.to_owned(), value: literal }
    }
}

/// A view of a fetched row.
#[verifier::ext_equal]
pub struct RowModel {
    pub table: TableModel,
    pub row_id: Seq<char>,
    pub columns: Seq<(Seq<char>, Seq<char>)>,
}

/// A row fetched from a table: the table, how the row's id reads, and its
/// columns in the order the database returned them.
#[derive(PartialEq, Eq, Debug)]
pub struct PsqlTableRow {
    pub table: PsqlTable,
    pub row_id_representation: String,
    pub column_values: Vec<PsqlColumnValue>,
}

/// The views of column values.
pub open spec fn column_value_views(s: Seq<PsqlColumnValue>) -> Seq<(Seq<char>, Seq<char>)> {
    s.map_values(|c: PsqlColumnValue| (c.name@, c.value@))
}

impl View for PsqlTableRow {
    type V = RowModel;

    open spec fn view(&self) -> RowModel {
        RowModel {
            table: self.table@,
            row_id: self.row_id_representation@,
            columns: column_value_views(self.column_values@),
        }
    }
}

/// The value of column `name` in `columns`; with repeated names the last one.
pub open spec fn column_value_of(columns: Seq<(Seq<char>, Seq<char>)>, name: Seq<char>) -> Option<
    Seq<char>,
>
    decreases columns.len(),
{
    if columns.len() == 0 {
        None
    } else if columns.last().0 == name {
        Some(columns.last().1)
    } else {
        column_value_of(columns.drop_last(), name)
    }
}

/// The names of the columns, in order.
pub open spec fn column_names_of(columns: Seq<(Seq<char>, Seq<char>)>) -> Seq<Seq<char>> {
    columns.map_values(|c: (Seq<char>, Seq<char>)| c.0)
}

impl Clone for PsqlColumnValue {
    fn clone(&self) -> (r: Self)
        ensures
            r.name@ == self.name@,
            r.value@ == self.value@,
    {
        PsqlColumnValue { name: self.name.clone(), value: self.value.clone() }
    }
}

impl Clone for PsqlTableRow {
    fn clone(&self) -> (r: Self)
        ensures
            r@ == self@,
    {
        let mut column_values: Vec<PsqlColumnValue> = Vec::new();
        let mut i: usize = 0;
        while i < self.column_values.len()
            invariant
                i <= self.column_values@.len(),
                column_value_views(column_values@) == column_value_views(self.column_values@).take(
                    i as int,
                ),
            decreases self.column_values@.len() - i,
        {
            let c = self.column_values[i].clone();
            let ghost before = column_value_views(column_values@);
            column_values.push(c);
            assert(column_value_views(column_values@) =~= before.push(
                (self.column_values@[i as int].name@, self.column_values@[i as int].value@),
            ));
            assert(column_value_views(self.column_values@).take(i + 1) =~= column_value_views(
                self.column_values@,
            ).take(i as int).push(
                (self.column_values@[i as int].name@, self.column_values@[i as int].value@),
            ));
            i = i + 1;
        }
        assert(column_value_views(self.column_values@).take(i as int) =~= column_value_views(
            self.column_values@,
        ));
        PsqlTableRow {
            table: self.table.clone(),
            row_id_representation: self.row_id_representation.clone(),
            column_values,
        }
    }
}

impl PsqlTableRow {
    /// The names of the row's columns, in order.
    pub fn get_column_names(&self) -> (names: Vec<String>)
        ensures
            crate::text::views(names@) == column_names_of(self@.columns),
    {
        let mut names: Vec<String> = Vec::new();
        let mut i: usize = 0;
        while i < self.column_values.len()
            invariant
                i <= self.column_values@.len(),
                crate::text::views(names@) == column_names_of(self@.columns).take(i as int),
            decreases self.column_values@.len() - i,
        {
            let ghost old_names = crate::text::views(names@);
            names.push(self.column_values[i].name.clone());
            assert(crate::text::views(names@) =~= old_names.push(self.column_values@[i as int].name@));
            assert(column_names_of(self@.columns)[i as int] == self.column_values@[i as int].name@);
            assert(crate::text::views(names@) =~= column_names_of(self@.columns).take(i + 1));
            i = i + 1;
        }
        assert(column_names_of(self@.columns).take(i as int) =~= column_names_of(self@.columns));
        names
    }

    /// The value of column `name` (the last one, should the name repeat).
    pub fn get_column_value(&self, name: &str) -> (r: Option<&String>)
        ensures
            r matches Some(v) ==> column_value_of(self@.columns, name@) == Some(v@),
            r is None ==> column_value_of(self@.columns, name@) is None,
    {
        let mut i: usize = self.column_values.len();
        assert(self@.columns.take(i as int) =~= self@.columns);
        while i > 0
            invariant
                i <= self.column_values@.len(),
                column_value_of(self@.columns, name@) == column_value_of(
                    self@.columns.take(i as int),
                    name@,
                ),
            decreases i,
        {
            let c = &self.column_values[i - 1];
            assert(self@.columns.take(i as int).drop_last() =~= self@.columns.take(i - 1));
            if str_eq(c.name.as_str(), name) {
                return Some(&c.value);
            }
            i = i - 1;
        }
        None
    }
}

// ---------------------------------------------------------------------
// Uuid
// ---------------------------------------------------------------------

/// The lowercase hexadecimal digit of `n` (`0 <= n < 16`).
pub open spec fn hex_digit_lower(n: int) -> char {
    if n < 10 {
        (48 + n) as char
    } else {
        (97 + n - 10) as char
    }
}

/// Each byte as two lowercase hexadecimal digits, high nibble first.
pub open spec fn hex_lower(bytes: Seq<u8>) -> Seq<char>
    decreases bytes.len(),
{
    if bytes.len() == 0 {
        Seq::empty()
    } else {
        seq![hex_digit_lower((bytes[0] / 16) as int), hex_digit_lower((bytes[0] % 16) as int)] + hex_lower(
            bytes.drop_first(),
        )
    }
}

/// The hyphenated lowercase text of a uuid's 16 bytes:
/// `xxxxxxxx-xxxx-xxxx-xxxx-xxxxxxxxxxxx`.
pub open spec fn uuid_text(b: Seq<u8>) -> Seq<char> {
    hex_lower(b.subrange(0, 4)) + seq!['-'] + hex_lower(b.subrange(4, 6)) + seq!['-'] + hex_lower(
        b.subrange(6, 8),
    ) + seq!['-'] + hex_lower(b.subrange(8, 10)) + seq!['-'] + hex_lower(b.subrange(10, 16))
}

/// A hexadecimal digit, either case.
pub open spec fn is_hex_digit(c: char) -> bool {
    ('0' <= c <= '9') || ('a' <= c <= 'f') || ('A' <= c <= 'F')
}

/// The value of a hexadecimal digit.
pub open spec fn hex_value(c: char) -> int {
    if '0' <= c <= '9' {
        c as int - 48
    } else if 'a' <= c <= 'f' {
        c as int - 97 + 10
    } else {
        c as int - 65 + 10
    }
}

/// Positions of the hyphens in the hyphenated text.
pub open spec fn is_hyphen_position(i: int) -> bool {
    i == 8 || i == 13 || i == 18 || i == 23
}

/// `s` is a uuid in hyphenated form: 36 characters, hyphens at positions
/// 8, 13, 18 and 23, hexadecimal digits (either case) elsewhere.
pub open spec fn is_hyphenated_uuid(s: Seq<char>) -> bool {
    &&& s.len() == 36
    &&& forall|i: int|
        0 <= i < 36 ==> if is_hyphen_position(i) {
            s[i] == '-'
        } else {
            is_hex_digit(s[i])
        }
}

/// The 32 digits of a hyphenated uuid.
pub open spec fn uuid_digits(s: Seq<char>) -> Seq<char> {
    s.subrange(0, 8) + s.subrange(9, 13) + s.subrange(14, 18) + s.subrange(19, 23) + s.subrange(
        24,
        36,
    )
}

/// The bytes that pairs of hexadecimal digits stand for.
pub open spec fn hex_bytes(digits: Seq<char>) -> Seq<u8> {
    Seq::new(
        digits.len() / 2,
        |i: int| (hex_value(digits[2 * i]) * 16 + hex_value(digits[2 * i + 1])) as u8,
    )
}

/// `s` is a hyphenated uuid written with lowercase digits only.
pub open spec fn is_lowercase_hyphenated_uuid(s: Seq<char>) -> bool {
    &&& is_hyphenated_uuid(s)
    &&& forall|i: int| 0 <= i < 36 ==> !('A' <= #[trigger] s[i] <= 'F')
}

proof fn lemma_hex_lower_len(bytes: Seq<u8>)
    ensures
        hex_lower(bytes).len() == 2 * bytes.len(),
    decreases bytes.len(),
{
    if bytes.len() > 0 {
        lemma_hex_lower_len(bytes.drop_first());
    }
}

/// Byte `i` is written at positions `2i` (high nibble) and `2i + 1` (low nibble).
proof fn lemma_hex_lower_at(bytes: Seq<u8>, i: int)
    requires
        0 <= i < bytes.len(),
    ensures
        hex_lower(bytes).len() == 2 * bytes.len(),
        hex_lower(bytes)[2 * i] == hex_digit_lower((bytes[i] / 16) as int),
        hex_lower(bytes)[2 * i + 1] == hex_digit_lower((bytes[i] % 16) as int),
    decreases bytes.len(),
{
    lemma_hex_lower_len(bytes);
    lemma_hex_lower_len(bytes.drop_first());
    if i > 0 {
        lemma_hex_lower_at(bytes.drop_first(), i - 1);
    }
}

/// The digits of a range of bytes are the matching range of the digits.
proof fn lemma_hex_lower_subrange(bytes: Seq<u8>, lo: int, hi: int)
    requires
        0 <= lo <= hi <= bytes.len(),
    ensures
        hex_lower(bytes.subrange(lo, hi)) == hex_lower(bytes).subrange(2 * lo, 2 * hi),
{
    let part = bytes.subrange(lo, hi);
    lemma_hex_lower_len(bytes);
    lemma_hex_lower_len(part);
    assert forall|k: int| 0 <= k < 2 * (hi - lo) implies #[trigger] hex_lower(part)[k] == hex_lower(
        bytes,
    )[2 * lo + k] by {
        let j = k / 2;
        lemma_hex_lower_at(part, j);
        lemma_hex_lower_at(bytes, lo + j);
        assert(part[j] == bytes[lo + j]);
        if k % 2 == 0 {
            assert(k == 2 * j);
        } else {
            assert(k == 2 * j + 1);
        }
    }
    assert(hex_lower(part) =~= hex_lower(bytes).subrange(2 * lo, 2 * hi));
}

/// A nibble's digit is a lowercase hexadecimal digit of that value.
proof fn lemma_hex_digit(n: int)
    requires
        0 <= n < 16,
    ensures
        is_hex_digit(hex_digit_lower(n)),
        !('A' <= hex_digit_lower(n) <= 'F'),
        hex_value(hex_digit_lower(n)) == n,
{
}

/// A lowercase hexadecimal digit is the digit of its value.
proof fn lemma_digit_of_value(c: char)
    requires
        is_hex_digit(c),
        !('A' <= c <= 'F'),
    ensures
        0 <= hex_value(c) < 16,
        hex_digit_lower(hex_value(c)) == c,
{
    assert(c as int == (c as int) as char as int);
}

/// The 36 characters of a uuid's text: the digits of its bytes, with a
/// hyphen after the 8th, 12th, 16th and 20th digit.
proof fn lemma_uuid_text_layout(b: Seq<u8>)
    requires
        b.len() == 16,
    ensures
        uuid_text(b).len() == 36,
        uuid_digits(uuid_text(b)) == hex_lower(b),
        forall|i: int| 0 <= i < 36 && is_hyphen_position(i) ==> uuid_text(b)[i] == '-',
{
    let h = hex_lower(b);
    lemma_hex_lower_len(b);
    lemma_hex_lower_subrange(b, 0, 4);
    lemma_hex_lower_subrange(b, 4, 6);
    lemma_hex_lower_subrange(b, 6, 8);
    lemma_hex_lower_subrange(b, 8, 10);
    lemma_hex_lower_subrange(b, 10, 16);
    let t = uuid_text(b);
    assert(t == h.subrange(0, 8) + seq!['-'] + h.subrange(8, 12) + seq!['-'] + h.subrange(12, 16)
        + seq!['-'] + h.subrange(16, 20) + seq!['-'] + h.subrange(20, 32));
    assert(uuid_digits(t) =~= h);
}

/// A uuid's text is a lowercase hyphenated uuid, and its digits give the
/// uuid's bytes back: `Uuid::from_str` of `Uuid::to_string` is the same uuid.
pub proof fn lemma_uuid_text_reads_back(b: Seq<u8>)
    requires
        b.len() == 16,
    ensures
        is_lowercase_hyphenated_uuid(uuid_text(b)),
        hex_bytes(uuid_digits(uuid_text(b))) == b,
{
    let h = hex_lower(b);
    let t = uuid_text(b);
    lemma_uuid_text_layout(b);
    assert forall|j: int| 0 <= j < 32 implies is_hex_digit(#[trigger] h[j]) && !('A' <= h[j] <= 'F') by {
        lemma_hex_lower_at(b, j / 2);
        if j % 2 == 0 {
            assert(j == 2 * (j / 2));
            lemma_hex_digit((b[j / 2] / 16) as int);
        } else {
            assert(j == 2 * (j / 2) + 1);
            lemma_hex_digit((b[j / 2] % 16) as int);
        }
    }
    assert forall|i: int| 0 <= i < 36 && !is_hyphen_position(i) implies is_hex_digit(
        #[trigger] t[i],
    ) && !('A' <= t[i] <= 'F') by {
        let d = uuid_digits(t);
        if i < 8 {
            assert(t[i] == d[i]);
        } else if i < 13 {
            assert(t[i] == d[i - 1]);
        } else if i < 18 {
            assert(t[i] == d[i - 2]);
        } else if i < 23 {
            assert(t[i] == d[i - 3]);
        } else {
            assert(t[i] == d[i - 4]);
        }
    }
    assert forall|i: int| 0 <= i < 16 implies #[trigger] hex_bytes(h)[i] == b[i] by {
        lemma_hex_lower_at(b, i);
        lemma_hex_digit((b[i] / 16) as int);
        lemma_hex_digit((b[i] % 16) as int);
    }
    assert(hex_bytes(h) =~= b);
}

/// A lowercase hyphenated uuid text is the text of the uuid its digits give:
/// `Uuid::to_string` of `Uuid::from_str` gives the text back.
pub proof fn lemma_uuid_bytes_write_back(s: Seq<char>)
    requires
        is_lowercase_hyphenated_uuid(s),
    ensures
        hex_bytes(uuid_digits(s)).len() == 16,
        uuid_text(hex_bytes(uuid_digits(s))) == s,
{
    let d = uuid_digits(s);
    let b = hex_bytes(d);
    assert(d.len() == 32);
    assert forall|j: int| 0 <= j < 32 implies is_hex_digit(#[trigger] d[j]) && !('A' <= d[j] <= 'F') by {
        if j < 8 {
            assert(d[j] == s[j]);
        } else if j < 12 {
            assert(d[j] == s[j + 1]);
        } else if j < 16 {
            assert(d[j] == s[j + 2]);
        } else if j < 20 {
            assert(d[j] == s[j + 3]);
        } else {
            assert(d[j] == s[j + 4]);
        }
    }
    lemma_hex_lower_len(b);
    assert forall|j: int| 0 <= j < 32 implies #[trigger] hex_lower(b)[j] == d[j] by {
        let i = j / 2;
        lemma_hex_lower_at(b, i);
        let hi = hex_value(d[2 * i]);
        let lo = hex_value(d[2 * i + 1]);
        lemma_digit_of_value(d[2 * i]);
        lemma_digit_of_value(d[2 * i + 1]);
        assert(b[i] == (hi * 16 + lo) as u8);
        assert(b[i] / 16 == hi && b[i] % 16 == lo);
        if j % 2 == 0 {
            assert(j == 2 * i);
        } else {
            assert(j == 2 * i + 1);
        }
    }
    assert(hex_lower(b) =~= d);
    lemma_uuid_text_layout(b);
    let t = uuid_text(b);
    assert forall|i: int| 0 <= i < 36 implies #[trigger] t[i] == s[i] by {
        if !is_hyphen_position(i) {
            if i < 8 {
                assert(t[i] == uuid_digits(t)[i]);
            } else if i < 13 {
                assert(t[i] == uuid_digits(t)[i - 1]);
            } else if i < 18 {
                assert(t[i] == uuid_digits(t)[i - 2]);
            } else if i < 23 {
                assert(t[i] == uuid_digits(t)[i - 3]);
            } else {
                assert(t[i] == uuid_digits(t)[i - 4]);
            }
        }
    }
    assert(t =~= s);
}

/// What `uuid::Uuid::parse_str` makes of a text: its 16 bytes, or nothing
/// when it does not read the text as a uuid.
pub uninterp spec fn uuid_parse(input: Seq<char>) -> Option<Seq<u8>>;

#[verifier::external_type_specification]
#[verifier::external_body]
pub struct ExUuidError(uuid::Error);

/// `uuid::Uuid::parse_str`, giving the bytes of the parsed uuid. Its result is
/// `uuid_parse` of the text; the contract also states the documented case of
/// the hyphenated form, whose digits give the bytes pairwise. What it makes of
/// the other forms (simple, braced, urn) is left unsaid.
#[verifier::external_body]
fn parse_uuid_bytes(input: &str) -> (r: Result<[u8; 16], uuid::Error>)
    ensures
        r is Ok <==> uuid_parse(input@) is Some,
        r is Ok ==> Some(r->Ok_0@) == uuid_parse(input@),
        is_hyphenated_uuid(input@) ==> r is Ok && r->Ok_0@ == hex_bytes(uuid_digits(input@)),
{
    uuid::Uuid::parse_str(input).map(|u| *u.as_bytes())
}

/// `uuid::Uuid`'s `Display` (lowercase hyphenated) of the uuid with these bytes.
#[verifier::external_body]
fn uuid_bytes_text(bytes: [u8; 16]) -> (s: String)
    ensures
        s@ == uuid_text(bytes@),
{
    uuid::Builder::from_bytes(bytes).into_uuid().to_string()
}

/// The message of a `uuid::Error` (its `Display`).
#[verifier::external_body]
fn uuid_error_message(err: &uuid::Error) -> (s: String) {
    err.to_string()
}

/// Why a text is no uuid: the text, and the parser's message.
#[derive(Debug, PartialEq, Eq)]
pub enum UuidError {
    InvalidUuid { value: String, reason: String },
}

#[derive(Debug, PartialEq, Eq)]
pub struct Uuid {
    bytes: [u8; 16],
}

impl View for Uuid {
    type V = Seq<u8>;

    closed spec fn view(&self) -> Seq<u8> {
        self.bytes@
    }
}

impl Uuid {
    pub fn from_bytes(bytes: [u8; 16]) -> (u: Self)
        ensures
            u@ == bytes@,
    {
        Uuid { bytes }
    }

    /// The uuid that `val` writes, in any form that `uuid::Uuid::parse_str` reads.
    pub fn from_str(val: &str) -> (r: Result<Self, UuidError>)
        ensures
            r is Ok <==> uuid_parse(val@) is Some,
            r matches Ok(u) ==> Some(u@) == uuid_parse(val@),
            r matches Err(UuidError::InvalidUuid { value, .. }) ==> value@ == val@,
            is_hyphenated_uuid(val@) ==> (r matches Ok(u) && u@ == hex_bytes(uuid_digits(val@))),
    {
        match parse_uuid_bytes(val) {
            Ok(bytes) => Ok(Uuid::from_bytes(bytes)),
            Err(e) => Err(UuidError::InvalidUuid { value: val.to_owned(), reason: uuid_error_message(&e) }),
        }
    }

    /// The uuid of 16 raw bytes as postgres sends them.
    pub fn from_sql_bytes(raw: &[u8]) -> (u: Self)
        requires
            raw@.len() == 16,
        ensures
            u@ == raw@,
    {
        let mut bytes: [u8; 16] = [0; 16];
        let mut i: usize = 0;
        while i < 16
            invariant
                raw@.len() == 16,
                i <= 16,
                forall|j: int| 0 <= j < i ==> bytes@[j] == raw@[j],
            decreases 16 - i,
        {
            bytes[i] = raw[i];
            i = i + 1;
        }
        assert(bytes@ =~= raw@);
        Uuid { bytes }
    }

    /// The raw bytes.
    pub fn as_bytes(&self) -> (b: [u8; 16])
        ensures
            b@ == self@,
    {
        self.bytes
    }

    /// The hyphenated lowercase text of the uuid.
    pub fn to_string(&self) -> (s: String)
        ensures
            s@ == uuid_text(self@),
    {
        uuid_bytes_text(self.bytes)
    }
}

} // verus!
