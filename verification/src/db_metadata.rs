//! The table structure of a database: tables indexed by identity, and the
//! foreign key relations between them read from `information_schema` rows.

use vstd::prelude::*;

use crate::dto::{
    ColumnModel, ForeignKeyModel, ForeignKeysByName, PsqlForeignKey, PsqlTable, PsqlTableColumn,
    PsqlTableIdentity, TableIdModel, TableModel,
};
use crate::text::str_eq;

verus! {

/// A view of a foreign key information row.
#[verifier::ext_equal]
pub struct FkInfoModel {
    pub constraint_name: Seq<char>,
    pub table_schema: Seq<char>,
    pub table_name: Seq<char>,
    pub column_name: Seq<char>,
    pub column_data_type: Seq<char>,
    pub foreign_table_schema: Seq<char>,
    pub foreign_table_name: Seq<char>,
    pub foreign_column_name: Seq<char>,
    pub foreign_column_data_type: Seq<char>,
}

/// One foreign key constraint column: table X's column refers to table Y's
/// column.
#[derive(PartialEq, Debug)]
pub struct ForeignKeyInformationRow {
    pub constraint_name: String,
    // From table X
    pub table_schema: String,
    pub table_name: String,
    pub column_name: String,
    pub column_data_type: String,
    // referencing to table Y
    pub foreign_table_schema: String,
    pub foreign_table_name: String,
    pub foreign_column_name: String,
    pub foreign_column_data_type: String,
}

impl View for ForeignKeyInformationRow {
    type V = FkInfoModel;

    open spec fn view(&self) -> FkInfoModel {
        FkInfoModel {
            constraint_name: self.constraint_name@,
            table_schema: self.table_schema@,
            table_name: self.table_name@,
            column_name: self.column_name@,
            column_data_type: self.column_data_type@,
            foreign_table_schema: self.foreign_table_schema@,
            foreign_table_name: self.foreign_table_name@,
            foreign_column_name: self.foreign_column_name@,
            foreign_column_data_type: self.foreign_column_data_type@,
        }
    }
}

/// The views of a sequence of rows.
pub open spec fn fk_row_views(rows: Seq<ForeignKeyInformationRow>) -> Seq<FkInfoModel> {
    rows.map_values(|r: ForeignKeyInformationRow| r@)
}

/// The row describes a key of table `id` (the referencing side) or a key
/// pointing at table `id` (the referenced side).
pub open spec fn row_concerns(r: FkInfoModel, id: TableIdModel, referencing: bool) -> bool {
    if referencing {
        (r.table_schema, r.table_name) == id
    } else {
        (r.foreign_table_schema, r.foreign_table_name) == id
    }
}

/// The foreign key a row gives to the table it concerns: on the referencing
/// side it points at the foreign table, on the referenced side it points back
/// at the referencing table.
pub open spec fn fk_of_row(r: FkInfoModel, referencing: bool) -> ForeignKeyModel {
    ForeignKeyModel {
        name: r.constraint_name,
        column: (r.column_name, r.column_data_type),
        foreign_table: if referencing {
            (r.foreign_table_schema, r.foreign_table_name)
        } else {
            (r.table_schema, r.table_name)
        },
    }
}

/// The foreign keys that `rows` give table `id` on one side, by constraint
/// name; of rows with the same constraint name the last one counts.
pub open spec fn fk_map_of(rows: Seq<FkInfoModel>, id: TableIdModel, referencing: bool) -> Map<
    Seq<char>,
    ForeignKeyModel,
>
    decreases rows.len(),
{
    if rows.len() == 0 {
        Map::empty()
    } else {
        let m = fk_map_of(rows.drop_last(), id, referencing);
        if row_concerns(rows.last(), id, referencing) {
            m.insert(rows.last().constraint_name, fk_of_row(rows.last(), referencing))
        } else {
            m
        }
    }
}

/// Some row concerns table `id` on that side.
pub open spec fn has_rows_for(rows: Seq<FkInfoModel>, id: TableIdModel, referencing: bool) -> bool {
    exists|i: int| 0 <= i < rows.len() && row_concerns(rows[i], id, referencing)
}

/// The table with its relations set from `rows`: each side that some row
/// concerns is replaced by the keys those rows give; a side no row concerns
/// is left as it was.
pub open spec fn linked_table(t: TableModel, rows: Seq<FkInfoModel>) -> TableModel {
    TableModel {
        referencing_fk_by_constraint_name: if has_rows_for(rows, t.id, true) {
            fk_map_of(rows, t.id, true)
        } else {
            t.referencing_fk_by_constraint_name
        },
        referenced_fk_by_constraint_name: if has_rows_for(rows, t.id, false) {
            fk_map_of(rows, t.id, false)
        } else {
            t.referenced_fk_by_constraint_name
        },
        ..t
    }
}

// ---------------------------------------------------------------------
// Tables by identity
// ---------------------------------------------------------------------

/// The map that a list of tables stands for, indexed by table identity; a
/// later table replaces an earlier one with the same identity.
pub open spec fn tables_map(tables: Seq<PsqlTable>) -> Map<TableIdModel, TableModel>
    decreases tables.len(),
{
    if tables.len() == 0 {
        Map::empty()
    } else {
        tables_map(tables.drop_last()).insert(tables.last().id@, tables.last()@)
    }
}

/// A table sits under its own identity.
proof fn lemma_tables_map_ids(tables: Seq<PsqlTable>)
    ensures
        forall|k: TableIdModel| #[trigger] tables_map(tables).contains_key(k) ==> tables_map(tables)[k].id == k,
    decreases tables.len(),
{
    if tables.len() > 0 {
        lemma_tables_map_ids(tables.drop_last());
        let t = tables.last();
        assert(t@.id == t.id@);
        assert forall|k: TableIdModel| #[trigger] tables_map(tables).contains_key(k) implies tables_map(
            tables,
        )[k].id == k by {
            if k != t.id@ {
                assert(tables_map(tables.drop_last()).contains_key(k));
            }
        }
    }
}

/// No two tables share an identity.
pub open spec fn ids_distinct(tables: Seq<PsqlTable>) -> bool {
    forall|i: int, j: int|
        0 <= i < tables.len() && 0 <= j < tables.len() && i != j ==> tables[i].id@ != tables[j].id@
}

proof fn lemma_tables_map_keys(tables: Seq<PsqlTable>)
    requires
        ids_distinct(tables),
    ensures
        tables_map(tables).dom().finite(),
        tables_map(tables).dom().len() == tables.len(),
        forall|k: TableIdModel|
            tables_map(tables).contains_key(k) <==> exists|i: int|
                0 <= i < tables.len() && tables[i].id@ == k,
    decreases tables.len(),
{
    if tables.len() > 0 {
        let init = tables.drop_last();
        lemma_tables_map_keys(init);
        assert(!tables_map(init).contains_key(tables.last().id@)) by {
            if tables_map(init).contains_key(tables.last().id@) {
                let i = choose|i: int| 0 <= i < init.len() && init[i].id@ == tables.last().id@;
                assert(tables[i].id@ == tables[tables.len() - 1].id@);
            }
        }
        assert forall|k: TableIdModel|
            tables_map(tables).contains_key(k) <==> exists|i: int|
                0 <= i < tables.len() && tables[i].id@ == k by {
            if tables_map(tables).contains_key(k) && k != tables.last().id@ {
                let i = choose|i: int| 0 <= i < init.len() && init[i].id@ == k;
                assert(tables[i].id@ == k);
            }
            if exists|i: int| 0 <= i < tables.len() && tables[i].id@ == k {
                let i = choose|i: int| 0 <= i < tables.len() && tables[i].id@ == k;
                if i < tables.len() - 1 {
                    assert(init[i].id@ == k);
                }
            }
        }
    }
}

proof fn lemma_tables_map_at(tables: Seq<PsqlTable>, i: int)
    requires
        0 <= i < tables.len(),
        forall|j: int| i < j < tables.len() ==> tables[j].id@ != tables[i].id@,
    ensures
        tables_map(tables).contains_key(tables[i].id@),
        tables_map(tables)[tables[i].id@] == tables[i]@,
    decreases tables.len(),
{
    if i < tables.len() - 1 {
        lemma_tables_map_at(tables.drop_last(), i);
    }
}

proof fn lemma_tables_map_absent(tables: Seq<PsqlTable>, k: TableIdModel)
    requires
        forall|j: int| 0 <= j < tables.len() ==> tables[j].id@ != k,
    ensures
        !tables_map(tables).contains_key(k),
    decreases tables.len(),
{
    if tables.len() > 0 {
        lemma_tables_map_absent(tables.drop_last(), k);
    }
}

/// With distinct identities, the map of the list is the map of its elements.
proof fn lemma_tables_map_distinct(tables: Seq<PsqlTable>)
    requires
        ids_distinct(tables),
    ensures
        forall|i: int|
            0 <= i < tables.len() ==> #[trigger] tables_map(tables)[tables[i].id@] == tables[i]@,
{
    assert forall|i: int| 0 <= i < tables.len() implies #[trigger] tables_map(tables)[tables[i].id@]
        == tables[i]@ by {
        lemma_tables_map_at(tables, i);
    }
}

/// Tables indexed by their identity.
#[derive(Debug)]
pub struct PsqlTableMap {
    entries: Vec<PsqlTable>,
}

impl View for PsqlTableMap {
    type V = Map<TableIdModel, TableModel>;

    closed spec fn view(&self) -> Map<TableIdModel, TableModel> {
        tables_map(self.entries@)
    }
}

/// After `insert(table)`, `get` of the table's identity gives the table, and
/// `get` of any other identity gives what it gave before.
pub proof fn lemma_table_map_read_after_insert(
    before: Map<TableIdModel, TableModel>,
    table: PsqlTable,
    other: TableIdModel,
)
    ensures
        before.insert(table.id@, table@).contains_key(table.id@),
        before.insert(table.id@, table@)[table.id@] == table@,
        other != table.id@ ==> (before.insert(table.id@, table@).contains_key(other)
            == before.contains_key(other)),
        other != table.id@ && before.contains_key(other) ==> before.insert(table.id@, table@)[other]
            == before[other],
{
}

impl PsqlTableMap {
    #[verifier::type_invariant]
    closed spec fn inv(self) -> bool {
        ids_distinct(self.entries@)
    }

    /// No tables.
    pub fn new() -> (m: PsqlTableMap)
        ensures
            m@ == Map::<TableIdModel, TableModel>::empty(),
    {
        PsqlTableMap { entries: Vec::new() }
    }

    /// The number of tables.
    /// Every table of the map sits under its own identity.
    pub proof fn lemma_ids(&self)
        ensures
            forall|k: TableIdModel| #[trigger] self@.contains_key(k) ==> self@[k].id == k,
    {
        lemma_tables_map_ids(self.entries@);
    }

    pub fn len(&self) -> (n: usize)
        ensures
            n == self@.dom().len(),
            self@.dom().finite(),
    {
        proof {
            use_type_invariant(self);
            lemma_tables_map_keys(self.entries@);
        }
        self.entries.len()
    }

    fn position(&self, id: &PsqlTableIdentity) -> (r: Option<usize>)
        ensures
            r matches Some(i) ==> i < self.entries@.len() && self.entries@[i as int].id@ == id@,
            r is None ==> forall|j: int|
                0 <= j < self.entries@.len() ==> self.entries@[j].id@ != id@,
    {
        let mut i: usize = 0;
        while i < self.entries.len()
            invariant
                i <= self.entries@.len(),
                forall|j: int| 0 <= j < i ==> self.entries@[j].id@ != id@,
            decreases self.entries@.len() - i,
        {
            if self.entries[i].id.same_as(id) {
                return Some(i);
            }
            i = i + 1;
        }
        None
    }

    /// The table with identity `id`.
    pub fn get(&self, id: &PsqlTableIdentity) -> (r: Option<&PsqlTable>)
        ensures
            r matches Some(t) ==> self@.contains_key(id@) && self@[id@] == t@,
            r is None ==> !self@.contains_key(id@),
    {
        proof {
            use_type_invariant(self);
        }
        match self.position(id) {
            Some(i) => {
                proof {
                    lemma_tables_map_at(self.entries@, i as int);
                }
                Some(&self.entries[i])
            },
            None => {
                proof {
                    lemma_tables_map_absent(self.entries@, id@);
                }
                None
            },
        }
    }

    /// Puts `table` under its identity, replacing the table that had it.
    pub fn insert(&mut self, table: PsqlTable)
        ensures
            final(self)@ == old(self)@.insert(table.id@, table@),
    {
        proof {
            use_type_invariant(&*self);
        }
        let ghost old_entries = self.entries@;
        let ghost k = table.id@;
        let ghost tv = table@;
        let found = self.position(&table.id);
        let mut entries: Vec<PsqlTable> = Vec::new();
        std::mem::swap(&mut entries, &mut self.entries);
        match found {
            Some(i) => {
                entries.set(i, table);
                let ghost new_entries = entries@;
                proof {
                    assert forall|j: int|
                        0 <= j < new_entries.len() && j != i implies new_entries[j] == old_entries[j] by {}
                    assert(ids_distinct(new_entries));
                    lemma_tables_map_keys(old_entries);
                    lemma_tables_map_keys(new_entries);
                    lemma_tables_map_at(new_entries, i as int);
                    assert forall|key: TableIdModel|
                        tables_map(new_entries).contains_key(key) <==> tables_map(
                            old_entries,
                        ).insert(k, tv).contains_key(key) by {
                        if exists|j: int| 0 <= j < new_entries.len() && new_entries[j].id@ == key {
                            let j = choose|j: int|
                                0 <= j < new_entries.len() && new_entries[j].id@ == key;
                            if j != i {
                                assert(old_entries[j].id@ == key);
                            }
                        }
                        if exists|j: int| 0 <= j < old_entries.len() && old_entries[j].id@ == key {
                            let j = choose|j: int|
                                0 <= j < old_entries.len() && old_entries[j].id@ == key;
                            if j != i {
                                assert(new_entries[j].id@ == key);
                            }
                        }
                    }
                    assert forall|key: TableIdModel|
                        #![trigger tables_map(new_entries).contains_key(key)]
                        tables_map(new_entries).contains_key(key) && key != k implies tables_map(
                            new_entries,
                        )[key] == tables_map(old_entries)[key] by {
                        let j = choose|j: int| 0 <= j < new_entries.len() && new_entries[j].id@ == key;
                        assert(new_entries[j] == old_entries[j]);
                        lemma_tables_map_at(new_entries, j);
                        lemma_tables_map_at(old_entries, j);
                    }
                    assert(tables_map(new_entries) =~= tables_map(old_entries).insert(k, tv));
                }
                self.entries = entries;
            },
            None => {
                entries.push(table);
                assert(entries@.drop_last() =~= old_entries);
                assert(ids_distinct(entries@));
                self.entries = entries;
            },
        }
    }

    /// The tables, each once.
    pub fn tables(&self) -> (r: &Vec<PsqlTable>)
        ensures
            tables_map(r@) == self@,
            ids_distinct(r@),
    {
        proof {
            use_type_invariant(self);
        }
        &self.entries
    }
}

/// The keys `rows` give table `id` on one side.
fn fk_map_for(rows: &Vec<ForeignKeyInformationRow>, id: &PsqlTableIdentity, referencing: bool) -> (r: (
    ForeignKeysByName,
    bool,
))
    ensures
        r.0@ == fk_map_of(fk_row_views(rows@), id@, referencing),
        r.1 == has_rows_for(fk_row_views(rows@), id@, referencing),
{
    let ghost all = fk_row_views(rows@);
    let mut m = ForeignKeysByName::new();
    let mut found = false;
    let mut i: usize = 0;
    while i < rows.len()
        invariant
            i <= rows@.len(),
            all == fk_row_views(rows@),
            m@ == fk_map_of(all.take(i as int), id@, referencing),
            found == has_rows_for(all.take(i as int), id@, referencing),
        decreases rows@.len() - i,
    {
        let row = &rows[i];
        assert(all.take(i + 1).drop_last() =~= all.take(i as int));
        assert(all.take(i + 1).last() == row@);
        let concerns = if referencing {
            str_eq(row.table_schema.as_str(), id.schema.as_str()) && str_eq(
                row.table_name.as_str(),
                id.name.as_str(),
            )
        } else {
            str_eq(row.foreign_table_schema.as_str(), id.schema.as_str()) && str_eq(
                row.foreign_table_name.as_str(),
                id.name.as_str(),
            )
        };
        assert(concerns == row_concerns(row@, id@, referencing));
        if concerns {
            let (schema, name) = if referencing {
                (row.foreign_table_schema.as_str(), row.foreign_table_name.as_str())
            } else {
                (row.table_schema.as_str(), row.table_name.as_str())
            };
            let fk = PsqlForeignKey::new(
                row.constraint_name.as_str(),
                PsqlTableColumn::new(row.column_name.as_str(), row.column_data_type.as_str()),
                schema,
                name,
            );
            assert(fk@ =~= fk_of_row(row@, referencing));
            m.insert(row.constraint_name.clone(), fk);
            found = true;
        }
        let ghost pre = all.take(i as int);
        let ghost post = all.take(i + 1);
        assert(found == has_rows_for(post, id@, referencing)) by {
            if has_rows_for(post, id@, referencing) && !concerns {
                let j = choose|j: int| 0 <= j < post.len() && row_concerns(#[trigger] post[j], id@, referencing);
                assert(j < i);
                assert(pre[j] == post[j]);
            }
            if has_rows_for(pre, id@, referencing) {
                let j = choose|j: int| 0 <= j < pre.len() && row_concerns(#[trigger] pre[j], id@, referencing);
                assert(pre[j] == post[j]);
            }
            if concerns {
                assert(row_concerns(post[i as int], id@, referencing));
            }
        }
        i = i + 1;
    }
    assert(all.take(rows@.len() as int) =~= all);
    (m, found)
}

/// The table with its foreign keys set from `rows` (see `linked_table`).
fn link_table(table: &PsqlTable, rows: &Vec<ForeignKeyInformationRow>) -> (r: PsqlTable)
    ensures
        r@ == linked_table(table@, fk_row_views(rows@)),
{
    let mut t = table.clone();
    let (referencing, has_referencing) = fk_map_for(rows, &table.id, true);
    if has_referencing {
        t.referencing_fk_by_constraint_name = referencing;
    }
    let (referenced, has_referenced) = fk_map_for(rows, &table.id, false);
    if has_referenced {
        t.referenced_fk_by_constraint_name = referenced;
    }
    t
}

/// Sets the relations of every table from the foreign key information rows:
/// the keys of a table are those of the rows starting from it, the keys
/// pointing at it those of the rows ending at it (see `linked_table`).
pub fn psql_table_map_from_foreign_key_info_rows(
    table_by_id: &mut PsqlTableMap,
    rows: &Vec<ForeignKeyInformationRow>,
)
    ensures
        final(table_by_id)@.dom() == old(table_by_id)@.dom(),
        forall|id: TableIdModel|
            #![trigger final(table_by_id)@[id]]
            old(table_by_id)@.contains_key(id) ==> final(table_by_id)@[id] == linked_table(
                old(table_by_id)@[id],
                fk_row_views(rows@),
            ),
{
    table_by_id.link_all(rows);
}

impl PsqlTableMap {
    fn link_all(&mut self, rows: &Vec<ForeignKeyInformationRow>)
        ensures
            final(self)@.dom() == old(self)@.dom(),
            forall|id: TableIdModel|
                #![trigger final(self)@[id]]
                old(self)@.contains_key(id) ==> final(self)@[id] == linked_table(
                    old(self)@[id],
                    fk_row_views(rows@),
                ),
    {
        proof {
            use_type_invariant(&*self);
        }
        let ghost old_entries = self.entries@;
        let ghost rv = fk_row_views(rows@);
        let mut entries: Vec<PsqlTable> = Vec::new();
        std::mem::swap(&mut entries, &mut self.entries);
        let mut i: usize = 0;
        while i < entries.len()
            invariant
                i <= entries@.len(),
                entries@.len() == old_entries.len(),
                ids_distinct(old_entries),
                rv == fk_row_views(rows@),
                forall|j: int| 0 <= j < entries@.len() ==> entries@[j].id@ == old_entries[j].id@,
                forall|j: int|
                    0 <= j < i ==> entries@[j]@ == linked_table(old_entries[j]@, rv),
                forall|j: int| i <= j < entries@.len() ==> entries@[j] == old_entries[j],
            decreases entries@.len() - i,
        {
            let t = link_table(&entries[i], rows);
            entries.set(i, t);
            i = i + 1;
        }
        let ghost new_entries = entries@;
        assert(ids_distinct(new_entries)) by {
            assert forall|a: int, b: int|
                0 <= a < new_entries.len() && 0 <= b < new_entries.len() && a != b implies new_entries[a].id@
                != new_entries[b].id@ by {
                assert(new_entries[a].id@ == old_entries[a].id@);
                assert(new_entries[b].id@ == old_entries[b].id@);
            }
        }
        self.entries = entries;
        proof {
            lemma_tables_map_keys(old_entries);
            lemma_tables_map_keys(new_entries);
            lemma_tables_map_distinct(old_entries);
            lemma_tables_map_distinct(new_entries);
            assert forall|k: TableIdModel|
                tables_map(new_entries).contains_key(k) <==> tables_map(old_entries).contains_key(k) by {
                if exists|j: int| 0 <= j < new_entries.len() && new_entries[j].id@ == k {
                    let j = choose|j: int| 0 <= j < new_entries.len() && new_entries[j].id@ == k;
                    assert(old_entries[j].id@ == k);
                }
                if exists|j: int| 0 <= j < old_entries.len() && old_entries[j].id@ == k {
                    let j = choose|j: int| 0 <= j < old_entries.len() && old_entries[j].id@ == k;
                    assert(new_entries[j].id@ == k);
                }
            }
            assert(tables_map(new_entries).dom() =~= tables_map(old_entries).dom());
            assert forall|id: TableIdModel|
                #![trigger tables_map(new_entries)[id]]
                tables_map(old_entries).contains_key(id) implies tables_map(new_entries)[id]
                == linked_table(tables_map(old_entries)[id], rv) by {
                let j = choose|j: int| 0 <= j < old_entries.len() && old_entries[j].id@ == id;
                assert(tables_map(old_entries)[old_entries[j].id@] == old_entries[j]@);
                assert(tables_map(new_entries)[new_entries[j].id@] == new_entries[j]@);
            }
        }
    }
}

} // verus!
