use std::collections::HashMap;

use lezeh::dto::{ForeignKeysByName, PsqlColumnValue, PsqlTable, PsqlTableColumn, PsqlTableRow};
use lezeh::relation_insert::{RelationInsert, TableInsertRowColumns, TableInsertRowValues};

fn table(name: &str) -> PsqlTable {
    PsqlTable::new(
        "public",
        name,
        PsqlTableColumn::new("id", "integer"),
        vec![],
        ForeignKeysByName::new(),
        ForeignKeysByName::new(),
    )
}

fn row(table_name: &str, id: &str, name: &str) -> PsqlTableRow {
    PsqlTableRow {
        table: table(table_name),
        row_id_representation: id.to_owned(),
        column_values: vec![
            PsqlColumnValue { name: "id".to_owned(), value: id.to_owned() },
            PsqlColumnValue { name: "name".to_owned(), value: format!("'{}'", name) },
        ],
    }
}

const USERS_STATEMENT: &str = "------------------------------------------------\n-- insert into table public.users\n------------------------------------------------\ninsert into public.users (id, name) VALUES\n  (1, 'bob'),\n(2, 'al');\n---------------\n\n";

#[test]
fn one_statement_holds_all_rows_of_a_table() {
    let a = row("users", "1", "bob");
    let b = row("users", "2", "al");
    let statement = RelationInsert::table_row_into_insert_statement(&a.table, &vec![&a, &b]);
    assert_eq!(statement, USERS_STATEMENT);
}

#[test]
fn rows_are_grouped_by_table_in_order_of_appearance() {
    let rows = vec![row("users", "1", "bob"), row("orders", "9", "o"), row("users", "2", "al")];
    let statements = RelationInsert::table_rows_into_insert_statement(&rows);
    assert_eq!(statements.len(), 2);
    assert_eq!(statements[0], USERS_STATEMENT);
    assert!(statements[1].contains("insert into public.orders (id, name) VALUES\n  (9, 'o');"));
}

#[test]
fn lower_levels_come_first() {
    let mut by_level: HashMap<i32, Vec<PsqlTableRow>> = HashMap::new();
    by_level.insert(2, vec![row("items", "3", "i")]);
    by_level.insert(-1, vec![row("stores", "1", "s")]);
    by_level.insert(0, vec![row("orders", "2", "o")]);
    let statements = RelationInsert::into_insert_statements(by_level);
    assert_eq!(statements.len(), 3);
    assert!(statements[0].contains("public.stores"));
    assert!(statements[1].contains("public.orders"));
    assert!(statements[2].contains("public.items"));
}

#[test]
fn statement_pieces() {
    let columns = TableInsertRowColumns { column_names: vec!["a".to_owned(), "b".to_owned()] };
    assert_eq!(columns.to_string(), "a, b");
    let values = TableInsertRowValues { values: vec!["1".to_owned(), "'x'".to_owned()] };
    assert_eq!(values.to_string(), "(1, 'x')");
}
