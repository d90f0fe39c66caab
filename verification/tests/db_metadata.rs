use lezeh::db_metadata::{psql_table_map_from_foreign_key_info_rows, ForeignKeyInformationRow, PsqlTableMap};
use lezeh::dto::{ForeignKeysByName, PsqlTable, PsqlTableColumn, PsqlTableIdentity};

fn fk_row(
    constraint_name: &str,
    table_name: &str,
    column_name: &str,
    column_data_type: &str,
    foreign_table_name: &str,
    foreign_column_data_type: &str,
) -> ForeignKeyInformationRow {
    ForeignKeyInformationRow {
        table_schema: "public".into(),
        constraint_name: constraint_name.into(),
        table_name: table_name.into(),
        column_name: column_name.into(),
        column_data_type: column_data_type.into(),
        foreign_table_schema: "public".into(),
        foreign_table_name: foreign_table_name.into(),
        foreign_column_name: "id".into(),
        foreign_column_data_type: foreign_column_data_type.into(),
    }
}

fn fk_info_rows() -> Vec<ForeignKeyInformationRow> {
    vec![
        fk_row("orders_store_id_foreign", "orders", "store_id", "integer", "stores", "integer"),
        fk_row(
            "order_statuses_store_id_foreign",
            "order_statuses",
            "store_id",
            "integer",
            "stores",
            "integer",
        ),
        fk_row(
            "product_images_product_id_foreign",
            "product_images",
            "product_id",
            "integer",
            "products",
            "integer",
        ),
        fk_row(
            "product_stock_ledgers_product_id_foreign",
            "product_stock_ledgers",
            "product_id",
            "integer",
            "products",
            "integer",
        ),
        fk_row(
            "store_customers_store_id_foreign",
            "store_customers",
            "store_id",
            "integer",
            "stores",
            "integer",
        ),
        fk_row(
            "store_staffs_stores_store_staff_role_id_foreign",
            "store_staffs_stores",
            "store_staff_role_id",
            "uuid",
            "store_staff_roles",
            "uuid",
        ),
        fk_row(
            "store_staffs_stores_store_staff_id_foreign",
            "store_staffs_stores",
            "store_staff_id",
            "integer",
            "store_staffs",
            "integer",
        ),
        fk_row(
            "store_staffs_stores_store_id_foreign",
            "store_staffs_stores",
            "store_id",
            "integer",
            "stores",
            "integer",
        ),
        fk_row("products_store_id_foreign", "products", "store_id", "integer", "stores", "integer"),
        fk_row("order_items_order_id_foreign", "order_items", "order_id", "integer", "orders", "integer"),
        fk_row(
            "order_items_product_id_foreign",
            "order_items",
            "product_id",
            "integer",
            "products",
            "integer",
        ),
    ]
}

fn basic(schema: &str, name: &str, primary_column: PsqlTableColumn) -> PsqlTable {
    PsqlTable::new(
        schema,
        name,
        primary_column,
        vec![],
        ForeignKeysByName::new(),
        ForeignKeysByName::new(),
    )
}

fn tables() -> PsqlTableMap {
    let mut psql_table_by_id = PsqlTableMap::new();
    for (name, data_type) in [
        ("stores", "integer"),
        ("orders", "integer"),
        ("order_items", "integer"),
        ("order_statuses", "integer"),
        ("products", "integer"),
        ("product_images", "integer"),
        ("product_stock_ledgers", "integer"),
        ("store_customers", "integer"),
        ("store_staffs_stores", "uuid"),
        ("store_staff_roles", "uuid"),
        ("store_staffs", "integer"),
    ] {
        psql_table_by_id.insert(basic(
            "public",
            name,
            PsqlTableColumn { name: "id".into(), data_type: data_type.into() },
        ));
    }
    psql_table_by_id
}

#[test]
fn db_metadata_it_should_load_rows() {
    let fk_info_rows = fk_info_rows();
    let mut psql_table_by_id = tables();

    psql_table_map_from_foreign_key_info_rows(&mut psql_table_by_id, &fk_info_rows);

    // table: order_items
    let order_items_table: &PsqlTable =
        psql_table_by_id.get(&PsqlTableIdentity::new("public", "order_items")).unwrap();

    assert_eq!(order_items_table.id, PsqlTableIdentity::new("public", "order_items"));
    assert_eq!(order_items_table.referencing_fk_by_constraint_name.len(), 2);
    assert_eq!(order_items_table.referenced_fk_by_constraint_name.len(), 0);

    let fk_to_orders_table_from_order_items =
        order_items_table.referencing_fk_by_constraint_name.get("order_items_order_id_foreign");

    assert!(fk_to_orders_table_from_order_items.is_some());

    // table: store_staffs_stores
    let store_staffs_stores_table: &PsqlTable = psql_table_by_id
        .get(&PsqlTableIdentity::new("public", "store_staffs_stores"))
        .ok_or_else(|| "could not get store_staffs_stores")
        .unwrap();

    assert_eq!(store_staffs_stores_table.id, PsqlTableIdentity::new("public", "store_staffs_stores"));
    assert_eq!(store_staffs_stores_table.referencing_fk_by_constraint_name.len(), 3);

    // table: products
    let products_table: &PsqlTable =
        psql_table_by_id.get(&PsqlTableIdentity::new("public", "products")).unwrap();

    assert_eq!(products_table.id, PsqlTableIdentity::new("public", "products"));

    assert_eq!(products_table.referencing_fk_by_constraint_name.len(), 1);
    assert_eq!(products_table.referenced_fk_by_constraint_name.len(), 3);

    assert_eq!(psql_table_by_id.len(), 11)
}

#[test]
fn psql_it_should_load_rows() {
    let fk_info_rows = fk_info_rows();
    let mut psql_table_by_name = tables();

    psql_table_map_from_foreign_key_info_rows(&mut psql_table_by_name, &fk_info_rows);

    let order_items_table: &PsqlTable =
        psql_table_by_name.get(&PsqlTableIdentity::new("public", "order_items")).unwrap();

    assert_eq!(order_items_table.id.name, "order_items");
    assert_eq!(order_items_table.referencing_fk_by_constraint_name.len(), 2);
    assert_eq!(order_items_table.referenced_fk_by_constraint_name.len(), 0);

    let fk_to_orders_table_from_order_items =
        order_items_table.referencing_fk_by_constraint_name.get("order_items_order_id_foreign");

    assert!(fk_to_orders_table_from_order_items.is_some());

    let store_staffs_stores_table: &PsqlTable = psql_table_by_name
        .get(&PsqlTableIdentity::new("public", "store_staffs_stores"))
        .ok_or_else(|| "could not get store_staffs_stores")
        .unwrap();
    assert_eq!(store_staffs_stores_table.id.name, "store_staffs_stores");
    assert_eq!(store_staffs_stores_table.referencing_fk_by_constraint_name.len(), 3);

    let products_table: &PsqlTable =
        psql_table_by_name.get(&PsqlTableIdentity::new("public", "products")).unwrap();
    assert_eq!(products_table.id.name, "products");
    assert_eq!(products_table.referencing_fk_by_constraint_name.len(), 1);
    assert_eq!(products_table.referenced_fk_by_constraint_name.len(), 3);

    assert_eq!(psql_table_by_name.len(), 11)
}

#[test]
fn linking_keeps_the_tables_and_names_the_foreign_table() {
    let mut map = tables();
    psql_table_map_from_foreign_key_info_rows(&mut map, &fk_info_rows());
    let orders = map.get(&PsqlTableIdentity::new("public", "orders")).unwrap();
    let to_stores = orders.referencing_fk_by_constraint_name.get("orders_store_id_foreign").unwrap();
    assert_eq!(to_stores.foreign_table_name, "stores");
    assert_eq!(to_stores.column.name, "store_id");
    let from_items = orders.referenced_fk_by_constraint_name.get("order_items_order_id_foreign").unwrap();
    assert_eq!(from_items.foreign_table_name, "order_items");
    assert_eq!(from_items.column.name, "order_id");
    let stores = map.get(&PsqlTableIdentity::new("public", "stores")).unwrap();
    assert_eq!(stores.referencing_fk_by_constraint_name.len(), 0);
    assert_eq!(stores.referenced_fk_by_constraint_name.len(), 5);
}

#[test]
fn a_table_map_gives_back_the_last_table_put_under_an_identity() {
    let mut tables = PsqlTableMap::new();
    let users = |primary: &str| {
        PsqlTable::new(
            "public",
            "users",
            PsqlTableColumn::new(primary, "integer"),
            vec![],
            ForeignKeysByName::new(),
            ForeignKeysByName::new(),
        )
    };
    tables.insert(users("id"));
    tables.insert(users("user_id"));
    assert_eq!(tables.len(), 1);
    let found = tables.get(&PsqlTableIdentity::new("public", "users")).unwrap();
    assert_eq!(found.primary_column.name, "user_id");
    assert!(tables.get(&PsqlTableIdentity::new("public", "orders")).is_none());
}
