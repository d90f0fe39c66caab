use lezeh::cherry_pick::{
    table_identity_from_text, CherryPickInput, CherryPickOutputFormatEnum, DbCli, PsqlCreds,
    PsqlConnectionError, PsqlTableRowDynamicVisual,
};
use lezeh::config::{Config, DbConfig, DeploymentConfig, GhubConfig, PhabConfig};
use lezeh::db_metadata::PsqlTableMap;
use lezeh::dto::{ForeignKeysByName, PsqlColumnValue, PsqlTable, PsqlTableColumn, PsqlTableIdentity, PsqlTableRow};

#[test]
fn output_formats_are_read_in_any_case() {
    assert_eq!(CherryPickOutputFormatEnum::from("graphviz"), CherryPickOutputFormatEnum::Graphviz);
    assert_eq!(CherryPickOutputFormatEnum::from("GraphViz"), CherryPickOutputFormatEnum::Graphviz);
    assert_eq!(
        CherryPickOutputFormatEnum::from("insert-statement"),
        CherryPickOutputFormatEnum::InsertStatement
    );
    assert_eq!(CherryPickOutputFormatEnum::from("csv"), CherryPickOutputFormatEnum::InsertStatement);
    assert_eq!(CherryPickOutputFormatEnum::Graphviz.to_string(), "graphviz");
    assert_eq!(CherryPickOutputFormatEnum::InsertStatement.to_string(), "insert-statement");
}

#[test]
fn table_identities_default_to_the_public_schema() {
    assert_eq!(table_identity_from_text("users"), PsqlTableIdentity::new("public", "users"));
    assert_eq!(table_identity_from_text("sales.orders"), PsqlTableIdentity::new("sales", "orders"));
}

#[test]
fn displayed_fields_are_read_per_table() {
    let fields = CherryPickInput::create_displayed_fields_by_table_id_from_param(vec![
        "users:id|name |email".to_owned(),
        "orders:code".to_owned(),
        "users:name".to_owned(),
    ])
    .unwrap();
    assert_eq!(fields.len(), 2);
    let users = fields.iter().find(|(id, _)| id.name == "users").unwrap();
    assert_eq!(users.1, vec!["name".to_owned()]);
    let orders = fields.iter().find(|(id, _)| id.name == "orders").unwrap();
    assert_eq!(orders.0, PsqlTableIdentity::new("public", "orders"));
    assert_eq!(orders.1, vec!["code".to_owned()]);
}

#[test]
fn displayed_fields_without_a_colon_are_refused() {
    let err = CherryPickInput::create_displayed_fields_by_table_id_from_param(vec![
        "users:id".to_owned(),
        "orders".to_owned(),
    ])
    .unwrap_err();
    assert_eq!(
        err,
        "Display table columsn should be in format {tableIdentity}:{column_1}|{column_n}, got orders instead"
    );
}

fn users_row() -> PsqlTableRow {
    PsqlTableRow {
        table: PsqlTable::new(
            "public",
            "users",
            PsqlTableColumn::new("id", "integer"),
            vec![],
            ForeignKeysByName::new(),
            ForeignKeysByName::new(),
        ),
        row_id_representation: "7".to_owned(),
        column_values: vec![
            PsqlColumnValue { name: "id".to_owned(), value: "7".to_owned() },
            PsqlColumnValue { name: "name".to_owned(), value: "'bob'".to_owned() },
        ],
    }
}

#[test]
fn rows_are_labelled_with_their_chosen_columns() {
    let row = users_row();
    let fields = vec![(
        PsqlTableIdentity::new("public", "users"),
        vec!["name".to_owned(), "missing".to_owned(), "id".to_owned()],
    )];
    let visual = PsqlTableRowDynamicVisual::new(&row, &fields);
    assert_eq!(visual.to_string(), "public.users\n`name` bob\n`id` 7");

    let none = vec![];
    let visual = PsqlTableRowDynamicVisual::new(&row, &none);
    assert_eq!(visual.to_string(), "public.users\n`id` 7");
}

fn config(dbs: Option<Vec<(String, DbConfig)>>) -> Config {
    Config {
        phab: PhabConfig {
            host: "h".into(),
            api_token: "t".into(),
            pkcs12_path: "p".into(),
            pkcs12_password: "w".into(),
        },
        ghub: GhubConfig { api_token: "g".into() },
        bitly: None,
        deployment: DeploymentConfig { repositories: vec![], merge_feature_branches: None },
        db_by_name: dbs,
    }
}

fn db(host: &str) -> DbConfig {
    DbConfig {
        host: host.into(),
        port: 5432,
        database: "db".into(),
        username: "me".into(),
        password: None,
    }
}

#[test]
fn source_databases_are_found_by_name() {
    let c = config(Some(vec![("testdb".to_owned(), db("localhost"))]));
    assert_eq!(DbCli::source_db_config(&c, "testdb").unwrap().host, "localhost");
    assert_eq!(
        DbCli::source_db_config(&c, "other").err(),
        Some("Source db other is not registered".to_owned())
    );
    assert_eq!(
        DbCli::source_db_config(&config(None), "testdb").err(),
        Some("Db config is not set".to_owned())
    );
}

#[test]
fn credentials_come_from_the_database_config() {
    let creds = PsqlCreds::from_db_config(&db("localhost"));
    assert_eq!(creds.host, "localhost");
    assert_eq!(creds.database_name, "db");
    assert_eq!(creds.password_or_empty(), "");
    assert_eq!(
        PsqlConnectionError::InitializeConnectionError("refused".into()).to_string(),
        "Error when initialization connection refused"
    );
}

#[test]
fn missing_tables_are_reported() {
    let mut tables = PsqlTableMap::new();
    tables.insert(users_row().table);
    assert!(DbCli::find_table(&tables, &PsqlTableIdentity::new("public", "users")).is_ok());
    assert_eq!(
        DbCli::find_table(&tables, &PsqlTableIdentity::new("public", "orders")).err(),
        Some("Table public.orders not found".to_owned())
    );
}
