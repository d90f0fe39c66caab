use lezeh::dto::{
    ForeignKeysByName, PsqlColumnValue, PsqlForeignKey, PsqlTable, PsqlTableColumn,
    PsqlTableIdentity, PsqlTableRow, Uuid, UuidError,
};

#[test]
fn it_should_create_uuid_instance() {
    let uuid_str: &str = "83166f85-d37a-4fe7-a0f6-ad5103d03f8a";

    let parsed = Uuid::from_str(uuid_str);

    assert!(parsed.is_ok());
    assert_eq!(parsed.unwrap().to_string(), uuid_str);
}

#[test]
fn it_should_create_from_sql_bytes() {
    let bytes: Vec<u8> = vec![
        0x83, 0x16, 0x6f, 0x85, 0xd3, 0x7a, 0x4f, 0xe7, 0xa0, 0xf6, 0xad, 0x51, 0x03, 0xd0, 0x3f,
        0x8a,
    ];

    let parsed_uuid: Uuid = Uuid::from_sql_bytes(&bytes);

    assert_eq!(parsed_uuid.to_string(), "83166f85-d37a-4fe7-a0f6-ad5103d03f8a");
}

#[test]
fn uuid_text_round_trips_through_bytes() {
    let bytes: [u8; 16] = [
        0x00, 0x01, 0x0a, 0xff, 0x10, 0x20, 0x30, 0x40, 0x50, 0x60, 0x70, 0x80, 0x90, 0xa0, 0xb0,
        0xc0,
    ];
    let uuid = Uuid::from_bytes(bytes);
    let text = uuid.to_string();
    assert_eq!(text, "00010aff-1020-3040-5060-708090a0b0c0");
    let parsed = Uuid::from_str(&text).unwrap();
    assert_eq!(parsed.as_bytes(), bytes);
}

#[test]
fn uppercase_uuid_text_reads_as_the_same_uuid() {
    let upper = Uuid::from_str("83166F85-D37A-4FE7-A0F6-AD5103D03F8A").unwrap();
    assert_eq!(upper.to_string(), "83166f85-d37a-4fe7-a0f6-ad5103d03f8a");
}

#[test]
fn invalid_uuid_text_is_refused_with_the_text() {
    match Uuid::from_str("not-a-uuid") {
        Err(UuidError::InvalidUuid { value, reason }) => {
            assert_eq!(value, "not-a-uuid");
            assert!(!reason.is_empty());
        }
        Ok(_) => panic!("parsed an invalid uuid"),
    }
}

#[test]
fn table_identity_displays_as_schema_dot_name() {
    let id = PsqlTableIdentity::new("public", "orders");
    assert_eq!(id.display(), "public.orders");
    assert!(id.same_as(&PsqlTableIdentity::new("public", "orders")));
    assert!(!id.same_as(&PsqlTableIdentity::new("other", "orders")));
}

#[test]
fn foreign_keys_by_name_keep_the_last_key_of_a_name() {
    let mut fks = ForeignKeysByName::new();
    fks.insert(
        "fk".to_owned(),
        PsqlForeignKey::new("fk", PsqlTableColumn::new("a", "integer"), "public", "t1"),
    );
    fks.insert(
        "fk".to_owned(),
        PsqlForeignKey::new("fk", PsqlTableColumn::new("b", "integer"), "public", "t2"),
    );
    assert_eq!(fks.len(), 1);
    assert_eq!(fks.get("fk").unwrap().column.name, "b");
    assert!(fks.get("other").is_none());
}

#[test]
fn row_column_lookups() {
    let table = PsqlTable::new(
        "public",
        "users",
        PsqlTableColumn::new("id", "integer"),
        vec![],
        ForeignKeysByName::new(),
        ForeignKeysByName::new(),
    );
    let row = PsqlTableRow {
        table,
        row_id_representation: "1".to_owned(),
        column_values: vec![
            PsqlColumnValue { name: "id".to_owned(), value: "1".to_owned() },
            PsqlColumnValue { name: "name".to_owned(), value: "'bob'".to_owned() },
        ],
    };
    assert_eq!(row.get_column_names(), vec!["id".to_owned(), "name".to_owned()]);
    assert_eq!(row.get_column_value("name").map(|s| s.as_str()), Some("'bob'"));
    assert_eq!(row.get_column_value("missing"), None);
}

#[test]
fn text_values_are_written_as_quoted_sql_literals() {
    assert_eq!(PsqlColumnValue::text("name", "O'Brien").value, "'O''Brien'");
    assert_eq!(PsqlColumnValue::text("name", "O'Brien").name, "name");
    assert_eq!(PsqlColumnValue::text("code", "").value, "''");
}
