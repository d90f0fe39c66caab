use lezeh::dto::{PsqlTableColumn, PsqlTableIdentity, Uuid};
use lezeh::table_metadata::{
    find_one_row, one_row, ColumnKind, FetchRowInput, ParamValueError, PsqlParamValue, QueryError, RowUtil,
};

#[test]
fn integer_columns_take_i32_parameters() {
    let column = PsqlTableColumn::new("id", "integer");
    assert_eq!(
        FetchRowInput::psql_param_value("-42".to_owned(), column.clone()),
        Ok(PsqlParamValue::Integer(-42))
    );
    assert_eq!(
        FetchRowInput::psql_param_value("+7".to_owned(), column.clone()),
        Ok(PsqlParamValue::Integer(7))
    );
    assert_eq!(
        FetchRowInput::psql_param_value("2147483647".to_owned(), column.clone()),
        Ok(PsqlParamValue::Integer(i32::MAX))
    );
}

#[test]
fn texts_that_are_no_i32_are_refused_for_integer_columns() {
    let column = PsqlTableColumn::new("id", "integer");
    for text in ["12a", "", "-", "2147483648", " 1"] {
        match FetchRowInput::psql_param_value(text.to_owned(), column.clone()) {
            Err(ParamValueError::InvalidInteger { column, value, reason }) => {
                assert_eq!(column, "id");
                assert_eq!(value, text);
                assert_eq!(reason, text.parse::<i32>().unwrap_err().to_string());
            }
            other => panic!("unexpected {:?}", other),
        }
    }
    let err = FetchRowInput::psql_param_value("x".to_owned(), column).unwrap_err();
    assert_eq!(
        err.to_string(),
        "Cannot cast column 'id' of value x to integer. Error: invalid digit found in string"
    );
}

#[test]
fn uuid_columns_take_uuid_parameters() {
    let column = PsqlTableColumn::new("id", "uuid");
    let text = "83166f85-d37a-4fe7-a0f6-ad5103d03f8a";
    assert_eq!(
        FetchRowInput::psql_param_value(text.to_owned(), column.clone()),
        Ok(PsqlParamValue::Uuid(Uuid::from_str(text).unwrap()))
    );
    assert!(matches!(
        FetchRowInput::psql_param_value("nope".to_owned(), column),
        Err(ParamValueError::InvalidUuid(_))
    ));
}

#[test]
fn other_columns_take_the_text() {
    let column = PsqlTableColumn::new("code", "character varying");
    assert_eq!(
        FetchRowInput::psql_param_value("A-1".to_owned(), column),
        Ok(PsqlParamValue::Text("A-1".to_owned()))
    );
}

#[test]
fn column_kinds() {
    assert_eq!(ColumnKind::of_type("integer"), ColumnKind::Integer);
    assert_eq!(ColumnKind::of_type("uuid"), ColumnKind::Uuid);
    assert_eq!(ColumnKind::of_type("text"), ColumnKind::Text);
    assert_eq!(RowUtil::id_column_kind(&PsqlTableColumn::new("id", "uuid")), ColumnKind::Uuid);
}

#[test]
fn find_rows_query_selects_by_one_column() {
    let input = FetchRowInput {
        table_id: PsqlTableIdentity::new("public", "orders"),
        column_name: "id".to_owned(),
        column_value: PsqlParamValue::Integer(1),
    };
    assert_eq!(input.find_rows_query(), "SELECT * FROM public.orders where id = $1");
}

#[test]
fn find_one_row_decides_on_the_number_of_rows() {
    assert_eq!(find_one_row::<u8>(vec![]), Ok(None));
    assert_eq!(find_one_row(vec![5u8]), Ok(Some(5)));
    let err = find_one_row(vec![1u8, 2, 3]).unwrap_err();
    assert_eq!(err, QueryError::TooManyRows { row_count: 3, expected_row_count: 1 });
    assert_eq!(err.to_string(), "Too many rows returned(3), expecting only 1");
}

#[test]
fn row_not_found_message() {
    let err = QueryError::RowNotFound {
        table_id: "public.orders".to_owned(),
        column: "id".to_owned(),
        identifier: "12".to_owned(),
    };
    assert_eq!(err.to_string(), "Row with column id = 12 is not found in table public.orders");
}

#[test]
fn a_lookup_of_one_row_names_what_it_did_not_find() {
    assert_eq!(one_row(vec![7], "t".into(), "c".into(), "v".into()), Ok(7));
    assert_eq!(
        one_row(Vec::<i32>::new(), "t".into(), "c".into(), "v".into()),
        Err(QueryError::RowNotFound { table_id: "t".into(), column: "c".into(), identifier: "v".into() })
    );
    assert_eq!(
        one_row(vec![1, 2], "t".into(), "c".into(), "v".into()),
        Err(QueryError::TooManyRows { row_count: 2, expected_row_count: 1 })
    );
}
