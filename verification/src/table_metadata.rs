//! Looking rows up by one column: turning the text of a value into a query
//! parameter of the column's type, the query text, and what a lookup of
//! exactly one row makes of the rows that came back.

use vstd::prelude::*;

use crate::dto::{table_id_text, is_hyphenated_uuid, uuid_parse, PsqlTableColumn, PsqlTableIdentity, Uuid, UuidError};
use crate::text::{append_str, decimal_text, str_eq, usize_text};

verus! {

// ---------------------------------------------------------------------
// Specifications
// ---------------------------------------------------------------------

/// `c` is a decimal digit.
pub open spec fn is_digit(c: char) -> bool {
    '0' <= c <= '9'
}

/// The value of a non-empty run of decimal digits.
pub open spec fn digits_value(s: Seq<char>) -> int
    decreases s.len(),
{
    if s.len() == 0 {
        0
    } else {
        digits_value(s.drop_last()) * 10 + (s.last() as int - 48)
    }
}

/// The digits after an optional leading sign.
pub open spec fn unsigned_part(s: Seq<char>) -> Seq<char> {
    if s.len() > 0 && (s[0] == '+' || s[0] == '-') {
        s.drop_first()
    } else {
        s
    }
}

/// The integer that `s` writes in decimal, an optional `+` or `-` followed by
/// at least one digit and nothing else, when it fits in an `i32`.
pub open spec fn decimal_i32(s: Seq<char>) -> Option<i32> {
    let body = unsigned_part(s);
    let magnitude = digits_value(body);
    let value = if s.len() > 0 && s[0] == '-' {
        -magnitude
    } else {
        magnitude
    };
    if body.len() > 0 && (forall|i: int| 0 <= i < body.len() ==> is_digit(#[trigger] body[i]))
        && i32::MIN <= value <= i32::MAX {
        Some(value as i32)
    } else {
        None
    }
}

/// The text of the error that `str::parse::<i32>` gives for `s`.
pub uninterp spec fn i32_parse_error_text(s: Seq<char>) -> Seq<char>;

/// `str::parse::<i32>`: the integer on success, else the text of the
/// `ParseIntError`. Success comes exactly on the inputs of `decimal_i32`, as
/// `i32::from_str` documents; the text of the error is given a name only.
#[verifier::external_body]
fn parse_i32(s: &str) -> (r: Result<i32, String>)
    ensures
        r is Ok <==> decimal_i32(s@) is Some,
        r is Ok ==> Some(r->Ok_0) == decimal_i32(s@),
        r is Err ==> r->Err_0@ == i32_parse_error_text(s@),
{
    s.parse::<i32>().map_err(|err| err.to_string())
}

/// How a column's values are passed to and read from postgres.
#[derive(Debug, Clone, Copy, PartialEq, Eq, Structural)]
pub enum ColumnKind {
    Integer,
    Uuid,
    Text,
}

/// The kind of a column of the postgres data type `data_type`: `integer`,
/// `uuid`, and text for every other type.
pub open spec fn kind_of_type(data_type: Seq<char>) -> ColumnKind {
    if data_type == "integer"@ {
        ColumnKind::Integer
    } else if data_type == "uuid"@ {
        ColumnKind::Uuid
    } else {
        ColumnKind::Text
    }
}

impl ColumnKind {
    /// The kind of a column of the postgres data type `data_type`.
    pub fn of_type(data_type: &str) -> (k: ColumnKind)
        ensures
            k == kind_of_type(data_type@),
    {
        if str_eq(data_type, "integer") {
            ColumnKind::Integer
        } else if str_eq(data_type, "uuid") {
            ColumnKind::Uuid
        } else {
            ColumnKind::Text
        }
    }
}

/// A value to compare a column with in a query.
#[derive(Debug, PartialEq, Eq)]
pub enum PsqlParamValue {
    Integer(i32),
    Uuid(Uuid),
    Text(String),
}

/// Why a text could not be made a parameter of its column's type.
#[derive(Debug, PartialEq, Eq)]
pub enum ParamValueError {
    /// The text of a value for an `integer` column is no `i32`.
    InvalidInteger { column: String, value: String, reason: String },
    /// The text of a value for a `uuid` column is no uuid.
    InvalidUuid(UuidError),
}

impl ParamValueError {
    /// The message of the error.
    pub fn to_string(&self) -> (s: String)
        ensures
            s@ == (match self {
                ParamValueError::InvalidInteger { column, value, reason } => "Cannot cast column '"@
                    + column@ + "' of value "@ + value@ + " to integer. Error: "@ + reason@,
                ParamValueError::InvalidUuid(UuidError::InvalidUuid { reason, .. }) => reason@,
            }),
    {
        match self {
            ParamValueError::InvalidInteger { column, value, reason } => {
                let mut s = String::new();
                append_str(&mut s, "Cannot cast column '");
                append_str(&mut s, column.as_str());
                append_str(&mut s, "' of value ");
                append_str(&mut s, value.as_str());
                append_str(&mut s, " to integer. Error: ");
                append_str(&mut s, reason.as_str());
                s
            },
            ParamValueError::InvalidUuid(UuidError::InvalidUuid { reason, .. }) => {
                let mut s = String::new();
                append_str(&mut s, reason.as_str());
                s
            },
        }
    }
}

/// Why a lookup of one row failed.
#[derive(Debug, PartialEq, Eq)]
pub enum QueryError {
    RowNotFound { table_id: String, column: String, identifier: String },
    TooManyRows { row_count: usize, expected_row_count: usize },
}

impl QueryError {
    /// The message of the error.
    pub fn to_string(&self) -> (s: String)
        ensures
            s@ == (match self {
                QueryError::RowNotFound { table_id, column, identifier } => "Row with column "@
                    + column@ + " = "@ + identifier@ + " is not found in table "@ + table_id@,
                QueryError::TooManyRows { row_count, expected_row_count } =>
                    "Too many rows returned("@ + decimal_text(*row_count as nat)
                    + "), expecting only "@ + decimal_text(*expected_row_count as nat),
            }),
    {
        match self {
            QueryError::RowNotFound { table_id, column, identifier } => {
                let mut s = String::new();
                append_str(&mut s, "Row with column ");
                append_str(&mut s, column.as_str());
                append_str(&mut s, " = ");
                append_str(&mut s, identifier.as_str());
                append_str(&mut s, " is not found in table ");
                append_str(&mut s, table_id.as_str());
                s
            },
            QueryError::TooManyRows { row_count, expected_row_count } => {
                let mut s = String::new();
                append_str(&mut s, "Too many rows returned(");
                let count = usize_text(*row_count);
                append_str(&mut s, count.as_str());
                append_str(&mut s, "), expecting only ");
                let expected = usize_text(*expected_row_count);
                append_str(&mut s, expected.as_str());
                s
            },
        }
    }
}

/// The rows of a table whose column holds a value.
pub struct FetchRowInput {
    pub table_id: PsqlTableIdentity,
    pub column_name: String,
    pub column_value: PsqlParamValue,
}

/// The parameter that the text `value` stands for in a column of type
/// `data_type` (`None` when the text does not read as that type).
pub open spec fn param_value_of(value: Seq<char>, data_type: Seq<char>) -> Option<ParamModel> {
    match kind_of_type(data_type) {
        ColumnKind::Integer => match decimal_i32(value) {
            Some(n) => Some(ParamModel::Integer(n)),
            None => None,
        },
        ColumnKind::Uuid => match uuid_parse(value) {
            Some(b) => Some(ParamModel::Uuid(b)),
            None => None,
        },
        ColumnKind::Text => Some(ParamModel::Text(value)),
    }
}

/// The view of a parameter.
pub enum ParamModel {
    Integer(i32),
    Uuid(Seq<u8>),
    Text(Seq<char>),
}

impl View for PsqlParamValue {
    type V = ParamModel;

    open spec fn view(&self) -> ParamModel {
        match self {
            PsqlParamValue::Integer(n) => ParamModel::Integer(*n),
            PsqlParamValue::Uuid(u) => ParamModel::Uuid(u@),
            PsqlParamValue::Text(t) => ParamModel::Text(t@),
        }
    }
}

impl FetchRowInput {
    /// The parameter that the text `column_value` stands for in `column`:
    /// an `i32` for an `integer` column, a uuid for a `uuid` column, the text
    /// itself for any other.
    pub fn psql_param_value(column_value: String, column: PsqlTableColumn) -> (r: Result<
        PsqlParamValue,
        ParamValueError,
    >)
        ensures
            r is Ok <==> param_value_of(column_value@, column.data_type@) is Some,
            r matches Ok(v) ==> Some(v@) == param_value_of(column_value@, column.data_type@),
            r matches Err(ParamValueError::InvalidInteger { column: c, value, reason }) ==> c@
                == column.name@ && value@ == column_value@ && reason@ == i32_parse_error_text(
                column_value@,
            ),
            r matches Err(ParamValueError::InvalidUuid(UuidError::InvalidUuid { value, .. })) ==> value@
                == column_value@,
            r is Err ==> ((r->Err_0 is InvalidInteger) <==> kind_of_type(column.data_type@)
                == ColumnKind::Integer),
            (kind_of_type(column.data_type@) == ColumnKind::Uuid && is_hyphenated_uuid(
                column_value@,
            )) ==> r is Ok,
    {
        match ColumnKind::of_type(column.data_type.as_str()) {
            ColumnKind::Integer => match parse_i32(column_value.as_str()) {
                Ok(n) => Ok(PsqlParamValue::Integer(n)),
                Err(reason) => Err(
                    ParamValueError::InvalidInteger {
                        column: column.name,
                        value: column_value,
                        reason,
                    },
                ),
            },
            ColumnKind::Uuid => match Uuid::from_str(column_value.as_str()) {
                Ok(u) => Ok(PsqlParamValue::Uuid(u)),
                Err(e) => Err(ParamValueError::InvalidUuid(e)),
            },
            ColumnKind::Text => Ok(PsqlParamValue::Text(column_value)),
        }
    }

    /// The query that selects the rows: `SELECT * FROM {table} where {column} = $1`,
    /// the table written `schema.name`.
    pub fn find_rows_query(&self) -> (q: String)
        ensures
            q@ == "SELECT * FROM "@ + table_id_text(self.table_id@) + " where "@
                + self.column_name@ + " = $1"@,
    {
        let mut q = String::new();
        append_str(&mut q, "SELECT * FROM ");
        let table = self.table_id.display();
        append_str(&mut q, table.as_str());
        append_str(&mut q, " where ");
        append_str(&mut q, self.column_name.as_str());
        append_str(&mut q, " = $1");
        q
    }
}

/// What a lookup of exactly one row makes of the rows that came back: the
/// row when there is one, `None` when there is none, and `TooManyRows` when
/// there are more.
pub fn find_one_row<T>(rows: Vec<T>) -> (r: Result<Option<T>, QueryError>)
    ensures
        rows@.len() == 0 ==> r == Ok::<Option<T>, QueryError>(None),
        rows@.len() == 1 ==> r == Ok::<Option<T>, QueryError>(Some(rows@[0])),
        rows@.len() > 1 ==> r == Err::<Option<T>, QueryError>(
            QueryError::TooManyRows { row_count: rows@.len() as usize, expected_row_count: 1 },
        ),
{
    let mut rows = rows;
    if rows.len() > 1 {
        return Err(QueryError::TooManyRows { row_count: rows.len(), expected_row_count: 1 });
    }
    if rows.len() == 0 {
        return Ok(None);
    }
    Ok(Some(rows.remove(0)))
}

/// The one row that a lookup by a value must find: the row when there is
/// one; `RowNotFound` (naming the table, the column and the value) when there
/// is none; `TooManyRows` when there are more.
pub fn one_row<T>(rows: Vec<T>, table_id: String, column: String, identifier: String) -> (r: Result<
    T,
    QueryError,
>)
    ensures
        rows@.len() == 1 ==> r == Ok::<T, QueryError>(rows@[0]),
        rows@.len() == 0 ==> r == Err::<T, QueryError>(
            QueryError::RowNotFound { table_id, column, identifier },
        ),
        rows@.len() > 1 ==> r == Err::<T, QueryError>(
            QueryError::TooManyRows { row_count: rows@.len() as usize, expected_row_count: 1 },
        ),
{
    match find_one_row(rows) {
        Ok(Some(row)) => Ok(row),
        Ok(None) => Err(QueryError::RowNotFound { table_id, column, identifier }),
        Err(e) => Err(e),
    }
}

/// Reading the id of a row.
pub struct RowUtil;

impl RowUtil {
    /// How the id column `id_column_spec` is read from a row: as an `i32`
    /// for `integer`, a uuid for `uuid`, and a text for any other type.
    pub fn id_column_kind(id_column_spec: &PsqlTableColumn) -> (k: ColumnKind)
        ensures
            k == kind_of_type(id_column_spec.data_type@),
    {
        ColumnKind::of_type(id_column_spec.data_type.as_str())
    }
}

} // verus!
