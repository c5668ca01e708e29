use vstd::prelude::*;

use crate::datetime::{
    date64_text, date_text, format_date32, format_date64, format_timestamp_ms, format_timestamp_ns,
    format_timestamp_s, format_timestamp_us, timestamp_text,
};
use crate::size::extend_chars;
use crate::text::{chars_of, decimal, digit_char, signed_decimal, signed_decimal_chars, string_of};

verus! {

/// The unit of a timestamp column.
#[derive(PartialEq, Eq, Structural, Clone, Copy, Debug)]
pub enum TimeUnitKind {
    Second,
    Millisecond,
    Microsecond,
    Nanosecond,
}

/// A column's data type, as far as the viewer tells types apart.
pub enum ColumnType {
    Boolean,
    Int8,
    Int16,
    Int32,
    Int64,
    UInt8,
    UInt16,
    UInt32,
    UInt64,
    Float16,
    Float32,
    Float64,
    Utf8,
    LargeUtf8,
    Binary,
    LargeBinary,
    Date32,
    Date64,
    /// A timestamp with its unit and optional time zone.
    Timestamp(TimeUnitKind, Option<String>),
    /// A list with its element type.
    List(Box<ColumnType>),
    Struct,
    /// A dictionary-encoded column with its value type.
    Dictionary(Box<ColumnType>),
    /// A 128-bit decimal with its precision and scale.
    Decimal128(u8, i8),
    /// Any other type, with its debug rendering.
    Other(String),
}

/// The name of a time unit as its debug rendering writes it.
pub open spec fn unit_name(u: TimeUnitKind) -> Seq<char> {
    match u {
        TimeUnitKind::Second => "Second"@,
        TimeUnitKind::Millisecond => "Millisecond"@,
        TimeUnitKind::Microsecond => "Microsecond"@,
        TimeUnitKind::Nanosecond => "Nanosecond"@,
    }
}

/// The short type name shown under a column's header.
pub open spec fn dtype_name(t: ColumnType) -> Seq<char>
    decreases t,
{
    match t {
        ColumnType::Boolean => "bool"@,
        ColumnType::Int8 => "int8"@,
        ColumnType::Int16 => "int16"@,
        ColumnType::Int32 => "int32"@,
        ColumnType::Int64 => "int64"@,
        ColumnType::UInt8 => "uint8"@,
        ColumnType::UInt16 => "uint16"@,
        ColumnType::UInt32 => "uint32"@,
        ColumnType::UInt64 => "uint64"@,
        ColumnType::Float16 => "float16"@,
        ColumnType::Float32 => "float32"@,
        ColumnType::Float64 => "float64"@,
        ColumnType::Utf8 | ColumnType::LargeUtf8 => "string"@,
        ColumnType::Binary | ColumnType::LargeBinary => "bytes"@,
        ColumnType::Date32 | ColumnType::Date64 => "date"@,
        ColumnType::Timestamp(u, tz) => "timestamp["@ + unit_name(u) + ", "@ + match tz {
            Some(z) => z@,
            None => "no tz"@,
        } + "]"@,
        ColumnType::List(inner) => "list<"@ + dtype_name(*inner) + ">"@,
        ColumnType::Struct => "struct"@,
        ColumnType::Dictionary(v) => "dict<"@ + dtype_name(*v) + ">"@,
        ColumnType::Decimal128(p, s) => "decimal("@ + signed_decimal(p as int) + ","@ + signed_decimal(
            s as int,
        ) + ")"@,
        ColumnType::Other(s) => s@,
    }
}

/// The kinds of type named without parameters; the two string types, the
/// two binary types and the two date types each share a kind. Other types
/// have no such kind.
pub open spec fn simple_kind(t: ColumnType) -> int {
    match t {
        ColumnType::Boolean => 0,
        ColumnType::Int8 => 1,
        ColumnType::Int16 => 2,
        ColumnType::Int32 => 3,
        ColumnType::Int64 => 4,
        ColumnType::UInt8 => 5,
        ColumnType::UInt16 => 6,
        ColumnType::UInt32 => 7,
        ColumnType::UInt64 => 8,
        ColumnType::Float16 => 9,
        ColumnType::Float32 => 10,
        ColumnType::Float64 => 11,
        ColumnType::Utf8 | ColumnType::LargeUtf8 => 12,
        ColumnType::Binary | ColumnType::LargeBinary => 13,
        ColumnType::Date32 | ColumnType::Date64 => 14,
        ColumnType::Struct => 15,
        _ => -1,
    }
}

/// The family and bit width of a numeric type.
pub open spec fn numeric_family(t: ColumnType) -> Option<(Seq<char>, nat)> {
    match t {
        ColumnType::Int8 => Some(("int"@, 8nat)),
        ColumnType::Int16 => Some(("int"@, 16nat)),
        ColumnType::Int32 => Some(("int"@, 32nat)),
        ColumnType::Int64 => Some(("int"@, 64nat)),
        ColumnType::UInt8 => Some(("uint"@, 8nat)),
        ColumnType::UInt16 => Some(("uint"@, 16nat)),
        ColumnType::UInt32 => Some(("uint"@, 32nat)),
        ColumnType::UInt64 => Some(("uint"@, 64nat)),
        ColumnType::Float16 => Some(("float"@, 16nat)),
        ColumnType::Float32 => Some(("float"@, 32nat)),
        ColumnType::Float64 => Some(("float"@, 64nat)),
        _ => None,
    }
}

/// A few characters that tell the simple type names apart.
spec fn name_marks(s: Seq<char>) -> (int, char, char, char) {
    (s.len() as int, s[0], s[s.len() - 1], s[s.len() - 2])
}

/// Types of different kinds get different names: only the two string
/// types, the two binary types and the two date types share one.
pub proof fn law_simple_type_names_differ(a: ColumnType, b: ColumnType)
    requires
        simple_kind(a) >= 0,
        simple_kind(b) >= 0,
        dtype_name(a) == dtype_name(b),
    ensures
        simple_kind(a) == simple_kind(b),
{
    reveal_strlit("bool");
    reveal_strlit("int8");
    reveal_strlit("int16");
    reveal_strlit("int32");
    reveal_strlit("int64");
    reveal_strlit("uint8");
    reveal_strlit("uint16");
    reveal_strlit("uint32");
    reveal_strlit("uint64");
    reveal_strlit("float16");
    reveal_strlit("float32");
    reveal_strlit("float64");
    reveal_strlit("string");
    reveal_strlit("bytes");
    reveal_strlit("date");
    reveal_strlit("struct");
    assert(name_marks(dtype_name(a)) == name_marks(dtype_name(b)));
}

/// A numeric type is named by its family followed by its bit width.
pub proof fn law_numeric_type_names(t: ColumnType)
    requires
        numeric_family(t) is Some,
    ensures
        match numeric_family(t) {
            Some((family, width)) => dtype_name(t) == family + decimal(width),
            None => false,
        },
{
    reveal_strlit("bool");
    reveal_strlit("int8");
    reveal_strlit("int16");
    reveal_strlit("int32");
    reveal_strlit("int64");
    reveal_strlit("uint8");
    reveal_strlit("uint16");
    reveal_strlit("uint32");
    reveal_strlit("uint64");
    reveal_strlit("float16");
    reveal_strlit("float32");
    reveal_strlit("float64");
    reveal_strlit("string");
    reveal_strlit("bytes");
    reveal_strlit("date");
    reveal_strlit("struct");
    reveal_strlit("int");
    reveal_strlit("uint");
    reveal_strlit("float");
    if let Some((family, w)) = numeric_family(t) {
        assert(decimal(w / 10) == seq![digit_char((w / 10) as int)]);
        assert(dtype_name(t) =~= family + decimal(w));
    }
}

/// The short type name shown under a column's header.
pub fn friendly_dtype(t: &ColumnType) -> (s: String)
    ensures
        s@ == dtype_name(*t),
    decreases t,
{
    match t {
        ColumnType::Boolean => String::from_str("bool"),
        ColumnType::Int8 => String::from_str("int8"),
        ColumnType::Int16 => String::from_str("int16"),
        ColumnType::Int32 => String::from_str("int32"),
        ColumnType::Int64 => String::from_str("int64"),
        ColumnType::UInt8 => String::from_str("uint8"),
        ColumnType::UInt16 => String::from_str("uint16"),
        ColumnType::UInt32 => String::from_str("uint32"),
        ColumnType::UInt64 => String::from_str("uint64"),
        ColumnType::Float16 => String::from_str("float16"),
        ColumnType::Float32 => String::from_str("float32"),
        ColumnType::Float64 => String::from_str("float64"),
        ColumnType::Utf8 | ColumnType::LargeUtf8 => String::from_str("string"),
        ColumnType::Binary | ColumnType::LargeBinary => String::from_str("bytes"),
        ColumnType::Date32 | ColumnType::Date64 => String::from_str("date"),
        ColumnType::Timestamp(u, tz) => {
            let mut s = String::from_str("timestamp[");
            let name = match u {
                TimeUnitKind::Second => "Second",
                TimeUnitKind::Millisecond => "Millisecond",
                TimeUnitKind::Microsecond => "Microsecond",
                TimeUnitKind::Nanosecond => "Nanosecond",
            };
            s.append(name);
            s.append(", ");
            match tz {
                Some(z) => s.append(z.as_str()),
                None => s.append("no tz"),
            }
            s.append("]");
            s
        },
        ColumnType::List(inner) => {
            let mut s = String::from_str("list<");
            let n = friendly_dtype(&**inner);
            s.append(n.as_str());
            s.append(">");
            s
        },
        ColumnType::Struct => String::from_str("struct"),
        ColumnType::Dictionary(v) => {
            let mut s = String::from_str("dict<");
            let n = friendly_dtype(&**v);
            s.append(n.as_str());
            s.append(">");
            s
        },
        ColumnType::Decimal128(p, sc) => {
            let mut s = String::from_str("decimal(");
            let pd = string_of(&signed_decimal_chars(*p as i128));
            s.append(pd.as_str());
            s.append(",");
            let sd = string_of(&signed_decimal_chars(*sc as i128));
            s.append(sd.as_str());
            s.append(")");
            s
        },
        ColumnType::Other(s) => s.clone(),
    }
}

/// One cell of a loaded table, as the viewer shows it.
pub enum CellValue {
    /// A null entry.
    Null,
    Bool(bool),
    /// A value of any of the integer types.
    Int(i128),
    /// Text, or a value already written out (a float, or a type the viewer
    /// renders through the columnar library).
    Text(String),
    /// Days since 1970-01-01.
    Date32(i32),
    /// Milliseconds since 1970-01-01.
    Date64(i64),
    /// A timestamp in the given unit since 1970-01-01 00:00:00.
    Timestamp(TimeUnitKind, i64),
}

/// The text shown for a cell; a null shows as the empty text.
pub open spec fn cell_display(v: CellValue) -> Seq<char> {
    match v {
        CellValue::Null => Seq::empty(),
        CellValue::Bool(b) => if b {
            "true"@
        } else {
            "false"@
        },
        CellValue::Int(n) => signed_decimal(n as int),
        CellValue::Text(t) => t@,
        CellValue::Date32(d) => date_text(d),
        CellValue::Date64(ms) => date64_text(ms),
        CellValue::Timestamp(u, t) => match u {
            TimeUnitKind::Second => timestamp_text(t as int, 1, 0),
            TimeUnitKind::Millisecond => timestamp_text(t as int, 1000, 3),
            TimeUnitKind::Microsecond => timestamp_text(t as int, 1_000_000, 6),
            TimeUnitKind::Nanosecond => timestamp_text(t as int, 1_000_000_000, 9),
        },
    }
}

/// The text shown for a cell.
pub fn format_cell(v: &CellValue) -> (s: String)
    ensures
        s@ == cell_display(*v),
{
    match v {
        CellValue::Null => String::new(),
        CellValue::Bool(b) => if *b {
            String::from_str("true")
        } else {
            String::from_str("false")
        },
        CellValue::Int(n) => string_of(&signed_decimal_chars(*n)),
        CellValue::Text(t) => t.clone(),
        CellValue::Date32(d) => format_date32(*d),
        CellValue::Date64(ms) => format_date64(*ms),
        CellValue::Timestamp(u, t) => match u {
            TimeUnitKind::Second => format_timestamp_s(*t),
            TimeUnitKind::Millisecond => format_timestamp_ms(*t),
            TimeUnitKind::Microsecond => format_timestamp_us(*t),
            TimeUnitKind::Nanosecond => format_timestamp_ns(*t),
        },
    }
}

} // verus!
