use parquet_viewer::layout::{append_table, format_table_row};
use parquet_viewer::meta::{
    build_column_summaries, extract_pandas_columns, pandas_columns, pandas_entries, pandas_metadata, ChunkInfo, ColumnMeta, FileMetadata, KeyValueEntry,
    PandasColumnEntry, RowGroupInfo,
};
use parquet_viewer::names::{insert_name, join_set};
use parquet_viewer::report::{build_meta_summary, build_metadata_text, meta_summary_with_pandas, metadata_text_with_pandas};

fn s(x: &str) -> String {
    x.to_string()
}

fn chunk(path: &str, codec: &str, encodings: &[&str], compressed: i64, uncompressed: i64, nulls: Option<u64>) -> ChunkInfo {
    ChunkInfo {
        path: s(path),
        compression: s(codec),
        encodings: encodings.iter().map(|e| s(e)).collect(),
        num_values: 3,
        compressed_size: compressed,
        uncompressed_size: uncompressed,
        null_count: nulls,
    }
}

fn sample_meta() -> FileMetadata {
    FileMetadata {
        version: 1,
        created_by: Some(s("parquet-cpp-arrow version 14.0.1")),
        num_rows: 3,
        num_columns: 2,
        key_values: Some(vec![
            KeyValueEntry { key: s("pandas"), value: Some(s("{\"columns\": []}")) },
            KeyValueEntry { key: s("note"), value: None },
        ]),
        row_groups: vec![RowGroupInfo {
            num_rows: 3,
            compressed_size: 300,
            total_byte_size: 2048,
            columns: vec![
                chunk("id", "SNAPPY", &["PLAIN", "RLE", "PLAIN"], 100, 150, Some(0)),
                chunk("name", "ZSTD(ZstdLevel(1))", &["RLE_DICTIONARY", "PLAIN"], 200, 1900, None),
            ],
        }],
    }
}

fn sample_columns() -> Vec<ColumnMeta> {
    vec![ColumnMeta { name: s("id"), dtype: s("int64") }, ColumnMeta { name: s("name"), dtype: s("string") }]
}

fn sample_pandas() -> Vec<PandasColumnEntry> {
    vec![
        PandasColumnEntry { field_name: Some(s("id")), name: None, pandas_type: Some(s("int64")), numpy_type: Some(s("int64")) },
        PandasColumnEntry { field_name: None, name: Some(s("name")), pandas_type: Some(s("unicode")), numpy_type: Some(s("object")) },
        PandasColumnEntry { field_name: None, name: None, pandas_type: Some(s("ignored")), numpy_type: None },
    ]
}

#[test]
fn metadata_text_lists_everything() {
    let pandas = extract_pandas_columns(&sample_pandas());
    let text = metadata_text_with_pandas("/data/t.parquet", 2560, &sample_meta(), &sample_columns(), &pandas);
    let expected = [
        "[Section 1: Summary]",
        "+- File info",
        "|  +- Path: /data/t.parquet",
        "|  +- Size: 2.5 KB",
        "|  +- Parquet version: 1",
        "|  +- Created by: parquet-cpp-arrow version 14.0.1",
        "|  +- Total rows: 3",
        "|  +- Columns: 2",
        "|  +- Row groups: 1",
        "+- Column details",
        "|  Column | Data type                             | Compression        | Encodings             | Uncompressed | Compressed | Null count",
        "|  -------+---------------------------------------+--------------------+-----------------------+--------------+------------+-----------",
        "|  id     | int64 [pandas=int64, numpy=int64]     | SNAPPY             | PLAIN, RLE            | 150 B        | 100 B      | 0         ",
        "|  name   | string [pandas=unicode, numpy=object] | ZSTD(ZstdLevel(1)) | PLAIN, RLE_DICTIONARY | 1.9 KB       | 200 B      | unknown   ",
        "",
        "Parquet metadata",
        "+- File",
        "|  +- Path: /data/t.parquet",
        "|  +- Size: 2.5 KB",
        "|  +- Parquet format version: 1",
        "|  +- Created by: parquet-cpp-arrow version 14.0.1",
        "|  +- Rows (file metadata): 3",
        "|  +- Columns (schema leaf): 2",
        "|  +- Row groups: 1",
        "+- Columns (2)",
        "|  +- [0] id: int64",
        "|  +- [1] name: string",
        "+- Key-value metadata (2)",
        "|  +- pandas",
        "|  |  +- Value: {\"columns\": []}",
        "|  +- note",
        "|  |  +- Value: <null>",
        "+- Row groups (1)",
        "   +- RG #0",
        "      +- Rows: 3",
        "      +- Compressed size: 300 B",
        "      +- Uncompressed size: 2.0 KB",
        "      +- Codecs: SNAPPY, ZSTD(ZstdLevel(1))",
        "      +- Column chunks (2)",
        "      |  +- [0] path=id, compression=SNAPPY, values=3, compressed=100 B, uncompressed=150 B",
        "      |  +- [1] path=name, compression=ZSTD(ZstdLevel(1)), values=3, compressed=200 B, uncompressed=1.9 KB",
    ]
    .join("\n");
    assert_eq!(text, expected);
}

#[test]
fn metadata_text_without_optional_parts() {
    let meta = FileMetadata {
        version: 2,
        created_by: None,
        num_rows: 0,
        num_columns: 0,
        key_values: None,
        row_groups: vec![RowGroupInfo { num_rows: 0, compressed_size: -5, total_byte_size: 0, columns: vec![] }],
    };
    let text = metadata_text_with_pandas("x", 0, &meta, &vec![], &vec![]);
    let expected = [
        "[Section 1: Summary]",
        "+- File info",
        "|  +- Path: x",
        "|  +- Size: 0 B",
        "|  +- Parquet version: 2",
        "|  +- Created by: unknown",
        "|  +- Total rows: 0",
        "|  +- Columns: 0",
        "|  +- Row groups: 1",
        "+- Column details",
        "|  Column | Data type | Compression | Encodings | Uncompressed | Compressed | Null count",
        "|  -------+-----------+-------------+-----------+--------------+------------+-----------",
        "",
        "Parquet metadata",
        "+- File",
        "|  +- Path: x",
        "|  +- Size: 0 B",
        "|  +- Parquet format version: 2",
        "|  +- Created by: unknown",
        "|  +- Rows (file metadata): 0",
        "|  +- Columns (schema leaf): 0",
        "|  +- Row groups: 1",
        "+- Columns (0)",
        "+- Key-value metadata (0)",
        "+- Row groups (1)",
        "   +- RG #0",
        "      +- Rows: 0",
        "      +- Compressed size: -5 B",
        "      +- Uncompressed size: 0 B",
        "      +- Codecs: none",
        "      +- Column chunks (0)",
    ]
    .join("\n");
    assert_eq!(text, expected);
}

#[test]
fn summary_shows_file_and_columns() {
    let pandas = extract_pandas_columns(&sample_pandas());
    let m = meta_summary_with_pandas("/data/t.parquet", 2560, &sample_meta(), &sample_columns(), &pandas);
    assert_eq!(m.file.path, "/data/t.parquet");
    assert_eq!(m.file.size, "2.5 KB");
    assert_eq!(m.file.parquet_version, "1");
    assert_eq!(m.file.created_by, "parquet-cpp-arrow version 14.0.1");
    assert_eq!(m.file.total_rows, "3");
    assert_eq!(m.file.column_count, "2");
    assert_eq!(m.file.row_group_count, "1");
    assert_eq!(m.columns.len(), 2);
    let c = &m.columns[1];
    assert_eq!(c.name, "name");
    assert_eq!(c.dtype, "string [pandas=unicode, numpy=object]");
    assert_eq!(c.compression, "ZSTD(ZstdLevel(1))");
    assert_eq!(c.encodings, "PLAIN, RLE_DICTIONARY");
    assert_eq!(c.uncompressed_size, "1.9 KB");
    assert_eq!(c.compressed_size, "200 B");
    assert_eq!(c.null_count, "unknown");
    assert_eq!(m.columns[0].null_count, "0");
}

#[test]
fn column_summaries_gather_over_row_groups() {
    let mut meta = sample_meta();
    let second = RowGroupInfo {
        num_rows: 1,
        compressed_size: 10,
        total_byte_size: 10,
        columns: vec![
            chunk("id", "GZIP(GzipLevel(6))", &["BIT_PACKED"], 5, -7, Some(4)),
            chunk("name", "SNAPPY", &["PLAIN"], 6, 8, Some(1)),
            chunk("extra", "LZ4", &["PLAIN"], 1000, 1000, None),
        ],
    };
    meta.row_groups.push(second);
    let out = build_column_summaries(&meta, &sample_columns(), &extract_pandas_columns(&vec![]));
    assert_eq!(out.len(), 2);
    assert_eq!(out[0].name, "id");
    assert_eq!(out[0].dtype, "int64");
    assert_eq!(out[0].compression, vec![s("GZIP(GzipLevel(6))"), s("SNAPPY")]);
    assert_eq!(out[0].encodings, vec![s("BIT_PACKED"), s("PLAIN"), s("RLE")]);
    // A negative size is left out of the total.
    assert_eq!(out[0].uncompressed_size, 150);
    assert_eq!(out[0].compressed_size, 105);
    assert_eq!(out[0].null_count, Some(4));
    assert_eq!(out[1].compressed_size, 206);
    assert_eq!(out[1].null_count, None);
}

#[test]
fn pandas_details_take_the_last_entry() {
    let entries = vec![
        PandasColumnEntry { field_name: Some(s("a")), name: Some(s("b")), pandas_type: Some(s("int64")), numpy_type: None },
        PandasColumnEntry { field_name: Some(s("a")), name: None, pandas_type: None, numpy_type: Some(s("float64")) },
    ];
    let table = extract_pandas_columns(&entries);
    let found: Vec<_> = table.iter().filter(|(k, _)| k == "a").collect();
    assert_eq!(found.len(), 1);
    assert_eq!(found[0].1.pandas_type, None);
    assert_eq!(found[0].1.numpy_type, Some(s("float64")));
    assert!(table.iter().all(|(k, _)| k != "b"));
    let cols = vec![ColumnMeta { name: s("a"), dtype: s("float64") }, ColumnMeta { name: s("b"), dtype: s("int64") }];
    let out = build_column_summaries(&FileMetadata {
        version: 1, created_by: None, num_rows: 0, num_columns: 2, key_values: None, row_groups: vec![],
    }, &cols, &table);
    assert_eq!(out[0].dtype, "float64 [numpy=float64]");
    assert_eq!(out[1].dtype, "int64");
    assert_eq!(out[0].compression, Vec::<String>::new());
    assert_eq!(out[0].null_count, Some(0));
}

#[test]
fn pandas_metadata_is_found_by_key() {
    let kv = Some(vec![
        KeyValueEntry { key: s("other"), value: Some(s("1")) },
        KeyValueEntry { key: s("pandas"), value: Some(s("{}")) },
        KeyValueEntry { key: s("pandas"), value: Some(s("second")) },
    ]);
    assert_eq!(pandas_metadata(&kv), Some(s("{}")));
    assert_eq!(pandas_metadata(&None), None);
    let no_value = Some(vec![KeyValueEntry { key: s("pandas"), value: None }]);
    assert_eq!(pandas_metadata(&no_value), None);
}

#[test]
fn table_rows_are_padded() {
    let widths = vec![3, 5, 0];
    assert_eq!(format_table_row(&vec![s("a"), s("héllo"), s("xy")], &widths), "a   | héllo | xy");
    let mut lines = vec![s("first")];
    append_table(&mut lines, &vec![s("H1"), s("Header")], &vec![vec![s("long cell"), s("x")], vec![s("y")]]);
    assert_eq!(lines, vec![s("first"), s("|  H1        | Header"), s("|  ----------+-------"), s("|  long cell | x     "), s("|  y        ")]);
}

#[test]
fn name_sets_are_sorted_and_joined() {
    let mut names: Vec<String> = Vec::new();
    for n in ["RLE", "PLAIN", "RLE", "BIT_PACKED", "PLAIN"] {
        insert_name(&mut names, &s(n));
    }
    assert_eq!(names, vec![s("BIT_PACKED"), s("PLAIN"), s("RLE")]);
    assert_eq!(join_set(&names), "BIT_PACKED, PLAIN, RLE");
    assert_eq!(join_set(&vec![]), "unknown");
}

#[test]
fn pandas_json_is_read() {
    let json = r#"{"index_columns": [], "columns": [
        {"name": "a", "field_name": "a", "pandas_type": "int64", "numpy_type": "int64", "metadata": null},
        {"name": "b", "field_name": null, "pandas_type": "unicode", "numpy_type": 5},
        {"pandas_type": "bool"},
        7,
        {"field_name": "a", "pandas_type": "float64"}
    ]}"#;
    let entries = pandas_entries(json);
    assert_eq!(entries.len(), 5);
    assert_eq!(entries[0].field_name, Some(s("a")));
    assert_eq!(entries[0].numpy_type, Some(s("int64")));
    assert_eq!(entries[1].field_name, None);
    assert_eq!(entries[1].name, Some(s("b")));
    assert_eq!(entries[1].numpy_type, None);
    assert_eq!(entries[2].name, None);
    assert_eq!(entries[3].pandas_type, None);

    let kv = Some(vec![KeyValueEntry { key: s("pandas"), value: Some(s(json)) }]);
    let table = pandas_columns(&kv);
    assert_eq!(table.len(), 2);
    let a = table.iter().find(|(k, _)| k == "a").unwrap();
    assert_eq!(a.1.pandas_type, Some(s("float64")));
    assert_eq!(a.1.numpy_type, None);
    let b = table.iter().find(|(k, _)| k == "b").unwrap();
    assert_eq!(b.1.pandas_type, Some(s("unicode")));

    for bad in ["", "not json", "[1, 2]", "{\"columns\": {}}", "{\"columns\": \"x\"}", "{\"other\": []}"] {
        assert!(pandas_entries(bad).is_empty(), "{bad}");
        let kv = Some(vec![KeyValueEntry { key: s("pandas"), value: Some(s(bad)) }]);
        assert!(pandas_columns(&kv).is_empty());
    }
    assert!(pandas_columns(&None).is_empty());
    // A repeated member name keeps its last value, as serde_json reads it.
    let dup = pandas_entries(r#"{"columns": [{"name": "x", "name": "y"}]}"#);
    assert_eq!(dup[0].name, Some(s("y")));
}

#[test]
fn pandas_details_come_from_the_file_itself() {
    let mut meta = sample_meta();
    let json = r#"{"columns": [{"field_name": "id", "pandas_type": "int64", "numpy_type": "int64"},
        {"name": "name", "pandas_type": "unicode", "numpy_type": "object"}]}"#;
    meta.key_values = Some(vec![
        KeyValueEntry { key: s("pandas"), value: Some(s(json)) },
        KeyValueEntry { key: s("note"), value: None },
    ]);
    let from_file = build_metadata_text("/data/t.parquet", 2560, &meta, &sample_columns());
    let given = metadata_text_with_pandas(
        "/data/t.parquet",
        2560,
        &meta,
        &sample_columns(),
        &extract_pandas_columns(&sample_pandas()),
    );
    assert_eq!(from_file, given);
    assert!(from_file.contains("| int64 [pandas=int64, numpy=int64]     |"));
    let m = build_meta_summary("/data/t.parquet", 2560, &meta, &sample_columns());
    assert_eq!(m.columns[1].dtype, "string [pandas=unicode, numpy=object]");
    // Without readable pandas metadata the types are shown bare.
    let m = build_meta_summary("/data/t.parquet", 2560, &sample_meta(), &sample_columns());
    assert_eq!(m.columns[0].dtype, "int64");
    assert_eq!(m.columns[1].dtype, "string");
}
