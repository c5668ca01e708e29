use parquet_viewer::data::{append_batch_rows, finish_load, load_failure, LoadFailure, LoadResult, ParquetData, ViewState};
use parquet_viewer::meta::ColumnMeta;
use parquet_viewer::report::{FileSummary, MetaSummary};
use parquet_viewer::rows::RowRange;

fn s(x: &str) -> String {
    x.to_string()
}

fn empty_summary() -> MetaSummary {
    MetaSummary {
        file: FileSummary {
            path: s("p"),
            size: s("0 B"),
            parquet_version: s("1"),
            created_by: s("unknown"),
            total_rows: s("0"),
            column_count: s("0"),
            row_group_count: s("0"),
        },
        columns: vec![],
    }
}

fn sample_data(rows: Vec<Vec<String>>) -> ParquetData {
    let columns = vec![ColumnMeta { name: s("a"), dtype: s("int64") }, ColumnMeta { name: s("b"), dtype: s("string") }];
    ParquetData::assemble("/t.parquet", 1234, columns, rows, empty_summary(), s("text"))
}

#[test]
fn batches_are_turned_into_rows() {
    let mut rows: Vec<Vec<String>> = vec![vec![s("old"), s("row")]];
    let cells = vec![vec![s("1"), s("2"), s("3")], vec![s("x"), s(""), s("z"), s("extra")]];
    append_batch_rows(&mut rows, &cells, 3);
    assert_eq!(
        rows,
        vec![vec![s("old"), s("row")], vec![s("1"), s("x")], vec![s("2"), s("")], vec![s("3"), s("z")]]
    );
    append_batch_rows(&mut rows, &cells, 0);
    assert_eq!(rows.len(), 4);
    let mut none: Vec<Vec<String>> = Vec::new();
    append_batch_rows(&mut none, &vec![], 2);
    assert_eq!(none, vec![Vec::<String>::new(), Vec::new()]);
}

#[test]
fn assembled_data_counts_rows_and_columns() {
    let d = sample_data(vec![vec![s("1"), s("x")], vec![s("2"), s("y")], vec![s("3"), s("z")]]);
    assert_eq!(d.row_count, 3);
    assert_eq!(d.col_count, 2);
    assert_eq!(d.file_size, 1234);
    assert_eq!(d.file_path, "/t.parquet");
    assert_eq!(d.meta_text, "text");
}

#[test]
fn failures_carry_their_step() {
    let cases = [
        (LoadFailure::Open, "Cannot open file: No such file"),
        (LoadFailure::Read, "Cannot read parquet: No such file"),
        (LoadFailure::Build, "Cannot build reader: No such file"),
        (LoadFailure::Batch, "Error reading batch: No such file"),
    ];
    for (kind, text) in cases {
        match load_failure(kind, "No such file") {
            LoadResult::Failed(m) => assert_eq!(m, text),
            LoadResult::Loaded(_) => panic!("a failure gives no data"),
        }
    }
}

#[test]
fn finished_load_shows_table_or_error() {
    let mut range = RowRange::new();
    let d = sample_data(vec![vec![s("1"), s("x")], vec![s("2"), s("y")], vec![s("3"), s("z")]]);
    match finish_load(LoadResult::Loaded(d), &mut range) {
        ViewState::Loaded(data, ts) => {
            assert_eq!(data.row_count, 3);
            assert_eq!(ts.row_order, vec![0, 1, 2]);
            assert_eq!(ts.sort_col, None);
        }
        _ => panic!("expected a loaded table"),
    }
    assert_eq!((range.from, range.to), (0, 2));
    assert_eq!(range.to_input, "2");

    let mut kept = RowRange::new();
    kept.from = 4;
    kept.to = 9;
    match finish_load(LoadResult::Failed(s("boom")), &mut kept) {
        ViewState::Error(m) => assert_eq!(m, "boom"),
        _ => panic!("expected an error"),
    }
    assert_eq!((kept.from, kept.to), (4, 9));
}
