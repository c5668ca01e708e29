use parquet_viewer::data::{LoadResult, ParquetData, ViewState};
use parquet_viewer::meta::ColumnMeta;
use parquet_viewer::report::{FileSummary, MetaSummary};
use parquet_viewer::session::{dark_mode_setting, Session};

fn s(x: &str) -> String {
    x.to_string()
}

fn data(rows: usize) -> ParquetData {
    let summary = MetaSummary {
        file: FileSummary {
            path: s("/f.parquet"),
            size: s("1 B"),
            parquet_version: s("1"),
            created_by: s("unknown"),
            total_rows: rows.to_string(),
            column_count: s("1"),
            row_group_count: s("1"),
        },
        columns: vec![],
    };
    let table: Vec<Vec<String>> = (0..rows).map(|r| vec![r.to_string()]).collect();
    ParquetData::assemble("/f.parquet", 1, vec![ColumnMeta { name: s("n"), dtype: s("int64") }], table, summary, s(""))
}

#[test]
fn dark_mode_unless_stored_false() {
    assert!(dark_mode_setting(None));
    assert!(dark_mode_setting(Some(s("true"))));
    assert!(dark_mode_setting(Some(s("False"))));
    assert!(!dark_mode_setting(Some(s("false"))));
}

#[test]
fn a_load_goes_through_its_states() {
    let mut session = Session::new(false, vec![s("/old.parquet")]);
    assert!(matches!(session.state, ViewState::Empty));
    assert_eq!(session.loaded_row_count(), None);
    session.search = s("needle");
    session.show_meta = true;
    let saved = session.begin_load("/f.parquet").unwrap();
    assert!(matches!(session.state, ViewState::Loading));
    assert_eq!(session.search, "");
    assert!(!session.show_meta);
    assert!(!session.dark_mode);
    assert_eq!(session.recent_files, vec![s("/f.parquet"), s("/old.parquet")]);
    assert_eq!(serde_json::from_str::<Vec<String>>(&saved).unwrap(), session.recent_files);

    session.end_load(LoadResult::Loaded(data(5)));
    assert_eq!(session.loaded_row_count(), Some(5));
    assert_eq!((session.range.from, session.range.to), (0, 4));
    match &session.state {
        ViewState::Loaded(d, ts) => {
            assert_eq!(d.row_count, 5);
            assert_eq!(ts.row_order, vec![0, 1, 2, 3, 4]);
        }
        _ => panic!("expected a loaded table"),
    }

    session.search = s("x");
    session.range.from_input = s("2");
    session.range.apply_inputs(5);
    assert_eq!((session.range.from, session.range.to), (2, 4));
    session.clear_filter(5);
    assert_eq!(session.search, "");
    assert_eq!((session.range.from, session.range.to), (0, 4));
}

#[test]
fn a_failed_load_shows_its_message() {
    let mut session = Session::new(true, vec![]);
    session.begin_load("/bad.parquet");
    session.end_load(LoadResult::Failed(s("Cannot open file: missing")));
    match &session.state {
        ViewState::Error(m) => assert_eq!(m, "Cannot open file: missing"),
        _ => panic!("expected an error"),
    }
    assert_eq!(session.loaded_row_count(), None);
    assert_eq!(session.recent_files, vec![s("/bad.parquet")]);
}
