use parquet_viewer::table::TableState;

fn rows_of(cells: &[&[&str]]) -> Vec<Vec<String>> {
    cells.iter().map(|r| r.iter().map(|c| c.to_string()).collect()).collect()
}

/// Each row's cell in `col` read as a binary64 number, where it reads as one.
fn numbers_for(rows: &[Vec<String>], col: usize) -> Vec<Option<u64>> {
    rows.iter()
        .map(|r| r.get(col).and_then(|c| c.parse::<f64>().ok()).map(f64::to_bits))
        .collect()
}

fn sort(ts: &mut TableState, col: usize, rows: &[Vec<String>]) {
    let numbers = numbers_for(rows, col);
    ts.sort_by(col, rows, &numbers);
}

/// A stable sort by std's own sort with the table's comparison.
fn expected_order(order: &[usize], rows: &[Vec<String>], col: usize, asc: bool) -> Vec<usize> {
    let mut v = order.to_vec();
    v.sort_by(|&a, &b| {
        let va = rows[a].get(col).map(String::as_str).unwrap_or("");
        let vb = rows[b].get(col).map(String::as_str).unwrap_or("");
        let c = match (va.parse::<f64>(), vb.parse::<f64>()) {
            (Ok(x), Ok(y)) => x.partial_cmp(&y).unwrap_or(std::cmp::Ordering::Equal),
            _ => va.cmp(vb),
        };
        if asc { c } else { c.reverse() }
    });
    v
}

#[test]
fn new_table_is_in_natural_order() {
    let ts = TableState::new(4);
    assert_eq!(ts.row_order, vec![0, 1, 2, 3]);
    assert_eq!(ts.sort_col, None);
    assert!(ts.sort_asc);
    assert_eq!(ts.selected_row, None);
    let empty = TableState::new(0);
    assert!(empty.row_order.is_empty());
}

#[test]
fn sorts_text_column_and_toggles_direction() {
    let rows = rows_of(&[&["pear", "x"], &["apple", "y"], &["fig", "z"], &["banana", "w"]]);
    let mut ts = TableState::new(rows.len());
    sort(&mut ts, 0, &rows);
    assert_eq!(ts.sort_col, Some(0));
    assert!(ts.sort_asc);
    assert_eq!(ts.row_order, vec![1, 3, 2, 0]);
    sort(&mut ts, 0, &rows);
    assert!(!ts.sort_asc);
    assert_eq!(ts.row_order, vec![0, 2, 3, 1]);
    sort(&mut ts, 1, &rows);
    assert_eq!(ts.sort_col, Some(1));
    assert!(ts.sort_asc);
    assert_eq!(ts.row_order, vec![3, 0, 1, 2]);
}

#[test]
fn sorts_numbers_numerically() {
    let rows = rows_of(&[&["10"], &["9"], &["-3.5"], &["100"], &["1e1"], &["0"]]);
    let mut ts = TableState::new(rows.len());
    sort(&mut ts, 0, &rows);
    // 10 and 1e1 tie and keep their order.
    assert_eq!(ts.row_order, vec![2, 5, 1, 0, 4, 3]);
    sort(&mut ts, 0, &rows);
    assert_eq!(ts.row_order, vec![3, 0, 4, 1, 5, 2]);
}

#[test]
fn ties_keep_their_order() {
    let rows = rows_of(&[&["b", "1"], &["a", "2"], &["b", "3"], &["a", "4"], &["b", "5"]]);
    let mut ts = TableState::new(rows.len());
    sort(&mut ts, 0, &rows);
    assert_eq!(ts.row_order, vec![1, 3, 0, 2, 4]);
    // Descending also keeps tied rows in their previous order.
    sort(&mut ts, 0, &rows);
    assert_eq!(ts.row_order, vec![0, 2, 4, 1, 3]);
}

#[test]
fn missing_cells_sort_as_empty_text() {
    let rows = rows_of(&[&["b", "q"], &["a"], &["c", "p"], &[]]);
    let mut ts = TableState::new(rows.len());
    sort(&mut ts, 1, &rows);
    assert_eq!(ts.row_order, vec![1, 3, 2, 0]);
}

#[test]
fn sort_matches_std_stable_sort_on_uniform_columns() {
    let mut x: u64 = 0x2545_F491_4F6C_DD1D;
    let mut next = || {
        x ^= x << 13;
        x ^= x >> 7;
        x ^= x << 17;
        x
    };
    for round in 0..60 {
        let n = (next() % 40) as usize;
        let rows: Vec<Vec<String>> = (0..n)
            .map(|_| {
                let word: String = (0..(next() % 4)).map(|_| (b'a' + (next() % 3) as u8) as char).collect();
                let num = format!("{}", (next() % 21) as i64 - 10);
                let frac = format!("{}.{}", (next() % 5) as i64 - 2, next() % 10);
                vec![word, num, frac]
            })
            .collect();
        let mut ts = TableState::new(n);
        let col = round % 3;
        let before = ts.row_order.clone();
        sort(&mut ts, col, &rows);
        assert_eq!(ts.row_order, expected_order(&before, &rows, col, true));
        let before = ts.row_order.clone();
        sort(&mut ts, col, &rows);
        assert_eq!(ts.row_order, expected_order(&before, &rows, col, false));
    }
}

#[test]
fn sort_keeps_every_row_once() {
    let rows = rows_of(&[&["NaN"], &["2"], &["x"], &["1"], &["NaN"], &["inf"], &["-inf"], &["b"]]);
    let mut ts = TableState::new(rows.len());
    for _ in 0..3 {
        sort(&mut ts, 0, &rows);
        let mut seen = ts.row_order.clone();
        seen.sort();
        assert_eq!(seen, (0..rows.len()).collect::<Vec<_>>());
    }
}

#[test]
fn numeric_sort_handles_signs_and_infinities() {
    let rows = rows_of(&[&["-0"], &["inf"], &["-1e300"], &["0"], &["-inf"], &["5e-324"]]);
    let mut ts = TableState::new(rows.len());
    sort(&mut ts, 0, &rows);
    assert_eq!(ts.row_order, vec![4, 2, 0, 3, 5, 1]);
}

#[test]
fn a_single_entry_order_is_left_as_is() {
    let rows = rows_of(&[&["b"], &["a"]]);
    let mut ts = TableState::new(0);
    ts.row_order = vec![7];
    sort(&mut ts, 0, &rows);
    assert_eq!(ts.row_order, vec![7]);
    assert_eq!(ts.sort_col, Some(0));
    assert!(ts.sort_asc);
}
