use parquet_viewer::search::{contains_chars, ends_with_chars, is_parquet_path, match_spans, row_contains, visible_rows};

fn chars(s: &str) -> Vec<char> {
    s.chars().collect()
}

fn table() -> Vec<Vec<String>> {
    [["Alice", "Paris"], ["bob", "Berlin"], ["Carol", "PARIS"], ["dave", "Rome"]]
        .iter()
        .map(|r| r.iter().map(|c| c.to_string()).collect())
        .collect()
}

#[test]
fn without_search_the_range_decides() {
    let rows = table();
    assert_eq!(visible_rows(&vec![0, 1, 2, 3], &rows, 0, 3, ""), vec![0, 1, 2, 3]);
    assert_eq!(visible_rows(&vec![3, 2, 1, 0], &rows, 1, 2, ""), vec![2, 1]);
    assert_eq!(visible_rows(&vec![0, 1], &rows, 2, 3, ""), Vec::<usize>::new());
}

#[test]
fn search_is_case_insensitive_and_keeps_order() {
    let rows = table();
    assert_eq!(visible_rows(&vec![3, 2, 1, 0], &rows, 0, 3, "paris"), vec![2, 0]);
    assert_eq!(visible_rows(&vec![0, 1, 2, 3], &rows, 0, 3, "B"), vec![1]);
    assert_eq!(visible_rows(&vec![0, 1, 2, 3], &rows, 1, 3, "PaR"), vec![2]);
    assert_eq!(visible_rows(&vec![0, 1, 2, 3], &rows, 0, 3, "zzz"), Vec::<usize>::new());
    // Three of the rows have a cell with an "a" or an "A".
    assert_eq!(visible_rows(&vec![0, 1, 2, 3], &rows, 0, 3, "a").len(), 3);
}

#[test]
fn rows_match_on_any_cell() {
    let row = vec!["ÉCOLE".to_string(), "x".to_string()];
    assert!(row_contains(&row, &chars("école")));
    assert!(row_contains(&row, &chars("x")));
    assert!(!row_contains(&row, &chars("y")));
    assert!(row_contains(&row, &chars("")));
    assert!(!row_contains(&Vec::new(), &chars("")));
}

#[test]
fn substring_search() {
    assert!(contains_chars(&chars("hello"), &chars("ell")));
    assert!(contains_chars(&chars("hello"), &chars("")));
    assert!(contains_chars(&chars("hello"), &chars("hello")));
    assert!(!contains_chars(&chars("hello"), &chars("hellos")));
    assert!(!contains_chars(&chars(""), &chars("a")));
    assert!(contains_chars(&chars("aab"), &chars("ab")));
    assert!(ends_with_chars(&chars("x.parquet"), &chars(".parquet")));
    assert!(!ends_with_chars(&chars("parquet"), &chars(".parquet")));
}

#[test]
fn dropped_files_are_recognised_by_extension() {
    assert!(is_parquet_path("/tmp/data.parquet"));
    assert!(is_parquet_path("C:\\Data\\SALES.PARQUET"));
    assert!(is_parquet_path("x.Parq"));
    assert!(!is_parquet_path("x.parquet.bak"));
    assert!(!is_parquet_path("notes.txt"));
    assert!(!is_parquet_path("parquet"));
    assert!(is_parquet_path(".parq"));
}

#[test]
fn spans_are_leftmost_and_do_not_overlap() {
    assert_eq!(match_spans(&chars("banana"), &chars("ana")), vec![(1, 4)]);
    assert_eq!(match_spans(&chars("aaaa"), &chars("aa")), vec![(0, 2), (2, 4)]);
    assert_eq!(match_spans(&chars("abcabc"), &chars("c")), vec![(2, 3), (5, 6)]);
    assert_eq!(match_spans(&chars("abc"), &chars("abcd")), Vec::<(usize, usize)>::new());
    assert_eq!(match_spans(&chars("xyz"), &chars("xyz")), vec![(0, 3)]);
}

#[test]
fn spans_agree_with_str_find() {
    let mut x: u64 = 0x5555_aaaa_1234_9876;
    for _ in 0..3000 {
        x ^= x << 13;
        x ^= x >> 7;
        x ^= x << 17;
        let hay: String = (0..(x % 12)).map(|k| if (x >> (k + 8)) & 1 == 1 { 'a' } else { 'b' }).collect();
        let query: String = (0..(1 + (x >> 40) % 3)).map(|k| if (x >> (k + 30)) & 1 == 1 { 'a' } else { 'b' }).collect();
        let mut expected = Vec::new();
        let mut start = 0;
        while let Some(pos) = hay[start..].find(&query) {
            let b = start + pos;
            expected.push((b, b + query.len()));
            start = b + query.len();
        }
        assert_eq!(match_spans(&chars(&hay), &chars(&query)), expected, "{hay} {query}");
    }
}

#[test]
fn search_texts_with_the_same_lowercase_list_the_same_rows() {
    let rows = table();
    let order = vec![2, 0, 3, 1];
    for (a, b) in [("PARIS", "paris"), ("Ber", "bER"), ("ÉCOLE", "école")] {
        assert_eq!(visible_rows(&order, &rows, 0, 3, a), visible_rows(&order, &rows, 0, 3, b));
    }
}
