use parquet_viewer::rows::{parse_usize, trim_chars, RowRange};

fn range(from_input: &str, to_input: &str, from: usize, to: usize) -> RowRange {
    let mut r = RowRange::new();
    r.from_input = from_input.to_string();
    r.to_input = to_input.to_string();
    r.from = from;
    r.to = to;
    r
}

#[test]
fn starts_at_zero() {
    let r = RowRange::new();
    assert_eq!((r.from, r.to), (0, 0));
    assert_eq!(r.from_input, "0");
    assert_eq!(r.to_input, "0");
}

#[test]
fn reset_shows_all_rows() {
    let mut r = range("7", "9", 7, 9);
    r.reset_for_len(1000);
    assert_eq!((r.from, r.to), (0, 999));
    assert_eq!(r.from_input, "0");
    assert_eq!(r.to_input, "999");
    r.reset_for_len(0);
    assert_eq!((r.from, r.to), (0, 0));
    assert_eq!(r.to_input, "0");
}

#[test]
fn applies_typed_range() {
    let mut r = range(" 10 ", "20", 0, 99);
    r.apply_inputs(100);
    assert_eq!((r.from, r.to), (10, 20));
    assert_eq!((r.from_input.as_str(), r.to_input.as_str()), ("10", "20"));
}

#[test]
fn empty_fields_mean_first_and_last_row() {
    let mut r = range("", "  ", 5, 6);
    r.apply_inputs(50);
    assert_eq!((r.from, r.to), (0, 49));
    assert_eq!((r.from_input.as_str(), r.to_input.as_str()), ("0", "49"));
}

#[test]
fn unparsable_fields_keep_their_end() {
    let mut r = range("abc", "-4", 3, 8);
    r.apply_inputs(50);
    assert_eq!((r.from, r.to), (3, 8));
    let mut r = range("+2", "1.5", 3, 8);
    r.apply_inputs(50);
    assert_eq!((r.from, r.to), (2, 8));
}

#[test]
fn caps_and_orders_the_ends() {
    let mut r = range("900", "12", 0, 0);
    r.apply_inputs(100);
    assert_eq!((r.from, r.to), (12, 99));
    assert_eq!((r.from_input.as_str(), r.to_input.as_str()), ("12", "99"));
    let mut r = range("99999999999999999999999", "5", 1, 2);
    r.apply_inputs(10);
    assert_eq!((r.from, r.to), (1, 5));
    let mut r = range("3", "4", 0, 0);
    r.apply_inputs(0);
    assert_eq!((r.from, r.to), (0, 0));
}

#[test]
fn applying_twice_changes_nothing() {
    for (f, t, len) in [("5", "2", 10), ("", "", 7), ("x", "1000", 30), (" 4\t", "\u{3000}6", 9)] {
        let mut r = range(f, t, 1, 3);
        r.apply_inputs(len);
        let once = (r.from, r.to, r.from_input.clone(), r.to_input.clone());
        r.apply_inputs(len);
        assert_eq!(once, (r.from, r.to, r.from_input.clone(), r.to_input.clone()));
    }
}

fn samples() -> Vec<String> {
    let mut v: Vec<String> = [
        "", "0", "007", "+5", "+", "-1", "12a", " 12", "18446744073709551615", "18446744073709551616",
        "4294967295", "4294967296", "١٢", "+-1", "++1", "1_000", " \u{a0}x\u{2003}", "\u{85}9\u{85}",
    ]
    .iter()
    .map(|s| s.to_string())
    .collect();
    let alphabet = ['0', '1', '9', '+', '-', ' ', '\t', '\n', '\u{a0}', '\u{200b}', '\u{2028}', 'a', '\u{feff}'];
    let mut x: u64 = 0x1234_5678_9abc_def1;
    for _ in 0..5000 {
        x ^= x << 13;
        x ^= x >> 7;
        x ^= x << 17;
        let n = (x % 8) as usize;
        let mut s = String::new();
        let mut y = x;
        for _ in 0..n {
            s.push(alphabet[(y % alphabet.len() as u64) as usize]);
            y /= alphabet.len() as u64;
        }
        v.push(s);
    }
    v
}

#[test]
fn trim_matches_std() {
    for s in samples() {
        let ours: String = trim_chars(&s).into_iter().collect();
        assert_eq!(ours, s.trim(), "{s:?}");
    }
    for c in (0u32..0x3100).filter_map(char::from_u32) {
        let s = format!("{c}x{c}");
        let ours: String = trim_chars(&s).into_iter().collect();
        assert_eq!(ours, s.trim(), "{c:?}");
    }
}

#[test]
fn parse_matches_std() {
    for s in samples() {
        let chars: Vec<char> = s.chars().collect();
        assert_eq!(parse_usize(&chars), s.parse::<usize>().ok(), "{s:?}");
    }
}
