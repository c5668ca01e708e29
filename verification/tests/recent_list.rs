use parquet_viewer::recent::{decode_recent, push_and_save, MAX_RECENT};

fn list(items: &[&str]) -> Vec<String> {
    items.iter().map(|s| s.to_string()).collect()
}

#[test]
fn pushes_new_path_to_front() {
    let mut l = list(&["/a.parquet", "/b.parquet"]);
    let saved = push_and_save(&mut l, "/c.parquet");
    assert_eq!(l, list(&["/c.parquet", "/a.parquet", "/b.parquet"]));
    let text = saved.expect("a list of strings serialises");
    let back: Vec<String> = serde_json::from_str(&text).unwrap();
    assert_eq!(back, l);
    assert_eq!(text, serde_json::to_string_pretty(&l).unwrap());
}

#[test]
fn moves_existing_path_to_front_once() {
    let mut l = list(&["/a", "/b", "/c", "/b"]);
    push_and_save(&mut l, "/b");
    assert_eq!(l, list(&["/b", "/a", "/c"]));
}

#[test]
fn keeps_at_most_twenty() {
    let mut l: Vec<String> = (0..25).map(|i| format!("/f{i}.parquet")).collect();
    push_and_save(&mut l, "/new.parquet");
    assert_eq!(l.len(), MAX_RECENT);
    assert_eq!(MAX_RECENT, 20);
    assert_eq!(l[0], "/new.parquet");
    assert_eq!(l[1], "/f0.parquet");
    assert_eq!(l[19], "/f18.parquet");
}

#[test]
fn pushing_twice_is_pushing_once() {
    let start: Vec<String> = (0..30).map(|i| format!("/p{}", i % 7)).collect();
    for path in ["/p3", "/zzz", "/p0"] {
        let mut once = start.clone();
        push_and_save(&mut once, path);
        let mut twice = once.clone();
        push_and_save(&mut twice, path);
        assert_eq!(once, twice);
    }
}

#[test]
fn saved_text_reads_back() {
    let mut l = list(&["C:\\data\\x.parquet", "quote\"d", "uni\u{e9}\u{1f600}", "tab\there"]);
    let saved = push_and_save(&mut l, "/new").unwrap();
    assert_eq!(decode_recent(&saved), l);
}

#[test]
fn decode_falls_back_to_empty() {
    assert_eq!(decode_recent("[\"/a\", \"/b\"]"), list(&["/a", "/b"]));
    assert!(decode_recent("").is_empty());
    assert!(decode_recent("not json").is_empty());
    assert!(decode_recent("{\"a\": 1}").is_empty());
    assert!(decode_recent("[1, 2]").is_empty());
}

#[test]
fn empty_list_gets_the_path() {
    let mut l: Vec<String> = Vec::new();
    let saved = push_and_save(&mut l, "/only").unwrap();
    assert_eq!(l, list(&["/only"]));
    assert_eq!(saved, "[\n  \"/only\"\n]");
}
