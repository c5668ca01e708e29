use vstd::prelude::*;

use crate::text::{same_text, strings_view};

verus! {

/// How many recent files are kept.
pub const MAX_RECENT: usize = 20;

/// What `serde_json::to_string_pretty` gives for a list of strings, when it
/// gives a text.
pub uninterp spec fn pretty_json_of(list: Seq<Seq<char>>) -> Option<Seq<char>>;

/// What `serde_json::from_str` gives when reading a list of strings, when the
/// text holds one.
pub uninterp spec fn json_string_list_of(text: Seq<char>) -> Option<Seq<Seq<char>>>;

/// `serde_json::to_string_pretty` on a list of strings: the pretty-printed
/// JSON array, or `None` where serialisation fails. The contract names the
/// result and states one fact of it: `serde_json::from_str` reads the same
/// list of strings back from it. Nothing more is said of the JSON text.
#[verifier::external_body]
fn json_pretty(list: &Vec<String>) -> (r: Option<String>)
    ensures
        match r {
            Some(t) => pretty_json_of(strings_view(list@)) == Some(t@)
                && json_string_list_of(t@) == Some(strings_view(list@)),
            None => pretty_json_of(strings_view(list@)) == None::<Seq<char>>,
        },
{
    serde_json::to_string_pretty(list).ok()
}

/// `serde_json::from_str::<Vec<String>>`: the list of strings the JSON text
/// holds, or `None` where it holds none. The contract names the result and
/// says nothing more of the JSON grammar.
#[verifier::external_body]
fn json_string_list(text: &str) -> (r: Option<Vec<String>>)
    ensures
        match r {
            Some(v) => json_string_list_of(text@) == Some(strings_view(v@)),
            None => json_string_list_of(text@) == None::<Seq<Seq<char>>>,
        },
{
    serde_json::from_str::<Vec<String>>(text).ok()
}

/// Holds of the entries other than `path`.
pub open spec fn other_than(path: Seq<char>) -> spec_fn(Seq<char>) -> bool {
    |x: Seq<char>| x != path
}

/// The recent-files list after opening `path`: `path` first, then the
/// other entries in their order, at most `MAX_RECENT` in all.
pub open spec fn recent_after(list: Seq<Seq<char>>, path: Seq<char>) -> Seq<Seq<char>> {
    let full = seq![path] + list.filter(other_than(path));
    if full.len() > MAX_RECENT {
        full.take(MAX_RECENT as int)
    } else {
        full
    }
}

/// The recent-files list stored as `text`: the JSON list of strings it
/// holds, or an empty list.
pub open spec fn recent_from_text(text: Seq<char>) -> Seq<Seq<char>> {
    match json_string_list_of(text) {
        Some(v) => v,
        None => Seq::empty(),
    }
}


proof fn lemma_filter_keeps_all(s: Seq<Seq<char>>, pred: spec_fn(Seq<char>) -> bool)
    requires
        forall|i: int| 0 <= i < s.len() ==> pred(#[trigger] s[i]),
    ensures
        s.filter(pred) == s,
    decreases s.len(),
{
    reveal(Seq::filter);
    if s.len() > 0 {
        lemma_filter_keeps_all(s.drop_last(), pred);
        assert(s.drop_last().push(s.last()) =~= s);
    }
}

proof fn lemma_filter_within(s: Seq<Seq<char>>, pred: spec_fn(Seq<char>) -> bool)
    ensures
        s.filter(pred).len() <= s.len(),
        forall|i: int| 0 <= i < s.filter(pred).len() ==> pred(#[trigger] s.filter(pred)[i]),
        forall|i: int| 0 <= i < s.filter(pred).len() ==> s.contains(#[trigger] s.filter(pred)[i]),
        s.no_duplicates() ==> s.filter(pred).no_duplicates(),
    decreases s.len(),
{
    reveal(Seq::filter);
    if s.len() > 0 {
        let t = s.drop_last();
        lemma_filter_within(t, pred);
        let ft = t.filter(pred);
        assert forall|i: int| 0 <= i < ft.len() implies s.contains(#[trigger] ft[i]) by {
            assert(t.contains(ft[i]));
            let j = choose|j: int| 0 <= j < t.len() && t[j] == ft[i];
            assert(s[j] == ft[i]);
        }
        if pred(s.last()) {
            let out = ft.push(s.last());
            assert(s.filter(pred) == out);
            assert forall|i: int| 0 <= i < out.len() implies s.contains(#[trigger] out[i]) by {
                if i == ft.len() {
                    assert(s[s.len() - 1] == out[i]);
                } else {
                    assert(out[i] == ft[i]);
                }
            }
            assert forall|i: int| 0 <= i < out.len() implies pred(#[trigger] out[i]) by {
                if i < ft.len() {
                    assert(out[i] == ft[i]);
                }
            }
            if s.no_duplicates() {
                assert(t.no_duplicates());
                assert forall|i: int, j: int| 0 <= i < out.len() && 0 <= j < out.len() && i != j implies out[i] != out[j] by {
                    if i < ft.len() && j < ft.len() {
                        assert(out[i] == ft[i] && out[j] == ft[j]);
                    } else if i < ft.len() {
                        assert(t.contains(ft[i]));
                        let k = choose|k: int| 0 <= k < t.len() && t[k] == ft[i];
                        assert(s[k] == out[i]);
                        assert(s[s.len() - 1] == out[j]);
                    } else {
                        assert(t.contains(ft[j]));
                        let k = choose|k: int| 0 <= k < t.len() && t[k] == ft[j];
                        assert(s[k] == out[j]);
                        assert(s[s.len() - 1] == out[i]);
                    }
                }
            }
        }
    }
}

/// The entries of the list after opening `path` behind the first one: the
/// entries of `list` other than `path`, in their order, as many as fit.
proof fn lemma_recent_shape(list: Seq<Seq<char>>, path: Seq<char>)
    ensures
        ({
            let rest = list.filter(other_than(path));
            let r = recent_after(list, path);
            &&& r.len() >= 1
            &&& r[0] == path
            &&& r.len() - 1 <= rest.len()
            &&& forall|k: int| 1 <= k < r.len() ==> r[k] == #[trigger] rest[k - 1]
        }),
{
    let rest = list.filter(other_than(path));
    let full = seq![path] + rest;
    let r = recent_after(list, path);
    if full.len() > MAX_RECENT {
        assert(r == full.take(MAX_RECENT as int));
    }
    assert forall|k: int| 1 <= k < r.len() implies r[k] == #[trigger] rest[k - 1] by {
        assert(r[k] == full[k]);
    }
}

/// After a file is opened, the recent-files list starts with it and holds it
/// once; it holds at most `MAX_RECENT` entries, and each of the others was
/// in the list before.
pub proof fn law_recent_front(list: Seq<Seq<char>>, path: Seq<char>)
    ensures
        recent_after(list, path).len() >= 1,
        recent_after(list, path)[0] == path,
        recent_after(list, path).len() <= MAX_RECENT,
        forall|k: int| 1 <= k < recent_after(list, path).len() ==>
            #[trigger] recent_after(list, path)[k] != path && list.contains(recent_after(list, path)[k]),
{
    let pred = other_than(path);
    let rest = list.filter(pred);
    lemma_recent_shape(list, path);
    lemma_filter_within(list, pred);
    let r = recent_after(list, path);
    assert forall|k: int| 1 <= k < r.len() implies #[trigger] r[k] != path && list.contains(r[k]) by {
        assert(r[k] == rest[k - 1]);
        assert(pred(rest[k - 1]));
    }
}

/// A recent-files list without repeated entries has none after a file is
/// opened.
pub proof fn law_recent_no_duplicates(list: Seq<Seq<char>>, path: Seq<char>)
    requires
        list.no_duplicates(),
    ensures
        recent_after(list, path).no_duplicates(),
{
    let pred = other_than(path);
    let rest = list.filter(pred);
    lemma_recent_shape(list, path);
    lemma_filter_within(list, pred);
    let r = recent_after(list, path);
    assert forall|i: int, j: int| 0 <= i < r.len() && 0 <= j < r.len() && i != j implies r[i] != r[j] by {
        if i == 0 {
            assert(r[j] == rest[j - 1]);
            assert(pred(rest[j - 1]));
        } else if j == 0 {
            assert(r[i] == rest[i - 1]);
            assert(pred(rest[i - 1]));
        } else {
            assert(r[i] == rest[i - 1]);
            assert(r[j] == rest[j - 1]);
        }
    }
}

/// Opening the same file twice in a row leaves the recent-files list as
/// opening it once does.
pub proof fn law_recent_idempotent(list: Seq<Seq<char>>, path: Seq<char>)
    ensures
        recent_after(recent_after(list, path), path) == recent_after(list, path),
{
    let pred = other_than(path);
    let r = recent_after(list, path);
    lemma_recent_shape(list, path);
    lemma_recent_shape(r, path);
    law_recent_front(list, path);
    let tail = r.drop_first();
    assert(r =~= seq![path] + tail);
    assert forall|i: int| 0 <= i < tail.len() implies pred(#[trigger] tail[i]) by {
        assert(tail[i] == r[i + 1]);
    }
    lemma_filter_keeps_all(tail, pred);
    tail.lemma_filter_prepend(path, pred);
    assert(r.filter(pred) == tail);
    let r2 = recent_after(r, path);
    assert(seq![path] + tail =~= r);
    assert(r2 =~= r);
}

/// Puts `new_path` at the front of the recent-files list, removing other
/// occurrences of it and keeping at most `MAX_RECENT` entries; returns the
/// list as pretty-printed JSON to be stored, where it serialises. What is
/// stored reads back as the list.
pub fn push_and_save(list: &mut Vec<String>, new_path: &str) -> (saved: Option<String>)
    ensures
        strings_view(final(list)@) == recent_after(strings_view(old(list)@), new_path@),
        match saved {
            Some(t) => pretty_json_of(strings_view(final(list)@)) == Some(t@)
                && recent_from_text(t@) == strings_view(final(list)@),
            None => pretty_json_of(strings_view(final(list)@)) == None::<Seq<char>>,
        },
{
    let ghost pred = other_than(new_path@);
    let ghost v = strings_view(list@);
    let mut kept: Vec<String> = Vec::new();
    let mut i: usize = 0;
    while i < list.len()
        invariant
            i <= list.len(),
            v == strings_view(list@),
            pred == other_than(new_path@),
            strings_view(kept@) == v.take(i as int).filter(pred),
        decreases list.len() - i,
    {
        proof {
            reveal_with_fuel(Seq::filter, 1);
            assert(v.take(i + 1).drop_last() =~= v.take(i as int));
            assert(v.take(i + 1).last() == list@[i as int]@);
        }
        if !same_text(list[i].as_str(), new_path) {
            let ghost old_kept = kept@;
            kept.push(list[i].clone());
            proof {
                assert(strings_view(kept@) =~= strings_view(old_kept).push(list@[i as int]@));
            }
        }
        i = i + 1;
    }
    proof {
        assert(v.take(v.len() as int) =~= v);
    }
    let ghost filtered = strings_view(kept@);
    kept.insert(0, String::from_str(new_path));
    proof {
        assert(strings_view(kept@) =~= seq![new_path@] + filtered);
    }
    kept.truncate(MAX_RECENT);
    proof {
        let full = seq![new_path@] + filtered;
        if full.len() > MAX_RECENT {
            assert(strings_view(kept@) =~= full.take(MAX_RECENT as int));
        } else {
            assert(strings_view(kept@) =~= full);
        }
    }
    *list = kept;
    json_pretty(list)
}

/// The recent-files list stored as `text`; an empty list where the text
/// holds no JSON list of strings.
pub fn decode_recent(text: &str) -> (list: Vec<String>)
    ensures
        strings_view(list@) == recent_from_text(text@),
{
    match json_string_list(text) {
        Some(v) => v,
        None => {
            let empty: Vec<String> = Vec::new();
            assert(strings_view(empty@) =~= Seq::<Seq<char>>::empty());
            empty
        },
    }
}

} // verus!
