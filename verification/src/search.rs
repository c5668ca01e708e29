use vstd::prelude::*;

use crate::text::chars_of;

verus! {

/// What `str::to_lowercase` gives for a text: its lowercase mapping under
/// Unicode's rules.
pub uninterp spec fn lowercase_of(s: Seq<char>) -> Seq<char>;

/// `str::to_lowercase`. Its result is named and nothing more is stated of
/// Unicode's case mapping.
#[verifier::external_body]
fn to_lowercase(s: &str) -> (r: String)
    ensures
        r@ == lowercase_of(s@),
{
    s.to_lowercase()
}

/// `needle` occurs in `hay` as a run of consecutive characters.
pub open spec fn contains_text(hay: Seq<char>, needle: Seq<char>) -> bool {
    exists|i: int| 0 <= i && i + needle.len() <= hay.len() && #[trigger] hay.subrange(i, i + needle.len()) == needle
}

/// `hay` ends with `suffix`.
pub open spec fn ends_with_text(hay: Seq<char>, suffix: Seq<char>) -> bool {
    hay.len() >= suffix.len() && hay.subrange(hay.len() - suffix.len(), hay.len() as int) == suffix
}

/// Whether `needle` matches `hay` at position `at`.
fn matches_at(hay: &Vec<char>, needle: &Vec<char>, at: usize) -> (b: bool)
    requires
        at + needle.len() <= hay.len(),
    ensures
        b == (hay@.subrange(at as int, at + needle.len()) == needle@),
{
    let mut k: usize = 0;
    while k < needle.len()
        invariant
            k <= needle.len(),
            at + needle.len() <= hay.len(),
            forall|q: int| 0 <= q < k ==> hay@[at + q] == needle@[q],
        decreases needle.len() - k,
    {
        if hay[at + k] != needle[k] {
            proof {
                assert(hay@.subrange(at as int, at + needle.len())[k as int] == hay@[at + k]);
            }
            return false;
        }
        k = k + 1;
    }
    assert(hay@.subrange(at as int, at + needle.len()) =~= needle@);
    true
}

/// Whether `needle` occurs in `hay`.
pub fn contains_chars(hay: &Vec<char>, needle: &Vec<char>) -> (b: bool)
    ensures
        b == contains_text(hay@, needle@),
{
    if needle.len() > hay.len() {
        return false;
    }
    let last = hay.len() - needle.len();
    let mut i: usize = 0;
    loop
        invariant
            i <= last,
            last + needle.len() == hay.len(),
            forall|j: int| 0 <= j < i ==> #[trigger] hay@.subrange(j, j + needle.len()) != needle@,
        decreases last - i,
    {
        if matches_at(hay, needle, i) {
            return true;
        }
        if i == last {
            assert(forall|j: int| 0 <= j <= last ==> #[trigger] hay@.subrange(j, j + needle.len()) != needle@);
            return false;
        }
        i = i + 1;
    }
}


/// Whether some cell of `row`, lowercased, contains `query`.
pub open spec fn row_matches(row: Seq<String>, query: Seq<char>) -> bool {
    exists|c: int| 0 <= c < row.len() && #[trigger] contains_text(lowercase_of(row[c]@), query)
}

/// Whether row `ri` of `rows` is listed: its index lies in `from..=to` and,
/// when the search text is not empty, one of its cells contains the search
/// text, both taken in lowercase.
pub open spec fn row_shown(rows: Seq<Vec<String>>, ri: usize, from: usize, to: usize, search: Seq<char>) -> bool {
    &&& from <= ri <= to
    &&& search.len() == 0 || row_matches(rows[ri as int]@, lowercase_of(search))
}

/// Whether some cell of `row`, lowercased, contains `query`.
pub fn row_contains(row: &Vec<String>, query: &Vec<char>) -> (b: bool)
    ensures
        b == row_matches(row@, query@),
{
    let mut c: usize = 0;
    while c < row.len()
        invariant
            c <= row.len(),
            forall|k: int| 0 <= k < c ==> !#[trigger] contains_text(lowercase_of(row@[k]@), query@),
        decreases row.len() - c,
    {
        let lower = to_lowercase(row[c].as_str());
        let lower_chars = chars_of(lower.as_str());
        if contains_chars(&lower_chars, query) {
            assert(contains_text(lowercase_of(row@[c as int]@), query@));
            return true;
        }
        c = c + 1;
    }
    false
}

/// The rows of `order` that are listed, in the order given: those whose
/// index lies in `from..=to` and, when `search` is not empty, that have a
/// cell containing `search`, compared in lowercase.
pub fn visible_rows(order: &Vec<usize>, rows: &Vec<Vec<String>>, from: usize, to: usize, search: &str) -> (out: Vec<usize>)
    requires
        search@.len() > 0 ==> forall|i: int|
            0 <= i < order.len() && from <= #[trigger] order@[i] <= to ==> order@[i] < rows.len(),
    ensures
        out@ == order@.filter(|ri: usize| row_shown(rows@, ri, from, to, search@)),
{
    let ghost pred = |ri: usize| row_shown(rows@, ri, from, to, search@);
    let query = to_lowercase(search);
    let query_chars = chars_of(query.as_str());
    let search_chars = chars_of(search);
    let searching = search_chars.len() > 0;
    let mut out: Vec<usize> = Vec::new();
    let mut i: usize = 0;
    while i < order.len()
        invariant
            i <= order.len(),
            search@.len() > 0 ==> forall|j: int|
                0 <= j < order.len() && from <= #[trigger] order@[j] <= to ==> order@[j] < rows.len(),
            query_chars@ == lowercase_of(search@),
            searching == (search@.len() > 0),
            pred == (|ri: usize| row_shown(rows@, ri, from, to, search@)),
            out@ == order@.take(i as int).filter(pred),
        decreases order.len() - i,
    {
        let ri = order[i];
        let shown = if ri < from || ri > to {
            false
        } else if searching {
            row_contains(&rows[ri], &query_chars)
        } else {
            true
        };
        assert(shown == pred(ri));
        proof {
            assert(order@.take(i + 1).drop_last() =~= order@.take(i as int));
            reveal(Seq::filter);
        }
        if shown {
            out.push(ri);
        }
        i = i + 1;
    }
    proof {
        assert(order@.take(order.len() as int) =~= order@);
    }
    out
}

/// The rows listed for a search text depend on the text only through its
/// lowercase form: two non-empty search texts with the same lowercase form
/// list the same rows.
pub proof fn law_search_ignores_case(
    order: Seq<usize>,
    rows: Seq<Vec<String>>,
    from: usize,
    to: usize,
    s: Seq<char>,
    t: Seq<char>,
)
    requires
        s.len() > 0,
        t.len() > 0,
        lowercase_of(s) == lowercase_of(t),
    ensures
        order.filter(|ri: usize| row_shown(rows, ri, from, to, s)) == order.filter(
            |ri: usize| row_shown(rows, ri, from, to, t),
        ),
{
    let p = |ri: usize| row_shown(rows, ri, from, to, s);
    let q = |ri: usize| row_shown(rows, ri, from, to, t);
    assert(p =~= q);
}

/// Whether `path`, in lowercase, ends with `.parquet` or `.parq`: the
/// files that a drop onto the window opens.
pub fn is_parquet_path(path: &str) -> (b: bool)
    ensures
        b == (ends_with_text(lowercase_of(path@), ".parquet"@) || ends_with_text(lowercase_of(path@), ".parq"@)),
{
    let lower = to_lowercase(path);
    let lower_chars = chars_of(lower.as_str());
    let long_suffix = chars_of(".parquet");
    let short_suffix = chars_of(".parq");
    ends_with_chars(&lower_chars, &long_suffix) || ends_with_chars(&lower_chars, &short_suffix)
}

/// Whether `hay` ends with `suffix`.
pub fn ends_with_chars(hay: &Vec<char>, suffix: &Vec<char>) -> (b: bool)
    ensures
        b == ends_with_text(hay@, suffix@),
{
    if suffix.len() > hay.len() {
        return false;
    }
    matches_at(hay, suffix, hay.len() - suffix.len())
}


/// The leftmost non-overlapping occurrences of `query` in `hay` that begin
/// at `start` or later, each as its first position and the position after
/// its end, in the order in which a scan from `start` meets them.
pub open spec fn match_spans_from(hay: Seq<char>, query: Seq<char>, start: int) -> Seq<(int, int)>
    decreases hay.len() - start,
{
    if query.len() == 0 || start < 0 || start + query.len() > hay.len() {
        Seq::empty()
    } else if hay.subrange(start, start + query.len()) == query {
        seq![(start, start + query.len())] + match_spans_from(hay, query, start + query.len())
    } else {
        match_spans_from(hay, query, start + 1)
    }
}

/// The spans as pairs of integers.
pub open spec fn spans_view(spans: Seq<(usize, usize)>) -> Seq<(int, int)> {
    spans.map_values(|p: (usize, usize)| (p.0 as int, p.1 as int))
}

/// Each span found from `start` on is an occurrence of `query` that begins
/// at `start` or later, and each ends before the next one begins.
pub proof fn law_spans_are_matches(hay: Seq<char>, query: Seq<char>, start: int)
    requires
        0 <= start,
    ensures
        forall|k: int| 0 <= k < match_spans_from(hay, query, start).len() ==> {
            let (b, e) = #[trigger] match_spans_from(hay, query, start)[k];
            &&& start <= b
            &&& e == b + query.len()
            &&& e <= hay.len()
            &&& hay.subrange(b, e) == query
        },
        forall|k: int| 0 <= k < match_spans_from(hay, query, start).len() - 1 ==>
            (#[trigger] match_spans_from(hay, query, start)[k]).1 <= match_spans_from(hay, query, start)[k + 1].0,
    decreases hay.len() - start,
{
    if query.len() == 0 || start + query.len() > hay.len() {
        assert(match_spans_from(hay, query, start).len() == 0);
    } else if hay.subrange(start, start + query.len()) == query {
        let next = start + query.len();
        law_spans_are_matches(hay, query, next);
        let rest = match_spans_from(hay, query, next);
        let all = match_spans_from(hay, query, start);
        assert(all == seq![(start, next)] + rest);
        assert forall|k: int| 0 <= k < all.len() - 1 implies (#[trigger] all[k]).1 <= all[k + 1].0 by {
            if k == 0 {
                if rest.len() > 0 {
                    assert(all[1] == rest[0]);
                }
            } else {
                assert(all[k] == rest[k - 1]);
                assert(all[k + 1] == rest[k]);
            }
        }
        assert forall|k: int| 0 <= k < all.len() implies {
            let (b, e) = #[trigger] all[k];
            &&& start <= b
            &&& e == b + query.len()
            &&& e <= hay.len()
            &&& hay.subrange(b, e) == query
        } by {
            if k > 0 {
                assert(all[k] == rest[k - 1]);
            }
        }
    } else {
        law_spans_are_matches(hay, query, start + 1);
        assert(match_spans_from(hay, query, start) == match_spans_from(hay, query, start + 1));
    }
}

/// Where `query` occurs in `hay`: the leftmost occurrence, then the leftmost
/// one after its end, and so on. These are the parts of a cell that the
/// table highlights for the search text.
pub fn match_spans(hay: &Vec<char>, query: &Vec<char>) -> (out: Vec<(usize, usize)>)
    requires
        query.len() > 0,
    ensures
        spans_view(out@) == match_spans_from(hay@, query@, 0),
{
    let mut out: Vec<(usize, usize)> = Vec::new();
    let mut i: usize = 0;
    while i <= hay.len() && query.len() <= hay.len() - i
        invariant
            query.len() > 0,
            i <= hay.len() + query.len(),
            spans_view(out@) + match_spans_from(hay@, query@, i as int) == match_spans_from(hay@, query@, 0),
        decreases hay.len() + query.len() - i,
    {
        let ghost before = out@;
        if matches_at(hay, query, i) {
            let end = i + query.len();
            out.push((i, end));
            proof {
                assert(spans_view(out@) =~= spans_view(before).push((i as int, end as int)));
                assert(spans_view(before) + match_spans_from(hay@, query@, i as int)
                    =~= spans_view(out@) + match_spans_from(hay@, query@, end as int));
            }
            i = end;
        } else {
            i = i + 1;
        }
    }
    proof {
        assert(match_spans_from(hay@, query@, i as int) =~= Seq::<(int, int)>::empty());
        assert(spans_view(out@) + Seq::<(int, int)>::empty() =~= spans_view(out@));
    }
    out
}

} // verus!
