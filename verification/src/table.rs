use vstd::prelude::*;

use crate::text::chars_of;

verus! {

/// The outcome of comparing two table cells.
#[derive(PartialEq, Eq, Structural, Clone, Copy, Debug)]
pub enum Comparison {
    Less,
    Equal,
    Greater,
}

/// The same comparison seen from the other side.
pub open spec fn flipped(c: Comparison) -> Comparison {
    match c {
        Comparison::Less => Comparison::Greater,
        Comparison::Equal => Comparison::Equal,
        Comparison::Greater => Comparison::Less,
    }
}

/// Lexicographic order of two character sequences, comparing code points;
/// a proper prefix comes first. This is the order of `str` in Rust, whose
/// byte-wise comparison of UTF-8 agrees with code-point order.
pub open spec fn lex_order(a: Seq<char>, b: Seq<char>) -> Comparison
    decreases a.len(),
{
    if a.len() == 0 {
        if b.len() == 0 {
            Comparison::Equal
        } else {
            Comparison::Less
        }
    } else if b.len() == 0 {
        Comparison::Greater
    } else if a[0] < b[0] {
        Comparison::Less
    } else if a[0] > b[0] {
        Comparison::Greater
    } else {
        lex_order(a.drop_first(), b.drop_first())
    }
}

/// The sign bit of an IEEE 754 binary64 value, given by its bit pattern.
pub open spec fn sign_bit_set(bits: u64) -> bool {
    bits >= 0x8000_0000_0000_0000
}

/// The bit pattern without its sign bit.
pub open spec fn magnitude_bits(bits: u64) -> int {
    (bits % 0x8000_0000_0000_0000) as int
}

/// Whether a binary64 bit pattern encodes a NaN: all exponent bits set and a
/// non-zero fraction.
pub open spec fn is_nan_bits(bits: u64) -> bool {
    magnitude_bits(bits) > 0x7ff0_0000_0000_0000
}

/// For non-NaN patterns, the order of this integer is the numeric order of the
/// encoded values (both zeros map to 0).
pub open spec fn float_rank(bits: u64) -> int {
    if sign_bit_set(bits) {
        -magnitude_bits(bits)
    } else {
        magnitude_bits(bits)
    }
}

/// `partial_cmp` of two binary64 values given by their bit patterns, with an
/// unordered pair (a NaN on either side) taken as equal.
pub open spec fn float_order(a: u64, b: u64) -> Comparison {
    if is_nan_bits(a) || is_nan_bits(b) {
        Comparison::Equal
    } else if float_rank(a) < float_rank(b) {
        Comparison::Less
    } else if float_rank(a) > float_rank(b) {
        Comparison::Greater
    } else {
        Comparison::Equal
    }
}

/// How the table orders two cells: numerically when both parse as numbers
/// (`na`, `nb` hold the parsed values' bit patterns), else by their text.
pub open spec fn cell_order(na: Option<u64>, ta: Seq<char>, nb: Option<u64>, tb: Seq<char>) -> Comparison {
    match (na, nb) {
        (Some(x), Some(y)) => float_order(x, y),
        _ => lex_order(ta, tb),
    }
}

/// A comparison in the given direction: as is when ascending, flipped when
/// descending.
pub open spec fn directed(c: Comparison, asc: bool) -> Comparison {
    if asc {
        c
    } else {
        flipped(c)
    }
}

/// Comparing the other way round flips the outcome.
pub proof fn lemma_lex_order_flip(a: Seq<char>, b: Seq<char>)
    ensures
        lex_order(b, a) == flipped(lex_order(a, b)),
    decreases a.len(),
{
    if a.len() > 0 && b.len() > 0 && a[0] == b[0] {
        lemma_lex_order_flip(a.drop_first(), b.drop_first());
    }
}

/// Comparing two cells the other way round flips the outcome.
pub proof fn lemma_cell_order_flip(na: Option<u64>, ta: Seq<char>, nb: Option<u64>, tb: Seq<char>)
    ensures
        cell_order(nb, tb, na, ta) == flipped(cell_order(na, ta, nb, tb)),
{
    lemma_lex_order_flip(ta, tb);
}

/// Two texts compare equal exactly when they are the same.
pub proof fn lemma_lex_order_equal(a: Seq<char>, b: Seq<char>)
    ensures
        lex_order(a, b) == Comparison::Equal <==> a == b,
    decreases a.len(),
{
    if a.len() == 0 && b.len() == 0 {
        assert(a =~= b);
    }
    if a.len() > 0 && b.len() > 0 {
        lemma_lex_order_equal(a.drop_first(), b.drop_first());
        if a[0] == b[0] && a.drop_first() == b.drop_first() {
            assert(a =~= seq![a[0]] + a.drop_first());
            assert(b =~= seq![b[0]] + b.drop_first());
        }
        if a == b {
            assert(a.drop_first() =~= b.drop_first());
        }
    }
}

/// Lexicographic order is transitive.
pub proof fn lemma_lex_order_transitive(a: Seq<char>, b: Seq<char>, c: Seq<char>)
    requires
        lex_order(a, b) == Comparison::Less,
        lex_order(b, c) == Comparison::Less,
    ensures
        lex_order(a, c) == Comparison::Less,
    decreases a.len(),
{
    if a.len() > 0 && b.len() > 0 && c.len() > 0 && a[0] == b[0] && b[0] == c[0] {
        lemma_lex_order_transitive(a.drop_first(), b.drop_first(), c.drop_first());
    }
}

/// Lexicographic comparison of two character vectors.
pub fn lex_compare(a: &Vec<char>, b: &Vec<char>) -> (c: Comparison)
    ensures
        c == lex_order(a@, b@),
{
    let mut i: usize = 0;
    assert(a@.skip(0) =~= a@);
    assert(b@.skip(0) =~= b@);
    while i < a.len() && i < b.len()
        invariant
            i <= a.len(),
            i <= b.len(),
            lex_order(a@, b@) == lex_order(a@.skip(i as int), b@.skip(i as int)),
        decreases a.len() - i,
    {
        let x: char = a[i];
        let y: char = b[i];
        if x < y {
            return Comparison::Less;
        }
        if x > y {
            return Comparison::Greater;
        }
        assert(a@.skip(i as int).drop_first() =~= a@.skip(i + 1));
        assert(b@.skip(i as int).drop_first() =~= b@.skip(i + 1));
        i = i + 1;
    }
    if i < a.len() {
        Comparison::Greater
    } else if i < b.len() {
        Comparison::Less
    } else {
        Comparison::Equal
    }
}

/// Numeric comparison of two binary64 values given by their bit patterns.
pub fn float_compare(a: u64, b: u64) -> (c: Comparison)
    ensures
        c == float_order(a, b),
{
    let ma: u64 = a % 0x8000_0000_0000_0000;
    let mb: u64 = b % 0x8000_0000_0000_0000;
    if ma > 0x7ff0_0000_0000_0000 || mb > 0x7ff0_0000_0000_0000 {
        return Comparison::Equal;
    }
    let ra: i128 = if a >= 0x8000_0000_0000_0000 { -(ma as i128) } else { ma as i128 };
    let rb: i128 = if b >= 0x8000_0000_0000_0000 { -(mb as i128) } else { mb as i128 };
    if ra < rb {
        Comparison::Less
    } else if ra > rb {
        Comparison::Greater
    } else {
        Comparison::Equal
    }
}


// ---------------------------------------------------------------------------
// Arrangements: a new order of the same entries, described by the position
// each new entry held in the old order.
// ---------------------------------------------------------------------------

/// Under `before`, the entry at position `x` of `a` may stand before the one
/// at position `y` (the latter does not strictly precede it).
pub open spec fn le_at(before: spec_fn(usize, usize) -> bool, a: Seq<usize>, x: usize, y: usize) -> bool {
    !before(a[y as int], a[x as int])
}

/// Under `before`, the entry at position `x` strictly precedes the one at `y`.
pub open spec fn lt_at(before: spec_fn(usize, usize) -> bool, a: Seq<usize>, x: usize, y: usize) -> bool {
    before(a[x as int], a[y as int])
}

/// `before` never holds both ways between entries of `a`.
pub open spec fn asymmetric_on(before: spec_fn(usize, usize) -> bool, a: Seq<usize>) -> bool {
    forall|x: usize, y: usize|
        x < a.len() && y < a.len() && #[trigger] lt_at(before, a, x, y) ==> le_at(before, a, x, y)
}

/// "May stand before" is transitive on the entries of `a`, so `before` orders
/// them as a total preorder.
pub open spec fn preorder_on(before: spec_fn(usize, usize) -> bool, a: Seq<usize>) -> bool {
    forall|x: usize, y: usize, z: usize|
        x < a.len() && y < a.len() && z < a.len() && #[trigger] le_at(before, a, x, y)
            && #[trigger] le_at(before, a, y, z) ==> le_at(before, a, x, z)
}

/// `p` lists every position in `lo..hi` exactly once.
pub open spec fn covers(p: Seq<usize>, lo: int, hi: int) -> bool {
    &&& p.len() == hi - lo
    &&& forall|k: int| 0 <= k < p.len() ==> lo <= #[trigger] p[k] < hi
    &&& forall|k1: int, k2: int|
        0 <= k1 < p.len() && 0 <= k2 < p.len() && k1 != k2 ==> #[trigger] p[k1] != #[trigger] p[k2]
}

/// No entry taken from `a` through `p` is strictly preceded by the one listed
/// just after it.
pub open spec fn adjacent_ok(before: spec_fn(usize, usize) -> bool, a: Seq<usize>, p: Seq<usize>) -> bool {
    forall|k1: int, k2: int|
        0 <= k1 && k2 == k1 + 1 && k2 < p.len() ==> #[trigger] le_at(before, a, p[k1], p[k2])
}

/// Every pair listed through `p` is in order, and a pair whose old positions
/// are swapped is strictly ordered: entries that tie keep their old order.
pub open spec fn ordered(before: spec_fn(usize, usize) -> bool, a: Seq<usize>, p: Seq<usize>) -> bool {
    forall|k1: int, k2: int|
        0 <= k1 < k2 < p.len() ==> #[trigger] le_at(before, a, p[k1], p[k2]) && (p[k1] > p[k2]
            ==> lt_at(before, a, p[k1], p[k2]))
}

/// `new` is `old` sorted by `before` with a stable sort: a rearrangement of
/// the same entries in which no entry is strictly preceded by its successor;
/// and where `before` orders the entries as a total preorder, the whole
/// sequence is in order and tied entries keep their relative order.
pub open spec fn stable_sort_of(before: spec_fn(usize, usize) -> bool, old: Seq<usize>, new: Seq<usize>) -> bool {
    exists|p: Seq<usize>|
        #[trigger] covers(p, 0, old.len() as int) && new == p.map_values(|k: usize| old[k as int])
            && adjacent_ok(before, old, p) && (preorder_on(before, old) ==> ordered(before, old, p))
}

/// Row `x` strictly precedes row `y` when rows are ordered by per-row numbers
/// (a cell's binary64 bit pattern where it parses as a number) and texts, in
/// the given direction.
pub open spec fn keys_before(numbers: Seq<Option<u64>>, texts: Seq<Seq<char>>, asc: bool, x: usize, y: usize) -> bool {
    directed(cell_order(numbers[x as int], texts[x as int], numbers[y as int], texts[y as int]), asc)
        == Comparison::Less
}

/// `keys_before` as a relation.
pub open spec fn keys_relation(numbers: Seq<Option<u64>>, texts: Seq<Seq<char>>, asc: bool) -> spec_fn(usize, usize) -> bool {
    |x: usize, y: usize| keys_before(numbers, texts, asc, x, y)
}

/// What the rows are ordered by: for each row index, the sort column's cell
/// parsed as a number (its binary64 bit pattern, where it parses) and the
/// cell's text; and the direction.
pub struct SortKeys {
    pub numbers: Vec<Option<u64>>,
    pub texts: Vec<Vec<char>>,
    pub asc: bool,
}

impl SortKeys {
    pub open spec fn wf(&self) -> bool {
        self.numbers.len() == self.texts.len()
    }

    pub open spec fn text_view(&self) -> Seq<Seq<char>> {
        self.texts@.map_values(|v: Vec<char>| v@)
    }

    pub open spec fn before_fn(&self) -> spec_fn(usize, usize) -> bool {
        keys_relation(self.numbers@, self.text_view(), self.asc)
    }

    /// Every entry of `a` is a row index that the keys cover.
    pub open spec fn indexes(&self, a: Seq<usize>) -> bool {
        forall|k: int| 0 <= k < a.len() ==> #[trigger] a[k] < self.numbers.len()
    }

    /// Rows never precede each other both ways.
    pub proof fn lemma_asymmetric(&self, a: Seq<usize>)
        requires
            self.wf(),
            self.indexes(a),
        ensures
            asymmetric_on(self.before_fn(), a),
    {
        let t = self.text_view();
        assert forall|x: usize, y: usize|
            x < a.len() && y < a.len() && #[trigger] lt_at(self.before_fn(), a, x, y) implies le_at(
                self.before_fn(),
                a,
                x,
                y,
            ) by {
            let rx = a[x as int];
            let ry = a[y as int];
            lemma_cell_order_flip(self.numbers@[rx as int], t[rx as int], self.numbers@[ry as int], t[ry as int]);
        }
    }

    fn is_before(&self, x: usize, y: usize) -> (b: bool)
        requires
            self.wf(),
            x < self.numbers.len(),
            y < self.numbers.len(),
        ensures
            b == (self.before_fn())(x, y),
    {
        let c = match (self.numbers[x], self.numbers[y]) {
            (Some(u), Some(v)) => float_compare(u, v),
            _ => lex_compare(&self.texts[x], &self.texts[y]),
        };
        if self.asc {
            c == Comparison::Less
        } else {
            c == Comparison::Greater
        }
    }
}

// ---------------------------------------------------------------------------
// Merging two sorted runs of positions
// ---------------------------------------------------------------------------

/// Bookkeeping of a merge in progress: `out` holds `l[..i]` and `r[..j]`, and
/// `src` records where in its run each entry of `out` came from.
pub open spec fn merge_cover(
    l: Seq<usize>,
    r: Seq<usize>,
    out: Seq<usize>,
    src: Seq<int>,
    i: int,
    j: int,
    lo: int,
    mid: int,
    hi: int,
) -> bool {
    &&& covers(l, lo, mid)
    &&& covers(r, mid, hi)
    &&& 0 <= i <= l.len()
    &&& 0 <= j <= r.len()
    &&& out.len() == i + j
    &&& src.len() == out.len()
    &&& forall|k: int| 0 <= k < out.len() ==> lo <= #[trigger] out[k] < hi
    &&& forall|k: int|
        #![trigger out[k]]
        0 <= k < out.len() ==> (out[k] < mid ==> 0 <= src[k] < i && l[src[k]] == out[k]) && (out[k]
            >= mid ==> 0 <= src[k] < j && r[src[k]] == out[k])
    &&& forall|k1: int, k2: int|
        0 <= k1 < out.len() && 0 <= k2 < out.len() && k1 != k2 ==> #[trigger] out[k1]
            != #[trigger] out[k2]
}

proof fn lemma_cover_left(
    l: Seq<usize>,
    r: Seq<usize>,
    out: Seq<usize>,
    src: Seq<int>,
    i: int,
    j: int,
    lo: int,
    mid: int,
    hi: int,
)
    requires
        merge_cover(l, r, out, src, i, j, lo, mid, hi),
        i < l.len(),
    ensures
        merge_cover(l, r, out.push(l[i]), src.push(i), i + 1, j, lo, mid, hi),
{
    let x = l[i];
    let o2 = out.push(x);
    let s2 = src.push(i);
    assert forall|k: int| 0 <= k < out.len() implies out[k] != x by {
        if out[k] < mid {
            assert(l[src[k]] == out[k]);
        }
    }
    assert(o2[out.len() as int] == x);
    assert forall|k: int|
        #![trigger o2[k]]
        0 <= k < o2.len() implies (o2[k] < mid ==> 0 <= s2[k] < i + 1 && l[s2[k]] == o2[k]) && (o2[k]
            >= mid ==> 0 <= s2[k] < j && r[s2[k]] == o2[k]) by {
        if k < out.len() {
            assert(o2[k] == out[k]);
        }
    }
    assert forall|k1: int, k2: int|
        0 <= k1 < o2.len() && 0 <= k2 < o2.len() && k1 != k2 implies #[trigger] o2[k1]
            != #[trigger] o2[k2] by {
        if k1 < out.len() && k2 < out.len() {
            assert(out[k1] != out[k2]);
        } else if k1 < out.len() {
            assert(out[k1] != x);
        } else {
            assert(out[k2] != x);
        }
    }
}

proof fn lemma_cover_right(
    l: Seq<usize>,
    r: Seq<usize>,
    out: Seq<usize>,
    src: Seq<int>,
    i: int,
    j: int,
    lo: int,
    mid: int,
    hi: int,
)
    requires
        merge_cover(l, r, out, src, i, j, lo, mid, hi),
        j < r.len(),
    ensures
        merge_cover(l, r, out.push(r[j]), src.push(j), i, j + 1, lo, mid, hi),
{
    let y = r[j];
    let o2 = out.push(y);
    let s2 = src.push(j);
    assert forall|k: int| 0 <= k < out.len() implies out[k] != y by {
        if out[k] >= mid {
            assert(r[src[k]] == out[k]);
        }
    }
    assert(o2[out.len() as int] == y);
    assert forall|k: int|
        #![trigger o2[k]]
        0 <= k < o2.len() implies (o2[k] < mid ==> 0 <= s2[k] < i && l[s2[k]] == o2[k]) && (o2[k]
            >= mid ==> 0 <= s2[k] < j + 1 && r[s2[k]] == o2[k]) by {
        if k < out.len() {
            assert(o2[k] == out[k]);
        }
    }
    assert forall|k1: int, k2: int|
        0 <= k1 < o2.len() && 0 <= k2 < o2.len() && k1 != k2 implies #[trigger] o2[k1]
            != #[trigger] o2[k2] by {
        if k1 < out.len() && k2 < out.len() {
            assert(out[k1] != out[k2]);
        } else if k1 < out.len() {
            assert(out[k1] != y);
        } else {
            assert(out[k2] != y);
        }
    }
}

/// The merged prefix is in order step by step, and its last entry may stand
/// before both run heads.
pub open spec fn merge_adjacent(
    f: spec_fn(usize, usize) -> bool,
    sa: Seq<usize>,
    l: Seq<usize>,
    r: Seq<usize>,
    out: Seq<usize>,
    i: int,
    j: int,
) -> bool {
    &&& adjacent_ok(f, sa, out)
    &&& out.len() > 0 && 0 <= i < l.len() ==> le_at(f, sa, out.last(), l[i])
    &&& out.len() > 0 && 0 <= j < r.len() ==> le_at(f, sa, out.last(), r[j])
}

proof fn lemma_adjacent_push(f: spec_fn(usize, usize) -> bool, sa: Seq<usize>, out: Seq<usize>, x: usize)
    requires
        adjacent_ok(f, sa, out),
        out.len() > 0 ==> le_at(f, sa, out.last(), x),
    ensures
        adjacent_ok(f, sa, out.push(x)),
{
    let o2 = out.push(x);
    assert forall|k1: int, k2: int|
        0 <= k1 && k2 == k1 + 1 && k2 < o2.len() implies #[trigger] le_at(f, sa, o2[k1], o2[k2]) by {
        assert(o2[k1] == out[k1]);
        if k2 < out.len() {
            assert(o2[k2] == out[k2]);
            assert(le_at(f, sa, out[k1], out[k2]));
        }
    }
}

proof fn lemma_adjacent_left(
    f: spec_fn(usize, usize) -> bool,
    sa: Seq<usize>,
    l: Seq<usize>,
    r: Seq<usize>,
    out: Seq<usize>,
    i: int,
    j: int,
)
    requires
        merge_adjacent(f, sa, l, r, out, i, j),
        adjacent_ok(f, sa, l),
        0 <= i < l.len(),
        0 <= j <= r.len(),
        j < r.len() ==> le_at(f, sa, l[i], r[j]),
    ensures
        merge_adjacent(f, sa, l, r, out.push(l[i]), i + 1, j),
{
    lemma_adjacent_push(f, sa, out, l[i]);
    if i + 1 < l.len() {
        assert(le_at(f, sa, l[i], l[i + 1]));
    }
}

proof fn lemma_adjacent_right(
    f: spec_fn(usize, usize) -> bool,
    sa: Seq<usize>,
    l: Seq<usize>,
    r: Seq<usize>,
    out: Seq<usize>,
    i: int,
    j: int,
)
    requires
        merge_adjacent(f, sa, l, r, out, i, j),
        adjacent_ok(f, sa, r),
        asymmetric_on(f, sa),
        0 <= i <= l.len(),
        0 <= j < r.len(),
        r[j] < sa.len(),
        i < l.len() ==> l[i] < sa.len() && lt_at(f, sa, r[j], l[i]),
    ensures
        merge_adjacent(f, sa, l, r, out.push(r[j]), i, j + 1),
{
    lemma_adjacent_push(f, sa, out, r[j]);
    if j + 1 < r.len() {
        assert(le_at(f, sa, r[j], r[j + 1]));
    }
}

/// Under a total preorder: the merged prefix is in order (ties in old order),
/// and each of its entries may stand before every entry still in either run,
/// strictly before any that held an earlier position.
pub open spec fn merge_ordered(
    f: spec_fn(usize, usize) -> bool,
    sa: Seq<usize>,
    l: Seq<usize>,
    r: Seq<usize>,
    out: Seq<usize>,
    i: int,
    j: int,
) -> bool {
    &&& ordered(f, sa, out)
    &&& forall|k: int, t: int|
        0 <= k < out.len() && i <= t < l.len() ==> #[trigger] le_at(f, sa, out[k], l[t]) && (out[k]
            > l[t] ==> lt_at(f, sa, out[k], l[t]))
    &&& forall|k: int, t: int|
        0 <= k < out.len() && j <= t < r.len() ==> #[trigger] le_at(f, sa, out[k], r[t]) && (out[k]
            > r[t] ==> lt_at(f, sa, out[k], r[t]))
}

proof fn lemma_ordered_left(
    f: spec_fn(usize, usize) -> bool,
    sa: Seq<usize>,
    l: Seq<usize>,
    r: Seq<usize>,
    out: Seq<usize>,
    i: int,
    j: int,
    lo: int,
    mid: int,
    hi: int,
)
    requires
        preorder_on(f, sa),
        merge_ordered(f, sa, l, r, out, i, j),
        ordered(f, sa, l),
        ordered(f, sa, r),
        covers(l, lo, mid),
        covers(r, mid, hi),
        hi <= sa.len(),
        0 <= i < l.len(),
        0 <= j <= r.len(),
        j < r.len() ==> le_at(f, sa, l[i], r[j]),
    ensures
        merge_ordered(f, sa, l, r, out.push(l[i]), i + 1, j),
{
    let x = l[i];
    let o2 = out.push(x);
    assert(o2[out.len() as int] == x);
    assert forall|k1: int, k2: int| 0 <= k1 < k2 < o2.len() implies #[trigger] le_at(f, sa, o2[k1], o2[k2])
        && (o2[k1] > o2[k2] ==> lt_at(f, sa, o2[k1], o2[k2])) by {
        assert(o2[k1] == out[k1]);
        if k2 < out.len() {
            assert(o2[k2] == out[k2]);
            assert(le_at(f, sa, out[k1], out[k2]));
        } else {
            assert(le_at(f, sa, out[k1], l[i]));
        }
    }
    assert forall|k: int, t: int| 0 <= k < o2.len() && i + 1 <= t < l.len() implies #[trigger] le_at(f, sa, o2[k], l[t])
        && (o2[k] > l[t] ==> lt_at(f, sa, o2[k], l[t])) by {
        if k < out.len() {
            assert(o2[k] == out[k]);
            assert(le_at(f, sa, out[k], l[t]));
        } else {
            assert(le_at(f, sa, l[i], l[t]));
        }
    }
    assert forall|k: int, t: int| 0 <= k < o2.len() && j <= t < r.len() implies #[trigger] le_at(f, sa, o2[k], r[t])
        && (o2[k] > r[t] ==> lt_at(f, sa, o2[k], r[t])) by {
        if k < out.len() {
            assert(o2[k] == out[k]);
            assert(le_at(f, sa, out[k], r[t]));
        } else {
            assert(le_at(f, sa, x, r[j]));
            if t > j {
                assert(le_at(f, sa, r[j], r[t]));
            }
            assert(le_at(f, sa, x, r[t]));
            assert(x < mid);
            assert(r[t] >= mid);
        }
    }
}

proof fn lemma_ordered_right(
    f: spec_fn(usize, usize) -> bool,
    sa: Seq<usize>,
    l: Seq<usize>,
    r: Seq<usize>,
    out: Seq<usize>,
    i: int,
    j: int,
    lo: int,
    mid: int,
    hi: int,
)
    requires
        preorder_on(f, sa),
        asymmetric_on(f, sa),
        merge_ordered(f, sa, l, r, out, i, j),
        ordered(f, sa, l),
        ordered(f, sa, r),
        covers(l, lo, mid),
        covers(r, mid, hi),
        hi <= sa.len(),
        0 <= i <= l.len(),
        0 <= j < r.len(),
        i < l.len() ==> lt_at(f, sa, r[j], l[i]),
    ensures
        merge_ordered(f, sa, l, r, out.push(r[j]), i, j + 1),
{
    let y = r[j];
    let o2 = out.push(y);
    assert(o2[out.len() as int] == y);
    assert forall|k1: int, k2: int| 0 <= k1 < k2 < o2.len() implies #[trigger] le_at(f, sa, o2[k1], o2[k2])
        && (o2[k1] > o2[k2] ==> lt_at(f, sa, o2[k1], o2[k2])) by {
        assert(o2[k1] == out[k1]);
        if k2 < out.len() {
            assert(o2[k2] == out[k2]);
            assert(le_at(f, sa, out[k1], out[k2]));
        } else {
            assert(le_at(f, sa, out[k1], r[j]));
        }
    }
    assert forall|k: int, t: int| 0 <= k < o2.len() && i <= t < l.len() implies #[trigger] le_at(f, sa, o2[k], l[t])
        && (o2[k] > l[t] ==> lt_at(f, sa, o2[k], l[t])) by {
        if k < out.len() {
            assert(o2[k] == out[k]);
            assert(le_at(f, sa, out[k], l[t]));
        } else {
            if t > i {
                assert(le_at(f, sa, l[i], l[t]));
                if le_at(f, sa, l[t], y) {
                    assert(le_at(f, sa, l[i], y));
                }
            }
            assert(lt_at(f, sa, y, l[t]));
            assert(le_at(f, sa, y, l[t]));
        }
    }
    assert forall|k: int, t: int| 0 <= k < o2.len() && j + 1 <= t < r.len() implies #[trigger] le_at(f, sa, o2[k], r[t])
        && (o2[k] > r[t] ==> lt_at(f, sa, o2[k], r[t])) by {
        if k < out.len() {
            assert(o2[k] == out[k]);
            assert(le_at(f, sa, out[k], r[t]));
        } else {
            assert(le_at(f, sa, r[j], r[t]));
        }
    }
    assert(ordered(f, sa, o2));
    assert(forall|k: int, t: int|
        0 <= k < o2.len() && i <= t < l.len() ==> #[trigger] le_at(f, sa, o2[k], l[t]) && (o2[k]
            > l[t] ==> lt_at(f, sa, o2[k], l[t])));
    assert(forall|k: int, t: int|
        0 <= k < o2.len() && j + 1 <= t < r.len() ==> #[trigger] le_at(f, sa, o2[k], r[t]) && (o2[k]
            > r[t] ==> lt_at(f, sa, o2[k], r[t])));
    assert(merge_ordered(f, sa, l, r, o2, i, j + 1));
}


/// Merges two sorted runs of positions, `l` over `lo..mid` and `r` over
/// `mid..hi`, taking from `l` on ties.
fn merge_runs(
    keys: &SortKeys,
    a: &Vec<usize>,
    l: Vec<usize>,
    r: Vec<usize>,
    lo: usize,
    mid: usize,
    hi: usize,
) -> (out: Vec<usize>)
    requires
        keys.wf(),
        keys.indexes(a@),
        lo <= mid <= hi <= a.len(),
        covers(l@, lo as int, mid as int),
        covers(r@, mid as int, hi as int),
        adjacent_ok(keys.before_fn(), a@, l@),
        adjacent_ok(keys.before_fn(), a@, r@),
        preorder_on(keys.before_fn(), a@) ==> ordered(keys.before_fn(), a@, l@),
        preorder_on(keys.before_fn(), a@) ==> ordered(keys.before_fn(), a@, r@),
    ensures
        covers(out@, lo as int, hi as int),
        adjacent_ok(keys.before_fn(), a@, out@),
        preorder_on(keys.before_fn(), a@) ==> ordered(keys.before_fn(), a@, out@),
{
    let ghost f = keys.before_fn();
    let ghost sa = a@;
    let ghost pre = preorder_on(f, sa);
    proof {
        keys.lemma_asymmetric(sa);
    }
    let mut out: Vec<usize> = Vec::new();
    let ghost mut src: Seq<int> = Seq::empty();
    let mut i: usize = 0;
    let mut j: usize = 0;
    while i < l.len() || j < r.len()
        invariant
            keys.wf(),
            keys.indexes(sa),
            sa == a@,
            f == keys.before_fn(),
            pre == preorder_on(f, sa),
            asymmetric_on(f, sa),
            lo <= mid <= hi <= sa.len(),
            adjacent_ok(f, sa, l@),
            adjacent_ok(f, sa, r@),
            pre ==> ordered(f, sa, l@),
            pre ==> ordered(f, sa, r@),
            merge_cover(l@, r@, out@, src, i as int, j as int, lo as int, mid as int, hi as int),
            merge_adjacent(f, sa, l@, r@, out@, i as int, j as int),
            pre ==> merge_ordered(f, sa, l@, r@, out@, i as int, j as int),
        decreases l.len() + r.len() - i - j,
    {
        let take_left = if i == l.len() {
            false
        } else if j == r.len() {
            true
        } else {
            !keys.is_before(a[r[j]], a[l[i]])
        };
        if take_left {
            let x = l[i];
            proof {
                lemma_cover_left(l@, r@, out@, src, i as int, j as int, lo as int, mid as int, hi as int);
                lemma_adjacent_left(f, sa, l@, r@, out@, i as int, j as int);
                if pre {
                    lemma_ordered_left(f, sa, l@, r@, out@, i as int, j as int, lo as int, mid as int, hi as int);
                }
                src = src.push(i as int);
            }
            out.push(x);
            i = i + 1;
        } else {
            let y = r[j];
            proof {
                lemma_cover_right(l@, r@, out@, src, i as int, j as int, lo as int, mid as int, hi as int);
                lemma_adjacent_right(f, sa, l@, r@, out@, i as int, j as int);
                if pre {
                    lemma_ordered_right(f, sa, l@, r@, out@, i as int, j as int, lo as int, mid as int, hi as int);
                }
                src = src.push(j as int);
            }
            out.push(y);
            j = j + 1;
        }
    }
    proof {
        assert(pre ==> ordered(f, sa, out@));
    }
    out
}

/// Sorts the positions `lo..hi` of `a` by the keys of the rows they hold,
/// stably.
fn sort_positions(keys: &SortKeys, a: &Vec<usize>, lo: usize, hi: usize) -> (p: Vec<usize>)
    requires
        keys.wf(),
        keys.indexes(a@),
        lo <= hi <= a.len(),
    ensures
        covers(p@, lo as int, hi as int),
        adjacent_ok(keys.before_fn(), a@, p@),
        preorder_on(keys.before_fn(), a@) ==> ordered(keys.before_fn(), a@, p@),
    decreases hi - lo,
{
    if hi - lo <= 1 {
        let mut p: Vec<usize> = Vec::new();
        if hi - lo == 1 {
            p.push(lo);
        }
        return p;
    }
    let mid = lo + (hi - lo) / 2;
    let l = sort_positions(keys, a, lo, mid);
    let r = sort_positions(keys, a, mid, hi);
    merge_runs(keys, a, l, r, lo, mid, hi)
}

/// `a` rearranged by the keys: a stable sort.
pub fn stable_sorted(keys: &SortKeys, a: &Vec<usize>) -> (out: Vec<usize>)
    requires
        keys.wf(),
        keys.indexes(a@),
    ensures
        stable_sort_of(keys.before_fn(), a@, out@),
{
    let p = sort_positions(keys, a, 0, a.len());
    let mut out: Vec<usize> = Vec::new();
    let mut k: usize = 0;
    while k < p.len()
        invariant
            k <= p.len(),
            covers(p@, 0, a@.len() as int),
            out@ == p@.take(k as int).map_values(|q: usize| a@[q as int]),
        decreases p.len() - k,
    {
        out.push(a[p[k]]);
        proof {
            assert(p@.take(k + 1) =~= p@.take(k as int).push(p@[k as int]));
        }
        k = k + 1;
    }
    proof {
        assert(p@.take(p@.len() as int) =~= p@);
        assert(covers(p@, 0, a@.len() as int));
    }
    out
}


// ---------------------------------------------------------------------------
// The table's view state
// ---------------------------------------------------------------------------

/// The text of row `r`'s cell in column `col`; empty where the row has no
/// such cell.
pub open spec fn cell_text(rows: Seq<Vec<String>>, r: int, col: int) -> Seq<char> {
    if 0 <= col < rows[r]@.len() {
        rows[r]@[col]@
    } else {
        Seq::empty()
    }
}

/// The texts of column `col`, one per row.
pub open spec fn column_texts(rows: Seq<Vec<String>>, col: int) -> Seq<Seq<char>> {
    Seq::new(rows.len(), |r: int| cell_text(rows, r, col))
}

/// How the table orders row indices when sorted by column `col`: `numbers[r]`
/// is row `r`'s cell parsed as a binary64 number (its bit pattern), where it
/// parses.
pub open spec fn column_relation(rows: Seq<Vec<String>>, numbers: Seq<Option<u64>>, col: int, asc: bool) -> spec_fn(usize, usize) -> bool {
    keys_relation(numbers, column_texts(rows, col), asc)
}

/// Virtual scrolling table state.
pub struct TableState {
    pub sort_col: Option<usize>,
    pub sort_asc: bool,
    /// Indices into the rows, in display order.
    pub row_order: Vec<usize>,
    pub selected_row: Option<usize>,
}

impl TableState {
    /// A table of `row_count` rows in their natural order, unsorted and with
    /// nothing selected.
    pub fn new(row_count: usize) -> (t: Self)
        ensures
            t.sort_col == None::<usize>,
            t.sort_asc,
            t.row_order@ == Seq::new(row_count as nat, |i: int| i as usize),
            covers(t.row_order@, 0, row_count as int),
            t.selected_row == None::<usize>,
    {
        let mut row_order: Vec<usize> = Vec::new();
        let mut i: usize = 0;
        while i < row_count
            invariant
                i <= row_count,
                row_order@ == Seq::new(i as nat, |k: int| k as usize),
            decreases row_count - i,
        {
            row_order.push(i);
            i = i + 1;
        }
        TableState { sort_col: None, sort_asc: true, row_order, selected_row: None }
    }

    /// Sorts by column `col`: a click on the column already sorted flips the
    /// direction, a click on another column sorts it ascending. Rows are
    /// compared numerically when both cells parse as numbers, else by their
    /// text, and the sort is stable. `numbers[r]` must be the bit pattern of
    /// row `r`'s cell in `col` parsed as a binary64 number, or `None` where it
    /// does not parse. An order of fewer than two rows is left as it is, and
    /// its entries need not be row indices.
    pub fn sort_by(&mut self, col: usize, rows: &[Vec<String>], numbers: &[Option<u64>])
        requires
            numbers.len() == rows.len(),
            old(self).row_order.len() >= 2 ==> forall|k: int|
                0 <= k < old(self).row_order.len() ==> #[trigger] old(self).row_order@[k] < rows.len(),
        ensures
            final(self).sort_col == Some(col),
            final(self).sort_asc == (if old(self).sort_col == Some(col) {
                !old(self).sort_asc
            } else {
                true
            }),
            final(self).selected_row == old(self).selected_row,
            stable_sort_of(
                column_relation(rows@, numbers@, col as int, final(self).sort_asc),
                old(self).row_order@,
                final(self).row_order@,
            ),
            covers(old(self).row_order@, 0, rows.len() as int) ==> covers(final(self).row_order@, 0, rows.len() as int),
    {
        if self.sort_col == Some(col) {
            self.sort_asc = !self.sort_asc;
        } else {
            self.sort_col = Some(col);
            self.sort_asc = true;
        }
        if self.row_order.len() < 2 {
            proof {
                lemma_short_sorted(column_relation(rows@, numbers@, col as int, self.sort_asc), self.row_order@);
                if covers(self.row_order@, 0, rows.len() as int) {
                    law_sort_keeps_rows(
                        column_relation(rows@, numbers@, col as int, self.sort_asc),
                        self.row_order@,
                        self.row_order@,
                        rows.len() as nat,
                    );
                }
            }
            return;
        }
        let mut texts: Vec<Vec<char>> = Vec::new();
        let mut nums: Vec<Option<u64>> = Vec::new();
        let mut r: usize = 0;
        while r < rows.len()
            invariant
                r <= rows.len(),
                numbers.len() == rows.len(),
                texts.len() == r,
                nums.len() == r,
                forall|q: int| 0 <= q < r ==> (#[trigger] texts@[q])@ == cell_text(rows@, q, col as int),
                forall|q: int| 0 <= q < r ==> #[trigger] nums@[q] == numbers@[q],
            decreases rows.len() - r,
        {
            let row = &rows[r];
            let t = if col < row.len() {
                chars_of(row[col].as_str())
            } else {
                Vec::new()
            };
            texts.push(t);
            nums.push(numbers[r]);
            r = r + 1;
        }
        let keys = SortKeys { numbers: nums, texts, asc: self.sort_asc };
        proof {
            assert(keys.text_view() =~= column_texts(rows@, col as int));
            assert(keys.numbers@ =~= numbers@);
            assert(keys.indexes(self.row_order@));
        }
        let ghost before_sort = self.row_order@;
        let sorted = stable_sorted(&keys, &self.row_order);
        proof {
            if covers(before_sort, 0, rows.len() as int) {
                law_sort_keeps_rows(keys.before_fn(), before_sort, sorted@, rows.len() as nat);
            }
        }
        self.row_order = sorted;
    }
}


/// An order of at most one entry is its own stable sort.
proof fn lemma_short_sorted(before: spec_fn(usize, usize) -> bool, a: Seq<usize>)
    requires
        a.len() <= 1,
    ensures
        stable_sort_of(before, a, a),
{
    let p = Seq::new(a.len(), |i: int| i as usize);
    assert(covers(p, 0, a.len() as int));
    assert(a =~= p.map_values(|k: usize| a[k as int]));
    assert(adjacent_ok(before, a, p));
    assert(ordered(before, a, p));
}

// ---------------------------------------------------------------------------
// Laws of the table's order
// ---------------------------------------------------------------------------

/// Sorting rearranges the rows: an order that lists each of the rows
/// `0..n` once still does so after a stable sort by any relation.
pub proof fn law_sort_keeps_rows(before: spec_fn(usize, usize) -> bool, old: Seq<usize>, new: Seq<usize>, n: nat)
    requires
        covers(old, 0, n as int),
        stable_sort_of(before, old, new),
    ensures
        covers(new, 0, n as int),
{
    let p = choose|p: Seq<usize>|
        #[trigger] covers(p, 0, old.len() as int) && new == p.map_values(|k: usize| old[k as int])
            && adjacent_ok(before, old, p) && (preorder_on(before, old) ==> ordered(before, old, p));
    assert forall|k: int| 0 <= k < new.len() implies 0 <= #[trigger] new[k] < n by {
        assert(new[k] == old[p[k] as int]);
    }
    assert forall|k1: int, k2: int|
        0 <= k1 < new.len() && 0 <= k2 < new.len() && k1 != k2 implies #[trigger] new[k1] != #[trigger] new[k2] by {
        assert(new[k1] == old[p[k1] as int]);
        assert(new[k2] == old[p[k2] as int]);
        assert(p[k1] != p[k2]);
    }
}

/// Where the two cells do not both parse as numbers, the rows are ordered
/// by their texts alone: ascending, a row comes strictly first exactly when
/// its text is lexicographically smaller; descending, exactly when it is
/// larger; and rows whose texts differ never tie.
pub proof fn law_text_orders_unless_both_numbers(numbers: Seq<Option<u64>>, texts: Seq<Seq<char>>, x: usize, y: usize)
    requires
        !(numbers[x as int] is Some && numbers[y as int] is Some),
    ensures
        keys_before(numbers, texts, true, x, y) == (lex_order(texts[x as int], texts[y as int]) == Comparison::Less),
        keys_before(numbers, texts, false, x, y) == (lex_order(texts[y as int], texts[x as int]) == Comparison::Less),
        texts[x as int] != texts[y as int] ==> keys_before(numbers, texts, true, x, y) || keys_before(
            numbers,
            texts,
            true,
            y,
            x,
        ),
        texts[x as int] != texts[y as int] ==> keys_before(numbers, texts, false, x, y) || keys_before(
            numbers,
            texts,
            false,
            y,
            x,
        ),
{
    let (tx, ty) = (texts[x as int], texts[y as int]);
    lemma_lex_order_flip(tx, ty);
    lemma_lex_order_equal(tx, ty);
}

/// Where both cells parse as numbers other than NaN, the rows are ordered
/// by those numbers: ascending, a row comes strictly first exactly when its
/// number is smaller; descending, exactly when it is larger.
pub proof fn law_numbers_order_when_both_parse(numbers: Seq<Option<u64>>, texts: Seq<Seq<char>>, x: usize, y: usize)
    requires
        plain_number(numbers[x as int]),
        plain_number(numbers[y as int]),
    ensures
        keys_before(numbers, texts, true, x, y) == (float_rank(numbers[x as int]->0) < float_rank(numbers[y as int]->0)),
        keys_before(numbers, texts, false, x, y) == (float_rank(numbers[y as int]->0) < float_rank(numbers[x as int]->0)),
{
}

/// Rows whose sort keys are all text, or all numbers that are not NaN.
pub open spec fn uniform_keys(numbers: Seq<Option<u64>>, a: Seq<usize>) -> bool {
    ||| forall|k: int| 0 <= k < a.len() ==> #[trigger] numbers[a[k] as int] is None
    ||| forall|k: int| 0 <= k < a.len() ==> plain_number(#[trigger] numbers[a[k] as int])
}

/// A cell that parsed as a number other than NaN.
pub open spec fn plain_number(n: Option<u64>) -> bool {
    n matches Some(b) && !is_nan_bits(b)
}

proof fn lemma_keys_transitive(numbers: Seq<Option<u64>>, texts: Seq<Seq<char>>, asc: bool, u: usize, v: usize, w: usize)
    requires
        (numbers[u as int] is None && numbers[v as int] is None && numbers[w as int] is None) || (
        plain_number(numbers[u as int]) && plain_number(numbers[v as int]) && plain_number(numbers[w as int])),
        !keys_before(numbers, texts, asc, v, u),
        !keys_before(numbers, texts, asc, w, v),
    ensures
        !keys_before(numbers, texts, asc, w, u),
{
    let (tu, tv, tw) = (texts[u as int], texts[v as int], texts[w as int]);
    if numbers[u as int] is None {
        lemma_lex_order_flip(tu, tv);
        lemma_lex_order_flip(tv, tw);
        lemma_lex_order_flip(tu, tw);
        lemma_lex_order_equal(tu, tv);
        lemma_lex_order_equal(tv, tw);
        if asc {
            if lex_order(tw, tu) == Comparison::Less {
                if lex_order(tw, tv) == Comparison::Greater {
                    lemma_lex_order_transitive(tv, tw, tu);
                }
            }
        } else {
            if lex_order(tu, tw) == Comparison::Less {
                if lex_order(tv, tw) == Comparison::Greater {
                    lemma_lex_order_transitive(tu, tw, tv);
                }
            }
        }
    }
}

/// A column whose cells are all text, or all numbers other than NaN, is
/// ordered as a total preorder; after `sort_by` on such a column every pair
/// of rows is in order and rows that tie keep their order.
pub proof fn law_uniform_column_preorder(rows: Seq<Vec<String>>, numbers: Seq<Option<u64>>, col: int, asc: bool, a: Seq<usize>)
    requires
        numbers.len() == rows.len(),
        forall|k: int| 0 <= k < a.len() ==> #[trigger] a[k] < rows.len(),
        uniform_keys(numbers, a),
    ensures
        preorder_on(column_relation(rows, numbers, col, asc), a),
{
    let before = column_relation(rows, numbers, col, asc);
    let texts = column_texts(rows, col);
    assert forall|x: usize, y: usize, z: usize|
        x < a.len() && y < a.len() && z < a.len() && #[trigger] le_at(before, a, x, y)
            && #[trigger] le_at(before, a, y, z) implies le_at(before, a, x, z) by {
        let (u, v, w) = (a[x as int], a[y as int], a[z as int]);
        assert(numbers[u as int] == numbers[a[x as int] as int]);
        assert(numbers[v as int] == numbers[a[y as int] as int]);
        assert(numbers[w as int] == numbers[a[z as int] as int]);
        lemma_keys_transitive(numbers, texts, asc, u, v, w);
    }
}

} // verus!
