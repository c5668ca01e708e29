use vstd::prelude::*;

use crate::text::{chars_of, decimal, decimal_chars, digit_char, lemma_decimal_len, string_of};

verus! {

/// Unicode's White_Space property, which `str::trim` goes by.
pub open spec fn is_white_space(c: char) -> bool {
    ||| '\u{9}' <= c <= '\u{d}'
    ||| c == ' '
    ||| c == '\u{85}'
    ||| c == '\u{a0}'
    ||| c == '\u{1680}'
    ||| '\u{2000}' <= c <= '\u{200a}'
    ||| c == '\u{2028}'
    ||| c == '\u{2029}'
    ||| c == '\u{202f}'
    ||| c == '\u{205f}'
    ||| c == '\u{3000}'
}

/// `s` without its leading and trailing white space.
pub open spec fn trimmed(s: Seq<char>) -> Seq<char>
    decreases s.len(),
{
    if s.len() == 0 {
        s
    } else if is_white_space(s[0]) {
        trimmed(s.drop_first())
    } else if is_white_space(s.last()) {
        trimmed(s.drop_last())
    } else {
        s
    }
}

/// Whether `c` is an ASCII digit.
pub open spec fn is_digit(c: char) -> bool {
    '0' <= c <= '9'
}

/// The value of a run of ASCII digits.
pub open spec fn digits_value(s: Seq<char>) -> nat
    decreases s.len(),
{
    if s.len() == 0 {
        0
    } else {
        digits_value(s.drop_last()) * 10 + ((s.last() as u32) - ('0' as u32)) as nat
    }
}

/// What `str::parse::<usize>` gives: the value of one or more ASCII digits,
/// optionally after a `+`, where it fits in a `usize`.
pub open spec fn parsed_usize(s: Seq<char>) -> Option<usize> {
    let body = unsigned_body(s);
    if body.len() > 0 && all_digits(body) && digits_value(body) <= usize::MAX {
        Some(digits_value(body) as usize)
    } else {
        None
    }
}

/// The text after an optional leading `+`.
pub open spec fn unsigned_body(s: Seq<char>) -> Seq<char> {
    if s.len() > 0 && s[0] == '+' {
        s.drop_first()
    } else {
        s
    }
}

/// Every character is an ASCII digit.
pub open spec fn all_digits(s: Seq<char>) -> bool {
    forall|k: int| 0 <= k < s.len() ==> is_digit(#[trigger] s[k])
}

fn white_space(c: char) -> (b: bool)
    ensures
        b == is_white_space(c),
{
    ('\u{9}' <= c && c <= '\u{d}') || c == ' ' || c == '\u{85}' || c == '\u{a0}' || c == '\u{1680}' || ('\u{2000}'
        <= c && c <= '\u{200a}') || c == '\u{2028}' || c == '\u{2029}' || c == '\u{202f}' || c == '\u{205f}'
        || c == '\u{3000}'
}

/// The characters of `s` without leading and trailing white space.
pub fn trim_chars(s: &str) -> (out: Vec<char>)
    ensures
        out@ == trimmed(s@),
{
    let v = chars_of(s);
    let mut lo: usize = 0;
    let mut hi: usize = v.len();
    assert(v@.subrange(0, v@.len() as int) =~= v@);
    while lo < hi && (white_space(v[lo]) || white_space(v[hi - 1]))
        invariant
            lo <= hi <= v.len(),
            trimmed(v@) == trimmed(v@.subrange(lo as int, hi as int)),
        decreases hi - lo,
    {
        let ghost w = v@.subrange(lo as int, hi as int);
        if white_space(v[lo]) {
            assert(w.drop_first() =~= v@.subrange(lo + 1, hi as int));
            lo = lo + 1;
        } else {
            assert(w.drop_last() =~= v@.subrange(lo as int, hi - 1));
            hi = hi - 1;
        }
    }
    proof {
        let w = v@.subrange(lo as int, hi as int);
        if lo < hi {
            assert(w[0] == v@[lo as int]);
            assert(w.last() == v@[hi - 1]);
            assert(trimmed(w) == w);
        } else {
            assert(w.len() == 0);
            assert(trimmed(w) == w);
        }
    }
    let mut out: Vec<char> = Vec::new();
    let mut k: usize = lo;
    while k < hi
        invariant
            lo <= k <= hi <= v.len(),
            out@ == v@.subrange(lo as int, k as int),
        decreases hi - k,
    {
        out.push(v[k]);
        assert(v@.subrange(lo as int, k + 1) =~= v@.subrange(lo as int, k as int).push(v@[k as int]));
        k = k + 1;
    }
    out
}

/// `str::parse::<usize>` on a text given by its characters.
pub fn parse_usize(s: &Vec<char>) -> (r: Option<usize>)
    ensures
        r == parsed_usize(s@),
{
    let start: usize = if s.len() > 0 && s[0] == '+' {
        1
    } else {
        0
    };
    let ghost body = unsigned_body(s@);
    assert(body =~= s@.subrange(start as int, s@.len() as int));
    if start == s.len() {
        return None;
    }
    let mut value: usize = 0;
    let mut k: usize = start;
    assert(s@.subrange(start as int, start as int) =~= Seq::<char>::empty());
    while k < s.len()
        invariant
            start <= k <= s.len(),
            body == s@.subrange(start as int, s@.len() as int),
            body == unsigned_body(s@),
            forall|q: int| start <= q < k ==> is_digit(#[trigger] s@[q]),
            value as nat == digits_value(s@.subrange(start as int, k as int)),
        decreases s.len() - k,
    {
        let c = s[k];
        let ghost pre = s@.subrange(start as int, k as int);
        let ghost post = s@.subrange(start as int, k + 1);
        assert(post.drop_last() =~= pre);
        assert(post.last() == c);
        if !('0' <= c && c <= '9') {
            proof {
                assert(body[k - start] == c);
                assert(!is_digit(body[k - start]));
                assert(!all_digits(body));
            }
            return None;
        }
        let d: usize = ((c as u32) - ('0' as u32)) as usize;
        if value > (usize::MAX - d) / 10 {
            proof {
                assert(value * 10 + d > usize::MAX) by (nonlinear_arith)
                    requires
                        value > (usize::MAX - d) / 10,
                        d <= 9,
                ;
                assert(digits_value(post) == value * 10 + d);
                assert(post == body.take(k - start + 1));
                if all_digits(body) {
                    lemma_digits_grow(body, (k - start + 1) as int);
                    assert(digits_value(body) > usize::MAX);
                }
            }
            return None;
        }
        value = value * 10 + d;
        k = k + 1;
    }
    assert(s@.subrange(start as int, s@.len() as int) == body);
    Some(value)
}

/// A prefix of a run of digits is worth no more than the run.
proof fn lemma_digits_grow(s: Seq<char>, n: int)
    requires
        0 <= n <= s.len(),
        forall|k: int| 0 <= k < s.len() ==> is_digit(#[trigger] s[k]),
    ensures
        digits_value(s.take(n)) <= digits_value(s),
    decreases s.len() - n,
{
    if n < s.len() {
        lemma_digits_grow(s, n + 1);
        assert(s.take(n + 1).drop_last() =~= s.take(n));
    } else {
        assert(s.take(n) =~= s);
    }
}

/// The last row index of a table of `len` rows (0 for an empty table).
pub open spec fn max_row(len: usize) -> usize {
    if len > 0 {
        (len - 1) as usize
    } else {
        0
    }
}

/// A row-range field's value: `empty_value` when the trimmed text is empty,
/// the number it holds when it parses, else `fallback`.
pub open spec fn field_value(text: Seq<char>, empty_value: usize, fallback: usize) -> usize {
    let t = trimmed(text);
    if t.len() == 0 {
        empty_value
    } else {
        match parsed_usize(t) {
            Some(v) => v,
            None => fallback,
        }
    }
}

pub open spec fn min_usize(a: usize, b: usize) -> usize {
    if a < b {
        a
    } else {
        b
    }
}

/// The range that the input fields `from_text` and `to_text` give for a
/// table of `len` rows, where the range was `from..=to`: an empty field
/// means the first (or last) row, a field that does not parse keeps its end;
/// both ends are capped at the last row and put in order.
pub open spec fn applied_range(from_text: Seq<char>, to_text: Seq<char>, from: usize, to: usize, len: usize) -> (usize, usize) {
    let m = max_row(len);
    let f = min_usize(field_value(from_text, 0, from), m);
    let t = min_usize(field_value(to_text, m, to), m);
    if f > t {
        (t, f)
    } else {
        (f, t)
    }
}

/// A decimal numeral reads back as its number, with nothing to trim.
pub proof fn lemma_decimal_reads_back(n: nat)
    requires
        n <= usize::MAX,
    ensures
        trimmed(decimal(n)) == decimal(n),
        parsed_usize(decimal(n)) == Some(n as usize),
    decreases n,
{
    lemma_decimal_digits(n);
    lemma_decimal_len(n);
    let d = decimal(n);
    assert(is_digit(d[0]) && is_digit(d.last()));
    assert(unsigned_body(d) == d);
}

proof fn lemma_digit_char_value(d: int)
    requires
        0 <= d < 10,
    ensures
        is_digit(digit_char(d)),
        (digit_char(d) as u32) - ('0' as u32) == d,
{
}

proof fn lemma_decimal_digits(n: nat)
    ensures
        all_digits(decimal(n)),
        digits_value(decimal(n)) == n,
    decreases n,
{
    lemma_decimal_len(n);
    lemma_digit_char_value((n % 10) as int);
    if n < 10 {
        let d = decimal(n);
        assert(d.drop_last() =~= Seq::<char>::empty());
        assert(digits_value(d.drop_last()) == 0);
        assert(d.last() == digit_char((n % 10) as int));
        assert(digits_value(d) == digits_value(d.drop_last()) * 10 + ((d.last() as u32) - ('0' as u32)) as nat);
    } else {
        lemma_decimal_digits(n / 10);
        let d = decimal(n);
        assert(d.drop_last() =~= decimal(n / 10));
        assert forall|k: int| 0 <= k < d.len() implies is_digit(#[trigger] d[k]) by {
            if k < d.len() - 1 {
                assert(d[k] == decimal(n / 10)[k]);
            }
        }
        assert(d.last() == digit_char((n % 10) as int));
        assert(digits_value(d) == digits_value(d.drop_last()) * 10 + ((d.last() as u32) - ('0' as u32)) as nat);
        assert(digits_value(d) == (n / 10) * 10 + n % 10);
    }
}

/// Taking the range from the input fields a second time changes nothing:
/// the fields then show the range that the first time gave.
pub proof fn law_apply_inputs_settles(from_text: Seq<char>, to_text: Seq<char>, from: usize, to: usize, len: usize)
    ensures
        ({
            let (f, t) = applied_range(from_text, to_text, from, to, len);
            applied_range(decimal(f as nat), decimal(t as nat), f, t, len) == (f, t)
        }),
{
    let (f, t) = applied_range(from_text, to_text, from, to, len);
    lemma_decimal_reads_back(f as nat);
    lemma_decimal_reads_back(t as nat);
    lemma_decimal_len(f as nat);
    lemma_decimal_len(t as nat);
}

/// The inclusive range of row indices the table shows, with the text of
/// its two input fields.
pub struct RowRange {
    pub from_input: String,
    pub to_input: String,
    pub from: usize,
    pub to: usize,
}

fn decimal_string(n: usize) -> (s: String)
    ensures
        s@ == decimal(n as nat),
{
    string_of(&decimal_chars(n as u128))
}

fn field_number(text: &String, empty_value: usize, fallback: usize) -> (v: usize)
    ensures
        v == field_value(text@, empty_value, fallback),
{
    let t = trim_chars(text.as_str());
    if t.len() == 0 {
        empty_value
    } else {
        match parse_usize(&t) {
            Some(v) => v,
            None => fallback,
        }
    }
}

impl RowRange {
    /// The range before any table is loaded: both ends 0.
    pub fn new() -> (r: Self)
        ensures
            r.from == 0,
            r.to == 0,
            r.from_input@ == "0"@,
            r.to_input@ == "0"@,
    {
        RowRange { from_input: String::from_str("0"), to_input: String::from_str("0"), from: 0, to: 0 }
    }

    /// Shows every row of a table of `len` rows.
    pub fn reset_for_len(&mut self, len: usize)
        ensures
            final(self).from == 0,
            final(self).to == max_row(len),
            final(self).from_input@ == "0"@,
            final(self).to_input@ == decimal(max_row(len) as nat),
            applied_range(final(self).from_input@, final(self).to_input@, final(self).from, final(self).to, len) == (
                final(self).from,
                final(self).to,
            ),
    {
        let max_row = if len > 0 {
            len - 1
        } else {
            0
        };
        self.from = 0;
        self.to = max_row;
        self.from_input = String::from_str("0");
        self.to_input = decimal_string(max_row);
        proof {
            reveal_strlit("0");
            assert(decimal(0) == seq![digit_char(0)]);
            assert(self.from_input@ =~= decimal(0));
            lemma_decimal_reads_back(0);
            lemma_decimal_reads_back(max_row as nat);
            lemma_decimal_len(max_row as nat);
            lemma_decimal_len(0);
        }
    }

    /// Takes the range from the input fields for a table of `len` rows: an
    /// empty field means the first (or last) row, a field that does not
    /// parse keeps its end as it was; both ends are capped at the last row
    /// and put in order, and the fields then show them.
    pub fn apply_inputs(&mut self, len: usize)
        ensures
            (final(self).from, final(self).to) == applied_range(
                old(self).from_input@,
                old(self).to_input@,
                old(self).from,
                old(self).to,
                len,
            ),
            final(self).from <= final(self).to <= max_row(len),
            final(self).from_input@ == decimal(final(self).from as nat),
            final(self).to_input@ == decimal(final(self).to as nat),
    {
        let max_row = if len > 0 {
            len - 1
        } else {
            0
        };
        let parsed_from = field_number(&self.from_input, 0, self.from);
        let parsed_to = field_number(&self.to_input, max_row, self.to);
        let mut from = if parsed_from < max_row { parsed_from } else { max_row };
        let mut to = if parsed_to < max_row { parsed_to } else { max_row };
        if from > to {
            let tmp = from;
            from = to;
            to = tmp;
        }
        self.from = from;
        self.to = to;
        self.from_input = decimal_string(from);
        self.to_input = decimal_string(to);
    }
}

} // verus!
