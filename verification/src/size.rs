use vstd::prelude::*;

use crate::text::{decimal, decimal_chars, digit, digit_char, string_of};

verus! {

// ---------------------------------------------------------------------------
// Integers seen as binary64 values
// ---------------------------------------------------------------------------

/// The spacing of binary64 values around the integer `n`: 1 below 2^53, and
/// doubling with each further bit of `n`.
pub open spec fn float_spacing(n: nat) -> nat
    decreases n,
{
    if n < 0x20_0000_0000_0000 {
        1
    } else {
        2 * float_spacing(n / 2)
    }
}

/// `n as f64` for an integer `n`: the nearest multiple of the spacing, ties
/// going to the even multiple (round to nearest, ties to even).
pub open spec fn float_round(n: nat) -> nat {
    let u = float_spacing(n);
    let q = n / u;
    let r = n % u;
    if 2 * r < u {
        q * u
    } else if 2 * r > u {
        (q + 1) * u
    } else if q % 2 == 0 {
        q * u
    } else {
        (q + 1) * u
    }
}

pub open spec fn pow1024(k: nat) -> nat
    decreases k,
{
    if k == 0 {
        1
    } else {
        1024 * pow1024((k - 1) as nat)
    }
}

/// `10 * m / d` rounded to the nearest integer, ties to even: the tenths
/// that `{:.1}` shows of the value `m / d`.
pub open spec fn tenths_rounded(m: nat, d: nat) -> nat {
    let q = (10 * m) / d;
    let r = (10 * m) % d;
    if 2 * r < d {
        q
    } else if 2 * r > d {
        q + 1
    } else if q % 2 == 0 {
        q
    } else {
        q + 1
    }
}

/// `t` tenths written with one decimal place.
pub open spec fn one_decimal(t: nat) -> Seq<char> {
    decimal(t / 10) + seq!['.', digit_char((t % 10) as int)]
}

/// The unit a value `m` is shown in: the first `k` from `start` whose next
/// unit is more than `m`, or `top` at the latest.
pub open spec fn scale_index(m: nat, k: nat, top: nat) -> nat
    decreases top - k,
{
    if k >= top || m < pow1024(k + 1) {
        k
    } else {
        scale_index(m, k + 1, top)
    }
}

/// How a byte count whose binary64 value is `m` is shown with the units
/// `units` (`units[k]` standing for 1024^k bytes, the last taking all larger
/// values): whole bytes without decimals, larger units with one decimal.
pub open spec fn scaled_size(m: nat, units: Seq<Seq<char>>) -> Seq<char> {
    let k = scale_index(m, 0, (units.len() - 1) as nat);
    if k == 0 {
        decimal(m) + seq![' '] + units[0]
    } else {
        one_decimal(tenths_rounded(m, pow1024(k))) + seq![' '] + units[k as int]
    }
}

/// B up to GB, then TB.
pub open spec fn short_units() -> Seq<Seq<char>> {
    seq![seq!['B'], seq!['K', 'B'], seq!['M', 'B'], seq!['G', 'B'], seq!['T', 'B']]
}

/// B up to TB, then PB.
pub open spec fn long_units() -> Seq<Seq<char>> {
    seq![seq!['B'], seq!['K', 'B'], seq!['M', 'B'], seq!['G', 'B'], seq!['T', 'B'], seq!['P', 'B']]
}

/// The text for a file size of `n` bytes in the status bar.
pub open spec fn size_label(n: nat) -> Seq<char> {
    scaled_size(float_round(n), short_units())
}

/// The text for a byte count `v` in the metadata: a negative count shows as
/// whole bytes.
pub open spec fn byte_count_label(v: int) -> Seq<char> {
    if v < 0 {
        seq!['-'] + decimal(float_round((-v) as nat)) + seq![' ', 'B']
    } else {
        scaled_size(float_round(v as nat), long_units())
    }
}

/// `n` with its thousands separated by commas.
pub open spec fn grouped(n: nat) -> Seq<char>
    decreases n,
{
    if n < 1000 {
        decimal(n)
    } else {
        grouped(n / 1000) + seq![',', digit_char(((n % 1000) / 100) as int), digit_char(((n % 100) / 10) as int), digit_char((n % 10) as int)]
    }
}

/// Holds of the characters other than the comma.
pub open spec fn not_comma() -> spec_fn(char) -> bool {
    |c: char| c != ','
}

proof fn lemma_digit_char_not_comma(d: int)
    ensures
        digit_char(d) != ',',
{
}

proof fn lemma_decimal_without_commas(n: nat)
    ensures
        decimal(n).filter(not_comma()) == decimal(n),
    decreases n,
{
    reveal(Seq::filter);
    let d = decimal(n);
    lemma_digit_char_not_comma((n % 10) as int);
    if n < 10 {
        assert(d.drop_last() =~= Seq::<char>::empty());
        assert(d.drop_last().filter(not_comma()) =~= Seq::<char>::empty());
        assert(d =~= Seq::<char>::empty().push(d.last()));
    } else {
        lemma_decimal_without_commas(n / 10);
        assert(d.drop_last() =~= decimal(n / 10));
        assert(d =~= decimal(n / 10).push(d.last()));
    }
}

proof fn lemma_decimal_split(n: nat)
    requires
        n >= 1000,
    ensures
        decimal(n) == decimal(n / 1000) + seq![
            digit_char(((n % 1000) / 100) as int),
            digit_char(((n % 100) / 10) as int),
            digit_char((n % 10) as int),
        ],
{
    assert(n / 10 / 10 == n / 100);
    assert(n / 100 / 10 == n / 1000);
    assert((n / 10) % 10 == (n % 100) / 10);
    assert((n / 100) % 10 == (n % 1000) / 100);
    let a = decimal(n / 1000);
    assert(decimal(n / 100) == a.push(digit_char(((n / 100) % 10) as int)));
    assert(decimal(n / 10) == decimal(n / 100).push(digit_char(((n / 10) % 10) as int)));
    assert(decimal(n) == decimal(n / 10).push(digit_char((n % 10) as int)));
    assert(decimal(n) =~= a + seq![
        digit_char(((n % 1000) / 100) as int),
        digit_char(((n % 100) / 10) as int),
        digit_char((n % 10) as int),
    ]);
}

/// With its commas taken out, a number written with thousands separators
/// is the number written plainly.
pub proof fn law_grouped_digits(n: nat)
    ensures
        grouped(n).filter(not_comma()) == decimal(n),
    decreases n,
{
    if n < 1000 {
        lemma_decimal_without_commas(n);
    } else {
        law_grouped_digits(n / 1000);
        lemma_decimal_split(n);
        let (a, b, c) = (
            digit_char(((n % 1000) / 100) as int),
            digit_char(((n % 100) / 10) as int),
            digit_char((n % 10) as int),
        );
        lemma_digit_char_not_comma(((n % 1000) / 100) as int);
        lemma_digit_char_not_comma(((n % 100) / 10) as int);
        lemma_digit_char_not_comma((n % 10) as int);
        let tail = seq![',', a, b, c];
        assert(tail.filter(not_comma()) =~= seq![a, b, c]) by {
            reveal_with_fuel(Seq::filter, 5);
            assert(tail.drop_last() =~= seq![',', a, b]);
            assert(tail.drop_last().drop_last() =~= seq![',', a]);
            assert(tail.drop_last().drop_last().drop_last() =~= seq![',']);
            assert(seq![','].drop_last() =~= Seq::<char>::empty());
        }
        Seq::filter_distributes_over_add(grouped(n / 1000), tail, not_comma());
        assert(grouped(n) == grouped(n / 1000) + tail);
    }
}

/// The binary64 value of `n <= u64::MAX`.
fn float_value(n: u128) -> (m: u128)
    requires
        n <= 0xffff_ffff_ffff_ffff,
    ensures
        m == float_round(n as nat),
        m <= 2 * n,
{
    let mut unit: u128 = 1;
    let mut rest: u128 = n;
    while rest >= 0x20_0000_0000_0000
        invariant
            1 <= unit <= n || n == 0,
            unit >= 1,
            unit * rest <= n,
            n > 0 ==> rest >= 1,
            n <= 0xffff_ffff_ffff_ffff,
            float_spacing(n as nat) == unit * float_spacing(rest as nat),
        decreases rest,
    {
        let ghost fs = float_spacing((rest / 2) as nat);
        assert(float_spacing(rest as nat) == 2 * fs);
        assert(unit * (2 * fs) == (2 * unit) * fs) by (nonlinear_arith);
        assert((2 * unit) * (rest / 2) <= unit * rest) by (nonlinear_arith)
            requires
                unit >= 1,
        ;
        assert(2 * unit <= n) by (nonlinear_arith)
            requires
                unit * rest <= n,
                rest >= 2,
                unit >= 1,
        ;
        unit = 2 * unit;
        rest = rest / 2;
    }
    let ghost fr = float_spacing(rest as nat);
    assert(fr == 1);
    assert(unit * fr == unit) by (nonlinear_arith)
        requires
            fr == 1,
    ;
    assert(float_spacing(n as nat) == unit);
    let q = n / unit;
    let r = n % unit;
    assert(q * unit + r == n && r < unit) by (nonlinear_arith)
        requires
            q == n / unit,
            r == n % unit,
            unit >= 1,
    ;
    assert(q * unit <= n);
    assert((q + 1) * unit == q * unit + unit) by (nonlinear_arith);
    if 2 * r < unit {
        q * unit
    } else if 2 * r > unit {
        (q + 1) * unit
    } else if q % 2 == 0 {
        q * unit
    } else {
        (q + 1) * unit
    }
}

proof fn lemma_pow1024_values()
    ensures
        pow1024(0) == 1,
        pow1024(1) == 0x400,
        pow1024(2) == 0x10_0000,
        pow1024(3) == 0x4000_0000,
        pow1024(4) == 0x100_0000_0000,
        pow1024(5) == 0x4_0000_0000_0000,
{
    reveal_with_fuel(pow1024, 6);
}

/// Appends the characters of `b` to `a`.
pub fn extend_chars(a: &mut Vec<char>, b: &Vec<char>)
    ensures
        final(a)@ == old(a)@ + b@,
{
    let mut i: usize = 0;
    let ghost a0 = a@;
    while i < b.len()
        invariant
            i <= b.len(),
            a@ == a0 + b@.take(i as int),
        decreases b.len() - i,
    {
        a.push(b[i]);
        proof {
            assert(b@.take(i + 1) =~= b@.take(i as int).push(b@[i as int]));
        }
        i = i + 1;
    }
    proof {
        assert(b@.take(b@.len() as int) =~= b@);
    }
}

/// Appends the name of unit `k` of the long unit list (the short list names
/// the same units up to TB).
fn push_unit(out: &mut Vec<char>, k: usize)
    requires
        k <= 5,
    ensures
        final(out)@ == old(out)@ + long_units()[k as int],
{
    if k == 0 {
        out.push('B');
    } else {
        let c = if k == 1 {
            'K'
        } else if k == 2 {
            'M'
        } else if k == 3 {
            'G'
        } else if k == 4 {
            'T'
        } else {
            'P'
        };
        out.push(c);
        out.push('B');
    }
    assert(final(out)@ =~= old(out)@ + long_units()[k as int]);
}

/// `scaled_size` of `m` with the long units (`long`) or the short ones.
fn scaled_size_chars(m: u128, long: bool) -> (out: Vec<char>)
    requires
        m <= 0x2_0000_0000_0000_0000,
    ensures
        out@ == scaled_size(m as nat, if long { long_units() } else { short_units() }),
{
    let ghost units = if long { long_units() } else { short_units() };
    let top: usize = if long { 5 } else { 4 };
    assert(units.len() - 1 == top);
    let mut k: usize = 0;
    let mut d: u128 = 1;
    while k < top && m >= d * 1024
        invariant
            k <= top,
            top <= 5,
            d == pow1024(k as nat),
            k <= 4 ==> d <= 0x100_0000_0000,
            d <= 0x4_0000_0000_0000,
            scale_index(m as nat, 0, top as nat) == scale_index(m as nat, k as nat, top as nat),
        decreases top - k,
    {
        assert(pow1024((k + 1) as nat) == 1024 * pow1024(k as nat));
        d = d * 1024;
        proof {
            lemma_pow1024_values();
        }
        k = k + 1;
    }
    proof {
        assert(pow1024((k + 1) as nat) == 1024 * pow1024(k as nat));
        assert(scale_index(m as nat, k as nat, top as nat) == k);
        lemma_pow1024_values();
    }
    let mut out: Vec<char>;
    if k == 0 {
        out = decimal_chars(m);
        out.push(' ');
        push_unit(&mut out, 0);
        assert(short_units()[0] == long_units()[0]);
    } else {
        let ten = 10 * m;
        let q = ten / d;
        let r = ten % d;
        let t = if 2 * r < d {
            q
        } else if 2 * r > d {
            q + 1
        } else if q % 2 == 0 {
            q
        } else {
            q + 1
        };
        assert(t == tenths_rounded(m as nat, d as nat));
        out = decimal_chars(t / 10);
        out.push('.');
        out.push(digit((t % 10) as u8));
        assert(out@ =~= one_decimal(t as nat));
        out.push(' ');
        push_unit(&mut out, k);
        assert(k < 5 ==> short_units()[k as int] == long_units()[k as int]);
    }
    out
}

/// The status bar's text for a file of `n` bytes: whole bytes below 1 KB,
/// else KB, MB, GB or TB with one decimal.
pub fn fmt_size(n: u64) -> (s: String)
    ensures
        s@ == size_label(n as nat),
{
    let m = float_value(n as u128);
    let out = scaled_size_chars(m, false);
    string_of(&out)
}

/// The metadata's text for a byte count `v` (a file, column or row-group
/// size): whole bytes below 1 KB (negative counts too), else KB, MB, GB, TB
/// or PB with one decimal.
pub fn fmt_byte_count(v: i128) -> (s: String)
    requires
        -0x8000_0000_0000_0000 <= v <= 0xffff_ffff_ffff_ffff,
    ensures
        s@ == byte_count_label(v as int),
{
    if v < 0 {
        let m = float_value((-v) as u128);
        let mut out: Vec<char> = Vec::new();
        out.push('-');
        let digits = decimal_chars(m);
        extend_chars(&mut out, &digits);
        out.push(' ');
        out.push('B');
        assert(out@ =~= seq!['-'] + decimal(float_round((-v) as nat)) + seq![' ', 'B']);
        string_of(&out)
    } else {
        let m = float_value(v as u128);
        let out = scaled_size_chars(m, true);
        string_of(&out)
    }
}

fn grouped_chars(n: u128) -> (out: Vec<char>)
    ensures
        out@ == grouped(n as nat),
    decreases n,
{
    if n < 1000 {
        decimal_chars(n)
    } else {
        let mut out = grouped_chars(n / 1000);
        let low = n % 1000;
        out.push(',');
        out.push(digit((low / 100) as u8));
        out.push(digit(((low % 100) / 10) as u8));
        out.push(digit((low % 10) as u8));
        proof {
            assert((n % 100) == (low % 100));
            assert(out@ =~= grouped(n as nat));
        }
        out
    }
}

/// `n` in decimal with its thousands separated by commas.
pub fn fmt_num(n: usize) -> (s: String)
    ensures
        s@ == grouped(n as nat),
{
    let out = grouped_chars(n as u128);
    string_of(&out)
}

} // verus!
