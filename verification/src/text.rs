use vstd::prelude::*;

verus! {

/// The characters of `s`, in order.
pub fn chars_of(s: &str) -> (out: Vec<char>)
    ensures
        out@ == s@,
{
    let mut out: Vec<char> = Vec::new();
    for c in it: s.chars()
        invariant
            out@ == it.seq().take(it.index() as int),
            it.seq() == s@,
    {
        out.push(c);
    }
    out
}

/// `String::push`: afterwards `s` holds its characters followed by `c`.
#[verifier::external_body]
pub(crate) fn push_char(s: &mut String, c: char)
    ensures
        final(s)@ == old(s)@.push(c),
{
    s.push(c);
}

/// A string holding the characters of `v`.
pub fn string_of(v: &Vec<char>) -> (s: String)
    ensures
        s@ == v@,
{
    let mut s = String::new();
    let mut i: usize = 0;
    while i < v.len()
        invariant
            i <= v.len(),
            s@ == v@.take(i as int),
        decreases v.len() - i,
    {
        push_char(&mut s, v[i]);
        proof {
            assert(v@.take(i + 1) =~= v@.take(i as int).push(v@[i as int]));
        }
        i = i + 1;
    }
    proof {
        assert(v@.take(v@.len() as int) =~= v@);
    }
    s
}

/// Appends the text of `t` to `s`.
pub fn push_str(s: &mut String, t: &str)
    ensures
        final(s)@ == old(s)@ + t@,
{
    s.append(t);
}

/// The character of decimal digit `d`.
pub open spec fn digit_char(d: int) -> char {
    if d == 0 {
        '0'
    } else if d == 1 {
        '1'
    } else if d == 2 {
        '2'
    } else if d == 3 {
        '3'
    } else if d == 4 {
        '4'
    } else if d == 5 {
        '5'
    } else if d == 6 {
        '6'
    } else if d == 7 {
        '7'
    } else if d == 8 {
        '8'
    } else {
        '9'
    }
}

/// The decimal numeral of `n`, without leading zeros.
pub open spec fn decimal(n: nat) -> Seq<char>
    decreases n,
{
    if n < 10 {
        seq![digit_char(n as int)]
    } else {
        decimal(n / 10).push(digit_char((n % 10) as int))
    }
}

/// The decimal numeral of `v`, with a leading `-` when negative.
pub open spec fn signed_decimal(v: int) -> Seq<char> {
    if v < 0 {
        seq!['-'] + decimal((-v) as nat)
    } else {
        decimal(v as nat)
    }
}

/// A numeral has at least one digit, and exactly one below ten.
pub proof fn lemma_decimal_len(n: nat)
    ensures
        decimal(n).len() >= 1,
        n < 10 <==> decimal(n).len() == 1,
    decreases n,
{
    if n >= 10 {
        lemma_decimal_len(n / 10);
    }
}

/// The decimal digit of `d < 10`.
pub fn digit(d: u8) -> (c: char)
    requires
        d < 10,
    ensures
        c == digit_char(d as int),
{
    let c: char = match d {
        0 => '0',
        1 => '1',
        2 => '2',
        3 => '3',
        4 => '4',
        5 => '5',
        6 => '6',
        7 => '7',
        8 => '8',
        _ => '9',
    };
    c
}

/// The decimal numeral of `n`, as characters.
pub fn decimal_chars(n: u128) -> (out: Vec<char>)
    ensures
        out@ == decimal(n as nat),
{
    // digits from the least significant one
    let mut rev: Vec<char> = Vec::new();
    let mut m: u128 = n;
    loop
        invariant_except_break
            m <= n,
            decimal(n as nat) == decimal(m as nat) + rev@.reverse(),
        ensures
            decimal(n as nat) == rev@.reverse(),
        decreases m,
    {
        let d: u8 = (m % 10) as u8;
        let c = digit(d);
        if m < 10 {
            proof {
                assert(decimal(m as nat) =~= seq![c]);
            }
            rev.push(c);
            proof {
                assert(rev@.reverse() =~= seq![c] + rev@.drop_last().reverse());
                assert(decimal(n as nat) =~= rev@.reverse());
            }
            break;
        }
        proof {
            assert(decimal(m as nat) == decimal((m / 10) as nat).push(c));
            assert(rev@.push(c).reverse() =~= seq![c] + rev@.reverse());
        }
        rev.push(c);
        m = m / 10;
    }
    let mut out: Vec<char> = Vec::new();
    let mut i: usize = rev.len();
    assert(rev@.skip(i as int).reverse() =~= Seq::<char>::empty());
    while i > 0
        invariant
            i <= rev.len(),
            out@ == rev@.skip(i as int).reverse(),
        decreases i,
    {
        i = i - 1;
        proof {
            assert(rev@.skip(i as int).reverse() =~= rev@.skip(i + 1).reverse().push(rev@[i as int]));
        }
        out.push(rev[i]);
    }
    proof {
        assert(rev@.skip(0) =~= rev@);
    }
    out
}

/// The decimal numeral of `v`, with a `-` sign when negative.
pub fn signed_decimal_chars(v: i128) -> (out: Vec<char>)
    ensures
        out@ == signed_decimal(v as int),
{
    if v < 0 {
        let mag: u128 = if v == i128::MIN {
            0x8000_0000_0000_0000_0000_0000_0000_0000u128
        } else {
            (-v) as u128
        };
        let digits = decimal_chars(mag);
        let mut out: Vec<char> = Vec::new();
        out.push('-');
        let mut i: usize = 0;
        while i < digits.len()
            invariant
                i <= digits.len(),
                out@ == seq!['-'] + digits@.take(i as int),
            decreases digits.len() - i,
        {
            out.push(digits[i]);
            proof {
                assert(digits@.take(i + 1) =~= digits@.take(i as int).push(digits@[i as int]));
            }
            i = i + 1;
        }
        proof {
            assert(digits@.take(digits@.len() as int) =~= digits@);
        }
        out
    } else {
        decimal_chars(v as u128)
    }
}

/// The texts of a sequence of strings.
pub open spec fn strings_view(v: Seq<String>) -> Seq<Seq<char>> {
    v.map_values(|s: String| s@)
}

/// `parts` with `sep` between each two of them.
pub open spec fn join(parts: Seq<Seq<char>>, sep: Seq<char>) -> Seq<char>
    decreases parts.len(),
{
    if parts.len() == 0 {
        Seq::empty()
    } else if parts.len() == 1 {
        parts[0]
    } else {
        join(parts.drop_last(), sep) + sep + parts.last()
    }
}

/// `parts` with `sep` between each two of them.
pub fn join_strings(parts: &Vec<String>, sep: &str) -> (s: String)
    ensures
        s@ == join(strings_view(parts@), sep@),
{
    let ghost v = strings_view(parts@);
    let mut s = String::new();
    let mut i: usize = 0;
    while i < parts.len()
        invariant
            i <= parts.len(),
            v == strings_view(parts@),
            s@ == join(v.take(i as int), sep@),
        decreases parts.len() - i,
    {
        proof {
            assert(v.take(i + 1).drop_last() =~= v.take(i as int));
        }
        if i > 0 {
            s.append(sep);
        } else {
            assert(v.take(1) =~= seq![v[0]]);
        }
        s.append(parts[i].as_str());
        i = i + 1;
    }
    proof {
        assert(v.take(v.len() as int) =~= v);
    }
    s
}

/// Whether two texts are equal.
pub fn same_text(a: &str, b: &str) -> (eq: bool)
    ensures
        eq == (a@ == b@),
{
    let x = chars_of(a);
    let y = chars_of(b);
    let c = crate::table::lex_compare(&x, &y);
    proof {
        crate::table::lemma_lex_order_equal(a@, b@);
    }
    c == crate::table::Comparison::Equal
}

} // verus!
