use vstd::prelude::*;

use crate::text::{chars_of, join, join_strings, push_char, strings_view};

verus! {

/// `n` copies of `c`.
pub open spec fn repeated(c: char, n: nat) -> Seq<char> {
    Seq::new(n, |_k: int| c)
}

/// A cell padded with spaces to `width` characters (never cut).
pub open spec fn padded_cell(cell: Seq<char>, width: int) -> Seq<char> {
    cell + repeated(' ', if width > cell.len() { (width - cell.len()) as nat } else { 0 })
}

/// Cells padded to their column widths, separated by ` | `.
pub open spec fn table_row_text(cells: Seq<Seq<char>>, widths: Seq<nat>) -> Seq<char> {
    join(Seq::new(cells.len(), |i: int| padded_cell(cells[i], widths[i] as int)), " | "@)
}

/// The width of column `i`: its header's length, widened to its longest cell.
pub open spec fn column_width(headers: Seq<Seq<char>>, rows: Seq<Seq<Seq<char>>>, i: int) -> nat
    decreases rows.len(),
{
    if rows.len() == 0 {
        headers[i].len()
    } else {
        let prev = column_width(headers, rows.drop_last(), i);
        let last = rows.last();
        if 0 <= i < last.len() && last[i].len() > prev {
            last[i].len()
        } else {
            prev
        }
    }
}

/// The widths of all columns.
pub open spec fn column_widths(headers: Seq<Seq<char>>, rows: Seq<Seq<Seq<char>>>) -> Seq<nat> {
    Seq::new(headers.len(), |i: int| column_width(headers, rows, i))
}

/// The lines of a text table: the header, a rule under each column joined by
/// `-+-`, then one line per row; each line indented by `|  `.
pub open spec fn table_lines(headers: Seq<Seq<char>>, rows: Seq<Seq<Seq<char>>>) -> Seq<Seq<char>> {
    let widths = column_widths(headers, rows);
    seq![
        "|  "@ + table_row_text(headers, widths),
        "|  "@ + join(Seq::new(widths.len(), |i: int| repeated('-', widths[i])), "-+-"@),
    ] + Seq::new(rows.len(), |r: int| "|  "@ + table_row_text(rows[r], widths))
}

/// The texts of rows of strings.
pub open spec fn rows_view(rows: Seq<Vec<String>>) -> Seq<Seq<Seq<char>>> {
    rows.map_values(|r: Vec<String>| strings_view(r@))
}

/// `n` spaces (or other copies of `c`) appended to `s`.
fn push_repeated(s: &mut String, c: char, n: usize)
    ensures
        final(s)@ == old(s)@ + repeated(c, n as nat),
{
    let mut k: usize = 0;
    while k < n
        invariant
            k <= n,
            s@ == old(s)@ + repeated(c, k as nat),
        decreases n - k,
    {
        push_char(s, c);
        proof {
            assert(repeated(c, (k + 1) as nat) =~= repeated(c, k as nat).push(c));
        }
        k = k + 1;
    }
}

/// One table line's cells padded to the widths and joined by ` | `.
pub fn format_table_row(cells: &Vec<String>, widths: &Vec<usize>) -> (s: String)
    requires
        cells.len() <= widths.len(),
    ensures
        s@ == table_row_text(strings_view(cells@), widths@.map_values(|w: usize| w as nat)),
{
    let ghost cv = strings_view(cells@);
    let ghost wv = widths@.map_values(|w: usize| w as nat);
    let mut parts: Vec<String> = Vec::new();
    let mut i: usize = 0;
    while i < cells.len()
        invariant
            i <= cells.len(),
            cells.len() <= widths.len(),
            cv == strings_view(cells@),
            wv == widths@.map_values(|w: usize| w as nat),
            strings_view(parts@) == Seq::new(i as nat, |k: int| padded_cell(cv[k], wv[k] as int)),
        decreases cells.len() - i,
    {
        let cell = &cells[i];
        let chars = chars_of(cell.as_str());
        let len = chars.len();
        assert(len == cell@.len());
        let pad: usize = if widths[i] > len {
            widths[i] - len
        } else {
            0
        };
        let mut p = cell.clone();
        push_repeated(&mut p, ' ', pad);
        assert(p@ == cell@ + repeated(' ', pad as nat));
        assert(cv[i as int] == cell@);
        assert(wv[i as int] == widths@[i as int] as nat);
        assert(p@ == padded_cell(cv[i as int], wv[i as int] as int));
        let ghost old_parts = parts@;
        let ghost pv = p@;
        parts.push(p);
        proof {
            assert(strings_view(parts@) =~= strings_view(old_parts).push(pv));
            assert(strings_view(parts@) =~= Seq::new((i + 1) as nat, |k: int| padded_cell(cv[k], wv[k] as int)));
        }
        i = i + 1;
    }
    join_strings(&parts, " | ")
}

/// Appends a text table to `lines`: the header, a rule, and the rows, each
/// column as wide as its widest cell.
pub fn append_table(lines: &mut Vec<String>, headers: &Vec<String>, rows: &Vec<Vec<String>>)
    requires
        forall|r: int| 0 <= r < rows.len() ==> (#[trigger] rows@[r]).len() <= headers.len(),
    ensures
        strings_view(final(lines)@) == strings_view(old(lines)@) + table_lines(strings_view(headers@), rows_view(rows@)),
{
    let ghost hv = strings_view(headers@);
    let ghost rv = rows_view(rows@);
    let mut widths: Vec<usize> = Vec::new();
    let mut i: usize = 0;
    while i < headers.len()
        invariant
            i <= headers.len(),
            hv == strings_view(headers@),
            widths.len() == i,
            forall|k: int| 0 <= k < i ==> #[trigger] widths@[k] == column_width(hv, rv.take(0), k),
        decreases headers.len() - i,
    {
        widths.push(chars_of(headers[i].as_str()).len());
        proof {
            assert(rv.take(0).len() == 0);
        }
        i = i + 1;
    }
    let mut r: usize = 0;
    while r < rows.len()
        invariant
            r <= rows.len(),
            hv == strings_view(headers@),
            rv == rows_view(rows@),
            widths.len() == headers.len(),
            forall|k: int| 0 <= k < widths.len() ==> #[trigger] widths@[k] == column_width(hv, rv.take(r as int), k),
        decreases rows.len() - r,
    {
        let row = &rows[r];
        let ghost pre = rv.take(r as int);
        let ghost post = rv.take(r + 1);
        proof {
            assert(post.drop_last() =~= pre);
            assert(post.last() == strings_view(row@));
        }
        let mut j: usize = 0;
        while j < row.len()
            invariant
                j <= row.len(),
                widths.len() == headers.len(),
                post.len() > 0,
                post.drop_last() == pre,
                post.last() == strings_view(row@),
                forall|k: int| 0 <= k < widths.len() ==> #[trigger] widths@[k] == if k < j {
                    column_width(hv, post, k)
                } else {
                    column_width(hv, pre, k)
                },
            decreases row.len() - j,
        {
            if j < widths.len() {
                let len = chars_of(row[j].as_str()).len();
                if len > widths[j] {
                    widths.set(j, len);
                }
            }
            j = j + 1;
        }
        proof {
            assert forall|k: int| 0 <= k < widths.len() implies #[trigger] widths@[k] == column_width(hv, post, k) by {
                if k >= row.len() {
                    assert(column_width(hv, post, k) == column_width(hv, pre, k));
                }
            }
        }
        r = r + 1;
    }
    proof {
        assert(rv.take(rows.len() as int) =~= rv);
    }
    let ghost wv = widths@.map_values(|w: usize| w as nat);
    assert(wv =~= column_widths(hv, rv));
    let header_line = format_table_row(headers, &widths);
    let mut l0 = String::from_str("|  ");
    l0.append(header_line.as_str());
    lines.push(l0);
    let mut rules: Vec<String> = Vec::new();
    let mut k: usize = 0;
    while k < widths.len()
        invariant
            k <= widths.len(),
            wv == widths@.map_values(|w: usize| w as nat),
            strings_view(rules@) == Seq::new(k as nat, |q: int| repeated('-', wv[q])),
        decreases widths.len() - k,
    {
        let mut rule = String::new();
        push_repeated(&mut rule, '-', widths[k]);
        let ghost old_rules = rules@;
        let ghost rule_v = rule@;
        rules.push(rule);
        proof {
            assert(strings_view(rules@) =~= strings_view(old_rules).push(rule_v));
            assert(strings_view(rules@) =~= Seq::new((k + 1) as nat, |q: int| repeated('-', wv[q])));
        }
        k = k + 1;
    }
    let rule_line = join_strings(&rules, "-+-");
    let mut l1 = String::from_str("|  ");
    l1.append(rule_line.as_str());
    lines.push(l1);
    let ghost start = strings_view(old(lines)@);
    let mut r: usize = 0;
    while r < rows.len()
        invariant
            r <= rows.len(),
            hv == strings_view(headers@),
            rv == rows_view(rows@),
            wv == widths@.map_values(|w: usize| w as nat),
            widths.len() == headers.len(),
            forall|q: int| 0 <= q < rows.len() ==> (#[trigger] rows@[q]).len() <= headers.len(),
            strings_view(lines@) == start + seq![
                "|  "@ + table_row_text(hv, wv),
                "|  "@ + join(Seq::new(wv.len(), |q: int| repeated('-', wv[q])), "-+-"@),
            ] + Seq::new(r as nat, |q: int| "|  "@ + table_row_text(rv[q], wv)),
        decreases rows.len() - r,
    {
        let text = format_table_row(&rows[r], &widths);
        let mut line = String::from_str("|  ");
        line.append(text.as_str());
        let ghost old_lines = lines@;
        let ghost lv = line@;
        lines.push(line);
        proof {
            assert(rv[r as int] == strings_view(rows@[r as int]@));
            assert(strings_view(lines@) =~= strings_view(old_lines).push(lv));
        }
        r = r + 1;
    }
}

} // verus!
