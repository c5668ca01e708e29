use vstd::prelude::*;

use crate::layout::{append_table, rows_view, table_lines};
use crate::meta::{
    build_column_summaries, compressions, encodings_in, file_details, gathered, null_total, opt_text, pandas_columns,
    pandas_lookup, table_details,
    size_total, summary_dtype, wrap64, ChunkInfo, ColumnMeta, ColumnSummary, FileMetadata, KeyValueEntry,
    PandasColumnMeta, RowGroupInfo,
};
use crate::names::{insert_name, join_set, lemma_is_sorted_listing, names_text, sorted_listing, strictly_sorted};
use crate::size::{byte_count_label, fmt_byte_count};
use crate::text::{decimal, decimal_chars, join, join_strings, signed_decimal, signed_decimal_chars, string_of, strings_view};

verus! {

/// What the metadata dialog shows of the file as a whole.
pub struct FileSummary {
    pub path: String,
    pub size: String,
    pub parquet_version: String,
    pub created_by: String,
    pub total_rows: String,
    pub column_count: String,
    pub row_group_count: String,
}

/// What the metadata dialog shows of one column.
pub struct MetaColumnRow {
    pub name: String,
    pub dtype: String,
    pub compression: String,
    pub encodings: String,
    pub uncompressed_size: String,
    pub compressed_size: String,
    pub null_count: String,
}

/// The metadata dialog's summary of a file.
pub struct MetaSummary {
    pub file: FileSummary,
    pub columns: Vec<MetaColumnRow>,
}

/// The file's facts as shown: path, size, format version, writer, rows,
/// leaf columns and row groups.
pub open spec fn file_cells(path: Seq<char>, file_size: u64, meta: FileMetadata) -> Seq<Seq<char>> {
    seq![
        path,
        byte_count_label(file_size as int),
        signed_decimal(meta.version as int),
        match meta.created_by {
            Some(s) => s@,
            None => "unknown"@,
        },
        signed_decimal(meta.num_rows as int),
        decimal(meta.num_columns as nat),
        decimal(meta.row_groups.len() as nat),
    ]
}

/// Column `c`'s facts as shown: name, type, codecs, encodings, uncompressed
/// and compressed size, null count.
pub open spec fn column_cells(
    meta: FileMetadata,
    columns: Seq<ColumnMeta>,
    details: spec_fn(Seq<char>) -> Option<(Option<Seq<char>>, Option<Seq<char>>)>,
    c: int,
) -> Seq<Seq<char>> {
    let rgs = meta.row_groups@;
    seq![
        columns[c].name@,
        summary_dtype(columns[c].dtype@, details(columns[c].name@)),
        names_text(sorted_listing(compressions(rgs, c))),
        names_text(sorted_listing(encodings_in(rgs, c))),
        byte_count_label(wrap64(size_total(rgs, c, true)) as int),
        byte_count_label(wrap64(size_total(rgs, c, false)) as int),
        match null_total(rgs, c) {
            Some(t) => decimal(wrap64(t) as nat),
            None => "unknown"@,
        },
    ]
}

/// The rows of the column table.
pub open spec fn column_table(meta: FileMetadata, columns: Seq<ColumnMeta>, details: spec_fn(Seq<char>) -> Option<(Option<Seq<char>>, Option<Seq<char>>)>) -> Seq<Seq<Seq<char>>> {
    Seq::new(columns.len(), |c: int| column_cells(meta, columns, details, c))
}

fn decimal_string(n: u128) -> (s: String)
    ensures
        s@ == decimal(n as nat),
{
    string_of(&decimal_chars(n))
}

fn signed_string(v: i128) -> (s: String)
    ensures
        s@ == signed_decimal(v as int),
{
    string_of(&signed_decimal_chars(v))
}

/// The file's facts as shown, in the order of `file_cells`.
fn file_facts(path: &str, file_size: u64, meta: &FileMetadata) -> (out: Vec<String>)
    ensures
        strings_view(out@) == file_cells(path@, file_size, *meta),
{
    let mut out: Vec<String> = Vec::new();
    out.push(String::from_str(path));
    out.push(fmt_byte_count(file_size as i128));
    out.push(signed_string(meta.version as i128));
    out.push(
        match &meta.created_by {
            Some(s) => s.clone(),
            None => String::from_str("unknown"),
        },
    );
    out.push(signed_string(meta.num_rows as i128));
    out.push(decimal_string(meta.num_columns as u128));
    out.push(decimal_string(meta.row_groups.len() as u128));
    assert(strings_view(out@) =~= file_cells(path@, file_size, *meta));
    out
}

/// A column summary's facts as shown.
fn summary_cells(
    s: &ColumnSummary,
    Ghost(meta): Ghost<FileMetadata>,
    Ghost(columns): Ghost<Seq<ColumnMeta>>,
    Ghost(details): Ghost<spec_fn(Seq<char>) -> Option<(Option<Seq<char>>, Option<Seq<char>>)>>,
    Ghost(c): Ghost<int>,
) -> (out: Vec<String>)
    requires
        0 <= c < columns.len(),
        s.name@ == columns[c].name@,
        s.dtype@ == summary_dtype(columns[c].dtype@, details(columns[c].name@)),
        gathered(*s, meta.row_groups@, c),
    ensures
        strings_view(out@) == column_cells(meta, columns, details, c),
{
    proof {
        lemma_is_sorted_listing(strings_view(s.compression@), compressions(meta.row_groups@, c));
        lemma_is_sorted_listing(strings_view(s.encodings@), encodings_in(meta.row_groups@, c));
    }
    let mut out: Vec<String> = Vec::new();
    out.push(s.name.clone());
    out.push(s.dtype.clone());
    out.push(join_set(&s.compression));
    out.push(join_set(&s.encodings));
    out.push(fmt_byte_count(s.uncompressed_size as i128));
    out.push(fmt_byte_count(s.compressed_size as i128));
    out.push(
        match s.null_count {
            Some(n) => decimal_string(n as u128),
            None => String::from_str("unknown"),
        },
    );
    assert(strings_view(out@) =~= column_cells(meta, columns, details, c));
    out
}

/// The facts of every column, in the order of `column_table`.
fn column_facts(meta: &FileMetadata, columns: &Vec<ColumnMeta>, pandas: &Vec<(String, PandasColumnMeta)>) -> (rows: Vec<Vec<String>>)
    ensures
        rows_view(rows@) == column_table(*meta, columns@, table_details(pandas@)),
        forall|r: int| 0 <= r < rows.len() ==> (#[trigger] rows@[r]).len() == 7,
{
    let summaries = build_column_summaries(meta, columns, pandas);
    let mut rows: Vec<Vec<String>> = Vec::new();
    let mut c: usize = 0;
    while c < summaries.len()
        invariant
            c <= summaries.len(),
            summaries.len() == columns.len(),
            forall|q: int|
                0 <= q < summaries.len() ==> (#[trigger] summaries@[q]).name@ == columns@[q].name@
                    && summaries@[q].dtype@ == summary_dtype(columns@[q].dtype@, pandas_lookup(pandas@, columns@[q].name@))
                    && gathered(summaries@[q], meta.row_groups@, q),
            rows_view(rows@) == Seq::new(c as nat, |q: int| column_cells(*meta, columns@, table_details(pandas@), q)),
            forall|r: int| 0 <= r < rows.len() ==> (#[trigger] rows@[r]).len() == 7,
        decreases summaries.len() - c,
    {
        let cells = summary_cells(&summaries[c], Ghost(*meta), Ghost(columns@), Ghost(table_details(pandas@)), Ghost(c as int));
        let ghost old_rows = rows@;
        proof {
            assert(strings_view(cells@).len() == 7);
        }
        rows.push(cells);
        proof {
            assert(rows_view(rows@) =~= rows_view(old_rows).push(column_cells(*meta, columns@, table_details(pandas@), c as int)));
            assert(rows_view(rows@) =~= Seq::new((c + 1) as nat, |q: int| column_cells(*meta, columns@, table_details(pandas@), q)));
        }
        c = c + 1;
    }
    rows
}

/// The file summary shows the file's facts.
pub open spec fn file_summary_shows(f: FileSummary, cells: Seq<Seq<char>>) -> bool {
    &&& f.path@ == cells[0]
    &&& f.size@ == cells[1]
    &&& f.parquet_version@ == cells[2]
    &&& f.created_by@ == cells[3]
    &&& f.total_rows@ == cells[4]
    &&& f.column_count@ == cells[5]
    &&& f.row_group_count@ == cells[6]
}

/// A column row shows a column's facts.
pub open spec fn column_row_shows(r: MetaColumnRow, cells: Seq<Seq<char>>) -> bool {
    &&& r.name@ == cells[0]
    &&& r.dtype@ == cells[1]
    &&& r.compression@ == cells[2]
    &&& r.encodings@ == cells[3]
    &&& r.uncompressed_size@ == cells[4]
    &&& r.compressed_size@ == cells[5]
    &&& r.null_count@ == cells[6]
}

/// The metadata dialog's summary: the file's facts, and one row of facts
/// per column of the table, with the pandas details given as a lookup
/// table.
pub fn meta_summary_with_pandas(
    path: &str,
    file_size: u64,
    meta: &FileMetadata,
    columns: &Vec<ColumnMeta>,
    pandas: &Vec<(String, PandasColumnMeta)>,
) -> (m: MetaSummary)
    ensures
        file_summary_shows(m.file, file_cells(path@, file_size, *meta)),
        m.columns.len() == columns.len(),
        forall|c: int| 0 <= c < m.columns.len() ==> column_row_shows(#[trigger] m.columns@[c], column_cells(*meta, columns@, table_details(pandas@), c)),
{
    let facts = file_facts(path, file_size, meta);
    proof {
        let fv = strings_view(facts@);
        assert(fv.len() == 7);
        assert(forall|k: int| 0 <= k < 7 ==> #[trigger] fv[k] == facts@[k]@);
    }
    let file = FileSummary {
        path: facts[0].clone(),
        size: facts[1].clone(),
        parquet_version: facts[2].clone(),
        created_by: facts[3].clone(),
        total_rows: facts[4].clone(),
        column_count: facts[5].clone(),
        row_group_count: facts[6].clone(),
    };
    let rows = column_facts(meta, columns, pandas);
    proof {
        assert(rows_view(rows@).len() == rows@.len());
        assert(column_table(*meta, columns@, table_details(pandas@)).len() == columns@.len());
    }
    let mut out: Vec<MetaColumnRow> = Vec::new();
    let mut c: usize = 0;
    while c < rows.len()
        invariant
            c <= rows.len(),
            rows.len() == columns.len(),
            rows_view(rows@) == column_table(*meta, columns@, table_details(pandas@)),
            forall|r: int| 0 <= r < rows.len() ==> (#[trigger] rows@[r]).len() == 7,
            out.len() == c,
            forall|q: int| 0 <= q < c ==> column_row_shows(#[trigger] out@[q], column_cells(*meta, columns@, table_details(pandas@), q)),
        decreases rows.len() - c,
    {
        let cells = &rows[c];
        proof {
            assert(rows_view(rows@)[c as int] == strings_view(cells@));
            assert(column_table(*meta, columns@, table_details(pandas@))[c as int] == column_cells(*meta, columns@, table_details(pandas@), c as int));
            let cv = strings_view(cells@);
            assert(forall|k: int| 0 <= k < 7 ==> #[trigger] cv[k] == cells@[k]@);
        }
        let row = MetaColumnRow {
            name: cells[0].clone(),
            dtype: cells[1].clone(),
            compression: cells[2].clone(),
            encodings: cells[3].clone(),
            uncompressed_size: cells[4].clone(),
            compressed_size: cells[5].clone(),
            null_count: cells[6].clone(),
        };
        out.push(row);
        c = c + 1;
    }
    MetaSummary { file, columns: out }
}

// ---------------------------------------------------------------------------
// The full metadata text
// ---------------------------------------------------------------------------

/// The headers of the column table.
pub open spec fn meta_headers() -> Seq<Seq<char>> {
    seq!["Column"@, "Data type"@, "Compression"@, "Encodings"@, "Uncompressed"@, "Compressed"@, "Null count"@]
}

/// The summary section's lines before its column table.
pub open spec fn summary_head(fc: Seq<Seq<char>>) -> Seq<Seq<char>> {
    seq![
        "[Section 1: Summary]"@,
        "+- File info"@,
        "|  +- Path: "@ + fc[0],
        "|  +- Size: "@ + fc[1],
        "|  +- Parquet version: "@ + fc[2],
        "|  +- Created by: "@ + fc[3],
        "|  +- Total rows: "@ + fc[4],
        "|  +- Columns: "@ + fc[5],
        "|  +- Row groups: "@ + fc[6],
        "+- Column details"@,
    ]
}

/// The full listing's lines on the file.
pub open spec fn file_block(fc: Seq<Seq<char>>) -> Seq<Seq<char>> {
    seq![
        "Parquet metadata"@,
        "+- File"@,
        "|  +- Path: "@ + fc[0],
        "|  +- Size: "@ + fc[1],
        "|  +- Parquet format version: "@ + fc[2],
        "|  +- Created by: "@ + fc[3],
        "|  +- Rows (file metadata): "@ + fc[4],
        "|  +- Columns (schema leaf): "@ + fc[5],
        "|  +- Row groups: "@ + fc[6],
    ]
}

/// One line per column: its index, name and type.
pub open spec fn column_list_lines(columns: Seq<ColumnMeta>) -> Seq<Seq<char>>
    decreases columns.len(),
{
    if columns.len() == 0 {
        Seq::empty()
    } else {
        column_list_lines(columns.drop_last()) + seq![
            "|  +- ["@ + decimal((columns.len() - 1) as nat) + "] "@ + columns.last().name@ + ": "@
                + columns.last().dtype@,
        ]
    }
}

/// The key-value entries, or none.
pub open spec fn kv_items(kv: Option<Vec<KeyValueEntry>>) -> Seq<KeyValueEntry> {
    match kv {
        Some(v) => v@,
        None => Seq::empty(),
    }
}

/// Two lines per key-value entry: its key, then its value or `<null>`.
pub open spec fn key_value_lines(items: Seq<KeyValueEntry>) -> Seq<Seq<char>>
    decreases items.len(),
{
    if items.len() == 0 {
        Seq::empty()
    } else {
        key_value_lines(items.drop_last()) + seq![
            "|  +- "@ + items.last().key@,
            match items.last().value {
                Some(v) => "|  |  +- Value: "@ + v@,
                None => "|  |  +- Value: <null>"@,
            },
        ]
    }
}

/// The compression names of a row group's chunks.
pub open spec fn chunk_codecs(chunks: Seq<ChunkInfo>) -> Set<Seq<char>>
    decreases chunks.len(),
{
    if chunks.len() == 0 {
        Set::empty()
    } else {
        chunk_codecs(chunks.drop_last()).insert(chunks.last().compression@)
    }
}

/// A row group's codecs, sorted and separated by commas, or `none`.
pub open spec fn codecs_text(chunks: Seq<ChunkInfo>) -> Seq<char> {
    let v = sorted_listing(chunk_codecs(chunks));
    if v.len() == 0 {
        "none"@
    } else {
        join(v, ", "@)
    }
}

/// One line per column chunk of a row group.
pub open spec fn chunk_lines(chunks: Seq<ChunkInfo>) -> Seq<Seq<char>>
    decreases chunks.len(),
{
    if chunks.len() == 0 {
        Seq::empty()
    } else {
        let ch = chunks.last();
        chunk_lines(chunks.drop_last()) + seq![
            "      |  +- ["@ + decimal((chunks.len() - 1) as nat) + "] path="@ + ch.path@ + ", compression="@
                + ch.compression@ + ", values="@ + signed_decimal(ch.num_values as int) + ", compressed="@
                + byte_count_label(ch.compressed_size as int) + ", uncompressed="@ + byte_count_label(
                ch.uncompressed_size as int,
            ),
        ]
    }
}

/// The lines on row group `index`.
pub open spec fn row_group_lines(index: int, g: RowGroupInfo) -> Seq<Seq<char>> {
    seq![
        "   +- RG #"@ + decimal(index as nat),
        "      +- Rows: "@ + signed_decimal(g.num_rows as int),
        "      +- Compressed size: "@ + byte_count_label(g.compressed_size as int),
        "      +- Uncompressed size: "@ + byte_count_label(g.total_byte_size as int),
        "      +- Codecs: "@ + codecs_text(g.columns@),
        "      +- Column chunks ("@ + decimal(g.columns.len() as nat) + ")"@,
    ] + chunk_lines(g.columns@)
}

/// The lines on all row groups.
pub open spec fn all_row_group_lines(rgs: Seq<RowGroupInfo>) -> Seq<Seq<char>>
    decreases rgs.len(),
{
    if rgs.len() == 0 {
        Seq::empty()
    } else {
        all_row_group_lines(rgs.drop_last()) + row_group_lines(rgs.len() - 1, rgs.last())
    }
}

proof fn lemma_row_group_lines_prefix(rgs: Seq<RowGroupInfo>, k: int)
    requires
        0 <= k <= rgs.len(),
    ensures
        all_row_group_lines(rgs.take(k)).is_prefix_of(all_row_group_lines(rgs)),
    decreases rgs.len(),
{
    if k < rgs.len() {
        assert(rgs.drop_last().take(k) =~= rgs.take(k));
        lemma_row_group_lines_prefix(rgs.drop_last(), k);
    } else {
        assert(rgs.take(k) =~= rgs);
    }
}

/// In the listing of the row groups, the listing of group `k` begins, after
/// those of the groups before it, with the line `   +- RG #k`: each group
/// is headed by its own position.
pub proof fn law_row_groups_numbered(rgs: Seq<RowGroupInfo>)
    ensures
        forall|k: int|
            0 <= k < rgs.len() ==> all_row_group_lines(#[trigger] rgs.take(k)).is_prefix_of(all_row_group_lines(rgs))
                && all_row_group_lines(rgs.take(k)).len() < all_row_group_lines(rgs).len() && all_row_group_lines(
                rgs,
            )[all_row_group_lines(rgs.take(k)).len() as int] == "   +- RG #"@ + decimal(k as nat),
{
    assert forall|k: int| 0 <= k < rgs.len() implies all_row_group_lines(#[trigger] rgs.take(k)).is_prefix_of(
        all_row_group_lines(rgs),
    ) && all_row_group_lines(rgs.take(k)).len() < all_row_group_lines(rgs).len() && all_row_group_lines(
        rgs,
    )[all_row_group_lines(rgs.take(k)).len() as int] == "   +- RG #"@ + decimal(k as nat) by {
        let t = rgs.take(k + 1);
        assert(t.drop_last() =~= rgs.take(k));
        assert(t.last() == rgs[k]);
        lemma_row_group_lines_prefix(rgs, k + 1);
        lemma_row_group_lines_prefix(rgs, k);
        let before = all_row_group_lines(rgs.take(k));
        let next = all_row_group_lines(t);
        assert(next == before + row_group_lines(k, rgs[k]));
        assert(next[before.len() as int] == "   +- RG #"@ + decimal(k as nat));
    }
}

/// The lines of the metadata text: a summary with the column table, then a
/// full listing of the file's facts, columns, key-value entries and row
/// groups with their chunks.
pub open spec fn metadata_lines(
    path: Seq<char>,
    file_size: u64,
    meta: FileMetadata,
    columns: Seq<ColumnMeta>,
    details: spec_fn(Seq<char>) -> Option<(Option<Seq<char>>, Option<Seq<char>>)>,
) -> Seq<Seq<char>> {
    let fc = file_cells(path, file_size, meta);
    let items = kv_items(meta.key_values);
    let rgs = meta.row_groups@;
    summary_head(fc) + table_lines(meta_headers(), column_table(meta, columns, details)) + seq![Seq::empty()]
        + file_block(fc) + seq!["+- Columns ("@ + decimal(columns.len()) + ")"@] + column_list_lines(columns)
        + seq!["+- Key-value metadata ("@ + decimal(items.len()) + ")"@] + key_value_lines(items) + seq![
        "+- Row groups ("@ + decimal(rgs.len()) + ")"@,
    ] + all_row_group_lines(rgs)
}

fn push_line(lines: &mut Vec<String>, s: String)
    ensures
        strings_view(final(lines)@) == strings_view(old(lines)@).push(s@),
{
    let ghost v = s@;
    lines.push(s);
    assert(strings_view(lines@) =~= strings_view(old(lines)@).push(v));
}

/// `prefix` followed by `value`.
fn cat(prefix: &str, value: &str) -> (s: String)
    ensures
        s@ == prefix@ + value@,
{
    let mut s = String::from_str(prefix);
    s.append(value);
    s
}

/// `a`, `b` and `c` in turn.
fn cat3(a: &str, b: &str, c: &str) -> (s: String)
    ensures
        s@ == a@ + b@ + c@,
{
    let mut s = String::from_str(a);
    s.append(b);
    s.append(c);
    s
}

fn append_lines_summary_head(lines: &mut Vec<String>, fc: &Vec<String>)
    requires
        fc.len() == 7,
    ensures
        strings_view(final(lines)@) == strings_view(old(lines)@) + summary_head(strings_view(fc@)),
{
    let ghost start = strings_view(lines@);
    push_line(lines, String::from_str("[Section 1: Summary]"));
    push_line(lines, String::from_str("+- File info"));
    push_line(lines, cat("|  +- Path: ", fc[0].as_str()));
    push_line(lines, cat("|  +- Size: ", fc[1].as_str()));
    push_line(lines, cat("|  +- Parquet version: ", fc[2].as_str()));
    push_line(lines, cat("|  +- Created by: ", fc[3].as_str()));
    push_line(lines, cat("|  +- Total rows: ", fc[4].as_str()));
    push_line(lines, cat("|  +- Columns: ", fc[5].as_str()));
    push_line(lines, cat("|  +- Row groups: ", fc[6].as_str()));
    push_line(lines, String::from_str("+- Column details"));
    assert(strings_view(lines@) =~= start + summary_head(strings_view(fc@)));
}

fn append_lines_file_block(lines: &mut Vec<String>, fc: &Vec<String>)
    requires
        fc.len() == 7,
    ensures
        strings_view(final(lines)@) == strings_view(old(lines)@) + file_block(strings_view(fc@)),
{
    let ghost start = strings_view(lines@);
    push_line(lines, String::from_str("Parquet metadata"));
    push_line(lines, String::from_str("+- File"));
    push_line(lines, cat("|  +- Path: ", fc[0].as_str()));
    push_line(lines, cat("|  +- Size: ", fc[1].as_str()));
    push_line(lines, cat("|  +- Parquet format version: ", fc[2].as_str()));
    push_line(lines, cat("|  +- Created by: ", fc[3].as_str()));
    push_line(lines, cat("|  +- Rows (file metadata): ", fc[4].as_str()));
    push_line(lines, cat("|  +- Columns (schema leaf): ", fc[5].as_str()));
    push_line(lines, cat("|  +- Row groups: ", fc[6].as_str()));
    assert(strings_view(lines@) =~= start + file_block(strings_view(fc@)));
}

fn append_lines_columns(lines: &mut Vec<String>, columns: &Vec<ColumnMeta>)
    ensures
        strings_view(final(lines)@) == strings_view(old(lines)@) + seq![
            "+- Columns ("@ + decimal(columns.len() as nat) + ")"@,
        ] + column_list_lines(columns@),
{
    let ghost start = strings_view(lines@);
    let n = decimal_string(columns.len() as u128);
    push_line(lines, cat3("+- Columns (", n.as_str(), ")"));
    let ghost head = strings_view(lines@);
    let mut i: usize = 0;
    while i < columns.len()
        invariant
            i <= columns.len(),
            strings_view(lines@) == head + column_list_lines(columns@.take(i as int)),
        decreases columns.len() - i,
    {
        let idx = decimal_string(i as u128);
        let mut line = cat3("|  +- [", idx.as_str(), "] ");
        line.append(columns[i].name.as_str());
        line.append(": ");
        line.append(columns[i].dtype.as_str());
        push_line(lines, line);
        proof {
            let t = columns@.take(i + 1);
            assert(t.drop_last() =~= columns@.take(i as int));
            assert(t.last() == columns@[i as int]);
        }
        i = i + 1;
    }
    proof {
        assert(columns@.take(columns@.len() as int) =~= columns@);
        assert(columns@.take(0) =~= Seq::<ColumnMeta>::empty());
    }
}

fn append_lines_key_values(lines: &mut Vec<String>, kv: &Option<Vec<KeyValueEntry>>)
    ensures
        strings_view(final(lines)@) == strings_view(old(lines)@) + seq![
            "+- Key-value metadata ("@ + decimal(kv_items(*kv).len()) + ")"@,
        ] + key_value_lines(kv_items(*kv)),
{
    let count: usize = match kv {
        Some(v) => v.len(),
        None => 0,
    };
    let n = decimal_string(count as u128);
    push_line(lines, cat3("+- Key-value metadata (", n.as_str(), ")"));
    match kv {
        None => {
            assert(key_value_lines(kv_items(*kv)) =~= Seq::<Seq<char>>::empty());
        },
        Some(items) => {
            let ghost head = strings_view(lines@);
            let mut i: usize = 0;
            while i < items.len()
                invariant
                    i <= items.len(),
                    strings_view(lines@) == head + key_value_lines(items@.take(i as int)),
                decreases items.len() - i,
            {
                push_line(lines, cat("|  +- ", items[i].key.as_str()));
                match &items[i].value {
                    Some(v) => push_line(lines, cat("|  |  +- Value: ", v.as_str())),
                    None => push_line(lines, String::from_str("|  |  +- Value: <null>")),
                }
                proof {
                    let t = items@.take(i + 1);
                    assert(t.drop_last() =~= items@.take(i as int));
                    assert(t.last() == items@[i as int]);
                }
                i = i + 1;
            }
            proof {
                assert(items@.take(items@.len() as int) =~= items@);
                assert(items@.take(0) =~= Seq::<KeyValueEntry>::empty());
            }
        },
    }
}

/// A row group's codecs, sorted and separated by commas, or `none`.
fn codecs_string(chunks: &Vec<ChunkInfo>) -> (s: String)
    ensures
        s@ == codecs_text(chunks@),
{
    let mut names: Vec<String> = Vec::new();
    let mut k: usize = 0;
    while k < chunks.len()
        invariant
            k <= chunks.len(),
            strictly_sorted(strings_view(names@)),
            strings_view(names@).to_set() == chunk_codecs(chunks@.take(k as int)),
        decreases chunks.len() - k,
    {
        insert_name(&mut names, &chunks[k].compression);
        proof {
            let t = chunks@.take(k + 1);
            assert(t.drop_last() =~= chunks@.take(k as int));
            assert(t.last() == chunks@[k as int]);
        }
        k = k + 1;
    }
    proof {
        assert(chunks@.take(chunks@.len() as int) =~= chunks@);
        assert(chunks@.take(0) =~= Seq::<ChunkInfo>::empty());
        assert(strings_view(Seq::<String>::empty()).to_set() =~= Set::<Seq<char>>::empty());
        lemma_is_sorted_listing(strings_view(names@), chunk_codecs(chunks@));
    }
    if names.len() == 0 {
        String::from_str("none")
    } else {
        join_strings(&names, ", ")
    }
}

fn append_lines_row_group(lines: &mut Vec<String>, index: usize, g: &RowGroupInfo)
    ensures
        strings_view(final(lines)@) == strings_view(old(lines)@) + row_group_lines(index as int, *g),
{
    let ghost start = strings_view(lines@);
    let idx = decimal_string(index as u128);
    push_line(lines, cat("   +- RG #", idx.as_str()));
    let rows = signed_string(g.num_rows as i128);
    push_line(lines, cat("      +- Rows: ", rows.as_str()));
    let cs = fmt_byte_count(g.compressed_size as i128);
    push_line(lines, cat("      +- Compressed size: ", cs.as_str()));
    let us = fmt_byte_count(g.total_byte_size as i128);
    push_line(lines, cat("      +- Uncompressed size: ", us.as_str()));
    let codecs = codecs_string(&g.columns);
    push_line(lines, cat("      +- Codecs: ", codecs.as_str()));
    let n = decimal_string(g.columns.len() as u128);
    push_line(lines, cat3("      +- Column chunks (", n.as_str(), ")"));
    let ghost head = strings_view(lines@);
    let mut k: usize = 0;
    while k < g.columns.len()
        invariant
            k <= g.columns.len(),
            strings_view(lines@) == head + chunk_lines(g.columns@.take(k as int)),
        decreases g.columns.len() - k,
    {
        let ch = &g.columns[k];
        let kd = decimal_string(k as u128);
        let mut line = cat3("      |  +- [", kd.as_str(), "] path=");
        line.append(ch.path.as_str());
        line.append(", compression=");
        line.append(ch.compression.as_str());
        line.append(", values=");
        let nv = signed_string(ch.num_values as i128);
        line.append(nv.as_str());
        line.append(", compressed=");
        let c1 = fmt_byte_count(ch.compressed_size as i128);
        line.append(c1.as_str());
        line.append(", uncompressed=");
        let c2 = fmt_byte_count(ch.uncompressed_size as i128);
        line.append(c2.as_str());
        push_line(lines, line);
        proof {
            let t = g.columns@.take(k + 1);
            assert(t.drop_last() =~= g.columns@.take(k as int));
            assert(t.last() == g.columns@[k as int]);
        }
        k = k + 1;
    }
    proof {
        assert(g.columns@.take(g.columns@.len() as int) =~= g.columns@);
        assert(g.columns@.take(0) =~= Seq::<ChunkInfo>::empty());
        assert(strings_view(lines@) =~= start + row_group_lines(index as int, *g));
    }
}

fn append_lines_row_groups(lines: &mut Vec<String>, rgs: &Vec<RowGroupInfo>)
    ensures
        strings_view(final(lines)@) == strings_view(old(lines)@) + seq![
            "+- Row groups ("@ + decimal(rgs.len() as nat) + ")"@,
        ] + all_row_group_lines(rgs@),
{
    let n = decimal_string(rgs.len() as u128);
    push_line(lines, cat3("+- Row groups (", n.as_str(), ")"));
    let ghost head = strings_view(lines@);
    let mut g: usize = 0;
    while g < rgs.len()
        invariant
            g <= rgs.len(),
            strings_view(lines@) == head + all_row_group_lines(rgs@.take(g as int)),
        decreases rgs.len() - g,
    {
        append_lines_row_group(lines, g, &rgs[g]);
        proof {
            let t = rgs@.take(g + 1);
            assert(t.drop_last() =~= rgs@.take(g as int));
            assert(t.last() == rgs@[g as int]);
        }
        g = g + 1;
    }
    proof {
        assert(rgs@.take(rgs@.len() as int) =~= rgs@);
        assert(rgs@.take(0) =~= Seq::<RowGroupInfo>::empty());
    }
}

/// The metadata text: the lines of `metadata_lines` joined by newlines,
/// with the pandas details given as a lookup table.
pub fn metadata_text_with_pandas(
    path: &str,
    file_size: u64,
    meta: &FileMetadata,
    columns: &Vec<ColumnMeta>,
    pandas: &Vec<(String, PandasColumnMeta)>,
) -> (text: String)
    ensures
        text@ == join(metadata_lines(path@, file_size, *meta, columns@, table_details(pandas@)), "\n"@),
{
    let fc = file_facts(path, file_size, meta);
    proof {
        assert(strings_view(fc@).len() == fc@.len());
    }
    let mut lines: Vec<String> = Vec::new();
    append_lines_summary_head(&mut lines, &fc);
    let mut headers: Vec<String> = Vec::new();
    headers.push(String::from_str("Column"));
    headers.push(String::from_str("Data type"));
    headers.push(String::from_str("Compression"));
    headers.push(String::from_str("Encodings"));
    headers.push(String::from_str("Uncompressed"));
    headers.push(String::from_str("Compressed"));
    headers.push(String::from_str("Null count"));
    assert(strings_view(headers@) =~= meta_headers());
    let rows = column_facts(meta, columns, pandas);
    append_table(&mut lines, &headers, &rows);
    push_line(&mut lines, String::new());
    append_lines_file_block(&mut lines, &fc);
    append_lines_columns(&mut lines, columns);
    append_lines_key_values(&mut lines, &meta.key_values);
    append_lines_row_groups(&mut lines, &meta.row_groups);
    proof {
        assert(strings_view(lines@) =~= metadata_lines(path@, file_size, *meta, columns@, table_details(pandas@)));
    }
    join_strings(&lines, "\n")
}

/// The metadata dialog's summary of a file: the file's facts, and one row
/// of facts per column of the table, with the pandas details that the
/// file's own key-value metadata gives.
pub fn build_meta_summary(path: &str, file_size: u64, meta: &FileMetadata, columns: &Vec<ColumnMeta>) -> (m: MetaSummary)
    ensures
        file_summary_shows(m.file, file_cells(path@, file_size, *meta)),
        m.columns.len() == columns.len(),
        forall|c: int|
            0 <= c < m.columns.len() ==> column_row_shows(
                #[trigger] m.columns@[c],
                column_cells(*meta, columns@, file_details(meta.key_values), c),
            ),
{
    let pandas = pandas_columns(&meta.key_values);
    assert(table_details(pandas@) =~= file_details(meta.key_values));
    meta_summary_with_pandas(path, file_size, meta, columns, &pandas)
}

/// The metadata text of a file: the lines of `metadata_lines` joined by
/// newlines, with the pandas details that the file's own key-value
/// metadata gives.
pub fn build_metadata_text(path: &str, file_size: u64, meta: &FileMetadata, columns: &Vec<ColumnMeta>) -> (text: String)
    ensures
        text@ == join(metadata_lines(path@, file_size, *meta, columns@, file_details(meta.key_values)), "\n"@),
{
    let pandas = pandas_columns(&meta.key_values);
    assert(table_details(pandas@) =~= file_details(meta.key_values));
    metadata_text_with_pandas(path, file_size, meta, columns, &pandas)
}

} // verus!
