use vstd::prelude::*;

use crate::meta::ColumnMeta;
use crate::report::MetaSummary;
use crate::rows::{applied_range, max_row, RowRange};
use crate::text::decimal;
use crate::table::TableState;
use crate::text::push_str;

verus! {

/// A loaded file: its columns, every row as display text, and its metadata.
pub struct ParquetData {
    pub columns: Vec<ColumnMeta>,
    pub rows: Vec<Vec<String>>,
    pub row_count: usize,
    pub col_count: usize,
    pub file_size: u64,
    pub file_path: String,
    pub meta_summary: MetaSummary,
    pub meta_text: String,
}

impl ParquetData {
    /// The counts agree with the rows and the columns held.
    pub open spec fn wf(&self) -> bool {
        &&& self.row_count == self.rows.len()
        &&& self.col_count == self.columns.len()
    }

    /// Gathers what loading a file produced.
    pub fn assemble(
        path: &str,
        file_size: u64,
        columns: Vec<ColumnMeta>,
        rows: Vec<Vec<String>>,
        meta_summary: MetaSummary,
        meta_text: String,
    ) -> (d: Self)
        ensures
            d.wf(),
            d.columns == columns,
            d.rows == rows,
            d.file_size == file_size,
            d.file_path@ == path@,
            d.meta_summary == meta_summary,
            d.meta_text == meta_text,
    {
        let row_count = rows.len();
        let col_count = columns.len();
        let mut file_path = String::new();
        push_str(&mut file_path, path);
        ParquetData { columns, rows, row_count, col_count, file_size, file_path, meta_summary, meta_text }
    }
}

/// What loading a file ends in.
pub enum LoadResult {
    Loaded(ParquetData),
    Failed(String),
}

/// The step of loading at which a file was refused.
#[derive(Clone, Copy, PartialEq, Eq, Structural)]
pub enum LoadFailure {
    Open,
    Read,
    Build,
    Batch,
}

/// The text that introduces the error of each step.
pub open spec fn failure_prefix(kind: LoadFailure) -> Seq<char> {
    match kind {
        LoadFailure::Open => "Cannot open file: "@,
        LoadFailure::Read => "Cannot read parquet: "@,
        LoadFailure::Build => "Cannot build reader: "@,
        LoadFailure::Batch => "Error reading batch: "@,
    }
}

/// The result of a load refused at step `kind` with the error text `detail`.
pub fn load_failure(kind: LoadFailure, detail: &str) -> (r: LoadResult)
    ensures
        r matches LoadResult::Failed(m) && m@ == failure_prefix(kind) + detail@,
{
    let mut m = String::new();
    match kind {
        LoadFailure::Open => push_str(&mut m, "Cannot open file: "),
        LoadFailure::Read => push_str(&mut m, "Cannot read parquet: "),
        LoadFailure::Build => push_str(&mut m, "Cannot build reader: "),
        LoadFailure::Batch => push_str(&mut m, "Error reading batch: "),
    }
    push_str(&mut m, detail);
    LoadResult::Failed(m)
}

/// Appends the first `n` rows of a batch given column by column:
/// `cells[c][r]` is the text of row `r` in column `c`. Each new row holds one
/// cell per column, in column order.
pub fn append_batch_rows(all_rows: &mut Vec<Vec<String>>, cells: &Vec<Vec<String>>, n: usize)
    requires
        forall|c: int| 0 <= c < cells.len() ==> n <= #[trigger] cells@[c].len(),
    ensures
        final(all_rows).len() == old(all_rows).len() + n,
        forall|r: int| 0 <= r < old(all_rows).len() ==> #[trigger] final(all_rows)@[r] == old(all_rows)@[r],
        forall|r: int| 0 <= r < n ==> (#[trigger] final(all_rows)@[old(all_rows).len() + r]).len() == cells.len(),
        forall|r: int, c: int| 0 <= r < n && 0 <= c < cells.len() ==>
            (#[trigger] final(all_rows)@[old(all_rows).len() + r]@[c])@ == cells@[c]@[r]@,
{
    let ghost start = all_rows@;
    let mut r: usize = 0;
    while r < n
        invariant
            r <= n,
            forall|c: int| 0 <= c < cells.len() ==> n <= #[trigger] cells@[c].len(),
            all_rows.len() == start.len() + r,
            forall|q: int| 0 <= q < start.len() ==> #[trigger] all_rows@[q] == start[q],
            forall|q: int| 0 <= q < r ==> (#[trigger] all_rows@[start.len() + q]).len() == cells.len(),
            forall|q: int, c: int| 0 <= q < r && 0 <= c < cells.len() ==>
                (#[trigger] all_rows@[start.len() + q]@[c])@ == cells@[c]@[q]@,
        decreases n - r,
    {
        let mut row: Vec<String> = Vec::new();
        let mut c: usize = 0;
        while c < cells.len()
            invariant
                c <= cells.len(),
                r < n,
                forall|k: int| 0 <= k < cells.len() ==> n <= #[trigger] cells@[k].len(),
                row.len() == c,
                forall|k: int| 0 <= k < c ==> (#[trigger] row@[k])@ == cells@[k]@[r as int]@,
            decreases cells.len() - c,
        {
            assert(n <= cells@[c as int].len());
            row.push(cells[c][r].clone());
            c = c + 1;
        }
        all_rows.push(row);
        r = r + 1;
    }
}

/// What the window shows.
pub enum ViewState {
    /// No file yet.
    Empty,
    /// A file is being read.
    Loading,
    /// A file was read; the table shows its rows.
    Loaded(ParquetData, TableState),
    /// Reading the file failed with this message.
    Error(String),
}

/// What the window shows once a load has finished, with the row range it
/// then shows: a loaded file shows all its rows in their natural order
/// (the range is reset to them); a failed load shows its message and leaves
/// the range as it was.
pub fn finish_load(result: LoadResult, range: &mut RowRange) -> (state: ViewState)
    ensures
        match result {
            LoadResult::Loaded(data) => {
                &&& state matches ViewState::Loaded(d, t) && d == data
                    && t.sort_col == None::<usize> && t.sort_asc && t.selected_row == None::<usize>
                    && t.row_order@ == Seq::new(data.row_count as nat, |i: int| i as usize)
                &&& final(range).from == 0
                &&& final(range).to == max_row(data.row_count)
                &&& final(range).from_input@ == "0"@
                &&& final(range).to_input@ == decimal(max_row(data.row_count) as nat)
                &&& applied_range(final(range).from_input@, final(range).to_input@, final(range).from, final(range).to, data.row_count) == (final(range).from, final(range).to)
            },
            LoadResult::Failed(e) => {
                &&& state matches ViewState::Error(m) && m == e
                &&& *final(range) == *old(range)
            },
        },
{
    match result {
        LoadResult::Loaded(data) => {
            range.reset_for_len(data.row_count);
            let ts = TableState::new(data.row_count);
            ViewState::Loaded(data, ts)
        },
        LoadResult::Failed(e) => ViewState::Error(e),
    }
}

} // verus!
