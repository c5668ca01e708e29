use vstd::prelude::*;

use crate::data::{finish_load, LoadResult, ViewState};
use crate::recent::{pretty_json_of, push_and_save, recent_after, recent_from_text};
use crate::rows::{applied_range, max_row, RowRange};
use crate::text::{decimal, same_text, strings_view};

verus! {

/// What the viewer's window holds between frames: what it shows, the search
/// text, whether the metadata dialog is open, the colour scheme, the recent
/// files and the row range.
pub struct Session {
    pub state: ViewState,
    pub search: String,
    pub show_meta: bool,
    pub dark_mode: bool,
    pub recent_files: Vec<String>,
    pub range: RowRange,
}

/// The colour scheme from its stored setting: dark unless the setting is
/// `false`.
pub fn dark_mode_setting(stored: Option<String>) -> (dark: bool)
    ensures
        dark == match stored {
            Some(v) => v@ != "false"@,
            None => true,
        },
{
    match stored {
        Some(v) => !same_text(v.as_str(), "false"),
        None => true,
    }
}

impl Session {
    /// The window at start: nothing loaded, no search, the dialog closed and
    /// the row range at zero.
    pub fn new(dark_mode: bool, recent_files: Vec<String>) -> (s: Self)
        ensures
            s.state is Empty,
            s.search@ == Seq::<char>::empty(),
            !s.show_meta,
            s.dark_mode == dark_mode,
            s.recent_files == recent_files,
            s.range.from == 0,
            s.range.to == 0,
            s.range.from_input@ == "0"@,
            s.range.to_input@ == "0"@,
    {
        Session {
            state: ViewState::Empty,
            search: String::new(),
            show_meta: false,
            dark_mode,
            recent_files,
            range: RowRange::new(),
        }
    }

    /// Starts loading `path`: it goes to the front of the recent files, the
    /// window shows that it is loading, the search is cleared and the
    /// metadata dialog closed. Returns the recent files as JSON to be stored,
    /// where they serialise.
    pub fn begin_load(&mut self, path: &str) -> (saved: Option<String>)
        ensures
            strings_view(final(self).recent_files@) == recent_after(strings_view(old(self).recent_files@), path@),
            final(self).state is Loading,
            final(self).search@ == Seq::<char>::empty(),
            !final(self).show_meta,
            final(self).dark_mode == old(self).dark_mode,
            final(self).range == old(self).range,
            match saved {
                Some(t) => pretty_json_of(strings_view(final(self).recent_files@)) == Some(t@)
                    && recent_from_text(t@) == strings_view(final(self).recent_files@),
                None => pretty_json_of(strings_view(final(self).recent_files@)) == None::<Seq<char>>,
            },
    {
        let saved = push_and_save(&mut self.recent_files, path);
        self.state = ViewState::Loading;
        self.search = String::new();
        self.show_meta = false;
        saved
    }

    /// Takes in the outcome of a load: a loaded file is shown whole, in its
    /// natural order; a failure shows its message.
    pub fn end_load(&mut self, result: LoadResult)
        ensures
            match result {
                LoadResult::Loaded(data) => {
                    &&& final(self).state matches ViewState::Loaded(d, t) && d == data
                        && t.sort_col == None::<usize> && t.sort_asc && t.selected_row == None::<usize>
                        && t.row_order@ == Seq::new(data.row_count as nat, |i: int| i as usize)
                    &&& final(self).range.from == 0
                    &&& final(self).range.to == max_row(data.row_count)
                    &&& final(self).range.from_input@ == "0"@
                    &&& final(self).range.to_input@ == decimal(max_row(data.row_count) as nat)
                    &&& applied_range(final(self).range.from_input@, final(self).range.to_input@, final(self).range.from, final(self).range.to, data.row_count) == (final(self).range.from, final(self).range.to)
                },
                LoadResult::Failed(e) => {
                    &&& final(self).state matches ViewState::Error(m) && m == e
                    &&& final(self).range == old(self).range
                },
            },
            final(self).search == old(self).search,
            final(self).show_meta == old(self).show_meta,
            final(self).dark_mode == old(self).dark_mode,
            final(self).recent_files == old(self).recent_files,
    {
        self.state = finish_load(result, &mut self.range);
    }

    /// Clears the search and shows every row of a table of `row_count` rows.
    pub fn clear_filter(&mut self, row_count: usize)
        ensures
            final(self).search@ == Seq::<char>::empty(),
            final(self).range.from == 0,
            final(self).range.to == max_row(row_count),
            final(self).range.from_input@ == "0"@,
            final(self).range.to_input@ == decimal(max_row(row_count) as nat),
            applied_range(
                final(self).range.from_input@,
                final(self).range.to_input@,
                final(self).range.from,
                final(self).range.to,
                row_count,
            ) == (final(self).range.from, final(self).range.to),
            final(self).state == old(self).state,
            final(self).show_meta == old(self).show_meta,
            final(self).dark_mode == old(self).dark_mode,
            final(self).recent_files == old(self).recent_files,
    {
        self.search = String::new();
        self.range.reset_for_len(row_count);
    }

    /// The number of rows of the loaded table; `None` when no table is
    /// loaded.
    pub fn loaded_row_count(&self) -> (n: Option<usize>)
        ensures
            match self.state {
                ViewState::Loaded(d, _) => n == Some(d.row_count),
                _ => n is None,
            },
    {
        match &self.state {
            ViewState::Loaded(d, _) => Some(d.row_count),
            _ => None,
        }
    }
}

} // verus!
