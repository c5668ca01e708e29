# parquet_viewer

A desktop viewer for Apache Parquet files: it opens a file (from the command
line, a dialog, a drop onto the window or the recent-files list), shows its
rows in a sortable, filterable table, and shows the file's metadata.

The logic is a library verified with Verus (`src/`):

- `table` — the table's row order and its stable sort by a column
  (numeric where both cells parse as numbers, else by text);
- `search`, `rows` — the rows listed for a search text and a row range, the
  parts of a cell that match the search, the typed row range;
- `recent` — the recent-files list and its stored form;
- `data`, `session` — a loaded file, the outcome of a load, and what the
  window holds from one frame to the next;
- `meta`, `report`, `layout`, `names`, `size` — the metadata summary and the
  metadata text;
- `dtype`, `datetime`, `text` — how types, cells, dates and timestamps are
  written.

`app/` is the program around it: the egui window, reading files with the
`parquet` and `arrow` crates, writing floating-point cells, and the
recent-files file on disk.
