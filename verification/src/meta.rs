use vstd::prelude::*;

use crate::names::{insert_name, strictly_sorted};
use crate::text::{join, join_strings, same_text, strings_view};

verus! {

// ---------------------------------------------------------------------------
// What the viewer reads of a Parquet file's metadata
// ---------------------------------------------------------------------------

/// A column of the loaded table: its name and the short name of its type.
pub struct ColumnMeta {
    pub name: String,
    pub dtype: String,
}

/// One key-value entry of the file's metadata.
pub struct KeyValueEntry {
    pub key: String,
    pub value: Option<String>,
}

/// One column chunk of a row group.
pub struct ChunkInfo {
    /// The column's path, its parts joined by dots.
    pub path: String,
    /// The compression codec's name.
    pub compression: String,
    /// The names of the encodings used.
    pub encodings: Vec<String>,
    pub num_values: i64,
    pub compressed_size: i64,
    pub uncompressed_size: i64,
    /// The null count from the chunk's statistics, where they give one.
    pub null_count: Option<u64>,
}

/// One row group.
pub struct RowGroupInfo {
    pub num_rows: i64,
    pub compressed_size: i64,
    pub total_byte_size: i64,
    pub columns: Vec<ChunkInfo>,
}

/// A file's metadata.
pub struct FileMetadata {
    pub version: i32,
    pub created_by: Option<String>,
    pub num_rows: i64,
    /// The number of leaf columns in the schema.
    pub num_columns: usize,
    pub key_values: Option<Vec<KeyValueEntry>>,
    pub row_groups: Vec<RowGroupInfo>,
}

/// Type details that pandas recorded for a column.
pub struct PandasColumnMeta {
    pub pandas_type: Option<String>,
    pub numpy_type: Option<String>,
}

/// One entry of the `columns` list in pandas' JSON metadata: each field is
/// the entry's string member of that name, where it has one.
pub struct PandasColumnEntry {
    pub field_name: Option<String>,
    pub name: Option<String>,
    pub pandas_type: Option<String>,
    pub numpy_type: Option<String>,
}

pub open spec fn opt_text(o: Option<String>) -> Option<Seq<char>> {
    match o {
        Some(s) => Some(s@),
        None => None,
    }
}

// ---------------------------------------------------------------------------
// pandas metadata
// ---------------------------------------------------------------------------

/// The value of the first entry keyed `pandas`, if that entry has one.
pub open spec fn pandas_value(items: Seq<KeyValueEntry>) -> Option<Seq<char>>
    decreases items.len(),
{
    if items.len() == 0 {
        None
    } else if items[0].key@ == "pandas"@ {
        opt_text(items[0].value)
    } else {
        pandas_value(items.drop_first())
    }
}

/// The JSON text that pandas stored in the file's key-value metadata.
pub fn pandas_metadata(key_values: &Option<Vec<KeyValueEntry>>) -> (v: Option<String>)
    ensures
        opt_text(v) == match key_values {
            Some(items) => pandas_value(items@),
            None => None,
        },
{
    match key_values {
        None => None,
        Some(items) => pandas_value_in(items),
    }
}

fn pandas_value_in(items: &Vec<KeyValueEntry>) -> (v: Option<String>)
    ensures
        opt_text(v) == pandas_value(items@),
{
    let mut i: usize = 0;
    assert(items@.skip(0) =~= items@);
    while i < items.len()
        invariant
            i <= items.len(),
            pandas_value(items@) == pandas_value(items@.skip(i as int)),
        decreases items.len() - i,
    {
        proof {
            assert(items@.skip(i as int).drop_first() =~= items@.skip(i + 1));
        }
        assert(items@.skip(i as int)[0] == items@[i as int]);
        if same_text(items[i].key.as_str(), "pandas") {
            return clone_opt(&items[i].value);
        }
        i = i + 1;
    }
    assert(items@.skip(i as int) =~= Seq::<KeyValueEntry>::empty());
    None
}

// ---------------------------------------------------------------------------
// JSON values, and the `columns` list of pandas' metadata
// ---------------------------------------------------------------------------

/// A JSON value. An object lists its members with their names; a number is
/// held as the text that `serde_json` writes for it.
pub enum Json {
    Null,
    Bool(bool),
    Number(String),
    Str(String),
    Array(Vec<Json>),
    Object(Vec<(String, Json)>),
}

/// What `serde_json::from_str::<serde_json::Value>` reads from a text, as a
/// `Json`; `None` where the text is not JSON.
pub uninterp spec fn json_of(text: Seq<char>) -> Option<Json>;

#[verifier::external_type_specification]
#[verifier::external_body]
pub struct ExJsonValue(serde_json::Value);

/// `serde_json::from_str::<serde_json::Value>`, its value moved into a
/// `Json`. The result is named (`json_of`); nothing more is stated of the
/// JSON grammar.
#[verifier::external_body]
fn parse_json(text: &str) -> (r: Option<Json>)
    ensures
        r == json_of(text@),
{
    serde_json::from_str::<serde_json::Value>(text).ok().map(json_from_value)
}

/// Moves a `serde_json::Value` into a `Json`, variant by variant: a number
/// becomes the text `serde_json` writes for it, an object its members in
/// the order its map holds them. Only `parse_json` calls it, and that
/// wrapper's contract names what the two give together; nothing is stated
/// of this one alone.
#[verifier::external_body]
fn json_from_value(v: serde_json::Value) -> (j: Json) {
    match v {
        serde_json::Value::Null => Json::Null,
        serde_json::Value::Bool(b) => Json::Bool(b),
        serde_json::Value::Number(n) => Json::Number(n.to_string()),
        serde_json::Value::String(s) => Json::Str(s),
        serde_json::Value::Array(a) => Json::Array(a.into_iter().map(json_from_value).collect()),
        serde_json::Value::Object(m) => Json::Object(m.into_iter().map(|(k, x)| (k, json_from_value(x))).collect()),
    }
}

/// The value of the first member named `key`.
pub open spec fn field_lookup(fields: Seq<(String, Json)>, key: Seq<char>) -> Option<Json>
    decreases fields.len(),
{
    if fields.len() == 0 {
        None
    } else if fields[0].0@ == key {
        Some(fields[0].1)
    } else {
        field_lookup(fields.drop_first(), key)
    }
}

/// The member `key` of an object; `None` for other values
/// (`serde_json::Value::get`).
pub open spec fn json_member(v: Json, key: Seq<char>) -> Option<Json> {
    match v {
        Json::Object(fields) => field_lookup(fields@, key),
        _ => None,
    }
}

/// The member `key` of an object where it is a string.
pub open spec fn member_text(v: Json, key: Seq<char>) -> Option<Seq<char>> {
    match json_member(v, key) {
        Some(Json::Str(s)) => Some(s@),
        _ => None,
    }
}

/// The items of the `columns` array of pandas' JSON metadata; none where
/// the text is not JSON or holds no such array.
pub open spec fn pandas_column_items(text: Seq<char>) -> Seq<Json> {
    match json_of(text) {
        Some(root) => match json_member(root, "columns"@) {
            Some(Json::Array(items)) => items@,
            _ => Seq::empty(),
        },
        None => Seq::empty(),
    }
}

/// An entry reads an item of the `columns` array: each field is the item's
/// string member of that name.
pub open spec fn entry_reads(e: PandasColumnEntry, item: Json) -> bool {
    &&& opt_text(e.field_name) == member_text(item, "field_name"@)
    &&& opt_text(e.name) == member_text(item, "name"@)
    &&& opt_text(e.pandas_type) == member_text(item, "pandas_type"@)
    &&& opt_text(e.numpy_type) == member_text(item, "numpy_type"@)
}

/// The member `key` of `v`, where `v` is an object that has one.
fn member_of<'a>(v: &'a Json, key: &str) -> (r: Option<&'a Json>)
    ensures
        match r {
            Some(x) => json_member(*v, key@) == Some(*x),
            None => json_member(*v, key@) is None,
        },
{
    match v {
        Json::Object(fields) => {
            let mut i: usize = 0;
            assert(fields@.skip(0) =~= fields@);
            while i < fields.len()
                invariant
                    i <= fields.len(),
                    json_member(*v, key@) == field_lookup(fields@, key@),
                    field_lookup(fields@, key@) == field_lookup(fields@.skip(i as int), key@),
                decreases fields.len() - i,
            {
                proof {
                    assert(fields@.skip(i as int).drop_first() =~= fields@.skip(i + 1));
                    assert(fields@.skip(i as int)[0] == fields@[i as int]);
                }
                if same_text(fields[i].0.as_str(), key) {
                    return Some(&fields[i].1);
                }
                i = i + 1;
            }
            assert(fields@.skip(i as int) =~= Seq::<(String, Json)>::empty());
            None
        },
        _ => None,
    }
}

/// The member `key` of `v` where it is a string.
fn member_string(v: &Json, key: &str) -> (r: Option<String>)
    ensures
        opt_text(r) == member_text(*v, key@),
{
    match member_of(v, key) {
        Some(Json::Str(s)) => Some(s.clone()),
        _ => None,
    }
}

/// The entries of the `columns` array of pandas' JSON metadata, one per
/// item, in order; none where the text is not JSON or holds no such array.
pub fn pandas_entries(json: &str) -> (entries: Vec<PandasColumnEntry>)
    ensures
        entries.len() == pandas_column_items(json@).len(),
        forall|i: int| 0 <= i < entries.len() ==> entry_reads(#[trigger] entries@[i], pandas_column_items(json@)[i]),
{
    let mut entries: Vec<PandasColumnEntry> = Vec::new();
    let root = match parse_json(json) {
        Some(r) => r,
        None => return entries,
    };
    let items = match member_of(&root, "columns") {
        Some(Json::Array(items)) => items,
        _ => return entries,
    };
    assert(pandas_column_items(json@) == items@);
    let mut i: usize = 0;
    while i < items.len()
        invariant
            i <= items.len(),
            entries.len() == i,
            forall|k: int| 0 <= k < i ==> entry_reads(#[trigger] entries@[k], items@[k]),
        decreases items.len() - i,
    {
        let item = &items[i];
        let e = PandasColumnEntry {
            field_name: member_string(item, "field_name"),
            name: member_string(item, "name"),
            pandas_type: member_string(item, "pandas_type"),
            numpy_type: member_string(item, "numpy_type"),
        };
        entries.push(e);
        i = i + 1;
    }
    entries
}

/// The column name a pandas entry describes: its `field_name`, else its
/// `name`.
pub open spec fn entry_key(e: PandasColumnEntry) -> Option<Seq<char>> {
    match e.field_name {
        Some(f) => Some(f@),
        None => opt_text(e.name),
    }
}

/// The last pandas entry that describes column `name`.
pub open spec fn pandas_entry_for(entries: Seq<PandasColumnEntry>, name: Seq<char>) -> Option<PandasColumnEntry>
    decreases entries.len(),
{
    if entries.len() == 0 {
        None
    } else if entry_key(entries.last()) == Some(name) {
        Some(entries.last())
    } else {
        pandas_entry_for(entries.drop_last(), name)
    }
}

/// The pandas details a lookup table holds for `name`: those paired with the
/// first key equal to it.
pub open spec fn pandas_lookup(table: Seq<(String, PandasColumnMeta)>, name: Seq<char>) -> Option<(Option<Seq<char>>, Option<Seq<char>>)>
    decreases table.len(),
{
    if table.len() == 0 {
        None
    } else if table[0].0@ == name {
        Some((opt_text(table[0].1.pandas_type), opt_text(table[0].1.numpy_type)))
    } else {
        pandas_lookup(table.drop_first(), name)
    }
}

/// The details of a pandas entry.
pub open spec fn entry_details(e: Option<PandasColumnEntry>) -> Option<(Option<Seq<char>>, Option<Seq<char>>)> {
    match e {
        Some(x) => Some((opt_text(x.pandas_type), opt_text(x.numpy_type))),
        None => None,
    }
}

fn clone_opt(o: &Option<String>) -> (c: Option<String>)
    ensures
        opt_text(c) == opt_text(*o),
{
    match o {
        Some(s) => Some(s.clone()),
        None => None,
    }
}

/// The index of the entry keyed `name` in a lookup table.
fn find_key(table: &Vec<(String, PandasColumnMeta)>, name: &str) -> (k: Option<usize>)
    ensures
        match k {
            Some(i) => i < table.len() && table@[i as int].0@ == name@ && pandas_lookup(table@, name@) == Some(
                (opt_text(table@[i as int].1.pandas_type), opt_text(table@[i as int].1.numpy_type)),
            ),
            None => pandas_lookup(table@, name@) == None::<(Option<Seq<char>>, Option<Seq<char>>)>,
        },
        match k {
            Some(i) => forall|j: int| 0 <= j < i ==> (#[trigger] table@[j]).0@ != name@,
            None => forall|j: int| 0 <= j < table.len() ==> (#[trigger] table@[j]).0@ != name@,
        },
{
    let mut i: usize = 0;
    assert(table@.skip(0) =~= table@);
    while i < table.len()
        invariant
            i <= table.len(),
            pandas_lookup(table@, name@) == pandas_lookup(table@.skip(i as int), name@),
            forall|j: int| 0 <= j < i ==> (#[trigger] table@[j]).0@ != name@,
        decreases table.len() - i,
    {
        proof {
            assert(table@.skip(i as int).drop_first() =~= table@.skip(i + 1));
        }
        if same_text(table[i].0.as_str(), name) {
            return Some(i);
        }
        i = i + 1;
    }
    None
}

/// No two entries of a lookup table have the same key.
pub open spec fn keys_distinct(table: Seq<(String, PandasColumnMeta)>) -> bool {
    forall|j: int, k: int| 0 <= j < k < table.len() ==> (#[trigger] table[j]).0@ != (#[trigger] table[k]).0@
}

/// The pandas details for each column described in pandas' metadata, later
/// entries for a column replacing earlier ones; each column once.
pub fn extract_pandas_columns(entries: &Vec<PandasColumnEntry>) -> (table: Vec<(String, PandasColumnMeta)>)
    ensures
        forall|name: Seq<char>| #[trigger] pandas_lookup(table@, name) == entry_details(pandas_entry_for(entries@, name)),
        keys_distinct(table@),
{
    let mut table: Vec<(String, PandasColumnMeta)> = Vec::new();
    let mut i: usize = 0;
    while i < entries.len()
        invariant
            i <= entries.len(),
            forall|name: Seq<char>| #[trigger] pandas_lookup(table@, name) == entry_details(
                pandas_entry_for(entries@.take(i as int), name),
            ),
            keys_distinct(table@),
        decreases entries.len() - i,
    {
        let e = &entries[i];
        proof {
            assert(entries@.take(i + 1).drop_last() =~= entries@.take(i as int));
            assert(entries@.take(i + 1).last() == *e);
        }
        let key: Option<&String> = match &e.field_name {
            Some(f) => Some(f),
            None => match &e.name {
                Some(n) => Some(n),
                None => None,
            },
        };
        match key {
            None => {},
            Some(k) => {
                let details = PandasColumnMeta { pandas_type: clone_opt(&e.pandas_type), numpy_type: clone_opt(&e.numpy_type) };
                let ghost old_table = table@;
                match find_key(&table, k.as_str()) {
                    Some(at) => {
                        table.set(at, (k.clone(), details));
                        proof {
                            assert(keys_distinct(table@)) by {
                                assert forall|j: int, q: int| 0 <= j < q < table@.len() implies (#[trigger] table@[j]).0@
                                    != (#[trigger] table@[q]).0@ by {
                                    assert(old_table[j].0@ != old_table[q].0@);
                                    assert(old_table[at as int].0@ == k@);
                                }
                            }
                            assert forall|name: Seq<char>| #[trigger] pandas_lookup(table@, name) == pandas_lookup(
                                old_table,
                                name,
                            ) || name == k@ by {
                                lemma_lookup_set(old_table, at as int, table@[at as int], name);
                            }
                            lemma_lookup_set(old_table, at as int, table@[at as int], k@);
                        }
                    },
                    None => {
                        table.push((k.clone(), details));
                        proof {
                            assert(keys_distinct(table@)) by {
                                assert forall|j: int, q: int| 0 <= j < q < table@.len() implies (#[trigger] table@[j]).0@
                                    != (#[trigger] table@[q]).0@ by {
                                    if q < old_table.len() {
                                        assert(old_table[j].0@ != old_table[q].0@);
                                    } else {
                                        assert(old_table[j].0@ != k@);
                                    }
                                }
                            }
                            assert forall|name: Seq<char>| #[trigger] pandas_lookup(table@, name) == if name == k@ {
                                Some((opt_text(e.pandas_type), opt_text(e.numpy_type)))
                            } else {
                                pandas_lookup(old_table, name)
                            } by {
                                lemma_lookup_push(old_table, table@.last(), name);
                            }
                        }
                    },
                }
            },
        }
        i = i + 1;
    }
    proof {
        assert(entries@.take(entries@.len() as int) =~= entries@);
    }
    table
}

/// The column an item of pandas' `columns` array describes: its
/// `field_name`, else its `name`, where they are strings.
pub open spec fn item_key(item: Json) -> Option<Seq<char>> {
    match member_text(item, "field_name"@) {
        Some(f) => Some(f),
        None => member_text(item, "name"@),
    }
}

/// The pandas and numpy type names that the last item describing column
/// `name` gives.
pub open spec fn item_details_for(items: Seq<Json>, name: Seq<char>) -> Option<(Option<Seq<char>>, Option<Seq<char>>)>
    decreases items.len(),
{
    if items.len() == 0 {
        None
    } else if item_key(items.last()) == Some(name) {
        Some((member_text(items.last(), "pandas_type"@), member_text(items.last(), "numpy_type"@)))
    } else {
        item_details_for(items.drop_last(), name)
    }
}

/// The items of the `columns` array in the JSON stored under the first
/// `pandas` key; none where there is no such text, it is not JSON, or it
/// holds no such array.
pub open spec fn pandas_items(key_values: Option<Vec<KeyValueEntry>>) -> Seq<Json> {
    match key_values {
        Some(kv) => match pandas_value(kv@) {
            Some(text) => pandas_column_items(text),
            None => Seq::empty(),
        },
        None => Seq::empty(),
    }
}

/// The pandas details of each column name that a lookup table gives.
pub open spec fn table_details(
    pandas: Seq<(String, PandasColumnMeta)>,
) -> spec_fn(Seq<char>) -> Option<(Option<Seq<char>>, Option<Seq<char>>)> {
    |name: Seq<char>| pandas_lookup(pandas, name)
}

/// The pandas details of each column name that a file's key-value metadata
/// gives.
pub open spec fn file_details(
    key_values: Option<Vec<KeyValueEntry>>,
) -> spec_fn(Seq<char>) -> Option<(Option<Seq<char>>, Option<Seq<char>>)> {
    |name: Seq<char>| item_details_for(pandas_items(key_values), name)
}

proof fn lemma_entries_details(entries: Seq<PandasColumnEntry>, items: Seq<Json>, name: Seq<char>)
    requires
        entries.len() == items.len(),
        forall|i: int| 0 <= i < entries.len() ==> entry_reads(#[trigger] entries[i], items[i]),
    ensures
        entry_details(pandas_entry_for(entries, name)) == item_details_for(items, name),
    decreases entries.len(),
{
    if entries.len() > 0 {
        let (e, it) = (entries.last(), items.last());
        assert(entry_reads(entries[entries.len() - 1], items[items.len() - 1]));
        assert(entry_key(e) == item_key(it));
        assert forall|i: int| 0 <= i < entries.drop_last().len() implies entry_reads(
            #[trigger] entries.drop_last()[i],
            items.drop_last()[i],
        ) by {
            assert(entry_reads(entries[i], items[i]));
        }
        lemma_entries_details(entries.drop_last(), items.drop_last(), name);
    }
}

/// The pandas details of each column that pandas' JSON metadata describes,
/// each column once, later items for a column replacing earlier ones; an
/// empty table where the file holds no readable pandas metadata.
pub fn pandas_columns(key_values: &Option<Vec<KeyValueEntry>>) -> (table: Vec<(String, PandasColumnMeta)>)
    ensures
        forall|name: Seq<char>| #[trigger] pandas_lookup(table@, name) == item_details_for(pandas_items(*key_values), name),
        keys_distinct(table@),
{
    let entries = match pandas_metadata(key_values) {
        Some(text) => pandas_entries(text.as_str()),
        None => Vec::new(),
    };
    assert(entries@.len() == pandas_items(*key_values).len());
    assert(forall|i: int| 0 <= i < entries.len() ==> entry_reads(#[trigger] entries@[i], pandas_items(*key_values)[i]));
    let table = extract_pandas_columns(&entries);
    proof {
        assert forall|name: Seq<char>| #[trigger] pandas_lookup(table@, name) == item_details_for(
            pandas_items(*key_values),
            name,
        ) by {
            lemma_entries_details(entries@, pandas_items(*key_values), name);
        }
    }
    table
}

proof fn lemma_lookup_set(t: Seq<(String, PandasColumnMeta)>, at: int, x: (String, PandasColumnMeta), name: Seq<char>)
    requires
        0 <= at < t.len(),
        t[at].0@ == x.0@,
        pandas_lookup(t, x.0@) == Some((opt_text(t[at].1.pandas_type), opt_text(t[at].1.numpy_type))),
        forall|k: int| 0 <= k < at ==> (#[trigger] t[k]).0@ != x.0@,
    ensures
        name != x.0@ ==> pandas_lookup(t.update(at, x), name) == pandas_lookup(t, name),
        pandas_lookup(t.update(at, x), x.0@) == Some((opt_text(x.1.pandas_type), opt_text(x.1.numpy_type))),
    decreases t.len(),
{
    let u = t.update(at, x);
    if at > 0 {
        assert(u.drop_first() =~= t.drop_first().update(at - 1, x));
        assert(t[0].0@ != x.0@);
        assert(u[0] == t[0]);
        assert forall|k: int| 0 <= k < at - 1 implies (#[trigger] t.drop_first()[k]).0@ != x.0@ by {
            assert(t.drop_first()[k] == t[k + 1]);
        }
        lemma_lookup_set(t.drop_first(), at - 1, x, name);
    } else {
        assert(u.drop_first() =~= t.drop_first());
        assert(u[0] == x);
    }
}

proof fn lemma_lookup_push(t: Seq<(String, PandasColumnMeta)>, x: (String, PandasColumnMeta), name: Seq<char>)
    requires
        pandas_lookup(t, x.0@) == None::<(Option<Seq<char>>, Option<Seq<char>>)>,
    ensures
        pandas_lookup(t.push(x), name) == if name == x.0@ {
            Some((opt_text(x.1.pandas_type), opt_text(x.1.numpy_type)))
        } else {
            pandas_lookup(t, name)
        },
    decreases t.len(),
{
    if t.len() > 0 {
        assert(t.push(x).drop_first() =~= t.drop_first().push(x));
        assert(t.push(x)[0] == t[0]);
        lemma_lookup_push(t.drop_first(), x, name);
        if t[0].0@ != name {
            assert(pandas_lookup(t.push(x), name) == pandas_lookup(t.drop_first().push(x), name));
            assert(pandas_lookup(t, name) == pandas_lookup(t.drop_first(), name));
        } else {
            assert(t[0].0@ != x.0@);
            assert(pandas_lookup(t.push(x), name) == Some((opt_text(t[0].1.pandas_type), opt_text(t[0].1.numpy_type))));
            assert(pandas_lookup(t, name) == Some((opt_text(t[0].1.pandas_type), opt_text(t[0].1.numpy_type))));
        }
    } else {
        assert(t.push(x).drop_first() =~= Seq::<(String, PandasColumnMeta)>::empty());
        assert(t.push(x)[0] == x);
        if name != x.0@ {
            assert(pandas_lookup(t.push(x), name) == pandas_lookup(t.push(x).drop_first(), name));
        }
    }
}

// ---------------------------------------------------------------------------
// Per-column summaries
// ---------------------------------------------------------------------------

/// What the metadata dialog shows of one column, gathered over the row
/// groups: compression and encoding names sorted, each once.
pub struct ColumnSummary {
    pub name: String,
    pub dtype: String,
    pub compression: Vec<String>,
    pub encodings: Vec<String>,
    pub uncompressed_size: u64,
    pub compressed_size: u64,
    pub null_count: Option<u64>,
}

impl ColumnSummary {
    /// A column with nothing gathered yet: no codecs or encodings, sizes of
    /// zero and a null count of zero.
    pub fn new(name: String, dtype: String) -> (s: Self)
        ensures
            s.name == name,
            s.dtype == dtype,
            s.compression@.len() == 0,
            s.encodings@.len() == 0,
            s.uncompressed_size == 0,
            s.compressed_size == 0,
            s.null_count == Some(0u64),
    {
        ColumnSummary {
            name,
            dtype,
            compression: Vec::new(),
            encodings: Vec::new(),
            uncompressed_size: 0,
            compressed_size: 0,
            null_count: Some(0),
        }
    }
}

/// Column `c`'s chunk in a row group, where the group has one.
pub open spec fn chunk_at(g: RowGroupInfo, c: int) -> Option<ChunkInfo> {
    if 0 <= c < g.columns.len() {
        Some(g.columns@[c])
    } else {
        None
    }
}

/// The compression names of column `c` over the row groups.
pub open spec fn compressions(rgs: Seq<RowGroupInfo>, c: int) -> Set<Seq<char>>
    decreases rgs.len(),
{
    if rgs.len() == 0 {
        Set::empty()
    } else {
        let prev = compressions(rgs.drop_last(), c);
        match chunk_at(rgs.last(), c) {
            Some(ch) => prev.insert(ch.compression@),
            None => prev,
        }
    }
}

/// The encoding names of column `c` over the row groups.
pub open spec fn encodings_in(rgs: Seq<RowGroupInfo>, c: int) -> Set<Seq<char>>
    decreases rgs.len(),
{
    if rgs.len() == 0 {
        Set::empty()
    } else {
        let prev = encodings_in(rgs.drop_last(), c);
        match chunk_at(rgs.last(), c) {
            Some(ch) => prev.union(strings_view(ch.encodings@).to_set()),
            None => prev,
        }
    }
}

/// The sum of column `c`'s uncompressed (or compressed) sizes over the row
/// groups, negative sizes left out.
pub open spec fn size_total(rgs: Seq<RowGroupInfo>, c: int, uncompressed: bool) -> int
    decreases rgs.len(),
{
    if rgs.len() == 0 {
        0
    } else {
        let prev = size_total(rgs.drop_last(), c, uncompressed);
        match chunk_at(rgs.last(), c) {
            Some(ch) => {
                let v = if uncompressed {
                    ch.uncompressed_size
                } else {
                    ch.compressed_size
                };
                prev + if v >= 0 {
                    v as int
                } else {
                    0
                }
            },
            None => prev,
        }
    }
}

/// The sum of column `c`'s null counts over the row groups, or nothing when
/// some chunk of the column has no null count.
pub open spec fn null_total(rgs: Seq<RowGroupInfo>, c: int) -> Option<int>
    decreases rgs.len(),
{
    if rgs.len() == 0 {
        Some(0)
    } else {
        let prev = null_total(rgs.drop_last(), c);
        match chunk_at(rgs.last(), c) {
            Some(ch) => match (prev, ch.null_count) {
                (Some(t), Some(n)) => Some(t + n),
                _ => None,
            },
            None => prev,
        }
    }
}

/// `v` reduced modulo 2^64, as sums in `u64` wrap.
pub open spec fn wrap64(v: int) -> u64 {
    (v % 0x1_0000_0000_0000_0000) as u64
}

/// The summary holds what column `c`'s chunks over the row groups `rgs` give.
pub open spec fn gathered(s: ColumnSummary, rgs: Seq<RowGroupInfo>, c: int) -> bool {
    &&& strictly_sorted(strings_view(s.compression@))
    &&& strings_view(s.compression@).to_set() == compressions(rgs, c)
    &&& strictly_sorted(strings_view(s.encodings@))
    &&& strings_view(s.encodings@).to_set() == encodings_in(rgs, c)
    &&& s.uncompressed_size == wrap64(size_total(rgs, c, true))
    &&& s.compressed_size == wrap64(size_total(rgs, c, false))
    &&& s.null_count == match null_total(rgs, c) {
        Some(t) => Some(wrap64(t)),
        None => None,
    }
}

fn add_wrapping(a: u64, b: u64) -> (r: u64)
    ensures
        r == ((a + b) % 0x1_0000_0000_0000_0000) as u64,
{
    if a <= 0xffff_ffff_ffff_ffff - b {
        a + b
    } else {
        b - (0xffff_ffff_ffff_ffff - a) - 1
    }
}

proof fn lemma_wrap_add(t: int, v: int)
    ensures
        ((wrap64(t) + v) % 0x1_0000_0000_0000_0000) as u64 == wrap64(t + v),
{
    let m: int = 0x1_0000_0000_0000_0000;
    vstd::arithmetic::div_mod::lemma_add_mod_noop(t, v, m);
    vstd::arithmetic::div_mod::lemma_mod_twice(t, m);
    vstd::arithmetic::div_mod::lemma_add_mod_noop(t % m, v, m);
}

/// Adds one row group's chunk of a column to the column's summary.
fn gather_chunk(s: &mut ColumnSummary, ch: &ChunkInfo, Ghost(rgs): Ghost<Seq<RowGroupInfo>>, Ghost(c): Ghost<int>)
    requires
        rgs.len() > 0,
        chunk_at(rgs.last(), c) == Some(*ch),
        gathered(*old(s), rgs.drop_last(), c),
    ensures
        gathered(*final(s), rgs, c),
        final(s).name == old(s).name,
        final(s).dtype == old(s).dtype,
{
    insert_name(&mut s.compression, &ch.compression);
    let mut e: usize = 0;
    let ghost base = strings_view(old(s).encodings@).to_set();
    let ghost comp = s.compression;
    while e < ch.encodings.len()
        invariant
            e <= ch.encodings.len(),
            s.name == old(s).name,
            s.dtype == old(s).dtype,
            s.compression == comp,
            s.uncompressed_size == old(s).uncompressed_size,
            s.compressed_size == old(s).compressed_size,
            s.null_count == old(s).null_count,
            strictly_sorted(strings_view(s.encodings@)),
            strings_view(s.encodings@).to_set() == base.union(strings_view(ch.encodings@.take(e as int)).to_set()),
        decreases ch.encodings.len() - e,
    {
        insert_name(&mut s.encodings, &ch.encodings[e]);
        proof {
            let before = strings_view(ch.encodings@.take(e as int));
            let after = strings_view(ch.encodings@.take(e + 1));
            assert(after =~= before.push(ch.encodings@[e as int]@));
            assert(after.to_set() =~= before.to_set().insert(ch.encodings@[e as int]@)) by {
                assert forall|y: Seq<char>| after.to_set().contains(y) implies before.to_set().insert(ch.encodings@[e as int]@).contains(y) by {
                    let k = choose|k: int| 0 <= k < after.len() && after[k] == y;
                    if k < before.len() {
                        assert(before[k] == y);
                    }
                }
                assert forall|y: Seq<char>| before.to_set().insert(ch.encodings@[e as int]@).contains(y) implies after.to_set().contains(y) by {
                    if y == ch.encodings@[e as int]@ {
                        assert(after[e as int] == y);
                    } else {
                        let k = choose|k: int| 0 <= k < before.len() && before[k] == y;
                        assert(after[k] == y);
                    }
                }
            }
            assert(strings_view(s.encodings@).to_set() =~= base.union(after.to_set()));
        }
        e = e + 1;
    }
    proof {
        assert(ch.encodings@.take(ch.encodings@.len() as int) =~= ch.encodings@);
    }
    if ch.uncompressed_size >= 0 {
        proof {
            lemma_wrap_add(size_total(rgs.drop_last(), c, true), ch.uncompressed_size as int);
        }
        s.uncompressed_size = add_wrapping(s.uncompressed_size, ch.uncompressed_size as u64);
    }
    if ch.compressed_size >= 0 {
        proof {
            lemma_wrap_add(size_total(rgs.drop_last(), c, false), ch.compressed_size as int);
        }
        s.compressed_size = add_wrapping(s.compressed_size, ch.compressed_size as u64);
    }
    match ch.null_count {
        Some(n) => {
            match s.null_count {
                Some(t) => {
                    proof {
                        lemma_wrap_add(null_total(rgs.drop_last(), c)->0, n as int);
                    }
                    s.null_count = Some(add_wrapping(t, n));
                },
                None => {},
            }
        },
        None => {
            s.null_count = None;
        },
    }
    proof {
        assert(compressions(rgs, c) == compressions(rgs.drop_last(), c).insert(ch.compression@));
        assert(strings_view(s.encodings@).to_set() =~= encodings_in(rgs, c));
    }
}

/// The pandas details shown after a column's type.
pub open spec fn pandas_parts(d: (Option<Seq<char>>, Option<Seq<char>>)) -> Seq<Seq<char>> {
    (match d.0 {
        Some(t) => seq!["pandas="@ + t],
        None => Seq::empty(),
    }) + (match d.1 {
        Some(t) => seq!["numpy="@ + t],
        None => Seq::empty(),
    })
}

/// A column's type as the metadata dialog shows it: followed by pandas'
/// details in brackets, where pandas recorded any.
pub open spec fn summary_dtype(dtype: Seq<char>, details: Option<(Option<Seq<char>>, Option<Seq<char>>)>) -> Seq<char> {
    match details {
        Some(d) => if pandas_parts(d).len() == 0 {
            dtype
        } else {
            dtype + " ["@ + join(pandas_parts(d), ", "@) + "]"@
        },
        None => dtype,
    }
}

fn column_dtype(col: &ColumnMeta, pandas: &Vec<(String, PandasColumnMeta)>) -> (s: String)
    ensures
        s@ == summary_dtype(col.dtype@, pandas_lookup(pandas@, col.name@)),
{
    match find_key(pandas, col.name.as_str()) {
        None => col.dtype.clone(),
        Some(at) => {
            let details = &pandas[at].1;
            let mut parts: Vec<String> = Vec::new();
            match &details.pandas_type {
                Some(t) => {
                    let mut p = String::from_str("pandas=");
                    p.append(t.as_str());
                    parts.push(p);
                },
                None => {},
            }
            match &details.numpy_type {
                Some(t) => {
                    let mut p = String::from_str("numpy=");
                    p.append(t.as_str());
                    parts.push(p);
                },
                None => {},
            }
            proof {
                let d = (opt_text(details.pandas_type), opt_text(details.numpy_type));
                assert(strings_view(parts@) =~= pandas_parts(d));
            }
            if parts.len() == 0 {
                col.dtype.clone()
            } else {
                let mut s = col.dtype.clone();
                s.append(" [");
                let j = join_strings(&parts, ", ");
                s.append(j.as_str());
                s.append("]");
                s
            }
        },
    }
}

/// The summaries of the table's columns: each column's name, its type with
/// pandas' details, and what its chunks over all row groups give. Chunks
/// beyond the table's columns are left out.
pub fn build_column_summaries(
    meta: &FileMetadata,
    columns: &Vec<ColumnMeta>,
    pandas: &Vec<(String, PandasColumnMeta)>,
) -> (out: Vec<ColumnSummary>)
    ensures
        out.len() == columns.len(),
        forall|c: int|
            0 <= c < out.len() ==> (#[trigger] out@[c]).name@ == columns@[c].name@ && out@[c].dtype@
                == summary_dtype(columns@[c].dtype@, pandas_lookup(pandas@, columns@[c].name@))
                && gathered(out@[c], meta.row_groups@, c),
{
    let ghost rgs = meta.row_groups@;
    let mut out: Vec<ColumnSummary> = Vec::new();
    let mut c: usize = 0;
    while c < columns.len()
        invariant
            c <= columns.len(),
            out.len() == c,
            forall|q: int|
                0 <= q < c ==> (#[trigger] out@[q]).name@ == columns@[q].name@ && out@[q].dtype@
                    == summary_dtype(columns@[q].dtype@, pandas_lookup(pandas@, columns@[q].name@))
                    && gathered(out@[q], rgs.take(0), q),
        decreases columns.len() - c,
    {
        let dtype = column_dtype(&columns[c], pandas);
        let s = ColumnSummary::new(columns[c].name.clone(), dtype);
        proof {
            assert(rgs.take(0) =~= Seq::<RowGroupInfo>::empty());
            assert(strings_view(s.compression@) =~= Seq::<Seq<char>>::empty());
            assert(strings_view(s.encodings@) =~= Seq::<Seq<char>>::empty());
            assert(strings_view(s.compression@).to_set() =~= Set::<Seq<char>>::empty());
            assert(strings_view(s.encodings@).to_set() =~= Set::<Seq<char>>::empty());
        }
        out.push(s);
        c = c + 1;
    }
    let mut g: usize = 0;
    while g < meta.row_groups.len()
        invariant
            g <= meta.row_groups.len(),
            rgs == meta.row_groups@,
            out.len() == columns.len(),
            forall|q: int|
                0 <= q < out.len() ==> (#[trigger] out@[q]).name@ == columns@[q].name@ && out@[q].dtype@
                    == summary_dtype(columns@[q].dtype@, pandas_lookup(pandas@, columns@[q].name@))
                    && gathered(out@[q], rgs.take(g as int), q),
        decreases meta.row_groups.len() - g,
    {
        let rg = &meta.row_groups[g];
        let ghost pre = rgs.take(g as int);
        let ghost post = rgs.take(g + 1);
        proof {
            assert(post.drop_last() =~= pre);
            assert(post.last() == *rg);
        }
        let mut k: usize = 0;
        while k < rg.columns.len()
            invariant
                k <= rg.columns.len(),
                rgs == meta.row_groups@,
                *rg == rgs[g as int],
                post.len() > 0,
                post.drop_last() == pre,
                post.last() == *rg,
                out.len() == columns.len(),
                forall|q: int|
                    0 <= q < out.len() ==> (#[trigger] out@[q]).name@ == columns@[q].name@ && out@[q].dtype@
                        == summary_dtype(columns@[q].dtype@, pandas_lookup(pandas@, columns@[q].name@))
                        && (q < k ==> gathered(out@[q], post, q)) && (q >= k ==> gathered(out@[q], pre, q)),
            decreases rg.columns.len() - k,
        {
            if k < out.len() {
                let ghost before = out@;
                gather_chunk(&mut out[k], &rg.columns[k], Ghost(post), Ghost(k as int));
                proof {
                    assert forall|q: int| 0 <= q < out.len() && q != k implies #[trigger] out@[q] == before[q] by {}
                }
            }
            k = k + 1;
        }
        proof {
            assert forall|q: int| 0 <= q < out.len() implies gathered(#[trigger] out@[q], post, q) by {
                if q >= rg.columns.len() {
                    assert(chunk_at(post.last(), q) == None::<ChunkInfo>);
                    assert(gathered(out@[q], pre, q));
                }
            }
        }
        g = g + 1;
    }
    proof {
        assert(rgs.take(rgs.len() as int) =~= rgs);
    }
    out
}

} // verus!
