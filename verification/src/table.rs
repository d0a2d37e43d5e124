//! The tabular store itself: named columns, rows of text cells addressed by
//! a stable natural key, schema mutation, value lookup and sharding.

use crate::text::{lemma_lex_total, lemma_lex_trans, lex_le, str_le};
use vstd::prelude::*;

verus! {

/// Identifies a table as one partition of a sharded parent: `id` is the
/// 1-based partition index, `shards` the total number of partitions.
#[derive(Debug, Clone, Copy, PartialEq, Eq, Structural, Hash)]
pub struct ShardID {
    pub id: usize,
    pub shards: usize,
}

/// One stored row: its natural key, its insertion timestamp in
/// milliseconds, and its ordered text cells.
pub struct Entry {
    pub key: usize,
    pub timestamp: i64,
    pub cells: Vec<String>,
}

/// The mathematical image of an [`Entry`].
#[verifier::ext_equal]
pub struct EntryV {
    pub key: usize,
    pub timestamp: i64,
    pub cells: Seq<Seq<char>>,
}

impl View for Entry {
    type V = EntryV;

    open spec fn view(&self) -> EntryV {
        EntryV { key: self.key, timestamp: self.timestamp, cells: self.cells.deep_view() }
    }
}

/// An in-memory table: an ordered column registry (position = index) and a
/// collection of keyed rows. Keys are assigned at insertion, grow
/// monotonically and are never reused; iteration is in storage order, which
/// is insertion order for tables that were never recombined.
pub struct Table {
    name: Option<String>,
    latest_row: usize,
    columns: Vec<String>,
    shard: Option<ShardID>,
    entries: Vec<Entry>,
}

/// The mathematical image of a [`Table`].
#[verifier::ext_equal]
pub struct TableV {
    pub name: Option<Seq<char>>,
    pub latest: usize,
    pub columns: Seq<Seq<char>>,
    pub shard: Option<ShardID>,
    pub entries: Seq<EntryV>,
}

impl View for Table {
    type V = TableV;

    closed spec fn view(&self) -> TableV {
        TableV {
            name: match self.name {
                Some(ref s) => Some(s@),
                None => None,
            },
            latest: self.latest_row,
            columns: self.columns.deep_view(),
            shard: self.shard,
            entries: self.entries@.map_values(|e: Entry| e@),
        }
    }
}

impl TableV {
    /// Well-formedness: keys are distinct, lie between 1 and the key
    /// counter (so a fresh key never collides), and a shard tag is a
    /// plausible partition index.
    pub open spec fn wf(self) -> bool {
        &&& forall|i: int, j: int|
            0 <= i < j < self.entries.len() ==> (#[trigger] self.entries[i]).key != (
            #[trigger] self.entries[j]).key
        &&& forall|i: int|
            0 <= i < self.entries.len() ==> 1 <= (#[trigger] self.entries[i]).key <= self.latest
        &&& self.shard matches Some(s) ==> 1 <= s.id <= s.shards
    }

    /// Whether some column carries `name`.
    pub open spec fn has_column(self, name: Seq<char>) -> bool {
        col_exists(self.columns, name)
    }

    /// The position of the first column carrying `name`: duplicate column
    /// names are permitted and the lowest position wins.
    pub open spec fn col_of(self, name: Seq<char>) -> int {
        col_first(self.columns, name)
    }

    /// Whether some row carries the natural key `k`.
    pub open spec fn has_key(self, k: usize) -> bool {
        entries_has_key(self.entries, k)
    }

    /// The storage position of the row with natural key `k`.
    pub open spec fn idx_of_key(self, k: usize) -> int {
        entry_idx_of(self.entries, k)
    }

    /// The cell contents of the row with natural key `k`.
    pub open spec fn row_at_key(self, k: usize) -> Seq<Seq<char>> {
        entry_at(self.entries, k).cells
    }

    /// The step by which the key counter advances on insertion: the shard
    /// count for a sharded table, so sibling shards assign keys from
    /// disjoint residue classes, and 1 otherwise.
    pub open spec fn key_step(self) -> int {
        match self.shard {
            Some(s) => s.shards as int,
            None => 1,
        }
    }
}

/// The value a row shows for column position `i`: the cell itself, or the
/// empty string for a row too short to reach position `i`.
pub open spec fn resolved(cells: Seq<Seq<char>>, i: int) -> Seq<char> {
    if 0 <= i < cells.len() {
        cells[i]
    } else {
        Seq::empty()
    }
}

/// Whether some row of `es` carries the natural key `k`.
pub open spec fn entries_has_key(es: Seq<EntryV>, k: usize) -> bool {
    exists|i: int| 0 <= i < es.len() && (#[trigger] es[i]).key == k
}

/// The position in `es` of a row with natural key `k`.
pub open spec fn entry_idx_of(es: Seq<EntryV>, k: usize) -> int {
    choose|i: int| 0 <= i < es.len() && (#[trigger] es[i]).key == k
}

/// The row of `es` with natural key `k`.
pub open spec fn entry_at(es: Seq<EntryV>, k: usize) -> EntryV {
    es[entry_idx_of(es, k)]
}

/// Under distinct keys a key determines its row: the chosen witness of
/// `entry_idx_of` is the position where the key stands.
pub proof fn lemma_entry_at_unique(es: Seq<EntryV>, i: int)
    requires
        forall|a: int, b: int|
            0 <= a < b < es.len() ==> (#[trigger] es[a]).key != (#[trigger] es[b]).key,
        0 <= i < es.len(),
    ensures
        entries_has_key(es, es[i].key),
        entry_idx_of(es, es[i].key) == i,
        entry_at(es, es[i].key) == es[i],
{
    assert(entries_has_key(es, es[i].key));
    let j = entry_idx_of(es, es[i].key);
    assert(0 <= j < es.len() && es[j].key == es[i].key);
    if i < j {
        assert(es[i].key != es[j].key);
    } else if j < i {
        assert(es[j].key != es[i].key);
    }
}

/// Whether some position of `cols` holds `name`.
pub open spec fn col_exists(cols: Seq<Seq<char>>, name: Seq<char>) -> bool {
    exists|i: int| 0 <= i < cols.len() && cols[i] == name
}

/// The first position of `cols` holding `name`.
pub open spec fn col_first(cols: Seq<Seq<char>>, name: Seq<char>) -> int {
    choose|i: int|
        0 <= i < cols.len() && cols[i] == name && (forall|j: int| 0 <= j < i ==> cols[j] != name)
}

impl Table {
    /// Creates an empty table: no name, no columns, no rows, no shard tag.
    pub fn new() -> (t: Table)
        ensures
            t@.wf(),
            t@.name is None,
            t@.latest == 0,
            t@.columns.len() == 0,
            t@.shard is None,
            t@.entries.len() == 0,
    {
        Table { name: None, latest_row: 0, columns: Vec::new(), shard: None, entries: Vec::new() }
    }

    /// The number of rows currently stored.
    pub fn len(&self) -> (n: usize)
        ensures
            n == self@.entries.len(),
    {
        self.entries.len()
    }

    /// The stored rows, in storage order.
    pub fn get_data(&self) -> (rows: &Vec<Entry>)
        ensures
            rows@.map_values(|e: Entry| e@) == self@.entries,
    {
        &self.entries
    }

    /// The column registry: the name at position `i` is the `i`-th column.
    pub fn get_columns(&self) -> (cols: &Vec<String>)
        ensures
            cols.deep_view() == self@.columns,
    {
        &self.columns
    }

    /// Replaces the column registry, leaving the rows untouched.
    pub fn import_columns(&mut self, columns: &Vec<String>)
        ensures
            final(self)@ == (TableV { columns: columns.deep_view(), ..old(self)@ }),
    {
        self.columns = columns.clone();
        proof {
            broadcast use vstd::std_specs::vec::vec_clone_deep_view_proof;

            assert(self.columns.deep_view() =~= columns.deep_view());
            assert(self@ =~= (TableV { columns: columns.deep_view(), ..old(self)@ }));
        }
    }

    /// Appends a new named column at the next position; every existing row
    /// grows by one empty cell.
    pub fn add_column(&mut self, column_name: String)
        ensures
            final(self)@.columns == old(self)@.columns.push(column_name@),
            final(self)@.entries.len() == old(self)@.entries.len(),
            forall|i: int|
                0 <= i < old(self)@.entries.len() ==> #[trigger] final(self)@.entries[i]
                    == (EntryV {
                    cells: old(self)@.entries[i].cells.push(Seq::empty()),
                    ..old(self)@.entries[i]
                }),
            final(self)@.latest == old(self)@.latest,
            final(self)@.shard == old(self)@.shard,
            final(self)@.name == old(self)@.name,
            old(self)@.wf() ==> final(self)@.wf(),
    {
        self.columns.push(column_name);
        proof {
            assert(self.columns.deep_view() =~= old(self)@.columns.push(column_name@));
        }
        let n = self.entries.len();
        let mut i: usize = 0;
        while i < n
            invariant
                n == self.entries@.len(),
                forall|j: int| i <= j < n ==> #[trigger] self.entries@[j] == old(self).entries@[j],
                forall|j: int|
                    0 <= j < i ==> {
                        &&& (#[trigger] self.entries@[j]).key == old(self).entries@[j].key
                        &&& self.entries@[j].timestamp == old(self).entries@[j].timestamp
                        &&& self.entries@[j].cells.deep_view() == old(self).entries@[
                            j
                        ].cells.deep_view().push(Seq::<char>::empty())
                    },
                self.name == old(self).name,
                self.latest_row == old(self).latest_row,
                self.shard == old(self).shard,
                self.columns.deep_view() == old(self)@.columns.push(column_name@),
            decreases n - i,
        {
            self.entries[i].cells.push(String::new());
            proof {
                assert(self.entries@[i as int].cells.deep_view() =~= old(self).entries@[
                    i as int
                ].cells.deep_view().push(Seq::<char>::empty()));
            }
            i += 1;
        }
        proof {
            assert forall|j: int|
                0 <= j < old(self)@.entries.len() implies #[trigger] final(self)@.entries[j]
                == (EntryV {
                cells: old(self)@.entries[j].cells.push(Seq::empty()),
                ..old(self)@.entries[j]
            }) by {
                assert(old(self)@.entries[j] == old(self).entries@[j]@);
                assert(final(self)@.entries[j] == self.entries@[j]@);
            }
        }
    }

    /// The name of the column at position `index`, if that position exists.
    pub fn index_to_field(&self, index: usize) -> (r: Option<&String>)
        ensures
            match r {
                Some(name) => index < self@.columns.len() && name@ == self@.columns[index as int],
                None => index >= self@.columns.len(),
            },
    {
        if index < self.columns.len() {
            Some(&self.columns[index])
        } else {
            None
        }
    }

    /// The position of the first column named `field`, or `None` when no
    /// column carries that name.
    pub fn field_to_index(&self, field: &str) -> (r: Option<usize>)
        ensures
            match r {
                Some(i) => {
                    &&& i < self@.columns.len()
                    &&& self@.columns[i as int] == field@
                    &&& forall|j: int| 0 <= j < i ==> self@.columns[j] != field@
                    &&& self@.has_column(field@)
                    &&& i == self@.col_of(field@)
                },
                None => !self@.has_column(field@),
            },
    {
        let n = self.columns.len();
        let mut i: usize = 0;
        while i < n
            invariant
                n == self@.columns.len(),
                forall|j: int| 0 <= j < i ==> self@.columns[j] != field@,
            decreases n - i,
        {
            if crate::text::str_eq(self.columns[i].as_str(), field) {
                proof {
                    lemma_first_match_unique(self@.columns, field@, i as int);
                }
                return Some(i);
            }
            i += 1;
        }
        None
    }

    /// Renames the first column called `old_name`, if any; otherwise does
    /// nothing.
    pub fn rename_column(&mut self, old_name: &str, new_name: &str)
        ensures
            old(self)@.has_column(old_name@) ==> final(self)@ == (TableV {
                columns: old(self)@.columns.update(
                    old(self)@.col_of(old_name@),
                    new_name@,
                ),
                ..old(self)@
            }),
            !old(self)@.has_column(old_name@) ==> final(self)@ == old(self)@,
    {
        let idx = self.field_to_index(old_name);
        if let Some(i) = idx {
            self.columns[i] = new_name.to_owned();
            proof {
                assert(self.columns.deep_view() =~= old(self)@.columns.update(
                    old(self)@.col_of(old_name@),
                    new_name@,
                ));
                assert(self@ =~= (TableV {
                    columns: old(self)@.columns.update(old(self)@.col_of(old_name@), new_name@),
                    ..old(self)@
                }));
            }
        }
    }
}

/// The failures the store reports. Anything merely absent (an unknown
/// column, a missing cell) is an ordinary `None` or empty result instead.
#[derive(Debug, Clone, Copy, PartialEq, Eq, Structural)]
pub enum TableError {
    /// A sharded table was asked to shard again.
    AlreadySharded,
    /// A byte buffer did not hold a valid table encoding.
    CorruptBytes,
    /// A row source ran out before the header line was reached.
    NoHeader,
}

impl TableError {
    /// A short description of the failure.
    pub fn describe(&self) -> (s: &'static str)
        ensures
            self is AlreadySharded ==> s@ == "table is already sharded"@,
            self is CorruptBytes ==> s@ == "byte buffer does not hold a table"@,
            self is NoHeader ==> s@ == "no row found after skip"@,
    {
        match self {
            TableError::AlreadySharded => "table is already sharded",
            TableError::CorruptBytes => "byte buffer does not hold a table",
            TableError::NoHeader => "no row found after skip",
        }
    }
}

/// The rows of `es` that the partition with 0-based index `s` of `n`
/// receives: those whose key leaves remainder `s` modulo `n`.
pub open spec fn shard_filter(es: Seq<EntryV>, n: int, s: int) -> Seq<EntryV> {
    es.filter(|e: EntryV| (e.key as int) % n == s)
}

/// Row sequences laid end to end, first sequence first.
pub open spec fn concat_entries(ess: Seq<Seq<EntryV>>) -> Seq<EntryV>
    decreases ess.len(),
{
    if ess.len() == 0 {
        Seq::empty()
    } else {
        concat_entries(ess.drop_last()) + ess.last()
    }
}

/// The largest key counter among the given table images, 0 when there are
/// none.
pub open spec fn max_latest(ts: Seq<TableV>) -> int
    decreases ts.len(),
{
    if ts.len() == 0 {
        0
    } else {
        let m = max_latest(ts.drop_last());
        if ts.last().latest as int > m {
            ts.last().latest as int
        } else {
            m
        }
    }
}

/// Relies on chrono's `Utc::now`: the wall-clock instant of a row's
/// insertion, in milliseconds since the Unix epoch. Nothing is assumed of
/// the value, so callers hold for every timestamp the clock may hand back.
/// Caveat: `Utc::now` itself stops the process on a system clock set
/// before the Unix epoch; no precondition can exclude an environment
/// state, so the reliance is recorded here instead.
#[verifier::external_body]
fn now_millis() -> i64 {
    chrono::Utc::now().timestamp_millis()
}

impl Table {
    /// The highest natural key handed out so far (0 for a fresh table):
    /// callers that insert must leave room for the next key.
    pub fn latest_key(&self) -> (k: usize)
        ensures
            k == self@.latest,
    {
        self.latest_row
    }

    /// The shard tag, if this table is a partition of a sharded parent.
    pub fn shard_id(&self) -> (s: Option<ShardID>)
        ensures
            s == self@.shard,
    {
        self.shard
    }

    /// Stores `row` under the next natural key and records its insertion
    /// timestamp. An empty registry is first widened to the row's cell
    /// count with blank column names. The key counter advances by
    /// [`TableV::key_step`], so sibling shards assign disjoint keys.
    pub fn add_row(&mut self, row: Vec<String>)
        requires
            old(self)@.wf(),
            old(self)@.latest + old(self)@.key_step() <= usize::MAX,
        ensures
            final(self)@.wf(),
            final(self)@.latest == old(self)@.latest + old(self)@.key_step(),
            final(self)@.entries.len() == old(self)@.entries.len() + 1,
            forall|j: int|
                0 <= j < old(self)@.entries.len() ==> #[trigger] final(self)@.entries[j] == old(
                    self,
                )@.entries[j],
            final(self)@.entries.last() == (EntryV {
                key: (old(self)@.latest + old(self)@.key_step()) as usize,
                timestamp: final(self)@.entries.last().timestamp,
                cells: row.deep_view(),
            }),
            old(self)@.columns.len() > 0 ==> final(self)@.columns == old(self)@.columns,
            old(self)@.columns.len() == 0 ==> final(self)@.columns.len() == row@.len() && (forall|
                i: int,
            |
                0 <= i < row@.len() ==> final(self)@.columns[i] == Seq::<char>::empty()),
            final(self)@.shard == old(self)@.shard,
            final(self)@.name == old(self)@.name,
    {
        let ghost rowv = row.deep_view();
        if self.columns.len() == 0 {
            let m = row.len();
            let mut i: usize = 0;
            while i < m
                invariant
                    i <= m,
                    m == rowv.len(),
                    self.columns@.len() == i,
                    forall|j: int|
                        0 <= j < i ==> (#[trigger] self.columns@[j])@ == Seq::<char>::empty(),
                    self.name == old(self).name,
                    self.latest_row == old(self).latest_row,
                    self.shard == old(self).shard,
                    self.entries == old(self).entries,
                decreases m - i,
            {
                self.columns.push(String::new());
                i += 1;
            }
        }
        let step: usize = match &self.shard {
            Some(s) => s.shards,
            None => 1,
        };
        self.latest_row = self.latest_row + step;
        let stamp = now_millis();
        self.entries.push(Entry { key: self.latest_row, timestamp: stamp, cells: row });
        proof {
            assert forall|j: int|
                0 <= j < old(self)@.entries.len() implies #[trigger] self@.entries[j] == old(
                self,
            )@.entries[j] by {
                assert(self.entries@[j] == old(self).entries@[j]);
            }
            assert(self@.entries.last() == self.entries@.last()@);
            if old(self)@.columns.len() == 0 {
                assert(self.columns@.len() == rowv.len());
                assert forall|i2: int| 0 <= i2 < rowv.len() implies #[trigger] self@.columns[i2]
                    == Seq::<char>::empty() by {
                    assert((self.columns@[i2])@ == Seq::<char>::empty());
                }
            }
        }
    }

    /// The cells of the row stored under natural key `index`, if any.
    pub fn get_row(&self, index: usize) -> (r: Option<&Vec<String>>)
        requires
            self@.wf(),
        ensures
            match r {
                Some(cells) => self@.has_key(index) && cells.deep_view() == self@.row_at_key(
                    index,
                ),
                None => !self@.has_key(index),
            },
    {
        let n = self.entries.len();
        let mut i: usize = 0;
        while i < n
            invariant
                self@.wf(),
                n == self@.entries.len(),
                forall|j: int| 0 <= j < i ==> (#[trigger] self@.entries[j]).key != index,
            decreases n - i,
        {
            if self.entries[i].key == index {
                proof {
                    lemma_key_at(self@, index, i as int);
                }
                return Some(&self.entries[i].cells);
            }
            proof {
                assert(self@.entries[i as int].key == self.entries@[i as int].key);
            }
            i += 1;
        }
        None
    }

    /// The value `row` shows for the column named `field`: `None` when no
    /// column carries that name or the row is too short to reach it.
    pub fn get_value(&self, field: &str, row: &Vec<String>) -> (r: Option<String>)
        ensures
            match r {
                Some(v) => {
                    &&& self@.has_column(field@)
                    &&& self@.col_of(field@) < row.deep_view().len()
                    &&& v@ == row.deep_view()[self@.col_of(field@)]
                },
                None => !self@.has_column(field@) || self@.col_of(field@)
                    >= row.deep_view().len(),
            },
    {
        match self.field_to_index(field) {
            None => None,
            Some(i) => {
                if i < row.len() {
                    Some(row[i].clone())
                } else {
                    None
                }
            },
        }
    }

    /// Overwrites the cell of the row keyed `key` in the column named
    /// `field`. A best-effort write: when the column name is unknown, the
    /// key absent, or the row too short to reach the column, the table is
    /// left exactly as it was.
    pub fn set_value(&mut self, field: &str, key: usize, value: String)
        requires
            old(self)@.wf(),
        ensures
            final(self)@.wf(),
            ({
                let tv = old(self)@;
                if tv.has_column(field@) && tv.has_key(key) && tv.col_of(field@)
                    < tv.row_at_key(key).len() {
                    final(self)@ == (TableV {
                        entries: tv.entries.update(
                            tv.idx_of_key(key),
                            EntryV {
                                cells: tv.row_at_key(key).update(tv.col_of(field@), value@),
                                ..tv.entries[tv.idx_of_key(key)]
                            },
                        ),
                        ..tv
                    })
                } else {
                    final(self)@ == old(self)@
                }
            }),
    {
        let col = match self.field_to_index(field) {
            None => {
                return ;
            },
            Some(c) => c,
        };
        let n = self.entries.len();
        let mut i: usize = 0;
        while i < n
            invariant
                old(self)@.wf(),
                old(self)@.has_column(field@),
                col == old(self)@.col_of(field@),
                n == self.entries@.len(),
                forall|j: int| 0 <= j < i ==> (#[trigger] self.entries@[j]).key != key,
                self == old(self),
            decreases n - i,
        {
            if self.entries[i].key == key {
                proof {
                    lemma_key_at(self@, key, i as int);
                }
                if col < self.entries[i].cells.len() {
                    self.entries[i].cells[col] = value;
                    proof {
                        let tv = old(self)@;
                        assert(self.entries@[i as int].cells@ == old(self).entries@[
                            i as int
                        ].cells@.update(col as int, value));
                        assert(self.entries@[i as int].cells.deep_view() =~= tv.row_at_key(
                            key,
                        ).update(tv.col_of(field@), value@));
                        assert(self@ =~~= (TableV {
                            entries: tv.entries.update(
                                tv.idx_of_key(key),
                                EntryV {
                                    cells: tv.row_at_key(key).update(tv.col_of(field@), value@),
                                    ..tv.entries[tv.idx_of_key(key)]
                                },
                            ),
                            ..tv
                        }));
                    }
                }
                return ;
            }
            i += 1;
        }
    }

    /// Owned copies of every row's cells, in storage order.
    pub fn get_all_rows(&self) -> (rows: Vec<Vec<String>>)
        ensures
            rows.deep_view().len() == self@.entries.len(),
            forall|j: int|
                0 <= j < self@.entries.len() ==> #[trigger] rows.deep_view()[j]
                    == self@.entries[j].cells,
    {
        let n = self.entries.len();
        let mut rows: Vec<Vec<String>> = Vec::new();
        let mut i: usize = 0;
        while i < n
            invariant
                i <= n,
                n == self@.entries.len(),
                rows@.len() == i,
                forall|j: int|
                    0 <= j < i ==> (#[trigger] rows@[j]).deep_view() == self@.entries[j].cells,
            decreases n - i,
        {
            let copied = clone_row(&self.entries[i].cells);
            proof {
                assert(copied.deep_view() == self@.entries[i as int].cells);
            }
            rows.push(copied);
            i += 1;
        }
        proof {
            assert forall|j: int| 0 <= j < n implies #[trigger] rows.deep_view()[j]
                == self@.entries[j].cells by {
                assert(rows.deep_view()[j] == rows@[j].deep_view());
            }
        }
        rows
    }

    /// Owned copies of the referenced rows, in the order given.
    pub fn clone_rows(&self, rows: Vec<&Vec<String>>) -> (r: Vec<Vec<String>>)
        ensures
            r.deep_view() == rows.deep_view(),
    {
        let n = rows.len();
        let mut out: Vec<Vec<String>> = Vec::new();
        let mut i: usize = 0;
        while i < n
            invariant
                i <= n,
                n == rows@.len(),
                out@.len() == i,
                forall|j: int|
                    0 <= j < i ==> (#[trigger] out@[j]).deep_view() == (rows@[j]).deep_view(),
            decreases n - i,
        {
            let copied = clone_row(rows[i]);
            proof {
                assert(copied.deep_view() == (rows@[i as int]).deep_view());
            }
            out.push(copied);
            i += 1;
        }
        proof {
            assert forall|j: int| 0 <= j < n implies #[trigger] out.deep_view()[j]
                == rows.deep_view()[j] by {
                assert(out.deep_view()[j] == out@[j].deep_view());
                assert(rows.deep_view()[j] == rows@[j].deep_view());
            }
            assert(out.deep_view() =~= rows.deep_view());
        }
        out
    }
}

impl Table {
    /// Partitions the rows into `shards` fresh tables by key residue: the
    /// shard tagged `{id, shards}` receives exactly the rows whose key is
    /// congruent to `id - 1` modulo `shards`, in storage order, and
    /// inherits the parent's column registry. A table already carrying a
    /// shard tag refuses with [`TableError::AlreadySharded`] and is left
    /// untouched (it is only read).
    pub fn to_shards(&self, shards: usize) -> (r: Result<Vec<Table>, TableError>)
        requires
            self@.wf(),
            shards >= 1,
            self@.latest + shards <= usize::MAX,
        ensures
            self@.shard is Some <==> (r matches Err(e) && e == TableError::AlreadySharded),
            match r {
                Ok(ts) => {
                    &&& self@.shard is None
                    &&& ts@.len() == shards
                    &&& forall|s: int|
                        0 <= s < shards ==> {
                            let tv = (#[trigger] ts@[s])@;
                            &&& tv.wf()
                            &&& tv.columns == self@.columns
                            &&& tv.shard == Some(
                                ShardID { id: (s + 1) as usize, shards },
                            )
                            &&& tv.entries == shard_filter(self@.entries, shards as int, s)
                            &&& tv.latest == self@.latest + s + 1
                            &&& tv.name is None
                        }
                },
                Err(e) => e == TableError::AlreadySharded,
            },
    {
        if self.shard.is_some() {
            return Err(TableError::AlreadySharded);
        }
        let mut result: Vec<Table> = Vec::new();
        let mut s: usize = 0;
        while s < shards
            invariant
                s <= shards,
                self@.wf(),
                self@.latest + shards <= usize::MAX,
                result@.len() == s,
                forall|q: int|
                    0 <= q < s ==> {
                        let t = #[trigger] result@[q];
                        &&& t.columns.deep_view() == self@.columns
                        &&& t.shard == Some(ShardID { id: (q + 1) as usize, shards })
                        &&& t.entries@.len() == 0
                        &&& t.latest_row == self@.latest + q + 1
                        &&& t.name is None
                    },
            decreases shards - s,
        {
            let mut t = Table::new();
            t.columns = clone_row(&self.columns);
            t.shard = Some(ShardID { id: s + 1, shards });
            t.latest_row = self.latest_row + s + 1;
            result.push(t);
            s += 1;
        }
        let n = self.entries.len();
        let mut i: usize = 0;
        while i < n
            invariant
                i <= n,
                n == self@.entries.len(),
                self@.wf(),
                shards >= 1,
                self@.latest + shards <= usize::MAX,
                result@.len() == shards,
                forall|q: int|
                    0 <= q < shards ==> {
                        let t = #[trigger] result@[q];
                        &&& t.columns.deep_view() == self@.columns
                        &&& t.shard == Some(ShardID { id: (q + 1) as usize, shards })
                        &&& t.entries@.map_values(|e: Entry| e@) == shard_filter(
                            self@.entries.take(i as int),
                            shards as int,
                            q,
                        )
                        &&& t.latest_row == self@.latest + q + 1
                        &&& t.name is None
                    },
            decreases n - i,
        {
            let key = self.entries[i].key;
            let stamp = self.entries[i].timestamp;
            let cells = clone_row(&self.entries[i].cells);
            let idx = key % shards;
            let e = Entry { key, timestamp: stamp, cells };
            proof {
                assert(self@.entries[i as int] == self.entries@[i as int]@);
                assert(e@ =~~= self@.entries[i as int]);
            }
            let ghost prev = result@;
            result[idx].entries.push(e);
            proof {
                reveal(Seq::filter);
                let pre = self@.entries.take(i as int);
                let post = self@.entries.take(i + 1);
                assert(post.drop_last() =~= pre);
                assert(post.last() == self@.entries[i as int]);
                assert forall|q: int| 0 <= q < shards implies {
                    let t = #[trigger] result@[q];
                    t.entries@.map_values(|e2: Entry| e2@) == shard_filter(post, shards as int, q)
                } by {
                    if q == idx as int {
                        assert(result@[q].entries@.map_values(|e2: Entry| e2@) =~= prev[
                            q
                        ].entries@.map_values(|e2: Entry| e2@).push(self@.entries[i as int]));
                    } else {
                        assert(result@[q] == prev[q]);
                    }
                }
            }
            i += 1;
        }
        proof {
            assert(self@.entries.take(n as int) =~= self@.entries);
            assert forall|s2: int| 0 <= s2 < shards implies {
                let tv = (#[trigger] result@[s2])@;
                &&& tv.wf()
                &&& tv.columns == self@.columns
                &&& tv.shard == Some(ShardID { id: (s2 + 1) as usize, shards })
                &&& tv.entries == shard_filter(self@.entries, shards as int, s2)
                &&& tv.latest == self@.latest + s2 + 1
                &&& tv.name is None
            } by {
                let tv = result@[s2]@;
                assert(tv.entries =~= result@[s2].entries@.map_values(|e: Entry| e@));
                lemma_shard_filter_wf(self@, shards as int, s2);
                assert(tv.wf()) by {
                    let fs = shard_filter(self@.entries, shards as int, s2);
                    assert(forall|a: int|
                        0 <= a < fs.len() ==> 1 <= (#[trigger] fs[a]).key <= self@.latest);
                }
            }
        }
        Ok(result)
    }

    /// Rebuilds one table from zero or more shards: the column registry is
    /// taken from the first shard (an empty table comes back when the list
    /// is empty), the rows are all shards' rows laid end to end, the key
    /// counter covers every key, and the shard tag is cleared. The shards
    /// must carry pairwise distinct keys, as the shards of one parent do.
    pub fn from_shards(tables: Vec<Table>) -> (r: Result<Table, TableError>)
        requires
            forall|i: int| 0 <= i < tables@.len() ==> (#[trigger] tables@[i]@).wf(),
            forall|i: int, j: int, a: int, b: int|
                0 <= i < j < tables@.len() && 0 <= a < tables@[i]@.entries.len() && 0 <= b
                    < tables@[j]@.entries.len() ==> (#[trigger] tables@[i]@.entries[a]).key != (
                #[trigger] tables@[j]@.entries[b]).key,
        ensures
            r is Ok,
            ({
                let tv = r->Ok_0@;
                let tvs = tables@.map_values(|t: Table| t@);
                &&& tv.wf()
                &&& tv.name is None
                &&& tv.shard is None
                &&& tv.latest == max_latest(tvs)
                &&& tv.entries == concat_entries(tvs.map_values(|t: TableV| t.entries))
                &&& tvs.len() > 0 ==> tv.columns == tvs[0].columns
                &&& tvs.len() == 0 ==> tv.columns.len() == 0
            }),
    {
        let ghost tabs = tables@;
        let ghost tvs = tables@.map_values(|t: Table| t@);
        let mut new_table = Table::new();
        let mut rest = tables;
        if rest.len() == 0 {
            proof {
                assert(tvs.len() == 0);
                assert(concat_entries(tvs.map_values(|t: TableV| t.entries)) =~= Seq::empty());
            }
            return Ok(new_table);
        }
        new_table.columns = clone_row(&rest[0].columns);
        let mut done: usize = 0;
        while rest.len() > 0
            invariant
                tvs == tabs.map_values(|t: Table| t@),
                tabs.len() <= usize::MAX,
                done + rest@.len() == tabs.len(),
                forall|j: int| 0 <= j < rest@.len() ==> #[trigger] rest@[j] == tabs[done + j],
                new_table.name is None,
                new_table.shard is None,
                new_table.columns.deep_view() == tvs[0].columns,
                new_table.latest_row as int == max_latest(tvs.take(done as int)),
                new_table.entries@.map_values(|e: Entry| e@) == concat_entries(
                    tvs.take(done as int).map_values(|t: TableV| t.entries),
                ),
            decreases rest@.len(),
        {
            let mut t = rest.remove(0);
            proof {
                assert(t == tabs[done as int]);
                assert(tabs[done as int]@ == tvs[done as int]);
            }
            if t.latest_row > new_table.latest_row {
                new_table.latest_row = t.latest_row;
            }
            new_table.entries.append(&mut t.entries);
            proof {
                let d = done as int;
                assert(tvs.take(d + 1).drop_last() =~= tvs.take(d));
                let pm = tvs.take(d).map_values(|t2: TableV| t2.entries);
                let qm = tvs.take(d + 1).map_values(|t2: TableV| t2.entries);
                assert(qm.drop_last() =~= pm);
                assert(qm.last() == tvs[d].entries);
                assert(new_table.entries@.map_values(|e: Entry| e@) =~= concat_entries(pm)
                    + tvs[d].entries);
            }
            done += 1;
        }
        proof {
            assert(tvs.take(done as int) =~= tvs);
            assert forall|i: int| 0 <= i < tvs.len() implies (#[trigger] tvs[i]).wf() by {
                assert(tvs[i] == tabs[i]@);
            }
            assert forall|i: int, j: int, a: int, b: int|
                0 <= i < j < tvs.len() && 0 <= a < tvs[i].entries.len() && 0 <= b
                    < tvs[j].entries.len() implies (#[trigger] tvs[i].entries[a]).key != (
            #[trigger] tvs[j].entries[b]).key by {
                assert(tvs[i] == tabs[i]@ && tvs[j] == tabs[j]@);
            }
            lemma_concat_wf(tvs);
            assert(new_table@.entries =~= concat_entries(tvs.map_values(|t: TableV| t.entries)));
        }
        Ok(new_table)
    }
}

/// Every row a shard receives keeps a key between 1 and the parent's key
/// counter, and distinct rows keep distinct keys.
proof fn lemma_shard_filter_wf(tv: TableV, n: int, s: int)
    requires
        tv.wf(),
        n >= 1,
    ensures
        ({
            let fs = shard_filter(tv.entries, n, s);
            &&& forall|a: int| 0 <= a < fs.len() ==> 1 <= (#[trigger] fs[a]).key <= tv.latest
            &&& forall|a: int, b: int|
                0 <= a < b < fs.len() ==> (#[trigger] fs[a]).key != (#[trigger] fs[b]).key
        }),
{
    let pred = |e: EntryV| (e.key as int) % n == s;
    lemma_filter_of_distinct(tv.entries, pred);
    let fs = shard_filter(tv.entries, n, s);
    assert forall|a: int| 0 <= a < fs.len() implies 1 <= (#[trigger] fs[a]).key <= tv.latest by {
        lemma_filter_elem(tv.entries, pred, a);
        let i = choose|i: int| 0 <= i < tv.entries.len() && tv.entries[i] == fs[a];
        assert(1 <= tv.entries[i].key <= tv.latest);
    }
}

/// Each element of a filtered sequence stands somewhere in the original.
proof fn lemma_filter_elem(es: Seq<EntryV>, pred: spec_fn(EntryV) -> bool, a: int)
    requires
        0 <= a < es.filter(pred).len(),
    ensures
        exists|i: int| 0 <= i < es.len() && es[i] == es.filter(pred)[a],
    decreases es.len(),
{
    reveal(Seq::filter);
    if es.len() > 0 {
        let fs = es.filter(pred);
        let sub = es.drop_last().filter(pred);
        if pred(es.last()) && a == fs.len() - 1 {
            assert(es[es.len() - 1] == fs[a]);
        } else {
            lemma_filter_elem(es.drop_last(), pred, a);
            let i = choose|i: int| 0 <= i < es.drop_last().len() && es.drop_last()[i] == sub[a];
            assert(es[i] == es.filter(pred)[a]);
        }
    }
}

/// Filtering a sequence of distinct-keyed rows leaves the keys distinct.
proof fn lemma_filter_of_distinct(es: Seq<EntryV>, pred: spec_fn(EntryV) -> bool)
    requires
        forall|a: int, b: int|
            0 <= a < b < es.len() ==> (#[trigger] es[a]).key != (#[trigger] es[b]).key,
    ensures
        forall|a: int, b: int|
            0 <= a < b < es.filter(pred).len() ==> (#[trigger] es.filter(pred)[a]).key != (
            #[trigger] es.filter(pred)[b]).key,
    decreases es.len(),
{
    reveal(Seq::filter);
    if es.len() > 0 {
        let fs = es.filter(pred);
        let pre = es.drop_last();
        lemma_filter_of_distinct(pre, pred);
        assert forall|a: int, b: int|
            0 <= a < b < fs.len() implies (#[trigger] fs[a]).key != (#[trigger] fs[b]).key by {
            if pred(es.last()) && b == fs.len() - 1 {
                lemma_filter_elem(pre, pred, a);
                let i = choose|i: int| 0 <= i < pre.len() && pre[i] == pre.filter(pred)[a];
                assert(es[i].key != es[es.len() - 1].key);
            } else {
                assert(fs[a] == pre.filter(pred)[a] && fs[b] == pre.filter(pred)[b]);
            }
        }
    }
}

/// Each element of a concatenation stands in one of its pieces.
proof fn lemma_concat_elem(ess: Seq<Seq<EntryV>>, k: int)
    requires
        0 <= k < concat_entries(ess).len(),
    ensures
        exists|i: int, j: int|
            0 <= i < ess.len() && 0 <= j < ess[i].len() && concat_entries(ess)[k] == #[trigger] ess[
                i
            ][j],
    decreases ess.len(),
{
    if ess.len() > 0 {
        let pre = concat_entries(ess.drop_last());
        if k < pre.len() {
            lemma_concat_elem(ess.drop_last(), k);
            let (i, j) = choose|i: int, j: int|
                0 <= i < ess.drop_last().len() && 0 <= j < ess.drop_last()[i].len() && pre[k]
                    == #[trigger] ess.drop_last()[i][j];
            assert(0 <= i < ess.len() && 0 <= j < ess[i].len() && concat_entries(ess)[k]
                == ess[i][j]);
        } else {
            let i = ess.len() - 1;
            let j = k - pre.len();
            assert(0 <= i < ess.len() && 0 <= j < ess[i].len() && concat_entries(ess)[k]
                == ess[i][j]);
        }
    }
}

/// The key counter of each table lies below the largest one.
proof fn lemma_max_latest_ge(ts: Seq<TableV>, i: int)
    requires
        0 <= i < ts.len(),
    ensures
        ts[i].latest as int <= max_latest(ts),
    decreases ts.len(),
{
    if i < ts.len() - 1 {
        lemma_max_latest_ge(ts.drop_last(), i);
    }
}

/// Concatenating well-formed tables with pairwise distinct keys keeps the
/// keys distinct, each between 1 and the largest key counter.
proof fn lemma_concat_wf(tvs: Seq<TableV>)
    requires
        forall|i: int| 0 <= i < tvs.len() ==> (#[trigger] tvs[i]).wf(),
        forall|i: int, j: int, a: int, b: int|
            0 <= i < j < tvs.len() && 0 <= a < tvs[i].entries.len() && 0 <= b
                < tvs[j].entries.len() ==> (#[trigger] tvs[i].entries[a]).key != (
            #[trigger] tvs[j].entries[b]).key,
    ensures
        ({
            let ce = concat_entries(tvs.map_values(|t: TableV| t.entries));
            &&& forall|a: int, b: int|
                0 <= a < b < ce.len() ==> (#[trigger] ce[a]).key != (#[trigger] ce[b]).key
            &&& forall|a: int| 0 <= a < ce.len() ==> 1 <= (#[trigger] ce[a]).key <= max_latest(tvs)
        }),
    decreases tvs.len(),
{
    let ess = tvs.map_values(|t: TableV| t.entries);
    let ce = concat_entries(ess);
    if tvs.len() == 0 {
    } else {
        let pvs = tvs.drop_last();
        let pss = pvs.map_values(|t: TableV| t.entries);
        assert(ess.drop_last() =~= pss);
        lemma_concat_wf(pvs);
        let pe = concat_entries(pss);
        let lastv = tvs.last();
        assert(ce =~= pe + lastv.entries);
        assert forall|a: int, b: int|
            0 <= a < b < ce.len() implies (#[trigger] ce[a]).key != (#[trigger] ce[b]).key by {
            if b < pe.len() {
            } else if a >= pe.len() {
                assert(ce[a] == lastv.entries[a - pe.len()]);
                assert(ce[b] == lastv.entries[b - pe.len()]);
            } else {
                lemma_concat_elem(pss, a);
                let (i, j) = choose|i: int, j: int|
                    0 <= i < pss.len() && 0 <= j < pss[i].len() && pe[a] == #[trigger] pss[i][j];
                assert(pss[i] == tvs[i].entries);
                assert(ce[a] == tvs[i].entries[j]);
                assert(ce[b] == tvs[tvs.len() - 1].entries[b - pe.len()]);
                assert(tvs[i].entries[j].key != tvs[tvs.len() - 1].entries[b - pe.len()].key);
            }
        }
        assert forall|a: int| 0 <= a < ce.len() implies 1 <= (#[trigger] ce[a]).key <= max_latest(
            tvs,
        ) by {
            lemma_concat_elem(ess, a);
            let (i, j) = choose|i: int, j: int|
                0 <= i < ess.len() && 0 <= j < ess[i].len() && ce[a] == #[trigger] ess[i][j];
            assert(ess[i] == tvs[i].entries);
            assert(1 <= tvs[i].entries[j].key <= tvs[i].latest);
            lemma_max_latest_ge(tvs, i);
        }
    }
}

impl Table {
    /// The rows whose value in the column named `column_name` equals one
    /// of `values`: exactly the matching rows, never more rows than the
    /// table holds, and the empty collection for an unknown column name.
    /// The scan runs in parallel, so no result order is promised.
    pub fn search_eq(&self, column_name: &str, values: Vec<&str>) -> (r: Vec<Vec<String>>)
        ensures
            !self@.has_column(column_name@) ==> r@.len() == 0,
            self@.has_column(column_name@) ==> {
                &&& r.deep_view().to_multiset() == crate::filtering::matching_rows(
                    crate::filtering::MatchMode::Eq,
                    self@.entries.map_values(|e: EntryV| e.cells),
                    self@.col_of(column_name@),
                    values.deep_view(),
                ).to_multiset()
                &&& r@.len() <= self@.entries.len()
            },
    {
        match self.field_to_index(column_name) {
            None => Vec::new(),
            Some(c) => {
                let rows = self.get_all_rows();
                proof {
                    assert(rows.deep_view() =~= self@.entries.map_values(|e: EntryV| e.cells));
                }
                crate::filtering::rows_eq(&rows, c, values)
            },
        }
    }

    /// The rows whose value in the named column equals none of `values`;
    /// the empty collection for an unknown column name.
    pub fn search_ne(&self, column_name: &str, values: Vec<&str>) -> (r: Vec<Vec<String>>)
        ensures
            !self@.has_column(column_name@) ==> r@.len() == 0,
            self@.has_column(column_name@) ==> {
                &&& r.deep_view().to_multiset() == crate::filtering::matching_rows(
                    crate::filtering::MatchMode::Ne,
                    self@.entries.map_values(|e: EntryV| e.cells),
                    self@.col_of(column_name@),
                    values.deep_view(),
                ).to_multiset()
                &&& r@.len() <= self@.entries.len()
            },
    {
        match self.field_to_index(column_name) {
            None => Vec::new(),
            Some(c) => {
                let rows = self.get_all_rows();
                proof {
                    assert(rows.deep_view() =~= self@.entries.map_values(|e: EntryV| e.cells));
                }
                crate::filtering::rows_ne(&rows, c, values)
            },
        }
    }

    /// The rows whose value in the named column has one of `values` inside
    /// it; the empty collection for an unknown column name.
    pub fn search_rows_contains(&self, column_name: &str, values: Vec<&str>) -> (r: Vec<
        Vec<String>,
    >)
        ensures
            !self@.has_column(column_name@) ==> r@.len() == 0,
            self@.has_column(column_name@) ==> {
                &&& r.deep_view().to_multiset() == crate::filtering::matching_rows(
                    crate::filtering::MatchMode::Contains,
                    self@.entries.map_values(|e: EntryV| e.cells),
                    self@.col_of(column_name@),
                    values.deep_view(),
                ).to_multiset()
                &&& r@.len() <= self@.entries.len()
            },
    {
        match self.field_to_index(column_name) {
            None => Vec::new(),
            Some(c) => {
                let rows = self.get_all_rows();
                proof {
                    assert(rows.deep_view() =~= self@.entries.map_values(|e: EntryV| e.cells));
                }
                crate::filtering::rows_contains(&rows, c, values)
            },
        }
    }

    /// The row's cells paired with their column names, in position order:
    /// one pair for every position that both the registry and the row
    /// reach.
    pub fn get_row_as_map(&self, row: &Vec<String>) -> (r: Vec<(String, String)>)
        ensures
            r@.len() == if row.deep_view().len() <= self@.columns.len() {
                row.deep_view().len()
            } else {
                self@.columns.len()
            },
            forall|i: int|
                0 <= i < r@.len() ==> (#[trigger] r@[i]).0@ == self@.columns[i] && r@[i].1@
                    == row.deep_view()[i],
    {
        let m = if row.len() <= self.columns.len() {
            row.len()
        } else {
            self.columns.len()
        };
        let mut r: Vec<(String, String)> = Vec::new();
        let mut i: usize = 0;
        while i < m
            invariant
                i <= m,
                m <= row@.len(),
                m <= self@.columns.len(),
                r@.len() == i,
                forall|j: int|
                    0 <= j < i ==> (#[trigger] r@[j]).0@ == self@.columns[j] && r@[j].1@
                        == row.deep_view()[j],
            decreases m - i,
        {
            r.push((self.columns[i].clone(), row[i].clone()));
            proof {
                assert(r@[i as int].0@ == self@.columns[i as int]);
                assert(r@[i as int].1@ == row.deep_view()[i as int]);
            }
            i += 1;
        }
        r
    }

    /// Every row's cells paired with its natural key, in storage order.
    pub fn get_all_rows_as_index_map(&self) -> (r: Vec<(usize, Vec<String>)>)
        ensures
            r@.len() == self@.entries.len(),
            forall|j: int|
                0 <= j < r@.len() ==> (#[trigger] r@[j]).0 == self@.entries[j].key
                    && r@[j].1.deep_view() == self@.entries[j].cells,
    {
        let n = self.entries.len();
        let mut r: Vec<(usize, Vec<String>)> = Vec::new();
        let mut i: usize = 0;
        while i < n
            invariant
                i <= n,
                n == self@.entries.len(),
                r@.len() == i,
                forall|j: int|
                    0 <= j < i ==> (#[trigger] r@[j]).0 == self@.entries[j].key && r@[
                        j
                    ].1.deep_view() == self@.entries[j].cells,
            decreases n - i,
        {
            let cells = clone_row(&self.entries[i].cells);
            r.push((self.entries[i].key, cells));
            proof {
                assert(r@[i as int].0 == self@.entries[i as int].key);
                assert(r@[i as int].1.deep_view() == self@.entries[i as int].cells);
            }
            i += 1;
        }
        r
    }
}

/// Rows in non-decreasing order of their resolved value at position `col`,
/// under lexicographic order; rows too short to reach `col` count as
/// holding the empty string there.
/// The rows of `rowsv` that show exactly `v` at position `col`, in their
/// original order. A sort is stable exactly when, for every value, this
/// subsequence of its output equals that of its input.
pub open spec fn rows_with_value(rowsv: Seq<Seq<Seq<char>>>, col: int, v: Seq<char>) -> Seq<
    Seq<Seq<char>>,
> {
    rowsv.filter(|row: Seq<Seq<char>>| resolved(row, col) == v)
}

/// The rows of `es` whose cells show exactly `v` at position `col`, in
/// their original order.
pub open spec fn entries_with_value(es: Seq<EntryV>, col: int, v: Seq<char>) -> Seq<EntryV> {
    es.filter(|e: EntryV| resolved(e.cells, col) == v)
}

/// Filtering distributes over concatenation.
proof fn lemma_filter_concat<T>(a: Seq<T>, b: Seq<T>, pred: spec_fn(T) -> bool)
    ensures
        (a + b).filter(pred) == a.filter(pred) + b.filter(pred),
    decreases b.len(),
{
    reveal(Seq::filter);
    if b.len() == 0 {
        assert(a + b =~= a);
        assert((a + b).filter(pred) =~= a.filter(pred) + b.filter(pred));
    } else {
        assert((a + b).drop_last() =~= a + b.drop_last());
        assert((a + b).last() == b.last());
        lemma_filter_concat(a, b.drop_last(), pred);
        assert((a + b).filter(pred) =~= a.filter(pred) + b.filter(pred));
    }
}

/// A sequence none of whose elements matches filters to nothing.
proof fn lemma_filter_none<T>(s: Seq<T>, pred: spec_fn(T) -> bool)
    requires
        forall|i: int| 0 <= i < s.len() ==> !pred(#[trigger] s[i]),
    ensures
        s.filter(pred) == Seq::<T>::empty(),
    decreases s.len(),
{
    reveal(Seq::filter);
    if s.len() > 0 {
        lemma_filter_none(s.drop_last(), pred);
        assert(s.filter(pred) =~= Seq::<T>::empty());
    }
}

pub open spec fn sorted_by_col(rowsv: Seq<Seq<Seq<char>>>, col: int) -> bool {
    forall|i: int, j: int|
        0 <= i < j < rowsv.len() ==> lex_le(
            resolved(#[trigger] rowsv[i], col),
            resolved(#[trigger] rowsv[j], col),
        )
}

/// Inserting an element anywhere adds exactly that element to the
/// sequence's multiset.
proof fn lemma_insert_multiset<T>(s: Seq<T>, p: int, x: T)
    requires
        0 <= p <= s.len(),
    ensures
        s.insert(p, x).to_multiset() == s.to_multiset().insert(x),
{
    broadcast use vstd::seq_lib::group_to_multiset_ensures;

    let t = s.insert(p, x);
    assert(t.remove(p) =~= s);
    assert(t[p] == x);
    assert(t.to_multiset().count(x) > 0);
    assert(t.remove(p).to_multiset() == t.to_multiset().remove(t[p]));
    assert(t.to_multiset() =~= s.to_multiset().insert(x));
}

/// The value `row` shows at position `col`, as a borrowed slice.
fn resolved_cell<'a>(row: &'a Vec<String>, col: usize) -> (r: &'a str)
    ensures
        r@ == resolved(row.deep_view(), col as int),
{
    if col < row.len() {
        let r = row[col].as_str();
        proof {
            assert(r@ == row.deep_view()[col as int]);
        }
        r
    } else {
        let r = "";
        proof {
            reveal_strlit("");
            assert(r@ =~= resolved(row.deep_view(), col as int));
        }
        r
    }
}

/// The first position of `out` whose resolved value at `col` lies above
/// `x`'s: inserting there keeps earlier ties ahead of `x`.
fn find_insert_pos(out: &Vec<Vec<String>>, x: &Vec<String>, col: usize) -> (p: usize)
    ensures
        p <= out@.len(),
        forall|j: int|
            0 <= j < p ==> lex_le(
                resolved(#[trigger] out.deep_view()[j], col as int),
                resolved(x.deep_view(), col as int),
            ),
        p < out@.len() ==> !lex_le(
            resolved(out.deep_view()[p as int], col as int),
            resolved(x.deep_view(), col as int),
        ),
{
    let n = out.len();
    let xv = resolved_cell(x, col);
    let mut p: usize = 0;
    while p < n
        invariant
            p <= n,
            n == out@.len(),
            xv@ == resolved(x.deep_view(), col as int),
            forall|j: int|
                0 <= j < p ==> lex_le(
                    resolved(#[trigger] out.deep_view()[j], col as int),
                    resolved(x.deep_view(), col as int),
                ),
        decreases n - p,
    {
        let ov = resolved_cell(&out[p], col);
        proof {
            assert(out@[p as int].deep_view() == out.deep_view()[p as int]);
        }
        if !str_le(ov, xv) {
            return p;
        }
        p += 1;
    }
    p
}

impl Table {
    /// Sorts the given rows by their value in the column named
    /// `column_name`, stably and in non-decreasing lexicographic order;
    /// rows that cannot reach the column sort as the empty string, hence
    /// first. Stability is the last clause: for every value, the rows
    /// carrying it come out in their input order. An unknown column name
    /// returns the rows unchanged.
    pub fn sort_rows_by_column(&self, rows: Vec<Vec<String>>, column_name: &str) -> (r: Vec<
        Vec<String>,
    >)
        ensures
            !self@.has_column(column_name@) ==> r == rows,
            self@.has_column(column_name@) ==> {
                &&& r.deep_view().to_multiset() == rows.deep_view().to_multiset()
                &&& r@.len() == rows@.len()
                &&& sorted_by_col(r.deep_view(), self@.col_of(column_name@))
                &&& forall|v: Seq<char>| #[trigger] rows_with_value(
                    r.deep_view(),
                    self@.col_of(column_name@),
                    v,
                ) == rows_with_value(rows.deep_view(), self@.col_of(column_name@), v)
            },
    {
        let col = match self.field_to_index(column_name) {
            None => {
                return rows;
            },
            Some(c) => c,
        };
        let ghost orig = rows.deep_view();
        let mut rest = rows;
        let mut out: Vec<Vec<String>> = Vec::new();
        proof {
            broadcast use vstd::seq_lib::group_to_multiset_ensures;

            assert(rest.deep_view() =~= orig);
            assert(rest.deep_view() =~= orig.skip(0));
            assert(forall|y: Seq<Seq<char>>| !out.deep_view().contains(y));
            assert(out.deep_view().to_multiset().add(rest.deep_view().to_multiset())
                =~= orig.to_multiset());
            assert forall|v: Seq<char>| #[trigger] rows_with_value(out.deep_view(), col as int, v)
                == rows_with_value(orig.take(0), col as int, v) by {
                reveal(Seq::filter);
                assert(out.deep_view() =~= orig.take(0));
            }
        }
        while rest.len() > 0
            invariant
                sorted_by_col(out.deep_view(), col as int),
                out.deep_view().to_multiset().add(rest.deep_view().to_multiset())
                    == orig.to_multiset(),
                out@.len() + rest@.len() == orig.len(),
                rest.deep_view() == orig.skip(out@.len() as int),
                forall|v: Seq<char>| #[trigger] rows_with_value(out.deep_view(), col as int, v)
                    == rows_with_value(orig.take(out@.len() as int), col as int, v),
            decreases rest@.len(),
        {
            broadcast use vstd::seq_lib::group_to_multiset_ensures;

            let ghost pre_rest = rest.deep_view();
            let ghost pre_out = out.deep_view();
            let x = rest.remove(0);
            proof {
                assert(x.deep_view() == pre_rest[0]);
                assert(rest.deep_view() =~= pre_rest.remove(0));
                assert(rest.deep_view().to_multiset() == pre_rest.to_multiset().remove(
                    pre_rest[0],
                ));
            }
            let p = find_insert_pos(&out, &x, col);
            out.insert(p, x);
            proof {
                let d = pre_out.len() as int;
                assert(pre_rest[0] == orig[d]);
                assert(rest.deep_view() =~= orig.skip(d + 1));
                assert(out.deep_view() =~= pre_out.insert(p as int, pre_rest[0]));
                lemma_insert_multiset(pre_out, p as int, pre_rest[0]);
                assert(pre_rest.to_multiset().count(pre_rest[0]) > 0);
                assert(out.deep_view().to_multiset().add(rest.deep_view().to_multiset())
                    =~= orig.to_multiset());
                let xr = resolved(pre_rest[0], col as int);
                assert forall|i: int, j: int|
                    0 <= i < j < out.deep_view().len() implies lex_le(
                    resolved(#[trigger] out.deep_view()[i], col as int),
                    resolved(#[trigger] out.deep_view()[j], col as int),
                ) by {
                    let ov = out.deep_view();
                    if j < p {
                        assert(ov[i] == pre_out[i] && ov[j] == pre_out[j]);
                    } else if i < p && j == p {
                        assert(ov[i] == pre_out[i] && ov[j] == pre_rest[0]);
                    } else if i < p && j > p {
                        assert(ov[i] == pre_out[i] && ov[j] == pre_out[j - 1]);
                    } else if i == p {
                        assert(ov[i] == pre_rest[0] && ov[j] == pre_out[j - 1]);
                        assert(!lex_le(resolved(pre_out[p as int], col as int), xr));
                        lemma_lex_total(resolved(pre_out[p as int], col as int), xr);
                        if j - 1 > p {
                            lemma_lex_trans(
                                xr,
                                resolved(pre_out[p as int], col as int),
                                resolved(pre_out[j - 1], col as int),
                            );
                        }
                    } else {
                        assert(ov[i] == pre_out[i - 1] && ov[j] == pre_out[j - 1]);
                    }
                }
                assert(orig.take(d + 1) =~= orig.take(d).push(pre_rest[0]));
                assert forall|v: Seq<char>| #[trigger] rows_with_value(
                    out.deep_view(),
                    col as int,
                    v,
                ) == rows_with_value(orig.take(d + 1), col as int, v) by {
                    reveal(Seq::filter);
                    let predv = |row: Seq<Seq<char>>| resolved(row, col as int) == v;
                    assert(rows_with_value(pre_out, col as int, v) == pre_out.filter(predv));
                    assert(rows_with_value(pre_out, col as int, v) == rows_with_value(
                        orig.take(d),
                        col as int,
                        v,
                    ));
                    let left = pre_out.take(p as int);
                    let right = pre_out.skip(p as int);
                    assert(pre_out =~= left + right);
                    lemma_filter_concat(left, right, predv);
                    assert(out.deep_view() =~= (left + seq![pre_rest[0]]) + right);
                    lemma_filter_concat(left + seq![pre_rest[0]], right, predv);
                    lemma_filter_concat(left, seq![pre_rest[0]], predv);
                    assert(seq![pre_rest[0]].drop_last() =~= Seq::<Seq<Seq<char>>>::empty());
                    assert(seq![pre_rest[0]].last() == pre_rest[0]);
                    assert(Seq::<Seq<Seq<char>>>::empty().filter(predv)
                        == Seq::<Seq<Seq<char>>>::empty());
                    assert(orig.take(d + 1).drop_last() =~= orig.take(d));
                    assert(orig.take(d + 1).last() == pre_rest[0]);
                    if predv(pre_rest[0]) {
                        assert(seq![pre_rest[0]].filter(predv) =~= seq![pre_rest[0]]);
                        assert forall|q: int| 0 <= q < right.len() implies !predv(
                            #[trigger] right[q],
                        ) by {
                            assert(right[q] == pre_out[p + q]);
                            if resolved(pre_out[p + q], col as int) == v {
                                crate::text::lemma_lex_refl(xr);
                                if q > 0 {
                                    assert(lex_le(
                                        resolved(pre_out[p as int], col as int),
                                        resolved(pre_out[p + q], col as int),
                                    ));
                                }
                                assert(lex_le(resolved(pre_out[p as int], col as int), xr));
                            }
                        }
                        lemma_filter_none(right, predv);
                        assert(out.deep_view().filter(predv) =~= left.filter(predv) + seq![
                            pre_rest[0]
                        ]);
                        assert(pre_out.filter(predv) =~= left.filter(predv));
                        assert(out.deep_view().filter(predv) =~= pre_out.filter(predv).push(
                            pre_rest[0],
                        ));
                        assert(orig.take(d + 1).filter(predv) =~= orig.take(d).filter(predv).push(
                            pre_rest[0],
                        ));
                        assert(rows_with_value(out.deep_view(), col as int, v)
                            =~= rows_with_value(orig.take(d + 1), col as int, v));
                    } else {
                        assert(seq![pre_rest[0]].filter(predv) =~= Seq::<Seq<Seq<char>>>::empty());
                        assert(out.deep_view().filter(predv) =~= pre_out.filter(predv));
                        assert(orig.take(d + 1).filter(predv) =~= orig.take(d).filter(predv));
                        assert(rows_with_value(out.deep_view(), col as int, v)
                            =~= rows_with_value(orig.take(d + 1), col as int, v));
                    }
                }
            }
        }
        proof {
            broadcast use vstd::seq_lib::group_to_multiset_ensures;

            assert(forall|y: Seq<Seq<char>>| !rest.deep_view().contains(y));
            assert(out.deep_view().to_multiset() =~= orig.to_multiset());
            assert forall|v: Seq<char>| #[trigger] rows_with_value(out.deep_view(), col as int, v)
                == rows_with_value(orig, col as int, v) by {
                assert(orig.take(orig.len() as int) =~= orig);
            }
        }
        out
    }
}

/// Whether two rows hold the same cells, cell for cell.
pub fn row_eq(a: &Vec<String>, b: &Vec<String>) -> (r: bool)
    ensures
        r == (a.deep_view() == b.deep_view()),
{
    let n = a.len();
    if n != b.len() {
        proof {
            assert(a.deep_view().len() != b.deep_view().len());
        }
        return false;
    }
    let mut i: usize = 0;
    while i < n
        invariant
            n == a@.len(),
            n == b@.len(),
            forall|j: int| 0 <= j < i ==> a.deep_view()[j] == b.deep_view()[j],
        decreases n - i,
    {
        if !crate::text::str_eq(a[i].as_str(), b[i].as_str()) {
            proof {
                assert(a.deep_view()[i as int] != b.deep_view()[i as int]);
            }
            return false;
        }
        proof {
            assert(a.deep_view()[i as int] == b.deep_view()[i as int]);
        }
        i += 1;
    }
    proof {
        assert(a.deep_view() =~= b.deep_view());
    }
    true
}

/// Whether `cells` equals one of the given row snapshots.
fn row_in_set(rows: &Vec<Vec<String>>, cells: &Vec<String>) -> (r: bool)
    ensures
        r == rows.deep_view().contains(cells.deep_view()),
{
    let n = rows.len();
    let mut i: usize = 0;
    while i < n
        invariant
            n == rows@.len(),
            forall|j: int| 0 <= j < i ==> rows.deep_view()[j] != cells.deep_view(),
        decreases n - i,
    {
        if row_eq(&rows[i], cells) {
            proof {
                assert(rows.deep_view()[i as int] == cells.deep_view());
            }
            return true;
        }
        proof {
            assert(rows.deep_view()[i as int] != cells.deep_view());
        }
        i += 1;
    }
    proof {
        assert(!rows.deep_view().contains(cells.deep_view()));
    }
    false
}

/// Filtering distinct-keyed, bounded-key rows by any predicate keeps the
/// keys distinct and bounded.
proof fn lemma_filter_keeps_wf(es: Seq<EntryV>, latest: usize, pred: spec_fn(EntryV) -> bool)
    requires
        forall|a: int, b: int|
            0 <= a < b < es.len() ==> (#[trigger] es[a]).key != (#[trigger] es[b]).key,
        forall|a: int| 0 <= a < es.len() ==> 1 <= (#[trigger] es[a]).key <= latest,
    ensures
        forall|a: int, b: int|
            0 <= a < b < es.filter(pred).len() ==> (#[trigger] es.filter(pred)[a]).key != (
            #[trigger] es.filter(pred)[b]).key,
        forall|a: int|
            0 <= a < es.filter(pred).len() ==> 1 <= (#[trigger] es.filter(pred)[a]).key <= latest,
{
    lemma_filter_of_distinct(es, pred);
    assert forall|a: int| 0 <= a < es.filter(pred).len() implies 1 <= (#[trigger] es.filter(
        pred,
    )[a]).key <= latest by {
        lemma_filter_elem(es, pred, a);
        let i = choose|i: int| 0 <= i < es.len() && es[i] == es.filter(pred)[a];
        assert(1 <= es[i].key <= latest);
    }
}

impl Table {
    /// Keeps only the rows whose current cell contents equal one of the
    /// given snapshots — a value-based filter: two rows with identical
    /// cells are indistinguishable to it, so duplicate-content rows are
    /// kept or dropped together. Keys, timestamps, schema, name and shard
    /// tag of the surviving rows are untouched.
    pub fn retain(&mut self, rows: Vec<Vec<String>>)
        requires
            old(self)@.wf(),
        ensures
            final(self)@.wf(),
            final(self)@ == (TableV {
                entries: old(self)@.entries.filter(
                    |e: EntryV| rows.deep_view().contains(e.cells),
                ),
                ..old(self)@
            }),
    {
        let ghost pred = |e: EntryV| rows.deep_view().contains(e.cells);
        let n = self.entries.len();
        let mut kept: Vec<Entry> = Vec::new();
        let mut i: usize = 0;
        proof {
            reveal(Seq::filter);
            assert(self@.entries.take(0) =~= Seq::<EntryV>::empty());
        }
        while i < n
            invariant
                i <= n,
                n == self.entries@.len(),
                pred == (|e: EntryV| rows.deep_view().contains(e.cells)),
                kept@.map_values(|e: Entry| e@) == self@.entries.take(i as int).filter(pred),
            decreases n - i,
        {
            let keep = row_in_set(&rows, &self.entries[i].cells);
            proof {
                reveal(Seq::filter);
                let pre = self@.entries.take(i as int);
                let post = self@.entries.take(i + 1);
                assert(post.drop_last() =~= pre);
                assert(post.last() == self@.entries[i as int]);
                assert(self@.entries[i as int] == self.entries@[i as int]@);
                assert(pred(self@.entries[i as int]) == rows.deep_view().contains(
                    self.entries@[i as int]@.cells,
                ));
            }
            if keep {
                let e = Entry {
                    key: self.entries[i].key,
                    timestamp: self.entries[i].timestamp,
                    cells: clone_row(&self.entries[i].cells),
                };
                proof {
                    assert(e@ =~~= self@.entries[i as int]);
                }
                kept.push(e);
                proof {
                    assert(kept@.map_values(|e2: Entry| e2@) =~= self@.entries.take(i + 1).filter(
                        pred,
                    ));
                }
            } else {
                proof {
                    assert(kept@.map_values(|e2: Entry| e2@) =~= self@.entries.take(i + 1).filter(
                        pred,
                    ));
                }
            }
            i += 1;
        }
        self.entries = kept;
        proof {
            assert(old(self)@.entries.take(n as int) =~= old(self)@.entries);
            lemma_filter_keeps_wf(old(self)@.entries, old(self)@.latest, pred);
            assert(self@ =~~= (TableV {
                entries: old(self)@.entries.filter(pred),
                ..old(self)@
            }));
        }
    }
}

/// The cells a sub-table row keeps: one cell per requested name, in
/// request order — the parent row's resolved cell at the name's first
/// position, or the empty string for a name the parent registry does not
/// know. Every projected row therefore matches the sub-table's registry
/// width, as the data model demands of every row.
pub open spec fn sub_row(cols: Seq<Seq<char>>, names: Seq<Seq<char>>, cells: Seq<Seq<char>>) -> Seq<
    Seq<char>,
> {
    names.map_values(
        |nm: Seq<char>|
            if col_exists(cols, nm) {
                resolved(cells, col_first(cols, nm))
            } else {
                Seq::<char>::empty()
            },
    )
}

impl Table {
    /// The cells of `cells` under the requested column names.
    fn project_row(&self, names: &Vec<&str>, cells: &Vec<String>) -> (r: Vec<String>)
        ensures
            r.deep_view() == sub_row(self@.columns, names.deep_view(), cells.deep_view()),
            r@.len() == names@.len(),
    {
        let ghost res = |nm: Seq<char>|
            if col_exists(self@.columns, nm) {
                resolved(cells.deep_view(), col_first(self@.columns, nm))
            } else {
                Seq::<char>::empty()
            };
        let m = names.len();
        let mut out: Vec<String> = Vec::new();
        proof {
            assert(names.deep_view().take(0) =~= Seq::<Seq<char>>::empty());
            assert(out.deep_view() =~= names.deep_view().take(0).map_values(res));
        }
        let mut k: usize = 0;
        while k < m
            invariant
                k <= m,
                m == names@.len(),
                out@.len() == k,
                res == (|nm: Seq<char>|
                    if col_exists(self@.columns, nm) {
                        resolved(cells.deep_view(), col_first(self@.columns, nm))
                    } else {
                        Seq::<char>::empty()
                    }),
                out.deep_view() == names.deep_view().take(k as int).map_values(res),
            decreases m - k,
        {
            let ghost pre = names.deep_view().take(k as int);
            let ghost post = names.deep_view().take(k + 1);
            proof {
                assert(post =~= pre.push(names.deep_view()[k as int]));
                assert(names.deep_view()[k as int] == names@[k as int]@);
            }
            let sval = match self.field_to_index(names[k]) {
                Some(c) => {
                    let v = resolved_cell(cells, c);
                    proof {
                        lemma_first_match_unique(self@.columns, names@[k as int]@, c as int);
                    }
                    v.to_owned()
                },
                None => String::new(),
            };
            let ghost sv = sval@;
            proof {
                assert(sv == res(names.deep_view()[k as int]));
            }
            let ghost pre_out = out.deep_view();
            out.push(sval);
            proof {
                assert forall|t: int| 0 <= t < out@.len() implies out.deep_view()[t]
                    == pre_out.push(sv)[t] by {
                    assert(out.deep_view()[t] == out@[t]@);
                }
                assert(out.deep_view() =~= pre_out.push(sv));
                assert(out.deep_view() =~= post.map_values(res));
            }
            k += 1;
        }
        proof {
            assert(names.deep_view().take(m as int) =~= names.deep_view());
        }
        out
    }

    /// A fresh table holding, for every row of this one in storage order,
    /// its cells projected onto the requested column names: exactly those
    /// columns, in the requested order, cloned from the source, with the
    /// empty string under a requested name the source registry does not
    /// know — so every projected row matches the new registry's width.
    /// Rows get fresh keys 1, 2, … and fresh timestamps; the sub-table
    /// shares no state with its source.
    pub fn create_sub_table(&self, columns: Vec<&str>) -> (r: Table)
        requires
            self@.entries.len() < usize::MAX,
        ensures
            r@.wf(),
            r@.shard is None,
            r@.name is None,
            r@.latest == self@.entries.len(),
            r@.entries.len() == self@.entries.len(),
            forall|j: int|
                0 <= j < self@.entries.len() ==> (#[trigger] r@.entries[j]).cells == sub_row(
                    self@.columns,
                    columns.deep_view(),
                    self@.entries[j].cells,
                ) && r@.entries[j].key == j + 1,
            columns@.len() > 0 ==> r@.columns == columns.deep_view(),
            columns@.len() == 0 ==> r@.columns.len() == 0,
    {
        let mut sub = Table::new();
        let m = columns.len();
        let mut k: usize = 0;
        while k < m
            invariant
                k <= m,
                m == columns@.len(),
                sub@.wf(),
                sub@.columns == columns.deep_view().take(k as int),
                sub@.entries.len() == 0,
                sub@.latest == 0,
                sub@.shard is None,
                sub@.name is None,
            decreases m - k,
        {
            sub.add_column(columns[k].to_owned());
            proof {
                assert(sub@.columns =~= columns.deep_view().take(k + 1));
            }
            k += 1;
        }
        proof {
            assert(columns.deep_view().take(m as int) =~= columns.deep_view());
        }
        let n = self.entries.len();
        let mut j: usize = 0;
        while j < n
            invariant
                j <= n,
                n == self@.entries.len(),
                n < usize::MAX,
                sub@.wf(),
                sub@.latest == j,
                sub@.entries.len() == j,
                sub@.shard is None,
                sub@.name is None,
                forall|i: int|
                    0 <= i < j ==> (#[trigger] sub@.entries[i]).cells == sub_row(
                        self@.columns,
                        columns.deep_view(),
                        self@.entries[i].cells,
                    ) && sub@.entries[i].key == i + 1,
                columns@.len() > 0 ==> sub@.columns == columns.deep_view(),
                columns@.len() == 0 ==> sub@.columns.len() == 0,
            decreases n - j,
        {
            let row = self.project_row(&columns, &self.entries[j].cells);
            proof {
                assert(self.entries@[j as int]@.cells == self@.entries[j as int].cells);
            }
            sub.add_row(row);
            j += 1;
        }
        sub
    }

    /// Replaces this table's schema and rows with its own projection onto
    /// the requested column names, as [`Table::create_sub_table`] builds
    /// it; the name and shard tag stay, and the key counter never moves
    /// backwards.
    pub fn into_sub_table(&mut self, columns: Vec<&str>)
        requires
            old(self)@.wf(),
            old(self)@.entries.len() < usize::MAX,
        ensures
            final(self)@.wf(),
            final(self)@.name == old(self)@.name,
            final(self)@.shard == old(self)@.shard,
            final(self)@.entries.len() == old(self)@.entries.len(),
            forall|j: int|
                0 <= j < old(self)@.entries.len() ==> (#[trigger] final(self)@.entries[j]).cells
                    == sub_row(
                    old(self)@.columns,
                    columns.deep_view(),
                    old(self)@.entries[j].cells,
                ) && final(self)@.entries[j].key == j + 1,
            columns@.len() > 0 ==> final(self)@.columns == columns.deep_view(),
            columns@.len() == 0 ==> final(self)@.columns.len() == 0,
            final(self)@.latest == if old(self)@.latest as int >= old(self)@.entries.len() {
                old(self)@.latest as int
            } else {
                old(self)@.entries.len() as int
            },
    {
        let sub = self.create_sub_table(columns);
        self.columns = sub.columns;
        self.entries = sub.entries;
        if self.latest_row < sub.latest_row {
            self.latest_row = sub.latest_row;
        }
    }
}

/// Rows (with their keys and timestamps) in non-decreasing order of their
/// resolved value at position `col`.
pub open spec fn sorted_entries(es: Seq<EntryV>, col: int) -> bool {
    forall|i: int, j: int|
        0 <= i < j < es.len() ==> lex_le(
            resolved((#[trigger] es[i]).cells, col),
            resolved((#[trigger] es[j]).cells, col),
        )
}

/// Rearranging distinct-keyed rows keeps the keys distinct: no row can
/// occur more often than before, and rows with one key are one row.
proof fn lemma_permutation_distinct_keys(a: Seq<EntryV>, b: Seq<EntryV>)
    requires
        a.to_multiset() == b.to_multiset(),
        forall|i: int, j: int|
            0 <= i < j < a.len() ==> (#[trigger] a[i]).key != (#[trigger] a[j]).key,
    ensures
        forall|i: int, j: int|
            0 <= i < j < b.len() ==> (#[trigger] b[i]).key != (#[trigger] b[j]).key,
{
    broadcast use vstd::seq_lib::group_to_multiset_ensures;

    assert(a.no_duplicates()) by {
        assert forall|i: int, j: int|
            0 <= i < a.len() && 0 <= j < a.len() && i != j implies a[i] != a[j] by {
            if i < j {
                assert(a[i].key != a[j].key);
            } else {
                assert(a[j].key != a[i].key);
            }
        }
    }
    a.lemma_multiset_has_no_duplicates();
    b.lemma_multiset_has_no_duplicates_conv();
    assert forall|i: int, j: int|
        0 <= i < j < b.len() implies (#[trigger] b[i]).key != (#[trigger] b[j]).key by {
        assert(b[i] != b[j]);
        if b[i].key == b[j].key {
            assert(b.contains(b[i]) && b.contains(b[j]));
            assert(b.to_multiset().count(b[i]) > 0 && b.to_multiset().count(b[j]) > 0);
            assert(a.to_multiset().count(b[i]) > 0 && a.to_multiset().count(b[j]) > 0);
            assert(a.contains(b[i]) && a.contains(b[j]));
            let k1 = choose|k: int| 0 <= k < a.len() && a[k] == b[i];
            let k2 = choose|k: int| 0 <= k < a.len() && a[k] == b[j];
            assert(k1 != k2);
            if k1 < k2 {
                assert(a[k1].key != a[k2].key);
            } else {
                assert(a[k2].key != a[k1].key);
            }
        }
    }
}

/// Rearranging distinct-keyed, bounded-key rows keeps the keys distinct
/// and bounded: every row of the rearrangement is a row of the original.
proof fn lemma_permutation_keeps_keys(a: Seq<EntryV>, b: Seq<EntryV>, latest: usize)
    requires
        a.to_multiset() == b.to_multiset(),
        forall|i: int, j: int|
            0 <= i < j < a.len() ==> (#[trigger] a[i]).key != (#[trigger] a[j]).key,
        forall|i: int| 0 <= i < a.len() ==> 1 <= (#[trigger] a[i]).key <= latest,
    ensures
        forall|i: int, j: int|
            0 <= i < j < b.len() ==> (#[trigger] b[i]).key != (#[trigger] b[j]).key,
        forall|i: int| 0 <= i < b.len() ==> 1 <= (#[trigger] b[i]).key <= latest,
{
    broadcast use vstd::seq_lib::group_to_multiset_ensures;

    lemma_permutation_distinct_keys(a, b);
    assert forall|i: int| 0 <= i < b.len() implies 1 <= (#[trigger] b[i]).key <= latest by {
        assert(b.contains(b[i]));
        assert(b.to_multiset().count(b[i]) > 0);
        assert(a.to_multiset().count(b[i]) > 0);
        assert(a.contains(b[i]));
        let k = choose|k: int| 0 <= k < a.len() && a[k] == b[i];
        assert(1 <= a[k].key <= latest);
    }
}

/// The first position of `out` whose row's resolved value at `col` lies
/// above `x`'s.
fn find_insert_pos_entry(out: &Vec<Entry>, x: &Entry, col: usize) -> (p: usize)
    ensures
        p <= out@.len(),
        forall|j: int|
            0 <= j < p ==> lex_le(
                resolved((#[trigger] out@[j]@).cells, col as int),
                resolved(x@.cells, col as int),
            ),
        p < out@.len() ==> !lex_le(
            resolved(out@[p as int]@.cells, col as int),
            resolved(x@.cells, col as int),
        ),
{
    let n = out.len();
    let xv = resolved_cell(&x.cells, col);
    let mut p: usize = 0;
    while p < n
        invariant
            p <= n,
            n == out@.len(),
            xv@ == resolved(x@.cells, col as int),
            forall|j: int|
                0 <= j < p ==> lex_le(
                    resolved((#[trigger] out@[j]@).cells, col as int),
                    resolved(x@.cells, col as int),
                ),
        decreases n - p,
    {
        let ov = resolved_cell(&out[p].cells, col);
        proof {
            assert(out@[p as int]@.cells == out@[p as int].cells.deep_view());
        }
        if !str_le(ov, xv) {
            return p;
        }
        p += 1;
    }
    p
}

impl Table {
    /// Sorts the stored rows in place by their value in the column named
    /// `column_name`, stably and in non-decreasing lexicographic order;
    /// the rows keep their keys and timestamps, and the schema, name,
    /// shard tag and key counter are untouched. An unknown column name
    /// changes nothing.
    pub fn sort_by_column(&mut self, column_name: &str)
        requires
            old(self)@.wf(),
        ensures
            final(self)@.wf(),
            !old(self)@.has_column(column_name@) ==> final(self)@ == old(self)@,
            old(self)@.has_column(column_name@) ==> {
                &&& final(self)@.entries.to_multiset() == old(self)@.entries.to_multiset()
                &&& final(self)@.entries.len() == old(self)@.entries.len()
                &&& sorted_entries(final(self)@.entries, old(self)@.col_of(column_name@))
                &&& forall|v: Seq<char>| #[trigger] entries_with_value(
                    final(self)@.entries,
                    old(self)@.col_of(column_name@),
                    v,
                ) == entries_with_value(old(self)@.entries, old(self)@.col_of(column_name@), v)
                &&& final(self)@.columns == old(self)@.columns
                &&& final(self)@.name == old(self)@.name
                &&& final(self)@.shard == old(self)@.shard
                &&& final(self)@.latest == old(self)@.latest
            },
    {
        broadcast use vstd::seq_lib::group_to_multiset_ensures;

        let col = match self.field_to_index(column_name) {
            None => {
                return ;
            },
            Some(c) => c,
        };
        let ghost orig = old(self)@.entries;
        let mut rest: Vec<Entry> = Vec::new();
        core::mem::swap(&mut self.entries, &mut rest);
        let mut out: Vec<Entry> = Vec::new();
        proof {
            assert(rest@.map_values(|e: Entry| e@) =~= orig);
            let out0 = out@.map_values(|e: Entry| e@);
            assert(out0.len() == 0);
            assert(forall|y: EntryV| !out0.contains(y));
            assert(out0.to_multiset().add(rest@.map_values(|e: Entry| e@).to_multiset())
                =~= orig.to_multiset());
            assert(rest@.map_values(|e: Entry| e@) =~= orig.skip(0));
            assert forall|v: Seq<char>| #[trigger] entries_with_value(out0, col as int, v)
                == entries_with_value(orig.take(0), col as int, v) by {
                reveal(Seq::filter);
                assert(out0 =~= orig.take(0));
            }
        }
        while rest.len() > 0
            invariant
                self.name == old(self).name,
                self.latest_row == old(self).latest_row,
                self.shard == old(self).shard,
                self.columns == old(self).columns,
                sorted_entries(out@.map_values(|e: Entry| e@), col as int),
                out@.map_values(|e: Entry| e@).to_multiset().add(
                    rest@.map_values(|e: Entry| e@).to_multiset(),
                ) == orig.to_multiset(),
                out@.len() + rest@.len() == orig.len(),
                rest@.map_values(|e: Entry| e@) == orig.skip(out@.len() as int),
                ({
                    let ov = out@.map_values(|e: Entry| e@);
                    forall|v: Seq<char>| #[trigger] entries_with_value(ov, col as int, v)
                        == entries_with_value(orig.take(out@.len() as int), col as int, v)
                }),
            decreases rest@.len(),
        {
            broadcast use vstd::seq_lib::group_to_multiset_ensures;

            let ghost pre_rest = rest@.map_values(|e: Entry| e@);
            let ghost pre_out = out@.map_values(|e: Entry| e@);
            let x = rest.remove(0);
            proof {
                assert(x@ == pre_rest[0]);
                assert(rest@.map_values(|e: Entry| e@) =~= pre_rest.remove(0));
                assert(rest@.map_values(|e: Entry| e@).to_multiset() == pre_rest.to_multiset()
                    .remove(pre_rest[0]));
            }
            let p = find_insert_pos_entry(&out, &x, col);
            out.insert(p, x);
            proof {
                let d = pre_out.len() as int;
                assert(pre_rest[0] == orig[d]);
                assert(rest@.map_values(|e: Entry| e@) =~= orig.skip(d + 1));
                assert(out@.map_values(|e: Entry| e@) =~= pre_out.insert(p as int, pre_rest[0]));
                lemma_insert_multiset(pre_out, p as int, pre_rest[0]);
                assert(pre_rest.to_multiset().count(pre_rest[0]) > 0);
                assert(out@.map_values(|e: Entry| e@).to_multiset().add(
                    rest@.map_values(|e: Entry| e@).to_multiset(),
                ) =~= orig.to_multiset());
                let xr = resolved(pre_rest[0].cells, col as int);
                let ov = out@.map_values(|e: Entry| e@);
                assert forall|i: int, j: int|
                    0 <= i < j < ov.len() implies lex_le(
                    resolved((#[trigger] ov[i]).cells, col as int),
                    resolved((#[trigger] ov[j]).cells, col as int),
                ) by {
                    if j < p {
                        assert(ov[i] == pre_out[i] && ov[j] == pre_out[j]);
                    } else if i < p && j == p {
                        assert(ov[i] == pre_out[i] && ov[j] == pre_rest[0]);
                    } else if i < p && j > p {
                        assert(ov[i] == pre_out[i] && ov[j] == pre_out[j - 1]);
                    } else if i == p {
                        assert(ov[i] == pre_rest[0] && ov[j] == pre_out[j - 1]);
                        assert(!lex_le(resolved(pre_out[p as int].cells, col as int), xr));
                        lemma_lex_total(resolved(pre_out[p as int].cells, col as int), xr);
                        if j - 1 > p {
                            lemma_lex_trans(
                                xr,
                                resolved(pre_out[p as int].cells, col as int),
                                resolved(pre_out[j - 1].cells, col as int),
                            );
                        }
                    } else {
                        assert(ov[i] == pre_out[i - 1] && ov[j] == pre_out[j - 1]);
                    }
                }
                assert(orig.take(d + 1) =~= orig.take(d).push(pre_rest[0]));
                assert forall|v: Seq<char>| #[trigger] entries_with_value(ov, col as int, v)
                    == entries_with_value(orig.take(d + 1), col as int, v) by {
                    reveal(Seq::filter);
                    let predv = |e: EntryV| resolved(e.cells, col as int) == v;
                    assert(entries_with_value(pre_out, col as int, v) == pre_out.filter(predv));
                    assert(entries_with_value(pre_out, col as int, v) == entries_with_value(
                        orig.take(d),
                        col as int,
                        v,
                    ));
                    let left = pre_out.take(p as int);
                    let right = pre_out.skip(p as int);
                    assert(pre_out =~= left + right);
                    lemma_filter_concat(left, right, predv);
                    assert(ov =~= (left + seq![pre_rest[0]]) + right);
                    lemma_filter_concat(left + seq![pre_rest[0]], right, predv);
                    lemma_filter_concat(left, seq![pre_rest[0]], predv);
                    assert(seq![pre_rest[0]].drop_last() =~= Seq::<EntryV>::empty());
                    assert(seq![pre_rest[0]].last() == pre_rest[0]);
                    assert(Seq::<EntryV>::empty().filter(predv) == Seq::<EntryV>::empty());
                    assert(orig.take(d + 1).drop_last() =~= orig.take(d));
                    assert(orig.take(d + 1).last() == pre_rest[0]);
                    if predv(pre_rest[0]) {
                        assert(seq![pre_rest[0]].filter(predv) =~= seq![pre_rest[0]]);
                        assert forall|q: int| 0 <= q < right.len() implies !predv(
                            #[trigger] right[q],
                        ) by {
                            assert(right[q] == pre_out[p + q]);
                            if resolved(pre_out[p + q].cells, col as int) == v {
                                crate::text::lemma_lex_refl(xr);
                                if q > 0 {
                                    assert(lex_le(
                                        resolved(pre_out[p as int].cells, col as int),
                                        resolved(pre_out[p + q].cells, col as int),
                                    ));
                                }
                                assert(lex_le(resolved(pre_out[p as int].cells, col as int), xr));
                            }
                        }
                        lemma_filter_none(right, predv);
                        assert(ov.filter(predv) =~= left.filter(predv) + seq![pre_rest[0]]);
                        assert(pre_out.filter(predv) =~= left.filter(predv));
                        assert(ov.filter(predv) =~= pre_out.filter(predv).push(pre_rest[0]));
                        assert(orig.take(d + 1).filter(predv) =~= orig.take(d).filter(predv).push(
                            pre_rest[0],
                        ));
                        assert(entries_with_value(ov, col as int, v) =~= entries_with_value(
                            orig.take(d + 1),
                            col as int,
                            v,
                        ));
                    } else {
                        assert(seq![pre_rest[0]].filter(predv) =~= Seq::<EntryV>::empty());
                        assert(ov.filter(predv) =~= pre_out.filter(predv));
                        assert(orig.take(d + 1).filter(predv) =~= orig.take(d).filter(predv));
                        assert(entries_with_value(ov, col as int, v) =~= entries_with_value(
                            orig.take(d + 1),
                            col as int,
                            v,
                        ));
                    }
                }
            }
        }
        self.entries = out;
        proof {
            let rest0 = rest@.map_values(|e: Entry| e@);
            assert(rest0.len() == 0);
            assert(forall|y: EntryV| !rest0.contains(y));
            assert(self@.entries =~= out@.map_values(|e: Entry| e@));
            assert(self@.entries.to_multiset() =~= orig.to_multiset());
            assert forall|v: Seq<char>| #[trigger] entries_with_value(
                self@.entries,
                col as int,
                v,
            ) == entries_with_value(orig, col as int, v) by {
                assert(orig.take(orig.len() as int) =~= orig);
            }
            lemma_permutation_keeps_keys(orig, self@.entries, old(self)@.latest);
        }
    }
}

/// The rows a full shard-and-recombine cycle yields: every partition's
/// rows laid end to end, partition 0 first — exactly what
/// [`Table::from_shards`] stores when handed the output of
/// [`Table::to_shards`] in order.
pub open spec fn reshard_entries(es: Seq<EntryV>, n: int) -> Seq<EntryV> {
    concat_entries(Seq::new(n as nat, |s: int| shard_filter(es, n, s)))
}

/// Concatenating empty pieces yields nothing.
proof fn lemma_concat_of_empties(ess: Seq<Seq<EntryV>>)
    requires
        forall|i: int| 0 <= i < ess.len() ==> (#[trigger] ess[i]).len() == 0,
    ensures
        concat_entries(ess).len() == 0,
    decreases ess.len(),
{
    if ess.len() > 0 {
        lemma_concat_of_empties(ess.drop_last());
    }
}

/// Appending one row to one piece of a concatenation adds exactly that row
/// to the whole.
proof fn lemma_concat_update_push(ess: Seq<Seq<EntryV>>, i: int, x: EntryV)
    requires
        0 <= i < ess.len(),
    ensures
        concat_entries(ess.update(i, ess[i].push(x))).to_multiset() == concat_entries(
            ess,
        ).to_multiset().insert(x),
        concat_entries(ess.update(i, ess[i].push(x))).len() == concat_entries(ess).len() + 1,
    decreases ess.len(),
{
    broadcast use vstd::seq_lib::group_to_multiset_ensures;

    let upd = ess.update(i, ess[i].push(x));
    if i == ess.len() - 1 {
        assert(upd.drop_last() =~= ess.drop_last());
        assert(upd.last() == ess[i].push(x));
        assert(concat_entries(upd) =~= concat_entries(ess).push(x));
    } else {
        let pre = ess.drop_last();
        assert(upd.drop_last() =~= pre.update(i, pre[i].push(x)));
        assert(upd.last() == ess.last());
        lemma_concat_update_push(pre, i, x);
        vstd::seq_lib::lemma_multiset_commutative(concat_entries(upd.drop_last()), upd.last());
        vstd::seq_lib::lemma_multiset_commutative(concat_entries(pre), ess.last());
        assert(concat_entries(upd).to_multiset() =~= concat_entries(ess).to_multiset().insert(x));
    }
}

/// Shard round-trip: partitioning rows by key residue and laying the
/// partitions end to end again neither loses, duplicates nor alters a row.
/// The recombined table holds exactly the original rows — the same count,
/// and under every original key the original cells.
pub proof fn lemma_shard_round_trip(es: Seq<EntryV>, n: int)
    requires
        n >= 1,
    ensures
        reshard_entries(es, n).to_multiset() == es.to_multiset(),
        reshard_entries(es, n).len() == es.len(),
        forall|x: EntryV| reshard_entries(es, n).contains(x) <==> es.contains(x),
    decreases es.len(),
{
    broadcast use vstd::seq_lib::group_to_multiset_ensures;

    reveal(Seq::filter);
    if es.len() == 0 {
        let ess = Seq::new(n as nat, |s: int| shard_filter(es, n, s));
        assert(forall|s: int| 0 <= s < n ==> (#[trigger] ess[s]).len() == 0);
        lemma_concat_of_empties(ess);
        assert(reshard_entries(es, n).to_multiset() =~= es.to_multiset());
    } else {
        let pre = es.drop_last();
        lemma_shard_round_trip(pre, n);
        let e = es.last();
        let r = (e.key as int) % n;
        let old_ess = Seq::new(n as nat, |s: int| shard_filter(pre, n, s));
        let new_ess = Seq::new(n as nat, |s: int| shard_filter(es, n, s));
        assert forall|s: int| 0 <= s < n implies new_ess[s] == if s == r {
            old_ess[s].push(e)
        } else {
            old_ess[s]
        } by {
            assert(es.drop_last() == pre);
        }
        assert(new_ess =~= old_ess.update(r, old_ess[r].push(e)));
        lemma_concat_update_push(old_ess, r, e);
        assert(es =~= pre.push(e));
        assert(reshard_entries(es, n).to_multiset() =~= es.to_multiset());
    }
    assert forall|x: EntryV| reshard_entries(es, n).contains(x) <==> es.contains(x) by {
        assert(reshard_entries(es, n).contains(x) <==> reshard_entries(es, n).to_multiset().count(
            x,
        ) > 0);
        assert(es.contains(x) <==> es.to_multiset().count(x) > 0);
    }
}

/// Two different partitions of one shard cycle never share a key: each
/// partition's rows all leave its own remainder modulo the shard count.
/// This is what [`Table::from_shards`] asks of its input, so the output of
/// [`Table::to_shards`] always satisfies it.
pub proof fn lemma_shard_partition_keys(es: Seq<EntryV>, n: int, s1: int, s2: int)
    requires
        n >= 1,
        0 <= s1 < n,
        0 <= s2 < n,
        s1 != s2,
    ensures
        forall|a: int, b: int|
            0 <= a < shard_filter(es, n, s1).len() && 0 <= b < shard_filter(es, n, s2).len()
                ==> (#[trigger] shard_filter(es, n, s1)[a]).key != (#[trigger] shard_filter(
                es,
                n,
                s2,
            )[b]).key,
{
    let p1 = |e: EntryV| (e.key as int) % n == s1;
    let p2 = |e: EntryV| (e.key as int) % n == s2;
    assert forall|a: int, b: int|
        0 <= a < shard_filter(es, n, s1).len() && 0 <= b < shard_filter(es, n, s2).len() implies (
    #[trigger] shard_filter(es, n, s1)[a]).key != (#[trigger] shard_filter(es, n, s2)[b]).key by {
        es.lemma_filter_pred(p1, a);
        es.lemma_filter_pred(p2, b);
    }
}

/// Shard round-trip, key by key: recombining a full partition of
/// distinct-keyed rows yields a table with exactly the original keys, and
/// under every original key exactly the original row — cells, timestamp
/// and all.
pub proof fn lemma_shard_round_trip_keys(es: Seq<EntryV>, n: int)
    requires
        n >= 1,
        forall|a: int, b: int|
            0 <= a < b < es.len() ==> (#[trigger] es[a]).key != (#[trigger] es[b]).key,
    ensures
        forall|k: usize|
            #![all_triggers]
            entries_has_key(reshard_entries(es, n), k) <==> entries_has_key(es, k),
        forall|k: usize| #[trigger]
            entries_has_key(es, k) ==> entry_at(reshard_entries(es, n), k) == entry_at(es, k),
{
    broadcast use vstd::seq_lib::group_to_multiset_ensures;

    lemma_shard_round_trip(es, n);
    let re = reshard_entries(es, n);
    lemma_permutation_distinct_keys(es, re);
    assert forall|k: usize| entries_has_key(es, k) implies entries_has_key(re, k) && entry_at(
        re,
        k,
    ) == entry_at(es, k) by {
        let i = entry_idx_of(es, k);
        assert(0 <= i < es.len() && es[i].key == k);
        lemma_entry_at_unique(es, i);
        let e = es[i];
        assert(es.contains(e));
        assert(re.contains(e));
        let j = choose|j: int| 0 <= j < re.len() && re[j] == e;
        lemma_entry_at_unique(re, j);
    }
    assert forall|k: usize| entries_has_key(re, k) implies entries_has_key(es, k) by {
        let i = entry_idx_of(re, k);
        assert(0 <= i < re.len() && re[i].key == k);
        assert(re.contains(re[i]));
        assert(es.contains(re[i]));
        let j = choose|j: int| 0 <= j < es.len() && es[j] == re[i];
        assert(es[j].key == k);
    }
}

impl Table {
    /// Whether the stored state obeys the key discipline the view demands.
    fn check_wf(&self) -> (r: bool)
        ensures
            r == self@.wf(),
    {
        match &self.shard {
            Some(s) => {
                if !(1 <= s.id && s.id <= s.shards) {
                    return false;
                }
            },
            None => {},
        }
        let n = self.entries.len();
        let mut i: usize = 0;
        while i < n
            invariant
                i <= n,
                n == self@.entries.len(),
                forall|j: int|
                    0 <= j < i ==> 1 <= (#[trigger] self@.entries[j]).key <= self@.latest,
            decreases n - i,
        {
            let k = self.entries[i].key;
            proof {
                assert(self@.entries[i as int].key == self.entries@[i as int].key);
            }
            if !(1 <= k && k <= self.latest_row) {
                return false;
            }
            i += 1;
        }
        let mut a: usize = 1;
        while a < n
            invariant
                a <= n || n == 0,
                n == self@.entries.len(),
                forall|i2: int, j2: int|
                    0 <= i2 < j2 < a && j2 < n ==> (#[trigger] self@.entries[i2]).key != (
                    #[trigger] self@.entries[j2]).key,
            decreases n - a,
        {
            let mut b: usize = 0;
            while b < a
                invariant
                    b <= a < n,
                    n == self@.entries.len(),
                    forall|j: int|
                        0 <= j < b ==> (#[trigger] self@.entries[j]).key != self@.entries[
                            a as int
                        ].key,
                decreases a - b,
            {
                proof {
                    assert(self@.entries[a as int].key == self.entries@[a as int].key);
                    assert(self@.entries[b as int].key == self.entries@[b as int].key);
                }
                if self.entries[b].key == self.entries[a].key {
                    return false;
                }
                b += 1;
            }
            a += 1;
        }
        true
    }

    /// The table's full observable state — name, key counter, columns,
    /// shard tag, and every row with its key, timestamp and cells — as one
    /// self-describing byte buffer, exactly [`crate::codec::enc_table`] of
    /// this table. [`Table::read_from_bytes`] reverses it.
    pub fn save_to_bytes(&self) -> (r: Vec<u8>)
        ensures
            r@ == crate::codec::enc_table(self@),
            crate::codec::bounded(self@),
    {
        let mut buf: Vec<u8> = Vec::new();
        match &self.name {
            None => crate::codec::push_byte(&mut buf, 0),
            Some(s) => {
                crate::codec::push_byte(&mut buf, 1);
                crate::codec::push_str(&mut buf, s.as_str());
            },
        }
        let ghost g1 = crate::codec::enc_opt_str(self@.name);
        proof {
            assert(buf@ =~= g1);
        }
        crate::codec::push_u64(&mut buf, self.latest_row as u64);
        let ghost g2 = g1 + crate::codec::enc_usize(self@.latest);
        crate::codec::push_strs(&mut buf, &self.columns);
        let ghost g3 = g2 + crate::codec::enc_strs(self@.columns);
        proof {
            assert(buf@ =~= g3);
        }
        match &self.shard {
            None => crate::codec::push_byte(&mut buf, 0),
            Some(sh) => {
                crate::codec::push_byte(&mut buf, 1);
                crate::codec::push_u64(&mut buf, sh.id as u64);
                crate::codec::push_u64(&mut buf, sh.shards as u64);
            },
        }
        let ghost g4 = g3 + crate::codec::enc_opt_shard(self@.shard);
        proof {
            assert(buf@ =~= g4);
        }
        let n = self.entries.len();
        crate::codec::push_u64(&mut buf, n as u64);
        let ghost g5 = g4 + crate::codec::enc_u64(self@.entries.len() as u64);
        let mut i: usize = 0;
        while i < n
            invariant
                i <= n,
                n == self@.entries.len(),
                g5 == g4 + crate::codec::enc_u64(self@.entries.len() as u64),
                buf@ == g5 + crate::codec::enc_entries_items(self@.entries.take(i as int)),
                forall|j: int|
                    0 <= j < i ==> crate::codec::row_ok((#[trigger] self@.entries[j]).cells),
            decreases n - i,
        {
            proof {
                assert(self@.entries[i as int] == self.entries@[i as int]@);
            }
            crate::codec::push_entry(&mut buf, &self.entries[i]);
            proof {
                assert(self@.entries.take(i + 1) =~= self@.entries.take(i as int).push(
                    self@.entries[i as int],
                ));
                crate::codec::lemma_enc_entries_push(
                    self@.entries.take(i as int),
                    self@.entries[i as int],
                );
                assert(buf@ =~= g5 + crate::codec::enc_entries_items(self@.entries.take(i + 1)));
            }
            i += 1;
        }
        proof {
            assert(self@.entries.take(n as int) =~= self@.entries);
            assert(buf@ =~= crate::codec::enc_table(self@));
        }
        buf
    }

    /// Rebuilds a table from a buffer [`Table::save_to_bytes`] wrote. A
    /// buffer that is not exactly one valid encoding of a well-formed
    /// table — truncated, carrying trailing bytes, holding an invalid
    /// scalar or breaking the key discipline — is refused as
    /// [`TableError::CorruptBytes`].
    pub fn read_from_bytes(bytes: &Vec<u8>) -> (r: Result<Table, TableError>)
        ensures
            match r {
                Ok(t) => crate::codec::dec_table(bytes@) == Some(t@) && t@.wf(),
                Err(e) => crate::codec::dec_table(bytes@) is None && e
                    == TableError::CorruptBytes,
            },
    {
        proof {
            assert(bytes@.skip(0) =~= bytes@);
        }
        let (name, p1) = match crate::codec::take_opt_name(bytes, 0) {
            None => {
                return Err(TableError::CorruptBytes);
            },
            Some(x) => x,
        };
        let (latest_row, p2) = match crate::codec::take_usize(bytes, p1) {
            None => {
                return Err(TableError::CorruptBytes);
            },
            Some(x) => x,
        };
        let (columns, p3) = match crate::codec::take_strs(bytes, p2) {
            None => {
                return Err(TableError::CorruptBytes);
            },
            Some(x) => x,
        };
        let (shard, p4) = match crate::codec::take_opt_shard(bytes, p3) {
            None => {
                return Err(TableError::CorruptBytes);
            },
            Some(x) => x,
        };
        let (entries, p5) = match crate::codec::take_entries(bytes, p4) {
            None => {
                return Err(TableError::CorruptBytes);
            },
            Some(x) => x,
        };
        if p5 != bytes.len() {
            proof {
                assert(bytes@.skip(p5 as int).len() != 0);
            }
            return Err(TableError::CorruptBytes);
        }
        let t = Table { name, latest_row, columns, shard, entries };
        proof {
            assert(bytes@.skip(p5 as int).len() == 0);
        }
        if t.check_wf() {
            Ok(t)
        } else {
            Err(TableError::CorruptBytes)
        }
    }
}

/// An owned copy of a row's cells, equal cell for cell.
pub fn clone_row(cells: &Vec<String>) -> (r: Vec<String>)
    ensures
        r@ == cells@,
        r.deep_view() == cells.deep_view(),
{
    let r = cells.clone();
    proof {
        assert(r@ =~= cells@);
        assert(r.deep_view() =~= cells.deep_view());
    }
    r
}

/// Under well-formedness a key determines its storage position: the chosen
/// witness of `idx_of_key` is the position where the key was found.
pub proof fn lemma_key_at(tv: TableV, k: usize, i: int)
    requires
        tv.wf(),
        0 <= i < tv.entries.len(),
        tv.entries[i].key == k,
    ensures
        tv.has_key(k),
        tv.idx_of_key(k) == i,
        tv.row_at_key(k) == tv.entries[i].cells,
{
    assert(tv.has_key(k));
    let j = tv.idx_of_key(k);
    assert(0 <= j < tv.entries.len() && tv.entries[j].key == k);
    if i < j {
        assert(tv.entries[i].key != tv.entries[j].key);
    } else if j < i {
        assert(tv.entries[j].key != tv.entries[i].key);
    }
}

/// A first match at position `i` pins down `col_first`: two first matches
/// would each forbid the other, so the chosen witness is unique.
pub proof fn lemma_first_match_unique(cols: Seq<Seq<char>>, name: Seq<char>, i: int)
    requires
        0 <= i < cols.len(),
        cols[i] == name,
        forall|j: int| 0 <= j < i ==> cols[j] != name,
    ensures
        col_first(cols, name) == i,
{
    assert(0 <= i < cols.len() && cols[i] == name && (forall|j: int|
        0 <= j < i ==> cols[j] != name));
    let k = col_first(cols, name);
    assert(0 <= k < cols.len() && cols[k] == name && (forall|j: int|
        0 <= j < k ==> cols[j] != name));
}

} // verus!
