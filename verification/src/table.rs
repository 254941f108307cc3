//! The table of directory statistics: one row of counters for each parent
//! directory, found by its path.

use crate::entry::Entry;
use crate::stats::{DirectoryStats, Tally};
use crate::tally::{combine, credit, tally_at, TallyMap};
use vstd::hash_map::StringHashMap;
use vstd::prelude::*;

verus! {

/// Whether `rows` lists `table`: one row for each key, no key twice, each row
/// with the tally the table holds for its key.
pub open spec fn lists(rows: Seq<(String, DirectoryStats)>, table: TallyMap) -> bool {
    &&& forall|i: int, j: int|
        0 <= i < j < rows.len() ==> (#[trigger] rows[i]).0@ != (#[trigger] rows[j]).0@
    &&& forall|i: int|
        0 <= i < rows.len() ==> table.contains_key((#[trigger] rows[i]).0@) && table[rows[i].0@]
            == rows[i].1@
    &&& forall|key: Seq<char>|
        table.contains_key(key) ==> exists|i: int|
            0 <= i < rows.len() && (#[trigger] rows[i]).0@ == key
}

/// Whether two tables can be combined within the machine counters: for every
/// key that both hold, the field-wise sum fits.
pub open spec fn mergeable(a: TallyMap, b: TallyMap) -> bool {
    forall|key: Seq<char>|
        a.contains_key(key) && b.contains_key(key) ==> (#[trigger] a[key]).plus(b[key]).fits()
}

/// A mapping from parent directory path to the counters of that directory.
///
/// The rows are kept in a vector, and an index finds the row of a key.
pub struct DirectoryStatsTable {
    rows: Vec<(String, DirectoryStats)>,
    index: StringHashMap<usize>,
}

impl View for DirectoryStatsTable {
    type V = TallyMap;

    closed spec fn view(&self) -> TallyMap {
        Map::new(
            |key: Seq<char>| self.index@.contains_key(key),
            |key: Seq<char>| self.rows@[self.index@[key] as int].1@,
        )
    }
}

impl DirectoryStatsTable {
    /// The invariant of the table: the index holds exactly the keys of the
    /// rows, each with the position of its row, so that no key has two rows.
    pub closed spec fn wf(&self) -> bool {
        &&& forall|i: int|
            0 <= i < self.rows@.len() ==> self.index@.contains_key((#[trigger] self.rows@[i]).0@)
                && self.index@[self.rows@[i].0@] == i
        &&& forall|key: Seq<char>|
            self.index@.contains_key(key) ==> (#[trigger] self.index@[key]) < self.rows@.len()
                && self.rows@[self.index@[key] as int].0@ == key
    }

    /// An empty table.
    pub fn new() -> (table: DirectoryStatsTable)
        ensures
            table.wf(),
            table@ == Map::<Seq<char>, Tally>::empty(),
    {
        let table = DirectoryStatsTable { rows: Vec::new(), index: StringHashMap::new() };
        assert(table@ =~= Map::<Seq<char>, Tally>::empty());
        table
    }

    /// The counters kept for `key`, if the table has a row for it.
    pub fn get(&self, key: &str) -> (found: Option<DirectoryStats>)
        requires
            self.wf(),
        ensures
            match found {
                Some(stats) => self@.contains_key(key@) && self@[key@] == stats@,
                None => !self@.contains_key(key@),
            },
    {
        match self.index.get(key) {
            Some(at) => Some(self.rows[*at].1),
            None => None,
        }
    }

    /// Adds `amount` to the counters kept for `key`, in a new row where the
    /// key has none.
    pub fn add(&mut self, key: &str, amount: DirectoryStats)
        requires
            old(self).wf(),
            tally_at(old(self)@, key@).plus(amount@).fits(),
        ensures
            final(self).wf(),
            final(self)@ == credit(old(self)@, key@, amount@),
    {
        match self.index.get(key) {
            Some(at) => {
                let at: usize = *at;
                let sum = self.rows[at].1.combine(&amount);
                self.rows[at].1 = sum;
                assert(self@ =~= credit(old(self)@, key@, amount@));
            },
            None => {
                let at: usize = self.rows.len();
                self.rows.push((key.to_owned(), amount));
                self.index.insert(key.to_owned(), at);
                assert(self@ =~= credit(old(self)@, key@, amount@));
            },
        }
    }

    /// The number of rows, one for each key.
    pub fn len(&self) -> (n: usize)
        requires
            self.wf(),
        ensures
            n == self@.dom().len(),
            self@.dom().finite(),
    {
        proof {
            self.lemma_rows_list_view();
            lemma_listed_len(self.rows@, self@);
        }
        self.rows.len()
    }

    /// Whether `amount` can be added under `key` within the machine counters.
    pub fn can_add(&self, key: &str, amount: &DirectoryStats) -> (ok: bool)
        requires
            self.wf(),
        ensures
            ok == tally_at(self@, key@).plus(amount@).fits(),
    {
        match self.index.get(key) {
            Some(at) => self.rows[*at].1.can_combine(amount),
            None => true,
        }
    }

    /// Whether `entry` can be counted within the machine counters.
    pub fn can_record(&self, entry: &Entry, count_size: bool) -> (ok: bool)
        requires
            self.wf(),
        ensures
            ok == tally_at(self@, entry.key()).plus(entry.contribution(count_size)).fits(),
    {
        let amount = entry.counters(count_size);
        self.can_add(entry.parent_key(), &amount)
    }

    /// Counts one entry: under its parent's key, a directory as one more
    /// subdirectory, anything else as one more file, with its bytes where
    /// sizes are counted. An entry whose size could not be read still counts
    /// as a file, with no bytes.
    pub fn record(&mut self, entry: &Entry, count_size: bool)
        requires
            old(self).wf(),
            tally_at(old(self)@, entry.key()).plus(entry.contribution(count_size)).fits(),
        ensures
            final(self).wf(),
            final(self)@ == credit(old(self)@, entry.key(), entry.contribution(count_size)),
    {
        let amount = entry.counters(count_size);
        self.add(entry.parent_key(), amount);
    }

    /// Whether `other` can be merged into this table within the machine
    /// counters.
    pub fn can_merge(&self, other: &DirectoryStatsTable) -> (ok: bool)
        requires
            self.wf(),
            other.wf(),
        ensures
            ok == mergeable(self@, other@),
    {
        let mut at: usize = 0;
        while at < other.rows.len()
            invariant
                self.wf(),
                other.wf(),
                at <= other.rows@.len(),
                forall|i: int|
                    0 <= i < at ==> tally_at(self@, (#[trigger] other.rows@[i]).0@).plus(
                        other.rows@[i].1@,
                    ).fits(),
            decreases other.rows@.len() - at,
        {
            if !self.can_add(other.rows[at].0.as_str(), &other.rows[at].1) {
                proof {
                    let key = other.rows@[at as int].0@;
                    assert(other@.contains_key(key) && other@[key] == other.rows@[at as int].1@);
                    assert(self@.contains_key(key));
                    assert(!self@[key].plus(other@[key]).fits());
                }
                return false;
            }
            at += 1;
        }
        proof {
            assert forall|key: Seq<char>|
                self@.contains_key(key) && other@.contains_key(key) implies (#[trigger] self@[key]).plus(
                other@[key],
            ).fits() by {
                let i = other.index@[key] as int;
                assert(other.rows@[i].0@ == key);
            }
        }
        true
    }

    /// Merges `other` into this table: every key of either table ends with the
    /// field-wise sum of what the two held for it, a key that only one held
    /// with what that one held.
    pub fn merge(&mut self, other: &DirectoryStatsTable)
        requires
            old(self).wf(),
            other.wf(),
            mergeable(old(self)@, other@),
        ensures
            final(self).wf(),
            final(self)@ == combine(old(self)@, other@),
    {
        let mut at: usize = 0;
        while at < other.rows.len()
            invariant
                self.wf(),
                other.wf(),
                mergeable(old(self)@, other@),
                at <= other.rows@.len(),
                forall|key: Seq<char>|
                    self@.contains_key(key) <==> (old(self)@.contains_key(key) || (
                    other.index@.contains_key(key) && other.index@[key] < at)),
                forall|key: Seq<char>|
                    self@.contains_key(key) ==> #[trigger] self@[key] == tally_at(
                        old(self)@,
                        key,
                    ).plus(
                        if other.index@.contains_key(key) && other.index@[key] < at {
                            other@[key]
                        } else {
                            Tally::zero()
                        },
                    ),
            decreases other.rows@.len() - at,
        {
            let ghost before = self@;
            let ghost key = other.rows@[at as int].0@;
            assert(other.index@.contains_key(key) && other.index@[key] == at);
            assert(other@.contains_key(key) && other@[key] == other.rows@[at as int].1@);
            assert(tally_at(before, key) == tally_at(old(self)@, key));
            self.add(other.rows[at].0.as_str(), other.rows[at].1);
            at += 1;
        }
        assert(self@ =~= combine(old(self)@, other@));
    }

    /// The rows of the table, one for each key.
    pub fn rows(&self) -> (rows: &Vec<(String, DirectoryStats)>)
        requires
            self.wf(),
        ensures
            lists(rows@, self@),
    {
        proof {
            self.lemma_rows_list_view();
        }
        &self.rows
    }

    /// Gives up the table for its rows, one for each key.
    pub fn into_rows(self) -> (rows: Vec<(String, DirectoryStats)>)
        requires
            self.wf(),
        ensures
            lists(rows@, self@),
    {
        proof {
            self.lemma_rows_list_view();
        }
        self.rows
    }

    /// What the table holds for a key fits the machine counters.
    pub proof fn lemma_counters_fit(&self)
        ensures
            forall|key: Seq<char>| self@.contains_key(key) ==> (#[trigger] self@[key]).fits(),
    {
    }

    proof fn lemma_rows_list_view(&self)
        requires
            self.wf(),
        ensures
            lists(self.rows@, self@),
    {
        assert forall|key: Seq<char>| self@.contains_key(key) implies exists|i: int|
            0 <= i < self.rows@.len() && (#[trigger] self.rows@[i]).0@ == key by {
            let i = self.index@[key] as int;
            assert(self.rows@[i].0@ == key);
        }
    }
}

/// A table has as many keys as any sequence of rows that lists it.
pub proof fn lemma_listed_len(rows: Seq<(String, DirectoryStats)>, table: TallyMap)
    requires
        lists(rows, table),
    ensures
        table.dom().finite(),
        table.dom().len() == rows.len(),
    decreases rows.len(),
{
    if rows.len() == 0 {
        assert(table.dom() =~= Set::<Seq<char>>::empty());
    } else {
        let last = rows.last();
        let rest = rows.drop_last();
        let smaller = table.remove(last.0@);
        assert(table.contains_key(rows[rows.len() - 1].0@));
        assert forall|i: int| 0 <= i < rest.len() implies smaller.contains_key(
            (#[trigger] rest[i]).0@,
        ) && smaller[rest[i].0@] == rest[i].1@ by {
            assert(rows[i].0@ != rows[rows.len() - 1].0@);
            assert(table.contains_key(rows[i].0@));
        }
        assert forall|key: Seq<char>| smaller.contains_key(key) implies exists|i: int|
            0 <= i < rest.len() && (#[trigger] rest[i]).0@ == key by {
            let i = choose|i: int| 0 <= i < rows.len() && (#[trigger] rows[i]).0@ == key;
            assert(rest[i].0@ == key);
        }
        assert forall|i: int, j: int| 0 <= i < j < rest.len() implies (#[trigger] rest[i]).0@ != (
        #[trigger] rest[j]).0@ by {
            assert(rows[i].0@ != rows[j].0@);
        }
        lemma_listed_len(rest, smaller);
        assert(table.dom() =~= smaller.dom().insert(last.0@));
    }
}

/// A listing of a table stays a listing of it in any order of its rows.
pub proof fn lemma_lists_in_any_order(
    rows: Seq<(String, DirectoryStats)>,
    moved: Seq<(String, DirectoryStats)>,
    table: TallyMap,
)
    requires
        lists(rows, table),
        moved.to_multiset() == rows.to_multiset(),
    ensures
        lists(moved, table),
{
    broadcast use vstd::seq_lib::group_to_multiset_ensures;
    broadcast use vstd::multiset::group_multiset_axioms;

    assert forall|i: int| 0 <= i < moved.len() implies table.contains_key(
        (#[trigger] moved[i]).0@,
    ) && table[moved[i].0@] == moved[i].1@ by {
        assert(moved.contains(moved[i]));
        assert(moved.to_multiset().count(moved[i]) > 0);
        assert(rows.contains(moved[i]));
        let p = choose|p: int| 0 <= p < rows.len() && rows[p] == moved[i];
        assert(table.contains_key(rows[p].0@));
    }
    assert forall|key: Seq<char>| table.contains_key(key) implies exists|i: int|
        0 <= i < moved.len() && (#[trigger] moved[i]).0@ == key by {
        let p = choose|p: int| 0 <= p < rows.len() && (#[trigger] rows[p]).0@ == key;
        assert(rows.contains(rows[p]));
        assert(rows.to_multiset().count(rows[p]) > 0);
        assert(moved.contains(rows[p]));
        let i = choose|i: int| 0 <= i < moved.len() && moved[i] == rows[p];
        assert(moved[i].0@ == key);
    }
    assert forall|i: int, j: int| 0 <= i < j < moved.len() implies (#[trigger] moved[i]).0@ != (
    #[trigger] moved[j]).0@ by {
        if moved[i].0@ == moved[j].0@ {
            assert(moved.contains(moved[j]));
            assert(moved.to_multiset().count(moved[j]) > 0);
            assert(rows.contains(moved[j]));
            let p = choose|p: int| 0 <= p < rows.len() && rows[p] == moved[j];
            let fewer_rows = rows.remove(p);
            let fewer_moved = moved.remove(j);
            assert(fewer_rows.to_multiset() == fewer_moved.to_multiset());
            assert(fewer_moved[i] == moved[i]);
            assert(fewer_moved.contains(moved[i]));
            assert(fewer_moved.to_multiset().count(moved[i]) > 0);
            assert(fewer_rows.contains(moved[i]));
            let q = choose|q: int| 0 <= q < fewer_rows.len() && fewer_rows[q] == moved[i];
            if q < p {
                assert(rows[q] == moved[i]);
                assert(rows[q].0@ != rows[p].0@);
            } else {
                assert(rows[q + 1] == moved[i]);
                assert(rows[p].0@ != rows[q + 1].0@);
            }
        }
    }
}

} // verus!
