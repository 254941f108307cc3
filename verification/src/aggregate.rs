//! Counting a sequence of entries into a table, one entry after the other.

use crate::entry::Entry;
use crate::table::DirectoryStatsTable;
use crate::tally::{byte_total, is_parent, lemma_tally_push, tally, tally_under};
use vstd::prelude::*;

verus! {

/// Whether the size of every directory fits the 64-bit counter. The two
/// counts of a directory never exceed the number of entries, so they always
/// fit.
pub open spec fn sizes_fit(entries: Seq<Entry>, count_size: bool) -> bool {
    forall|key: Seq<char>| (#[trigger] tally_under(entries, key, count_size)).bytes <= u64::MAX
}

/// Counts `entries` into a table: for each directory that is the parent of an
/// entry, how many of its entries are directories, how many are not, and,
/// where `count_size` is set, the bytes of those that are not.
pub fn count_files_and_dirs(entries: &Vec<Entry>, count_size: bool) -> (table:
    DirectoryStatsTable)
    requires
        sizes_fit(entries@, count_size),
    ensures
        table.wf(),
        table@ == tally(entries@, count_size),
        forall|key: Seq<char>| table@.contains_key(key) <==> is_parent(entries@, key),
{
    let mut table = DirectoryStatsTable::new();
    let mut at: usize = 0;
    assert(table@ =~= tally(entries@.take(0), count_size));
    while at < entries.len()
        invariant
            at <= entries@.len(),
            table.wf(),
            table@ == tally(entries@.take(at as int), count_size),
            sizes_fit(entries@, count_size),
        decreases entries@.len() - at,
    {
        let entry = &entries[at];
        proof {
            let seen = entries@.take(at as int);
            let next = entries@.take(at + 1);
            assert(next =~= seen.push(*entry));
            lemma_tally_push(seen, *entry, count_size);
            lemma_prefix_bounds(entries@, at + 1, entry.key(), count_size);
            assert(tally(next, count_size)[entry.key()] == tally_under(
                next,
                entry.key(),
                count_size,
            ));
        }
        table.record(entry, count_size);
        at += 1;
    }
    assert(entries@.take(at as int) =~= entries@);
    table
}

/// The tally of a prefix never exceeds that of the whole, and its two counts
/// never exceed the length of the prefix.
proof fn lemma_prefix_bounds(entries: Seq<Entry>, n: int, key: Seq<char>, count_size: bool)
    requires
        0 <= n <= entries.len(),
    ensures
        tally_under(entries.take(n), key, count_size).subdirectories + tally_under(
            entries.take(n),
            key,
            count_size,
        ).files <= n,
        tally_under(entries.take(n), key, count_size).subdirectories <= tally_under(
            entries,
            key,
            count_size,
        ).subdirectories,
        tally_under(entries.take(n), key, count_size).files <= tally_under(
            entries,
            key,
            count_size,
        ).files,
        tally_under(entries.take(n), key, count_size).bytes <= tally_under(
            entries,
            key,
            count_size,
        ).bytes,
    decreases entries.len(),
{
    if entries.len() == 0 {
        assert(entries.take(n) =~= entries);
    } else if n == entries.len() {
        assert(entries.take(n) =~= entries);
        lemma_prefix_bounds(entries.drop_last(), n - 1, key, count_size);
        assert(entries.drop_last().take(n - 1) =~= entries.drop_last());
    } else {
        assert(entries.drop_last().take(n) =~= entries.take(n));
        lemma_prefix_bounds(entries.drop_last(), n, key, count_size);
    }
}

/// Where the bytes of all files together fit the 64-bit counter, so does the
/// size of every directory.
pub proof fn lemma_sizes_fit(entries: Seq<Entry>, count_size: bool)
    requires
        byte_total(entries) <= u64::MAX,
    ensures
        sizes_fit(entries, count_size),
{
    assert forall|key: Seq<char>| (#[trigger] tally_under(entries, key, count_size)).bytes
        <= u64::MAX by {
        lemma_bytes_under_total(entries, key, count_size);
    }
}

/// The size of one directory is at most the bytes of all files together, and
/// is zero where sizes are not counted.
pub proof fn lemma_bytes_under_total(entries: Seq<Entry>, key: Seq<char>, count_size: bool)
    ensures
        tally_under(entries, key, count_size).bytes <= byte_total(entries),
        !count_size ==> tally_under(entries, key, count_size).bytes == 0,
    decreases entries.len(),
{
    if entries.len() > 0 {
        lemma_bytes_under_total(entries.drop_last(), key, count_size);
    }
}

} // verus!
