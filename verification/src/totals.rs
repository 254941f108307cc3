//! The sums over all rows of a table, and why they are the sums over all
//! entries that were counted.

use crate::entry::Entry;
use crate::stats::{DirectoryStats, Tally};
use crate::table::lists;
use crate::tally::{file_total, grand_total, is_parent, tally, tally_under};
use vstd::prelude::*;

verus! {

/// The field-wise sum of the counters of all rows.
pub open spec fn rows_total(rows: Seq<(String, DirectoryStats)>) -> Tally
    decreases rows.len(),
{
    if rows.len() == 0 {
        Tally::zero()
    } else {
        rows_total(rows.drop_last()).plus(rows.last().1@)
    }
}

/// The sums over all rows: of the subdirectory counts, of the file counts and
/// of the sizes; `None` where one of them does not fit its machine counter.
pub fn totals(rows: &Vec<(String, DirectoryStats)>) -> (sum: Option<DirectoryStats>)
    ensures
        sum is Some <==> rows_total(rows@).fits(),
        sum matches Some(all) ==> all@ == rows_total(rows@),
{
    let mut all = DirectoryStats::new();
    let mut at: usize = 0;
    assert(rows@.take(0) =~= Seq::empty());
    while at < rows.len()
        invariant
            at <= rows@.len(),
            all@ == rows_total(rows@.take(at as int)),
        decreases rows@.len() - at,
    {
        proof {
            assert(rows@.take(at + 1).drop_last() =~= rows@.take(at as int));
        }
        if !all.can_combine(&rows[at].1) {
            proof {
                lemma_rows_total_prefix(rows@, at + 1);
            }
            return None;
        }
        all = all.combine(&rows[at].1);
        at += 1;
    }
    assert(rows@.take(at as int) =~= rows@);
    Some(all)
}

/// The sums over the first `n` rows do not exceed the sums over all.
proof fn lemma_rows_total_prefix(rows: Seq<(String, DirectoryStats)>, n: int)
    requires
        0 <= n <= rows.len(),
    ensures
        rows_total(rows.take(n)).subdirectories <= rows_total(rows).subdirectories,
        rows_total(rows.take(n)).files <= rows_total(rows).files,
        rows_total(rows.take(n)).bytes <= rows_total(rows).bytes,
    decreases rows.len(),
{
    if n == rows.len() {
        assert(rows.take(n) =~= rows);
    } else {
        assert(rows.drop_last().take(n) =~= rows.take(n));
        lemma_rows_total_prefix(rows.drop_last(), n);
    }
}

/// The sum, over a sequence of keys, of what `entries` hold under each.
spec fn keyed_total(keys: Seq<Seq<char>>, entries: Seq<Entry>, count_size: bool) -> Tally
    decreases keys.len(),
{
    if keys.len() == 0 {
        Tally::zero()
    } else {
        keyed_total(keys.drop_last(), entries, count_size).plus(
            tally_under(entries, keys.last(), count_size),
        )
    }
}

/// One more entry adds its contribution to the sum over a sequence of
/// distinct keys exactly where its own key is among them.
proof fn lemma_keyed_total_push(
    keys: Seq<Seq<char>>,
    entries: Seq<Entry>,
    entry: Entry,
    count_size: bool,
)
    requires
        keys.no_duplicates(),
    ensures
        keyed_total(keys, entries.push(entry), count_size) == keyed_total(
            keys,
            entries,
            count_size,
        ).plus(
            if keys.contains(entry.key()) {
                entry.contribution(count_size)
            } else {
                Tally::zero()
            },
        ),
    decreases keys.len(),
{
    let more = entries.push(entry);
    assert(more.drop_last() =~= entries);
    assert(more.last() == entry);
    if keys.len() > 0 {
        let rest = keys.drop_last();
        lemma_keyed_total_push(rest, entries, entry, count_size);
        if keys.last() == entry.key() {
            assert(keys[keys.len() - 1] == entry.key());
            if rest.contains(entry.key()) {
                let i = choose|i: int| 0 <= i < rest.len() && rest[i] == entry.key();
                assert(keys[i] == keys[keys.len() - 1]);
            }
        } else if keys.contains(entry.key()) {
            let i = choose|i: int| 0 <= i < keys.len() && keys[i] == entry.key();
            assert(rest[i] == entry.key());
        } else if rest.contains(entry.key()) {
            let i = choose|i: int| 0 <= i < rest.len() && rest[i] == entry.key();
            assert(keys[i] == entry.key());
        }
    }
}

/// Over distinct keys that include the parent of every entry, the sum of what
/// is held under each key is what all entries contribute.
proof fn lemma_keyed_total_is_grand_total(
    keys: Seq<Seq<char>>,
    entries: Seq<Entry>,
    count_size: bool,
)
    requires
        keys.no_duplicates(),
        forall|i: int| 0 <= i < entries.len() ==> keys.contains(#[trigger] entries[i].key()),
    ensures
        keyed_total(keys, entries, count_size) == grand_total(entries, count_size),
    decreases entries.len(),
{
    if entries.len() == 0 {
        assert(entries =~= Seq::<Entry>::empty());
        lemma_keyed_total_of_nothing(keys, count_size);
    } else {
        let rest = entries.drop_last();
        let last = entries.last();
        assert(entries =~= rest.push(last));
        assert forall|i: int| 0 <= i < rest.len() implies keys.contains(
            #[trigger] rest[i].key(),
        ) by {
            assert(rest[i].key() == entries[i].key());
        }
        assert(keys.contains(entries[entries.len() - 1].key()));
        lemma_keyed_total_is_grand_total(keys, rest, count_size);
        lemma_keyed_total_push(keys, rest, last, count_size);
    }
}

proof fn lemma_keyed_total_of_nothing(keys: Seq<Seq<char>>, count_size: bool)
    ensures
        keyed_total(keys, Seq::<Entry>::empty(), count_size) == Tally::zero(),
    decreases keys.len(),
{
    if keys.len() > 0 {
        lemma_keyed_total_of_nothing(keys.drop_last(), count_size);
    }
}

/// The keys of a sequence of rows, in order.
spec fn keys_of(rows: Seq<(String, DirectoryStats)>) -> Seq<Seq<char>> {
    Seq::new(rows.len(), |i: int| rows[i].0@)
}

proof fn lemma_rows_total_is_keyed_total(
    rows: Seq<(String, DirectoryStats)>,
    entries: Seq<Entry>,
    count_size: bool,
)
    requires
        forall|i: int|
            0 <= i < rows.len() ==> (#[trigger] rows[i]).1@ == tally_under(
                entries,
                rows[i].0@,
                count_size,
            ),
    ensures
        rows_total(rows) == keyed_total(keys_of(rows), entries, count_size),
    decreases rows.len(),
{
    if rows.len() > 0 {
        let rest = rows.drop_last();
        assert forall|i: int| 0 <= i < rest.len() implies (#[trigger] rest[i]).1@ == tally_under(
            entries,
            rest[i].0@,
            count_size,
        ) by {
            assert(rest[i] == rows[i]);
        }
        lemma_rows_total_is_keyed_total(rest, entries, count_size);
        assert(keys_of(rows).drop_last() =~= keys_of(rest));
        assert(rows[rows.len() - 1].1@ == tally_under(
            entries,
            rows[rows.len() - 1].0@,
            count_size,
        ));
    }
}

/// The rows of the table of `entries` add up to the entries: the file counts
/// of all rows to the number of entries that are not directories, the
/// subdirectory counts to the number of directories, and the sizes to the
/// bytes of all files where sizes are counted, to zero where they are not.
pub proof fn lemma_rows_add_up(
    rows: Seq<(String, DirectoryStats)>,
    entries: Seq<Entry>,
    count_size: bool,
)
    requires
        lists(rows, tally(entries, count_size)),
    ensures
        rows_total(rows) == grand_total(entries, count_size),
        rows_total(rows).files == file_total(entries),
{
    let table = tally(entries, count_size);
    let keys = keys_of(rows);
    assert forall|i: int| 0 <= i < rows.len() implies (#[trigger] rows[i]).1@ == tally_under(
        entries,
        rows[i].0@,
        count_size,
    ) by {
        assert(table.contains_key(rows[i].0@));
    }
    lemma_rows_total_is_keyed_total(rows, entries, count_size);
    assert forall|i: int, j: int| 0 <= i < keys.len() && 0 <= j < keys.len() && i != j implies keys[i]
        != keys[j] by {
        if i < j {
            assert(rows[i].0@ != rows[j].0@);
        } else {
            assert(rows[j].0@ != rows[i].0@);
        }
    }
    assert forall|i: int| 0 <= i < entries.len() implies keys.contains(
        #[trigger] entries[i].key(),
    ) by {
        let key = entries[i].key();
        assert(is_parent(entries, key));
        assert(table.contains_key(key));
        let j = choose|j: int| 0 <= j < rows.len() && (#[trigger] rows[j]).0@ == key;
        assert(keys[j] == key);
    }
    lemma_keyed_total_is_grand_total(keys, entries, count_size);
}

} // verus!
