//! What the counting of a sequence of entries is, as mathematics: a map from
//! parent key to tally, and the laws by which partial counts combine.

use crate::entry::Entry;
use crate::stats::Tally;
use vstd::prelude::*;

verus! {

/// The mathematical value of a table of directory statistics.
pub type TallyMap = Map<Seq<char>, Tally>;

/// Whether some entry of `entries` is counted under `key`.
pub open spec fn is_parent(entries: Seq<Entry>, key: Seq<char>) -> bool {
    exists|i: int| 0 <= i < entries.len() && #[trigger] entries[i].key() == key
}

/// The sum of the contributions of the entries counted under `key`.
pub open spec fn tally_under(entries: Seq<Entry>, key: Seq<char>, count_size: bool) -> Tally
    decreases entries.len(),
{
    if entries.len() == 0 {
        Tally::zero()
    } else {
        let rest = tally_under(entries.drop_last(), key, count_size);
        if entries.last().key() == key {
            rest.plus(entries.last().contribution(count_size))
        } else {
            rest
        }
    }
}

/// The table that counting `entries` yields: one key for each directory that
/// is the parent of at least one entry, with the sum of what its entries
/// contribute.
pub open spec fn tally(entries: Seq<Entry>, count_size: bool) -> TallyMap {
    Map::new(
        |key: Seq<char>| is_parent(entries, key),
        |key: Seq<char>| tally_under(entries, key, count_size),
    )
}

/// The tally a table holds for `key`: zero where the key is absent.
pub open spec fn tally_at(table: TallyMap, key: Seq<char>) -> Tally {
    if table.contains_key(key) {
        table[key]
    } else {
        Tally::zero()
    }
}

/// The table after `amount` is added to what it holds for `key`.
pub open spec fn credit(table: TallyMap, key: Seq<char>, amount: Tally) -> TallyMap {
    table.insert(key, tally_at(table, key).plus(amount))
}

/// The combination of two partial tables: every key of either, with the
/// field-wise sum of what the two hold for it.
pub open spec fn combine(a: TallyMap, b: TallyMap) -> TallyMap {
    Map::new(
        |key: Seq<char>| a.contains_key(key) || b.contains_key(key),
        |key: Seq<char>| tally_at(a, key).plus(tally_at(b, key)),
    )
}

/// The number of entries that are not directories.
pub open spec fn file_total(entries: Seq<Entry>) -> nat
    decreases entries.len(),
{
    if entries.len() == 0 {
        0
    } else {
        file_total(entries.drop_last()) + if entries.last().is_dir { 0nat } else { 1nat }
    }
}

/// The bytes of the entries that are not directories.
pub open spec fn byte_total(entries: Seq<Entry>) -> nat
    decreases entries.len(),
{
    if entries.len() == 0 {
        0
    } else {
        byte_total(entries.drop_last()) + if entries.last().is_dir {
            0nat
        } else {
            entries.last().bytes()
        }
    }
}

/// The number of entries that are directories.
pub open spec fn directory_total(entries: Seq<Entry>) -> nat
    decreases entries.len(),
{
    if entries.len() == 0 {
        0
    } else {
        directory_total(entries.drop_last()) + if entries.last().is_dir { 1nat } else { 0nat }
    }
}

/// What all entries together contribute: the number of directories, the
/// number of files and, where sizes are counted, the bytes of the files.
pub open spec fn grand_total(entries: Seq<Entry>, count_size: bool) -> Tally {
    Tally {
        subdirectories: directory_total(entries),
        files: file_total(entries),
        bytes: if count_size { byte_total(entries) } else { 0 },
    }
}

/// Every entry is counted once, as a directory or as a file.
pub proof fn lemma_every_entry_counts_once(entries: Seq<Entry>)
    ensures
        directory_total(entries) + file_total(entries) == entries.len(),
    decreases entries.len(),
{
    if entries.len() > 0 {
        lemma_every_entry_counts_once(entries.drop_last());
    }
}

/// Counting one more entry credits its contribution to its parent's key and
/// leaves every other key as it was.
pub proof fn lemma_tally_push(entries: Seq<Entry>, entry: Entry, count_size: bool)
    ensures
        tally(entries.push(entry), count_size) == credit(
            tally(entries, count_size),
            entry.key(),
            entry.contribution(count_size),
        ),
{
    let more = entries.push(entry);
    assert(more.drop_last() =~= entries);
    assert(more.last() == entry);
    assert(more[entries.len() as int].key() == entry.key());
    assert forall|key: Seq<char>| is_parent(more, key) <==> (is_parent(entries, key) || key
        == entry.key()) by {
        if is_parent(entries, key) {
            let i = choose|i: int| 0 <= i < entries.len() && #[trigger] entries[i].key() == key;
            assert(more[i].key() == key);
        }
        if is_parent(more, key) {
            let i = choose|i: int| 0 <= i < more.len() && #[trigger] more[i].key() == key;
            if i < entries.len() {
                assert(entries[i].key() == key);
            }
        }
    }
    if !is_parent(entries, entry.key()) {
        lemma_absent_key_is_zero(entries, entry.key(), count_size);
    }
    assert(tally(more, count_size) =~= credit(
        tally(entries, count_size),
        entry.key(),
        entry.contribution(count_size),
    ));
}

/// A key under which no entry is counted has the zero tally.
pub proof fn lemma_absent_key_is_zero(entries: Seq<Entry>, key: Seq<char>, count_size: bool)
    requires
        !is_parent(entries, key),
    ensures
        tally_under(entries, key, count_size) == Tally::zero(),
    decreases entries.len(),
{
    if entries.len() > 0 {
        let rest = entries.drop_last();
        assert(entries[entries.len() - 1].key() != key);
        assert forall|i: int| 0 <= i < rest.len() implies #[trigger] rest[i].key() != key by {
            assert(entries[i].key() != key);
        }
        lemma_absent_key_is_zero(rest, key, count_size);
    }
}

/// A directory appears as a key only as the parent of an entry, and then its
/// row counts at least that entry: a directory that holds nothing has no row.
pub proof fn lemma_keys_are_parents(entries: Seq<Entry>, key: Seq<char>, count_size: bool)
    ensures
        tally(entries, count_size).contains_key(key) <==> is_parent(entries, key),
        is_parent(entries, key) ==> tally(entries, count_size)[key].subdirectories + tally(
            entries,
            count_size,
        )[key].files >= 1,
        !is_parent(entries, key) ==> tally_under(entries, key, count_size) == Tally::zero(),
    decreases entries.len(),
{
    if !is_parent(entries, key) {
        lemma_absent_key_is_zero(entries, key, count_size);
    } else {
        let rest = entries.drop_last();
        let i = choose|i: int| 0 <= i < entries.len() && #[trigger] entries[i].key() == key;
        if entries.last().key() != key {
            assert(rest[i].key() == key);
            lemma_keys_are_parents(rest, key, count_size);
        }
    }
}

/// Counting a sequence in two parts and combining the two tables gives the
/// table of counting it whole.
pub proof fn lemma_tally_split(a: Seq<Entry>, b: Seq<Entry>, count_size: bool)
    ensures
        tally(a + b, count_size) == combine(tally(a, count_size), tally(b, count_size)),
    decreases b.len(),
{
    if b.len() == 0 {
        assert(a + b =~= a);
        assert forall|key: Seq<char>| !is_parent(b, key) by {}
        assert(tally(b, count_size) =~= Map::empty());
        lemma_combine_empty(tally(a, count_size));
    } else {
        let front = b.drop_last();
        let entry = b.last();
        assert(a + b =~= (a + front).push(entry));
        assert(b =~= front.push(entry));
        lemma_tally_split(a, front, count_size);
        lemma_tally_push(a + front, entry, count_size);
        lemma_tally_push(front, entry, count_size);
        assert(credit(
            combine(tally(a, count_size), tally(front, count_size)),
            entry.key(),
            entry.contribution(count_size),
        ) =~= combine(
            tally(a, count_size),
            credit(tally(front, count_size), entry.key(), entry.contribution(count_size)),
        ));
    }
}

/// The empty table is the identity of `combine`, on either side.
pub proof fn lemma_combine_empty(a: TallyMap)
    ensures
        combine(a, Map::empty()) == a,
        combine(Map::empty(), a) == a,
{
    assert(combine(a, Map::empty()) =~= a);
    assert(combine(Map::empty(), a) =~= a);
}

/// Combining two tables gives the same table in either order.
pub proof fn lemma_combine_commutative(a: TallyMap, b: TallyMap)
    ensures
        combine(a, b) == combine(b, a),
{
    assert(combine(a, b) =~= combine(b, a));
}

/// Combining three tables gives the same table however the pairs are formed.
pub proof fn lemma_combine_associative(a: TallyMap, b: TallyMap, c: TallyMap)
    ensures
        combine(combine(a, b), c) == combine(a, combine(b, c)),
{
    assert(combine(combine(a, b), c) =~= combine(a, combine(b, c)));
}

/// Crediting a key is combining with the table that holds that one key.
pub proof fn lemma_credit_is_combine(table: TallyMap, key: Seq<char>, amount: Tally)
    ensures
        credit(table, key, amount) == combine(table, Map::empty().insert(key, amount)),
{
    assert(credit(table, key, amount) =~= combine(table, Map::empty().insert(key, amount)));
}

/// What one entry adds to the tally kept for `key`.
pub open spec fn share(entry: Entry, key: Seq<char>, count_size: bool) -> Tally {
    if entry.key() == key {
        entry.contribution(count_size)
    } else {
        Tally::zero()
    }
}

/// The tally under a key of a sequence in two parts is the sum of the parts'.
pub proof fn lemma_tally_under_concat(
    a: Seq<Entry>,
    b: Seq<Entry>,
    key: Seq<char>,
    count_size: bool,
)
    ensures
        tally_under(a + b, key, count_size) == tally_under(a, key, count_size).plus(
            tally_under(b, key, count_size),
        ),
    decreases b.len(),
{
    if b.len() == 0 {
        assert(a + b =~= a);
    } else {
        assert((a + b).drop_last() =~= a + b.drop_last());
        assert((a + b).last() == b.last());
        lemma_tally_under_concat(a, b.drop_last(), key, count_size);
    }
}

/// Taking one entry out of a sequence takes its share out of every tally.
pub proof fn lemma_tally_under_remove(
    entries: Seq<Entry>,
    at: int,
    key: Seq<char>,
    count_size: bool,
)
    requires
        0 <= at < entries.len(),
    ensures
        tally_under(entries, key, count_size) == tally_under(
            entries.remove(at),
            key,
            count_size,
        ).plus(share(entries[at], key, count_size)),
{
    let front = entries.take(at);
    let one = seq![entries[at]];
    let back = entries.skip(at + 1);
    assert(entries =~= front + one + back);
    assert(entries.remove(at) =~= front + back);
    lemma_tally_under_concat(front + one, back, key, count_size);
    lemma_tally_under_concat(front, one, key, count_size);
    lemma_tally_under_concat(front, back, key, count_size);
    assert(one.drop_last() =~= Seq::<Entry>::empty());
    assert(tally_under(one, key, count_size) == share(entries[at], key, count_size)) by {
        reveal_with_fuel(tally_under, 2);
    }
}

/// The table depends on which entries are counted, not on their order: two
/// sequences with the same entries, each as often in one as in the other,
/// have the same table.
pub proof fn lemma_tally_permutation(a: Seq<Entry>, b: Seq<Entry>, count_size: bool)
    requires
        a.to_multiset() == b.to_multiset(),
    ensures
        tally(a, count_size) == tally(b, count_size),
{
    assert forall|key: Seq<char>|
        is_parent(a, key) == is_parent(b, key) && tally_under(a, key, count_size) == tally_under(
            b,
            key,
            count_size,
        ) by {
        lemma_tally_under_permutation(a, b, key, count_size);
    }
    assert(tally(a, count_size) =~= tally(b, count_size));
}

/// For one key: sequences with the same entries hold the key alike and give
/// it the same tally.
pub proof fn lemma_tally_under_permutation(
    a: Seq<Entry>,
    b: Seq<Entry>,
    key: Seq<char>,
    count_size: bool,
)
    requires
        a.to_multiset() == b.to_multiset(),
    ensures
        is_parent(a, key) == is_parent(b, key),
        tally_under(a, key, count_size) == tally_under(b, key, count_size),
    decreases a.len(),
{
    broadcast use vstd::seq_lib::group_to_multiset_ensures;

    assert(a.len() == b.len()) by {
        vstd::seq_lib::to_multiset_len(a);
        vstd::seq_lib::to_multiset_len(b);
    }
    if a.len() > 0 {
        let last = a.last();
        let rest = a.drop_last();
        assert(a.contains(last)) by {
            assert(a[a.len() - 1] == last);
        }
        assert(a.to_multiset().count(last) > 0);
        assert(b.contains(last));
        let at = choose|at: int| 0 <= at < b.len() && b[at] == last;
        let others = b.remove(at);
        assert(rest =~= a.remove(a.len() - 1));
        assert(rest.to_multiset() == others.to_multiset());
        lemma_tally_under_permutation(rest, others, key, count_size);
        lemma_tally_under_remove(b, at, key, count_size);
        lemma_tally_under_remove(a, a.len() - 1, key, count_size);
        if is_parent(a, key) {
            let i = choose|i: int| 0 <= i < a.len() && #[trigger] a[i].key() == key;
            if i < rest.len() {
                assert(rest[i].key() == key);
                let j = choose|j: int| 0 <= j < others.len() && #[trigger] others[j].key() == key;
                if j < at {
                    assert(b[j].key() == key);
                } else {
                    assert(b[j + 1].key() == key);
                }
            } else {
                assert(b[at].key() == key);
            }
        }
        if is_parent(b, key) {
            let j = choose|j: int| 0 <= j < b.len() && #[trigger] b[j].key() == key;
            if j == at {
                assert(a[a.len() - 1].key() == key);
            } else {
                if j < at {
                    assert(others[j].key() == key);
                } else {
                    assert(others[j - 1].key() == key);
                }
                let i = choose|i: int| 0 <= i < rest.len() && #[trigger] rest[i].key() == key;
                assert(a[i].key() == key);
            }
        }
    }
}

/// A file whose size could not be read still counts as one file of its
/// parent, and adds no bytes.
pub proof fn lemma_unreadable_size_counts_as_file(table: TallyMap, entry: Entry, count_size: bool)
    requires
        !entry.is_dir,
        entry.size is None,
    ensures
        entry.contribution(count_size) == (Tally { subdirectories: 0, files: 1, bytes: 0 }),
        credit(table, entry.key(), entry.contribution(count_size))[entry.key()] == (Tally {
            files: tally_at(table, entry.key()).files + 1,
            ..tally_at(table, entry.key())
        }),
{
}

/// The entries of all parts, one part after the other.
pub open spec fn joined(parts: Seq<Seq<Entry>>) -> Seq<Entry>
    decreases parts.len(),
{
    if parts.len() == 0 {
        Seq::empty()
    } else {
        joined(parts.drop_last()) + parts.last()
    }
}

/// The tables of the parts, each counted by itself, combined one after the
/// other.
pub open spec fn combined(parts: Seq<Seq<Entry>>, count_size: bool) -> TallyMap
    decreases parts.len(),
{
    if parts.len() == 0 {
        Map::empty()
    } else {
        combine(combined(parts.drop_last(), count_size), tally(parts.last(), count_size))
    }
}

/// Counting with any number of workers agrees with counting alone: however
/// the entries are dealt out into parts, the tables of the parts combine to
/// the table of the entries counted in one sequence.
pub proof fn lemma_workers_agree(entries: Seq<Entry>, parts: Seq<Seq<Entry>>, count_size: bool)
    requires
        joined(parts).to_multiset() == entries.to_multiset(),
    ensures
        combined(parts, count_size) == tally(entries, count_size),
{
    lemma_parts_combine_to_whole(parts, count_size);
    lemma_tally_permutation(joined(parts), entries, count_size);
}

/// The tables of the parts combine to the table of the parts joined.
pub proof fn lemma_parts_combine_to_whole(parts: Seq<Seq<Entry>>, count_size: bool)
    ensures
        combined(parts, count_size) == tally(joined(parts), count_size),
    decreases parts.len(),
{
    if parts.len() == 0 {
        assert forall|key: Seq<char>| !is_parent(joined(parts), key) by {}
        assert(tally(joined(parts), count_size) =~= Map::empty());
    } else {
        lemma_parts_combine_to_whole(parts.drop_last(), count_size);
        lemma_tally_split(joined(parts.drop_last()), parts.last(), count_size);
    }
}

} // verus!
