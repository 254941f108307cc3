//! Ordering the rows of a table by their file counts.

use crate::stats::DirectoryStats;
use vstd::multiset::Multiset;
use vstd::prelude::*;
use vstd::string::StringExecFns;

verus! {

/// The direction in which rows are ordered by file count.
#[derive(Clone, Copy, Debug, PartialEq, Eq, Structural)]
pub enum SortOrder {
    /// Fewest files first.
    Asc,
    /// Most files first.
    Desc,
}

impl SortOrder {
    /// Whether a row with `first` files may stand before one with `second`.
    pub open spec fn admits(self, first: usize, second: usize) -> bool {
        match self {
            SortOrder::Asc => first <= second,
            SortOrder::Desc => first >= second,
        }
    }

    /// The word for the direction: `asc` or `desc`.
    pub open spec fn name(self) -> Seq<char> {
        match self {
            SortOrder::Asc => "asc"@,
            SortOrder::Desc => "desc"@,
        }
    }

    /// Whether a row with `first` files may stand before one with `second`.
    pub fn allows(self, first: usize, second: usize) -> (ok: bool)
        ensures
            ok == self.admits(first, second),
    {
        match self {
            SortOrder::Asc => first <= second,
            SortOrder::Desc => first >= second,
        }
    }

    /// The word for the direction, as it is written on the command line.
    pub fn to_string(&self) -> (word: String)
        ensures
            word@ == self.name(),
    {
        match self {
            SortOrder::Asc => String::from_str("asc"),
            SortOrder::Desc => String::from_str("desc"),
        }
    }
}

/// Whether `rows` are in the given order: no row stands before one that the
/// order puts strictly first.
pub open spec fn ordered(rows: Seq<(String, DirectoryStats)>, order: SortOrder) -> bool {
    forall|i: int, j: int|
        0 <= i < j < rows.len() ==> order.admits(
            (#[trigger] rows[i]).1.file_count,
            (#[trigger] rows[j]).1.file_count,
        )
}

/// The test for a row with `count` files.
pub open spec fn has_count(count: usize) -> spec_fn((String, DirectoryStats)) -> bool {
    |row: (String, DirectoryStats)| row.1.file_count == count
}

/// The rows with `count` files, in the order in which they stand.
pub open spec fn with_count(rows: Seq<(String, DirectoryStats)>, count: usize) -> Seq<
    (String, DirectoryStats),
> {
    rows.filter(has_count(count))
}

/// Whether `sorted` is `rows` put in the given order: the same rows, each as
/// often, in that order, and rows with equal file counts in the order in
/// which they stood.
pub open spec fn sorts(
    sorted: Seq<(String, DirectoryStats)>,
    rows: Seq<(String, DirectoryStats)>,
    order: SortOrder,
) -> bool {
    &&& ordered(sorted, order)
    &&& sorted.to_multiset() == rows.to_multiset()
    &&& forall|count: usize| #[trigger] with_count(sorted, count) == with_count(rows, count)
}

/// Orders the rows by file count, ascending or descending. Rows with equal
/// file counts keep the order in which they came.
pub fn sort_entries(entries: &mut Vec<(String, DirectoryStats)>, order: SortOrder)
    ensures
        sorts(final(entries)@, old(entries)@, order),
{
    let mut rows: Vec<(String, DirectoryStats)> = Vec::new();
    std::mem::swap(entries, &mut rows);
    *entries = merge_sort(rows, order);
}

/// Sorts by halving: each half is sorted, then the two are merged.
fn merge_sort(rows: Vec<(String, DirectoryStats)>, order: SortOrder) -> (sorted: Vec<
    (String, DirectoryStats),
>)
    ensures
        sorts(sorted@, rows@, order),
    decreases rows@.len(),
{
    if rows.len() <= 1 {
        return rows;
    }
    let ghost all = rows@;
    let mut left = rows;
    let middle = left.len() / 2;
    let right = left.split_off(middle);
    let ghost left_rows = left@;
    let ghost right_rows = right@;
    assert(all =~= left_rows + right_rows);
    let left_sorted = merge_sort(left, order);
    let right_sorted = merge_sort(right, order);
    let merged = merge(left_sorted, right_sorted, order);
    proof {
        vstd::seq_lib::lemma_multiset_commutative(left_sorted@, right_sorted@);
        vstd::seq_lib::lemma_multiset_commutative(left_rows, right_rows);
        assert forall|count: usize| #[trigger]
            with_count(merged@, count) == with_count(all, count) by {
            assert(with_count(left_sorted@, count) == with_count(left_rows, count));
            assert(with_count(right_sorted@, count) == with_count(right_rows, count));
            Seq::filter_distributes_over_add(left_rows, right_rows, has_count(count));
        }
    }
    merged
}

/// Merges two ordered sequences of rows into one. Of two rows with equal file
/// counts, one from `left` comes before one from `right`.
fn merge(
    left: Vec<(String, DirectoryStats)>,
    right: Vec<(String, DirectoryStats)>,
    order: SortOrder,
) -> (merged: Vec<(String, DirectoryStats)>)
    requires
        ordered(left@, order),
        ordered(right@, order),
    ensures
        ordered(merged@, order),
        merged@.to_multiset() == left@.to_multiset().add(right@.to_multiset()),
        forall|count: usize| #[trigger]
            with_count(merged@, count) == with_count(left@, count) + with_count(right@, count),
{
    let ghost left_rows = left@;
    let ghost right_rows = right@;
    let mut left = left;
    let mut right = right;
    // The merged rows, the last of them first.
    let mut stack: Vec<(String, DirectoryStats)> = Vec::new();
    // The merged rows in their order.
    let ghost mut done: Seq<(String, DirectoryStats)> = Seq::empty();
    proof {
        assert forall|count: usize|
            with_count(left@, count) + with_count(right@, count) + #[trigger] with_count(
                done,
                count,
            ) == with_count(left_rows, count) + with_count(right_rows, count) by {
            reveal(Seq::filter);
            assert(with_count(done, count) =~= Seq::empty());
            assert(with_count(left@, count) + with_count(right@, count) + with_count(done, count)
                =~= with_count(left_rows, count) + with_count(right_rows, count));
        }
        assert(left@.to_multiset().add(right@.to_multiset()).add(done.to_multiset())
            =~= left_rows.to_multiset().add(right_rows.to_multiset())) by {
            broadcast use vstd::seq_lib::group_to_multiset_ensures;
            broadcast use vstd::multiset::group_multiset_axioms;

            assert(done.to_multiset() =~= Multiset::empty());
        }
    }
    while left.len() > 0 || right.len() > 0
        invariant
            ordered(left@, order),
            ordered(right@, order),
            ordered(done, order),
            stack@.len() == done.len(),
            forall|i: int| 0 <= i < done.len() ==> #[trigger] stack@[i] == done[done.len() - 1 - i],
            forall|i: int, k: int|
                0 <= i < left@.len() && 0 <= k < done.len() ==> order.admits(
                    (#[trigger] left@[i]).1.file_count,
                    (#[trigger] done[k]).1.file_count,
                ),
            forall|i: int, k: int|
                0 <= i < right@.len() && 0 <= k < done.len() ==> order.admits(
                    (#[trigger] right@[i]).1.file_count,
                    (#[trigger] done[k]).1.file_count,
                ),
            left@.to_multiset().add(right@.to_multiset()).add(done.to_multiset())
                == left_rows.to_multiset().add(right_rows.to_multiset()),
            forall|count: usize|
                with_count(left@, count) + with_count(right@, count) + #[trigger] with_count(
                    done,
                    count,
                ) == with_count(left_rows, count) + with_count(right_rows, count),
        decreases left@.len() + right@.len(),
    {
        let from_right = if left.len() == 0 {
            true
        } else if right.len() == 0 {
            false
        } else {
            order.allows(left[left.len() - 1].1.file_count, right[right.len() - 1].1.file_count)
        };
        let ghost left_before = left@;
        let ghost right_before = right@;
        let ghost done_before = done;
        let row = if from_right {
            right.pop().unwrap()
        } else {
            left.pop().unwrap()
        };
        proof {
            done = seq![row] + done_before;
            assert forall|i: int, j: int| 0 <= i < j < done.len() implies order.admits(
                (#[trigger] done[i]).1.file_count,
                (#[trigger] done[j]).1.file_count,
            ) by {
                if i == 0 {
                    assert(done[j] == done_before[j - 1]);
                    if from_right {
                        assert(right_before[right_before.len() - 1] == row);
                    } else {
                        assert(left_before[left_before.len() - 1] == row);
                    }
                } else {
                    assert(done[i] == done_before[i - 1]);
                    assert(done[j] == done_before[j - 1]);
                }
            }
            lemma_step_keeps_rows(
                left_before,
                right_before,
                done_before,
                left@,
                right@,
                done,
                row,
                from_right,
                order,
            );
        }
        stack.push(row);
        proof {
            assert forall|i: int| 0 <= i < done.len() implies #[trigger] stack@[i] == done[done.len()
                - 1 - i] by {
                if i < done_before.len() {
                    assert(stack@[i] == done_before[done_before.len() - 1 - i]);
                }
            }
            assert forall|i: int, k: int|
                0 <= i < left@.len() && 0 <= k < done.len() implies order.admits(
                (#[trigger] left@[i]).1.file_count,
                (#[trigger] done[k]).1.file_count,
            ) by {
                assert(left@[i] == left_before[i]);
                if k == 0 {
                    if from_right {
                        lemma_admits_transitive(
                            order,
                            left_before[i].1.file_count,
                            left_before[left_before.len() - 1].1.file_count,
                            row.1.file_count,
                        );
                    } else {
                        assert(left_before[left_before.len() - 1] == row);
                    }
                } else {
                    assert(done[k] == done_before[k - 1]);
                }
            }
            assert forall|i: int, k: int|
                0 <= i < right@.len() && 0 <= k < done.len() implies order.admits(
                (#[trigger] right@[i]).1.file_count,
                (#[trigger] done[k]).1.file_count,
            ) by {
                assert(right@[i] == right_before[i]);
                if k == 0 {
                    if from_right {
                        assert(right_before[right_before.len() - 1] == row);
                    } else {
                        lemma_admits_transitive(
                            order,
                            right_before[i].1.file_count,
                            right_before[right_before.len() - 1].1.file_count,
                            row.1.file_count,
                        );
                    }
                } else {
                    assert(done[k] == done_before[k - 1]);
                }
            }
        }
    }
    let mut merged: Vec<(String, DirectoryStats)> = Vec::new();
    while stack.len() > 0
        invariant
            merged@.len() + stack@.len() == done.len(),
            forall|i: int| 0 <= i < merged@.len() ==> #[trigger] merged@[i] == done[i],
            forall|i: int| 0 <= i < stack@.len() ==> #[trigger] stack@[i] == done[done.len() - 1 - i],
        decreases stack@.len(),
    {
        let row = stack.pop().unwrap();
        merged.push(row);
    }
    proof {
        assert(merged@ =~= done);
        assert(left@ =~= Seq::empty());
        assert(right@ =~= Seq::empty());
        assert(done.to_multiset() =~= left_rows.to_multiset().add(right_rows.to_multiset())) by {
            broadcast use vstd::seq_lib::group_to_multiset_ensures;
            broadcast use vstd::multiset::group_multiset_axioms;

            assert(left@.to_multiset() =~= Multiset::empty());
            assert(right@.to_multiset() =~= Multiset::empty());
        }
        assert forall|count: usize| #[trigger]
            with_count(merged@, count) == with_count(left_rows, count) + with_count(
                right_rows,
                count,
            ) by {
            reveal(Seq::filter);
            assert(with_count(left@, count) =~= Seq::empty());
            assert(with_count(right@, count) =~= Seq::empty());
            assert(with_count(left@, count) + with_count(right@, count) + with_count(done, count)
                =~= with_count(done, count));
        }
    }
    merged
}

/// The order of file counts is transitive.
proof fn lemma_admits_transitive(order: SortOrder, a: usize, b: usize, c: usize)
    requires
        order.admits(a, b) || a == b,
        order.admits(b, c),
    ensures
        order.admits(a, c),
{
}

/// One step of merging moves the last row of one side to the front of the
/// merged rows; it keeps the rows that there are, and the order among rows
/// with equal file counts.
proof fn lemma_step_keeps_rows(
    left_before: Seq<(String, DirectoryStats)>,
    right_before: Seq<(String, DirectoryStats)>,
    done_before: Seq<(String, DirectoryStats)>,
    left: Seq<(String, DirectoryStats)>,
    right: Seq<(String, DirectoryStats)>,
    done: Seq<(String, DirectoryStats)>,
    row: (String, DirectoryStats),
    from_right: bool,
    order: SortOrder,
)
    requires
        ordered(right_before, order),
        done == seq![row] + done_before,
        from_right ==> left == left_before && right_before.len() > 0 && right
            == right_before.drop_last() && row == right_before.last(),
        !from_right ==> right == right_before && left_before.len() > 0 && left
            == left_before.drop_last() && row == left_before.last(),
        !from_right && right_before.len() > 0 ==> !order.admits(
            row.1.file_count,
            right_before.last().1.file_count,
        ),
    ensures
        left.to_multiset().add(right.to_multiset()).add(done.to_multiset())
            == left_before.to_multiset().add(right_before.to_multiset()).add(
            done_before.to_multiset(),
        ),
        forall|count: usize|
            with_count(left, count) + with_count(right, count) + #[trigger] with_count(done, count)
                == with_count(left_before, count) + with_count(right_before, count) + with_count(
                done_before,
                count,
            ),
{
    assert(left.to_multiset().add(right.to_multiset()).add(done.to_multiset())
        =~= left_before.to_multiset().add(right_before.to_multiset()).add(
        done_before.to_multiset(),
    )) by {
        broadcast use vstd::multiset::group_multiset_axioms;

        assert(done =~= done_before.insert(0, row));
        vstd::seq_lib::to_multiset_insert(done_before, 0, row);
        if from_right {
            assert(right_before =~= right.push(row));
            vstd::seq_lib::to_multiset_build(right, row);
        } else {
            assert(left_before =~= left.push(row));
            vstd::seq_lib::to_multiset_build(left, row);
        }
    }
    assert forall|count: usize|
        with_count(left, count) + with_count(right, count) + #[trigger] with_count(done, count)
            == with_count(left_before, count) + with_count(right_before, count) + with_count(
            done_before,
            count,
        ) by {
        let test = has_count(count);
        let one = if test(row) {
            seq![row]
        } else {
            Seq::empty()
        };
        done_before.lemma_filter_prepend(row, test);
        assert(with_count(done, count) == one + with_count(done_before, count));
        if from_right {
            assert(right_before =~= right.push(row));
            right.lemma_filter_push(row, test);
            assert(with_count(right_before, count) =~= with_count(right, count) + one);
            assert(with_count(left, count) + with_count(right, count) + (one + with_count(
                done_before,
                count,
            )) =~= with_count(left_before, count) + (with_count(right, count) + one) + with_count(
                done_before,
                count,
            ));
        } else {
            assert(left_before =~= left.push(row));
            left.lemma_filter_push(row, test);
            assert(with_count(left_before, count) =~= with_count(left, count) + one);
            if test(row) {
                assert forall|i: int| 0 <= i < right.len() implies !test(#[trigger] right[i]) by {
                    if i < right.len() - 1 {
                        assert(order.admits(
                            right[i].1.file_count,
                            right[right.len() - 1].1.file_count,
                        ));
                    }
                }
                assert(right.all(|x: (String, DirectoryStats)| !test(x)));
                right.lemma_all_neg_filter_empty(test);
                assert(with_count(right, count) =~= Seq::empty());
            }
            assert(with_count(left, count) + with_count(right, count) + (one + with_count(
                done_before,
                count,
            )) =~= (with_count(left, count) + one) + with_count(right_before, count) + with_count(
                done_before,
                count,
            ));
        }
    }
}

/// The file counts of the rows, in the order of the rows.
pub open spec fn file_counts(rows: Seq<(String, DirectoryStats)>) -> Seq<usize> {
    Seq::new(rows.len(), |i: int| rows[i].1.file_count)
}

/// Whether no two rows have the same file count.
pub open spec fn no_ties(rows: Seq<(String, DirectoryStats)>) -> bool {
    forall|i: int, j: int|
        0 <= i < j < rows.len() ==> (#[trigger] rows[i]).1.file_count != (
        #[trigger] rows[j]).1.file_count
}

/// The opposite direction.
pub open spec fn opposite(order: SortOrder) -> SortOrder {
    match order {
        SortOrder::Asc => SortOrder::Desc,
        SortOrder::Desc => SortOrder::Asc,
    }
}

/// Rows in one order, read backwards, are in the opposite order.
pub proof fn lemma_reverse_is_opposite(rows: Seq<(String, DirectoryStats)>, order: SortOrder)
    requires
        ordered(rows, order),
    ensures
        ordered(rows.reverse(), opposite(order)),
{
    let back = rows.reverse();
    assert forall|i: int, j: int| 0 <= i < j < back.len() implies opposite(order).admits(
        (#[trigger] back[i]).1.file_count,
        (#[trigger] back[j]).1.file_count,
    ) by {
        assert(back[i] == rows[rows.len() - 1 - i]);
        assert(back[j] == rows[rows.len() - 1 - j]);
    }
}

/// The same rows have the same file counts, each as often.
proof fn lemma_same_rows_same_counts(
    a: Seq<(String, DirectoryStats)>,
    b: Seq<(String, DirectoryStats)>,
)
    requires
        a.to_multiset() == b.to_multiset(),
    ensures
        file_counts(a).to_multiset() == file_counts(b).to_multiset(),
    decreases a.len(),
{
    broadcast use vstd::seq_lib::group_to_multiset_ensures;
    broadcast use vstd::multiset::group_multiset_axioms;

    vstd::seq_lib::to_multiset_len(a);
    vstd::seq_lib::to_multiset_len(b);
    if a.len() == 0 {
        assert(file_counts(a) =~= file_counts(b));
    } else {
        let last = a.last();
        assert(a[a.len() - 1] == last);
        assert(a.contains(last));
        assert(a.to_multiset().count(last) > 0);
        assert(b.contains(last));
        let at = choose|at: int| 0 <= at < b.len() && b[at] == last;
        assert(a.drop_last() =~= a.remove(a.len() - 1));
        assert(a.drop_last().to_multiset() == b.remove(at).to_multiset());
        lemma_same_rows_same_counts(a.drop_last(), b.remove(at));
        assert(file_counts(a) =~= file_counts(a.drop_last()).push(last.1.file_count));
        assert(file_counts(b.remove(at)) =~= file_counts(b).remove(at));
        vstd::seq_lib::to_multiset_remove(file_counts(b), at);
        assert(file_counts(b).to_multiset().count(last.1.file_count) > 0) by {
            assert(file_counts(b)[at] == last.1.file_count);
            assert(file_counts(b).contains(last.1.file_count));
        }
        assert(file_counts(a).to_multiset() =~= file_counts(b).to_multiset());
    }
}

/// Whether a table has two rows with the same file count does not depend on
/// the order of its rows.
proof fn lemma_no_ties_in_any_order(
    a: Seq<(String, DirectoryStats)>,
    b: Seq<(String, DirectoryStats)>,
)
    requires
        a.to_multiset() == b.to_multiset(),
        no_ties(a),
    ensures
        no_ties(b),
{
    broadcast use vstd::seq_lib::group_to_multiset_ensures;
    broadcast use vstd::multiset::group_multiset_axioms;

    assert forall|i: int, j: int| 0 <= i < j < b.len() implies (#[trigger] b[i]).1.file_count != (
    #[trigger] b[j]).1.file_count by {
        if b[i].1.file_count == b[j].1.file_count {
            assert(b.contains(b[j]));
            assert(b.to_multiset().count(b[j]) > 0);
            assert(a.contains(b[j]));
            let p = choose|p: int| 0 <= p < a.len() && a[p] == b[j];
            let fewer_a = a.remove(p);
            let fewer_b = b.remove(j);
            assert(fewer_a.to_multiset() == fewer_b.to_multiset());
            assert(fewer_b[i] == b[i]);
            assert(fewer_b.contains(b[i]));
            assert(fewer_b.to_multiset().count(b[i]) > 0);
            assert(fewer_a.contains(b[i]));
            let q = choose|q: int| 0 <= q < fewer_a.len() && fewer_a[q] == b[i];
            if q < p {
                assert(a[q] == b[i]);
                assert(a[q].1.file_count != a[p].1.file_count);
            } else {
                assert(a[q + 1] == b[i]);
                assert(a[p].1.file_count != a[q + 1].1.file_count);
            }
        }
    }
}

/// Sorting ascending and reversing agrees with sorting descending: the two
/// hold the same rows and show the same file counts, position by position.
/// Where no two rows of the table have the same file count, the two are the
/// same sequence of rows.
pub proof fn lemma_ascending_reversed_is_descending(
    rows: Seq<(String, DirectoryStats)>,
    up: Seq<(String, DirectoryStats)>,
    down: Seq<(String, DirectoryStats)>,
)
    requires
        sorts(up, rows, SortOrder::Asc),
        sorts(down, rows, SortOrder::Desc),
    ensures
        up.reverse().to_multiset() == down.to_multiset(),
        file_counts(up.reverse()) == file_counts(down),
        no_ties(rows) ==> up.reverse() == down,
{
    let back = up.reverse();
    up.lemma_reverse_to_multiset();
    lemma_reverse_is_opposite(up, SortOrder::Asc);
    lemma_same_rows_same_counts(back, down);
    let at_least = |x: usize, y: usize| x >= y;
    assert(vstd::relations::total_ordering(at_least));
    assert(vstd::relations::sorted_by(file_counts(back), at_least)) by {
        assert forall|i: int, j: int| 0 <= i < j < file_counts(back).len() implies #[trigger] at_least(
            file_counts(back)[i],
            file_counts(back)[j],
        ) by {
            assert(SortOrder::Desc.admits(back[i].1.file_count, back[j].1.file_count));
        }
    }
    assert(vstd::relations::sorted_by(file_counts(down), at_least)) by {
        assert forall|i: int, j: int| 0 <= i < j < file_counts(down).len() implies #[trigger] at_least(
            file_counts(down)[i],
            file_counts(down)[j],
        ) by {
            assert(SortOrder::Desc.admits(down[i].1.file_count, down[j].1.file_count));
        }
    }
    vstd::seq_lib::lemma_sorted_unique(file_counts(back), file_counts(down), at_least);
    if no_ties(rows) {
        broadcast use vstd::seq_lib::group_to_multiset_ensures;

        lemma_no_ties_in_any_order(rows, back);
        vstd::seq_lib::to_multiset_len(back);
        vstd::seq_lib::to_multiset_len(down);
        assert forall|i: int| 0 <= i < down.len() implies back[i] == down[i] by {
            assert(down.contains(down[i]));
            assert(down.to_multiset().count(down[i]) > 0);
            assert(back.contains(down[i]));
            let j = choose|j: int| 0 <= j < back.len() && back[j] == down[i];
            assert(file_counts(back)[j] == file_counts(down)[i]);
            assert(file_counts(back)[i] == file_counts(down)[i]);
            if j < i {
                assert(back[j].1.file_count != back[i].1.file_count);
            } else if i < j {
                assert(back[i].1.file_count != back[j].1.file_count);
            }
        }
        assert(back =~= down);
    }
}

} // verus!
