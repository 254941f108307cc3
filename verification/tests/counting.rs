use wizzy::aggregate::count_files_and_dirs;
use wizzy::entry::Entry;
use wizzy::stats::DirectoryStats;
use wizzy::table::DirectoryStatsTable;

fn dir(parent: &str) -> Entry {
    Entry { parent: Some(parent.to_string()), is_dir: true, size: None }
}

fn file(parent: &str, size: Option<u64>) -> Entry {
    Entry { parent: Some(parent.to_string()), is_dir: false, size }
}

fn stats(subdirectory_count: usize, file_count: usize, total_size_bytes: u64) -> DirectoryStats {
    DirectoryStats { subdirectory_count, file_count, total_size_bytes }
}

fn sorted_rows(table: DirectoryStatsTable) -> Vec<(String, DirectoryStats)> {
    let mut rows = table.into_rows();
    rows.sort_by(|a, b| a.0.cmp(&b.0));
    rows
}

fn sample() -> Vec<Entry> {
    vec![
        dir(""),
        dir("R"),
        file("R", Some(100)),
        dir("R/A"),
        file("R/A", Some(7)),
        file("R/A", None),
        file("R/A/B", Some(1_000_000)),
        file("R", Some(23)),
        dir("R"),
        file("R/A", Some(5)),
    ]
}

#[test]
fn root_with_one_subdirectory_and_one_file_counts_sizes() {
    let entries = vec![dir(""), dir("R"), file("R", Some(100))];
    let table = count_files_and_dirs(&entries, true);
    assert_eq!(table.get("R"), Some(stats(1, 1, 100)));
    assert_eq!(table.get(""), Some(stats(1, 0, 0)));
    assert_eq!(table.len(), 2);
}

#[test]
fn root_with_one_subdirectory_and_one_file_without_sizes() {
    let entries = vec![dir(""), dir("R"), file("R", Some(100))];
    let table = count_files_and_dirs(&entries, false);
    assert_eq!(table.get("R"), Some(stats(1, 1, 0)));
}

#[test]
fn empty_leaf_directory_has_no_row() {
    let entries = vec![dir(""), dir("R"), file("R", Some(100))];
    let table = count_files_and_dirs(&entries, true);
    assert_eq!(table.get("R/A"), None);
    let keys: Vec<String> = sorted_rows(table).into_iter().map(|row| row.0).collect();
    assert_eq!(keys, vec!["".to_string(), "R".to_string()]);
}

#[test]
fn no_entries_give_an_empty_table() {
    let table = count_files_and_dirs(&Vec::new(), true);
    assert_eq!(table.len(), 0);
    assert!(table.into_rows().is_empty());
}

#[test]
fn entry_without_parent_is_counted_under_the_empty_key() {
    let entries = vec![Entry { parent: None, is_dir: true, size: None }];
    let table = count_files_and_dirs(&entries, false);
    assert_eq!(table.get(""), Some(stats(1, 0, 0)));
    assert_eq!(entries[0].parent_key(), "");
}

#[test]
fn unreadable_size_counts_the_file_with_no_bytes() {
    let mut table = DirectoryStatsTable::new();
    table.record(&file("d", Some(10)), true);
    table.record(&file("d", None), true);
    assert_eq!(table.get("d"), Some(stats(0, 2, 10)));
    assert_eq!(file("d", None).counters(true), stats(0, 1, 0));
}

#[test]
fn size_of_a_directory_entry_is_not_counted() {
    let entry = Entry { parent: Some("d".to_string()), is_dir: true, size: Some(4096) };
    assert_eq!(entry.counters(true), stats(1, 0, 0));
}

#[test]
fn sizes_are_left_at_zero_unless_asked_for() {
    assert_eq!(file("d", Some(10)).counters(false), stats(0, 1, 0));
    assert_eq!(file("d", Some(10)).counters(true), stats(0, 1, 10));
}

#[test]
fn sample_tree_is_counted() {
    let rows = sorted_rows(count_files_and_dirs(&sample(), true));
    assert_eq!(
        rows,
        vec![
            ("".to_string(), stats(1, 0, 0)),
            ("R".to_string(), stats(2, 2, 123)),
            ("R/A".to_string(), stats(1, 3, 12)),
            ("R/A/B".to_string(), stats(0, 1, 1_000_000)),
        ]
    );
}

#[test]
fn rows_list_every_key_once() {
    let table = count_files_and_dirs(&sample(), true);
    let mut keys: Vec<String> = table.rows().iter().map(|row| row.0.clone()).collect();
    keys.sort();
    assert_eq!(keys, vec!["", "R", "R/A", "R/A/B"]);
    for row in table.rows() {
        assert_eq!(table.get(&row.0), Some(row.1));
    }
}

#[test]
fn counting_in_parts_and_merging_equals_counting_whole() {
    let entries = sample();
    let whole = sorted_rows(count_files_and_dirs(&entries, true));
    for cut in 0..=entries.len() {
        let mut first = count_files_and_dirs(&entries[..cut].to_vec(), true);
        let second = count_files_and_dirs(&entries[cut..].to_vec(), true);
        assert!(first.can_merge(&second));
        first.merge(&second);
        assert_eq!(sorted_rows(first), whole);
    }
}

#[test]
fn counting_with_three_workers_in_any_merge_order() {
    let entries = sample();
    let whole = sorted_rows(count_files_and_dirs(&entries, true));
    let mut parts: Vec<Vec<Entry>> = vec![Vec::new(), Vec::new(), Vec::new()];
    for (i, entry) in entries.iter().enumerate() {
        parts[(i * 7) % 3].push(entry.clone());
    }
    let orders = [[0, 1, 2], [0, 2, 1], [1, 0, 2], [1, 2, 0], [2, 0, 1], [2, 1, 0]];
    for order in orders {
        let mut merged = DirectoryStatsTable::new();
        for part in order {
            merged.merge(&count_files_and_dirs(&parts[part], true));
        }
        assert_eq!(sorted_rows(merged), whole);
    }
    // (a + b) + c against a + (b + c)
    let mut left = count_files_and_dirs(&parts[0], true);
    left.merge(&count_files_and_dirs(&parts[1], true));
    left.merge(&count_files_and_dirs(&parts[2], true));
    let mut tail = count_files_and_dirs(&parts[1], true);
    tail.merge(&count_files_and_dirs(&parts[2], true));
    let mut right = count_files_and_dirs(&parts[0], true);
    right.merge(&tail);
    assert_eq!(sorted_rows(left), sorted_rows(right));
}

#[test]
fn order_of_entries_does_not_change_the_table() {
    let entries = sample();
    let mut reversed = entries.clone();
    reversed.reverse();
    assert_eq!(
        sorted_rows(count_files_and_dirs(&entries, true)),
        sorted_rows(count_files_and_dirs(&reversed, true))
    );
}

#[test]
fn merging_with_an_empty_table_changes_nothing() {
    let whole = sorted_rows(count_files_and_dirs(&sample(), true));
    let mut table = count_files_and_dirs(&sample(), true);
    table.merge(&DirectoryStatsTable::new());
    assert_eq!(sorted_rows(table), whole);
    let mut empty = DirectoryStatsTable::new();
    empty.merge(&count_files_and_dirs(&sample(), true));
    assert_eq!(sorted_rows(empty), whole);
}

#[test]
fn merge_adds_field_by_field_and_passes_single_keys_through() {
    let mut a = DirectoryStatsTable::new();
    a.add("both", stats(1, 2, 3));
    a.add("left", stats(4, 5, 6));
    let mut b = DirectoryStatsTable::new();
    b.add("both", stats(10, 20, 30));
    b.add("right", stats(7, 8, 9));
    a.merge(&b);
    assert_eq!(a.get("both"), Some(stats(11, 22, 33)));
    assert_eq!(a.get("left"), Some(stats(4, 5, 6)));
    assert_eq!(a.get("right"), Some(stats(7, 8, 9)));
    assert_eq!(a.len(), 3);
    assert_eq!(b.get("both"), Some(stats(10, 20, 30)));
}

#[test]
fn add_makes_a_row_or_adds_to_it() {
    let mut table = DirectoryStatsTable::new();
    assert_eq!(table.get("d"), None);
    table.add("d", stats(1, 0, 0));
    table.add("e", stats(0, 1, 9));
    table.add("d", stats(0, 1, 5));
    assert_eq!(table.get("d"), Some(stats(1, 1, 5)));
    assert_eq!(table.get("e"), Some(stats(0, 1, 9)));
    assert_eq!(table.len(), 2);
}

#[test]
fn counters_at_their_limit_cannot_take_more() {
    let mut table = DirectoryStatsTable::new();
    table.add("d", stats(0, usize::MAX, 0));
    assert!(!table.can_record(&file("d", Some(1)), true));
    assert!(table.can_record(&dir("d"), true));
    assert!(table.can_record(&file("e", Some(1)), true));
    assert!(!table.can_add("d", &stats(0, 1, 0)));
    assert!(table.can_add("d", &stats(1, 0, 1)));

    let mut sizes = DirectoryStatsTable::new();
    sizes.add("d", stats(0, 1, u64::MAX - 1));
    assert!(sizes.can_record(&file("d", Some(1)), true));
    assert!(!sizes.can_record(&file("d", Some(2)), true));
    assert!(sizes.can_record(&file("d", Some(2)), false));

    let mut other = DirectoryStatsTable::new();
    other.add("x", stats(1, 1, 1));
    assert!(sizes.can_merge(&other));
    other.add("d", stats(0, 0, 2));
    assert!(!sizes.can_merge(&other));
}

#[test]
fn combine_adds_the_three_counters() {
    let a = stats(1, 2, 3);
    let b = stats(10, 20, 30);
    assert!(a.can_combine(&b));
    assert_eq!(a.combine(&b), stats(11, 22, 33));
    assert_eq!(DirectoryStats::new(), stats(0, 0, 0));
    assert!(!stats(usize::MAX, 0, 0).can_combine(&stats(1, 0, 0)));
    assert!(!stats(0, 0, u64::MAX).can_combine(&stats(0, 0, 1)));
    assert!(stats(usize::MAX - 1, 0, u64::MAX - 1).can_combine(&stats(1, 0, 1)));
}
