use wizzy::sort::{sort_entries, SortOrder};
use wizzy::stats::DirectoryStats;

fn row(key: &str, files: usize) -> (String, DirectoryStats) {
    (
        key.to_string(),
        DirectoryStats { subdirectory_count: 0, file_count: files, total_size_bytes: 0 },
    )
}

fn keys(rows: &[(String, DirectoryStats)]) -> Vec<&str> {
    rows.iter().map(|row| row.0.as_str()).collect()
}

fn counts(rows: &[(String, DirectoryStats)]) -> Vec<usize> {
    rows.iter().map(|row| row.1.file_count).collect()
}

#[test]
fn ascending_puts_fewest_files_first() {
    let mut rows = vec![row("c", 30), row("a", 10), row("d", 40), row("b", 20), row("e", 0)];
    sort_entries(&mut rows, SortOrder::Asc);
    assert_eq!(keys(&rows), vec!["e", "a", "b", "c", "d"]);
    assert_eq!(counts(&rows), vec![0, 10, 20, 30, 40]);
}

#[test]
fn descending_puts_most_files_first() {
    let mut rows = vec![row("c", 30), row("a", 10), row("d", 40), row("b", 20), row("e", 0)];
    sort_entries(&mut rows, SortOrder::Desc);
    assert_eq!(keys(&rows), vec!["d", "c", "b", "a", "e"]);
}

#[test]
fn rows_with_equal_counts_keep_their_order() {
    let mut up = vec![row("x", 2), row("p", 1), row("y", 2), row("q", 1), row("z", 2), row("r", 1)];
    let mut down = up.clone();
    sort_entries(&mut up, SortOrder::Asc);
    assert_eq!(keys(&up), vec!["p", "q", "r", "x", "y", "z"]);
    sort_entries(&mut down, SortOrder::Desc);
    assert_eq!(keys(&down), vec!["x", "y", "z", "p", "q", "r"]);
}

#[test]
fn sorting_agrees_with_the_stable_sort_of_the_standard_library() {
    let mut seed: u64 = 12345;
    for len in 0..40usize {
        let mut rows = Vec::new();
        for i in 0..len {
            seed = seed.wrapping_mul(6364136223846793005).wrapping_add(1442695040888963407);
            rows.push(row(&format!("k{}", i), ((seed >> 33) % 7) as usize));
        }
        let mut up = rows.clone();
        sort_entries(&mut up, SortOrder::Asc);
        let mut expected_up = rows.clone();
        expected_up.sort_by_key(|k| k.1.file_count);
        assert_eq!(up, expected_up);

        let mut down = rows.clone();
        sort_entries(&mut down, SortOrder::Desc);
        let mut expected_down = rows.clone();
        expected_down.sort_by(|a, b| b.1.file_count.cmp(&a.1.file_count));
        assert_eq!(down, expected_down);
    }
}

#[test]
fn ascending_reversed_is_descending_without_ties() {
    let rows = vec![row("c", 30), row("a", 10), row("d", 40), row("b", 20), row("e", 0)];
    let mut up = rows.clone();
    sort_entries(&mut up, SortOrder::Asc);
    up.reverse();
    let mut down = rows;
    sort_entries(&mut down, SortOrder::Desc);
    assert_eq!(up, down);
}

#[test]
fn ascending_reversed_shows_the_counts_of_descending_with_ties() {
    let rows = vec![row("x", 2), row("p", 1), row("y", 2), row("q", 1), row("z", 3)];
    let mut up = rows.clone();
    sort_entries(&mut up, SortOrder::Asc);
    up.reverse();
    let mut down = rows;
    sort_entries(&mut down, SortOrder::Desc);
    assert_eq!(counts(&up), counts(&down));
    let mut up_keys = keys(&up);
    let mut down_keys = keys(&down);
    up_keys.sort();
    down_keys.sort();
    assert_eq!(up_keys, down_keys);
}

#[test]
fn sorting_nothing_or_one_row_changes_nothing() {
    let mut none: Vec<(String, DirectoryStats)> = Vec::new();
    sort_entries(&mut none, SortOrder::Asc);
    assert!(none.is_empty());
    let mut one = vec![row("a", 5)];
    sort_entries(&mut one, SortOrder::Desc);
    assert_eq!(one, vec![row("a", 5)]);
}

#[test]
fn sort_order_is_written_as_on_the_command_line() {
    assert_eq!(SortOrder::Asc.to_string(), "asc");
    assert_eq!(SortOrder::Desc.to_string(), "desc");
}

#[test]
fn allows_compares_in_the_direction_of_the_order() {
    assert!(SortOrder::Asc.allows(1, 2));
    assert!(SortOrder::Asc.allows(2, 2));
    assert!(!SortOrder::Asc.allows(3, 2));
    assert!(SortOrder::Desc.allows(3, 2));
    assert!(SortOrder::Desc.allows(2, 2));
    assert!(!SortOrder::Desc.allows(1, 2));
}
