use prettytable::{Cell, Row, Table};
use wizzy::aggregate::count_files_and_dirs;
use wizzy::entry::Entry;
use wizzy::render::build_table;
use wizzy::report::{decimal, gigabytes, header_cells, row_cells, BYTES_PER_GIGABYTE};
use wizzy::sort::{sort_entries, SortOrder};
use wizzy::stats::DirectoryStats;
use wizzy::totals::totals;

fn stats(subdirectory_count: usize, file_count: usize, total_size_bytes: u64) -> DirectoryStats {
    DirectoryStats { subdirectory_count, file_count, total_size_bytes }
}

fn through_floats(bytes: u64) -> String {
    format!("{:.2}", bytes as f64 / 1_073_741_824.0)
}

#[test]
fn one_gigabyte_is_shown_as_one() {
    assert_eq!(BYTES_PER_GIGABYTE, 1 << 30);
    assert_eq!(gigabytes(1_073_741_824), "1.00");
}

#[test]
fn gigabytes_are_rounded_to_hundredths() {
    assert_eq!(gigabytes(0), "0.00");
    assert_eq!(gigabytes(1), "0.00");
    assert_eq!(gigabytes(5_368_709), "0.00");
    assert_eq!(gigabytes(5_368_710), "0.01");
    assert_eq!(gigabytes(536_870_912), "0.50");
    assert_eq!(gigabytes(1_610_612_736), "1.50");
    assert_eq!(gigabytes(10 * 1_073_741_824 + 107_374_183), "10.10");
    assert_eq!(gigabytes(123 * 1_073_741_824), "123.00");
    assert_eq!(gigabytes(u64::MAX), "17179869184.00");
}

#[test]
fn a_size_between_two_hundredths_goes_to_the_even_one() {
    assert_eq!(gigabytes(134_217_728), "0.12");
    assert_eq!(gigabytes(3 * 134_217_728), "0.38");
    assert_eq!(gigabytes(5 * 134_217_728), "0.62");
    assert_eq!(gigabytes(7 * 134_217_728), "0.88");
    assert_eq!(gigabytes(9 * 134_217_728), "1.12");
}

#[test]
fn gigabytes_agree_with_floating_point_formatting() {
    let mut samples: Vec<u64> = vec![0, 1, 100, 5_368_709, 5_368_710, 1 << 20, 1 << 29, 1 << 30];
    for j in 0..64u64 {
        samples.push(j * 134_217_728);
        samples.push(j * 134_217_728 + 1);
        samples.push((j * 134_217_728).saturating_sub(1));
    }
    let mut seed: u64 = 99;
    for _ in 0..2000 {
        seed = seed.wrapping_mul(6364136223846793005).wrapping_add(1442695040888963407);
        samples.push(seed >> 12);
        samples.push(seed >> 30);
    }
    for bytes in samples {
        assert!(bytes < (1 << 53));
        assert_eq!(gigabytes(bytes), through_floats(bytes), "for {} bytes", bytes);
    }
}

#[test]
fn numbers_are_written_in_decimal() {
    assert_eq!(decimal(0), "0");
    assert_eq!(decimal(7), "7");
    assert_eq!(decimal(10), "10");
    assert_eq!(decimal(1234567890), "1234567890");
    assert_eq!(decimal(u64::MAX), "18446744073709551615");
    for n in [9u64, 99, 100, 101, 4096, 65535, 1_000_000_007] {
        assert_eq!(decimal(n), n.to_string());
    }
}

#[test]
fn titles_have_a_size_column_only_where_sizes_are_counted() {
    assert_eq!(header_cells(false), vec!["Directory", "Subdirectories", "Files"]);
    assert_eq!(header_cells(true), vec!["Directory", "Subdirectories", "Files", "Size (GB)"]);
}

#[test]
fn cells_of_a_row() {
    let row = ("some/dir".to_string(), stats(3, 12, 1_610_612_736));
    assert_eq!(row_cells(&row, false), vec!["some/dir", "3", "12"]);
    assert_eq!(row_cells(&row, true), vec!["some/dir", "3", "12", "1.50"]);
}

#[test]
fn totals_add_up_all_rows() {
    let rows = vec![
        ("a".to_string(), stats(1, 2, 3)),
        ("b".to_string(), stats(10, 20, 30)),
        ("c".to_string(), stats(100, 200, 300)),
    ];
    assert_eq!(totals(&rows), Some(stats(111, 222, 333)));
    assert_eq!(totals(&Vec::new()), Some(stats(0, 0, 0)));
}

#[test]
fn totals_that_do_not_fit_are_told() {
    let rows = vec![("a".to_string(), stats(0, usize::MAX, 0)), ("b".to_string(), stats(0, 1, 0))];
    assert_eq!(totals(&rows), None);
    let sizes = vec![("a".to_string(), stats(0, 1, u64::MAX)), ("b".to_string(), stats(0, 1, 1))];
    assert_eq!(totals(&sizes), None);
    let dirs = vec![("a".to_string(), stats(usize::MAX, 0, 0)), ("b".to_string(), stats(1, 0, 0))];
    assert_eq!(totals(&dirs), None);
    let fits = vec![("a".to_string(), stats(0, 1, u64::MAX - 1)), ("b".to_string(), stats(0, 1, 1))];
    assert_eq!(totals(&fits), Some(stats(0, 2, u64::MAX)));
}

#[test]
fn file_counts_of_all_rows_add_up_to_the_files_counted() {
    let mut entries = Vec::new();
    let mut files = 0;
    let mut bytes = 0;
    for i in 0..50u64 {
        let is_dir = i % 3 == 0;
        if !is_dir {
            files += 1;
            bytes += i * 10;
        }
        entries.push(Entry {
            parent: Some(format!("dir{}", i % 7)),
            is_dir,
            size: Some(i * 10),
        });
    }
    let rows = count_files_and_dirs(&entries, true).into_rows();
    let sum = totals(&rows).unwrap();
    assert_eq!(sum.file_count, files);
    assert_eq!(sum.subdirectory_count, 50 - files);
    assert_eq!(sum.total_size_bytes, bytes);
    let without = totals(&count_files_and_dirs(&entries, false).into_rows()).unwrap();
    assert_eq!(without.file_count, files);
    assert_eq!(without.total_size_bytes, 0);
}

fn content(table: &Table) -> Vec<Vec<String>> {
    table.row_iter().map(|row| row.iter().map(|cell| cell.get_content()).collect()).collect()
}

#[test]
fn table_holds_titles_and_rows_in_order() {
    let rows = vec![
        ("a".to_string(), stats(1, 2, 1_073_741_824)),
        ("b/c".to_string(), stats(0, 20, 134_217_728)),
    ];
    let table = build_table(&rows, true).unwrap();
    assert_eq!(
        content(&table),
        vec![
            vec!["Directory", "Subdirectories", "Files", "Size (GB)"],
            vec!["a", "1", "2", "1.00"],
            vec!["b/c", "0", "20", "0.12"],
        ]
    );
    let plain = build_table(&rows, false).unwrap();
    assert_eq!(
        content(&plain),
        vec![
            vec!["Directory", "Subdirectories", "Files"],
            vec!["a", "1", "2"],
            vec!["b/c", "0", "20"],
        ]
    );
}

#[test]
fn table_of_no_rows_has_only_titles() {
    let table = build_table(&Vec::new(), false).unwrap();
    assert_eq!(table.len(), 1);
    assert_eq!(content(&table), vec![vec!["Directory", "Subdirectories", "Files"]]);
}

#[test]
fn table_prints_like_one_made_cell_by_cell() {
    let rows = vec![("x".to_string(), stats(3, 4, 0)), ("yy".to_string(), stats(5, 6, 0))];
    let table = build_table(&rows, false).unwrap();
    let mut expected = Table::new();
    expected.add_row(Row::new(vec![
        Cell::new("Directory"),
        Cell::new("Subdirectories"),
        Cell::new("Files"),
    ]));
    expected.add_row(Row::new(vec![Cell::new("x"), Cell::new("3"), Cell::new("4")]));
    expected.add_row(Row::new(vec![Cell::new("yy"), Cell::new("5"), Cell::new("6")]));
    assert_eq!(table, expected);
    assert_eq!(table.to_string(), expected.to_string());
    assert!(table.to_string().contains("| yy        | 5              | 6     |"));
}

#[test]
fn whole_report_of_a_small_tree() {
    let entries = vec![
        Entry { parent: Some("".to_string()), is_dir: true, size: None },
        Entry { parent: Some("R".to_string()), is_dir: true, size: None },
        Entry { parent: Some("R".to_string()), is_dir: false, size: Some(100) },
        Entry { parent: Some("R".to_string()), is_dir: false, size: None },
    ];
    let mut rows = count_files_and_dirs(&entries, true).into_rows();
    sort_entries(&mut rows, SortOrder::Desc);
    let table = build_table(&rows, true).unwrap();
    assert_eq!(
        content(&table),
        vec![
            vec!["Directory", "Subdirectories", "Files", "Size (GB)"],
            vec!["R", "1", "2", "0.00"],
            vec!["", "1", "0", "0.00"],
        ]
    );
    assert_eq!(totals(&rows), Some(stats(2, 2, 100)));
}

#[test]
fn a_path_with_an_escape_character_is_not_laid_out() {
    let fine = vec![("a/b".to_string(), stats(1, 2, 3)), ("c\u{7}d".to_string(), stats(0, 0, 0))];
    assert!(build_table(&fine, true).is_some());
    for odd in ["\u{1b}", "c\u{1b}[0md", "ab\u{1b}", "\u{e9}\u{1F600}\u{1b}x"] {
        let rows = vec![("a/b".to_string(), stats(1, 2, 3)), (odd.to_string(), stats(0, 0, 0))];
        assert!(build_table(&rows, true).is_none());
        assert!(build_table(&rows, false).is_none());
    }
    let wide = vec![("\u{e9}\u{1F600}x".to_string(), stats(0, 0, 0))];
    assert_eq!(content(&build_table(&wide, false).unwrap())[1][0], "\u{e9}\u{1F600}x");
}

#[test]
fn a_path_with_a_carriage_return_is_shown_as_it_is() {
    let rows = vec![("a\rb".to_string(), stats(1, 2, 3))];
    let table = build_table(&rows, false).unwrap();
    assert_eq!(content(&table)[1], vec!["a\rb", "1", "2"]);
}
