//! Laying the report out as a `prettytable` table, ready to be printed.

use crate::report::{
    cells, decimal_digits, digit, gigabytes_text, header, header_cells, hundredths, row_cells,
};
use crate::stats::DirectoryStats;
use vstd::prelude::*;

verus! {

/// `prettytable::Table`, whose inside is not read here.
#[verifier::external_type_specification]
#[verifier::external_body]
pub struct ExTable(prettytable::Table);

/// What a table holds: for each of its rows, title rows left aside, the
/// content of each cell, as `Cell::get_content` gives it.
pub uninterp spec fn table_rows(table: prettytable::Table) -> Seq<Seq<Seq<char>>>;

/// Whether a character does not occur in a text.
pub open spec fn lacks(text: Seq<char>, c: char) -> bool {
    forall|k: int| 0 <= k < text.len() ==> text[k] != c
}

/// Whether a text can be laid out in a cell: it has no escape character in
/// it. On some texts with such a character `prettytable` panics.
pub open spec fn printable(text: Seq<char>) -> bool {
    lacks(text, '\u{1b}')
}

/// Whether a text has no line feed in it. Such a text is the whole content of
/// the cell made from it; of another, a cell keeps the lines.
pub open spec fn plain(text: Seq<char>) -> bool {
    lacks(text, '\n')
}

/// Whether `shown` is the row of cells made from `texts`: one cell for each
/// text, and in it the text itself where the text is plain.
pub open spec fn shows(shown: Seq<Seq<char>>, texts: Seq<Seq<char>>) -> bool {
    &&& shown.len() == texts.len()
    &&& forall|j: int| 0 <= j < texts.len() && plain(texts[j]) ==> #[trigger] shown[j] == texts[j]
}

/// Whether the directory of every row can be laid out in a cell.
pub open spec fn printable_rows(rows: Seq<(String, DirectoryStats)>) -> bool {
    forall|i: int| 0 <= i < rows.len() ==> printable((#[trigger] rows[i]).0@)
}

/// `Table::new`: a table without rows.
#[verifier::external_body]
fn new_table() -> (table: prettytable::Table)
    ensures
        table_rows(table) == Seq::<Seq<Seq<char>>>::empty(),
{
    prettytable::Table::new()
}

/// `Table::add_row`, on the row that `Row::from` makes of the texts, as the
/// `row!` macro does: the table gets one more row, behind the rows it had,
/// with one cell for each text. A cell keeps its text line by line, so the
/// contract gives the cell's content only for a text without line feed. The
/// cell measures its text, and that panics on some texts with an escape
/// character: none is let in.
#[verifier::external_body]
fn add_row(table: &mut prettytable::Table, texts: &Vec<String>)
    requires
        forall|j: int| 0 <= j < texts@.len() ==> printable(#[trigger] texts@[j]@),
    ensures
        table_rows(*final(table)).len() == table_rows(*old(table)).len() + 1,
        table_rows(*final(table)).drop_last() == table_rows(*old(table)),
        shows(table_rows(*final(table)).last(), texts.deep_view()),
{
    table.add_row(prettytable::Row::from(texts));
}

/// Whether `shown` is the report of `rows`: the titles of the columns, then
/// one row for each row of `rows`, in their order, with its cells.
pub open spec fn reports(
    shown: Seq<Seq<Seq<char>>>,
    rows: Seq<(String, DirectoryStats)>,
    count_size: bool,
) -> bool {
    &&& shown.len() == rows.len() + 1
    &&& shown[0] == header(count_size)
    &&& forall|i: int|
        0 <= i < rows.len() ==> row_reported(#[trigger] shown[i + 1], rows[i], count_size)
}

/// Whether `shown` is the report of one row: the directory, the two counts
/// in decimal and, where sizes are counted, the size in gigabytes. The
/// directory is shown as it is where its path has no line feed.
pub open spec fn row_reported(
    shown: Seq<Seq<char>>,
    row: (String, DirectoryStats),
    count_size: bool,
) -> bool {
    &&& shown.len() == if count_size { 4nat } else { 3nat }
    &&& plain(row.0@) ==> shown[0] == row.0@
    &&& shown[1] == decimal_digits(row.1.subdirectory_count as nat)
    &&& shown[2] == decimal_digits(row.1.file_count as nat)
    &&& count_size ==> shown[3] == gigabytes_text(row.1.total_size_bytes as nat)
}

/// Whether a character occurs nowhere in a text.
fn has_none(text: &str, c: char) -> (ok: bool)
    ensures
        ok == lacks(text@, c),
{
    broadcast use vstd::string::group_string_axioms;

    for found in it: text.chars()
        invariant
            it.seq() == text@,
            forall|k: int| 0 <= k < it.index() ==> text@[k] != c,
    {
        if found == c {
            return false;
        }
    }
    true
}

/// Whether the rows can be laid out: no directory has an escape character in
/// its path.
fn can_lay_out(rows: &Vec<(String, DirectoryStats)>) -> (ok: bool)
    ensures
        ok == printable_rows(rows@),
{
    let mut at: usize = 0;
    while at < rows.len()
        invariant
            at <= rows@.len(),
            forall|i: int| 0 <= i < at ==> printable((#[trigger] rows@[i]).0@),
        decreases rows@.len() - at,
    {
        if !has_none(rows[at].0.as_str(), '\u{1b}') {
            return false;
        }
        at += 1;
    }
    true
}

/// Lays out the report: a table with the titles of the columns in its first
/// row and one row for each directory, in the order of `rows`. There is no
/// table where the path of a directory has an escape character in it.
pub fn build_table(rows: &Vec<(String, DirectoryStats)>, count_size: bool) -> (table: Option<
    prettytable::Table,
>)
    ensures
        table is Some <==> printable_rows(rows@),
        table matches Some(shown) ==> reports(table_rows(shown), rows@, count_size),
{
    if !can_lay_out(rows) {
        return None;
    }
    let mut table = new_table();
    let titles = header_cells(count_size);
    proof {
        lemma_header_is_clean(count_size);
        assert forall|j: int| 0 <= j < titles@.len() implies printable(#[trigger] titles@[j]@) by {
            assert(titles@[j]@ == titles.deep_view()[j]);
        }
    }
    add_row(&mut table, &titles);
    assert(table_rows(table).last() =~= header(count_size));
    assert(table_rows(table)[0] == table_rows(table).last());
    let mut at: usize = 0;
    while at < rows.len()
        invariant
            at <= rows@.len(),
            printable_rows(rows@),
            table_rows(table).len() == at + 1,
            table_rows(table)[0] == header(count_size),
            forall|i: int|
                0 <= i < at ==> row_reported(#[trigger] table_rows(table)[i + 1], rows@[i], count_size),
        decreases rows@.len() - at,
    {
        let ghost before = table_rows(table);
        let ghost row = rows@[at as int];
        let texts = row_cells(&rows[at], count_size);
        proof {
            lemma_numbers_are_clean(row, count_size, '\u{1b}');
            assert(printable(row.0@));
            assert forall|j: int| 0 <= j < texts@.len() implies printable(#[trigger] texts@[j]@) by {
                assert(texts@[j]@ == texts.deep_view()[j]);
            }
        }
        add_row(&mut table, &texts);
        proof {
            let after = table_rows(table);
            let shown = after[at + 1];
            assert(after.drop_last() == before);
            assert forall|i: int| 0 <= i <= at implies after[i] == before[i] by {
                assert(after.drop_last()[i] == after[i]);
            }
            assert(shown == after.last());
            lemma_numbers_are_clean(row, count_size, '\n');
            assert(shown[1] == cells(row, count_size)[1]);
            assert(shown[2] == cells(row, count_size)[2]);
            if count_size {
                assert(shown[3] == cells(row, count_size)[3]);
            }
            if plain(row.0@) {
                assert(shown[0] == cells(row, count_size)[0]);
            }
            assert forall|i: int| 0 <= i < at + 1 implies row_reported(
                #[trigger] after[i + 1],
                rows@[i],
                count_size,
            ) by {
                if i < at {
                    assert(after[i + 1] == before[i + 1]);
                }
            }
        }
        at += 1;
    }
    Some(table)
}

/// Whether a character is one of the ten digits or the decimal point.
spec fn in_numbers(c: char) -> bool {
    c == '.' || c == '0' || c == '1' || c == '2' || c == '3' || c == '4' || c == '5' || c == '6'
        || c == '7' || c == '8' || c == '9'
}

/// A number in decimal holds nothing but digits.
proof fn lemma_decimal_is_clean(n: nat, c: char)
    requires
        !in_numbers(c),
    ensures
        lacks(decimal_digits(n), c),
    decreases n,
{
    if n >= 10 {
        lemma_decimal_is_clean(n / 10, c);
    }
}

/// The cells of a row that hold numbers hold nothing but digits and the
/// decimal point.
proof fn lemma_numbers_are_clean(row: (String, DirectoryStats), count_size: bool, c: char)
    requires
        !in_numbers(c),
    ensures
        forall|j: int| 1 <= j < cells(row, count_size).len() ==> lacks(
            #[trigger] cells(row, count_size)[j],
            c,
        ),
{
    lemma_decimal_is_clean(row.1.subdirectory_count as nat, c);
    lemma_decimal_is_clean(row.1.file_count as nat, c);
    let h = hundredths(row.1.total_size_bytes as nat);
    lemma_decimal_is_clean(h / 100, c);
    let text = gigabytes_text(row.1.total_size_bytes as nat);
    let whole = decimal_digits(h / 100);
    let tail = seq!['.', digit(h / 10 % 10), digit(h % 10)];
    assert forall|k: int| 0 <= k < text.len() implies text[k] != c by {
        if k < whole.len() {
            assert(text[k] == whole[k]);
        } else {
            assert(text[k] == tail[k - whole.len()]);
        }
    }
}

/// The titles of the columns have neither a line feed nor an escape
/// character in them.
proof fn lemma_header_is_clean(count_size: bool)
    ensures
        forall|j: int|
            0 <= j < header(count_size).len() ==> plain(#[trigger] header(count_size)[j])
                && printable(header(count_size)[j]),
{
    reveal_strlit("Directory");
    reveal_strlit("Subdirectories");
    reveal_strlit("Files");
    reveal_strlit("Size (GB)");
}

} // verus!
