//! What the report shows: the text of each cell, and the table that holds
//! them.

use crate::stats::DirectoryStats;
use vstd::prelude::*;
use vstd::string::StringExecFns;

verus! {

/// The number of bytes in one gigabyte: 2 to the power of 30.
pub const BYTES_PER_GIGABYTE: u64 = 1_073_741_824;

/// The character of one decimal digit.
pub open spec fn digit(d: nat) -> char {
    if d == 0 {
        '0'
    } else if d == 1 {
        '1'
    } else if d == 2 {
        '2'
    } else if d == 3 {
        '3'
    } else if d == 4 {
        '4'
    } else if d == 5 {
        '5'
    } else if d == 6 {
        '6'
    } else if d == 7 {
        '7'
    } else if d == 8 {
        '8'
    } else {
        '9'
    }
}

/// A number in decimal, without sign or leading zeros.
pub open spec fn decimal_digits(n: nat) -> Seq<char>
    decreases n,
{
    if n < 10 {
        seq![digit(n)]
    } else {
        decimal_digits(n / 10).push(digit(n % 10))
    }
}

/// A size in hundredths of a gigabyte, rounded to the nearest; a size just
/// between two hundredths goes to the even one.
pub open spec fn hundredths(bytes: nat) -> nat {
    let scaled = bytes * 100;
    let whole = scaled / (BYTES_PER_GIGABYTE as nat);
    let rest = scaled % (BYTES_PER_GIGABYTE as nat);
    let half = (BYTES_PER_GIGABYTE as nat) / 2;
    if rest > half || (rest == half && whole % 2 == 1) {
        whole + 1
    } else {
        whole
    }
}

/// A size in gigabytes with two decimal places.
pub open spec fn gigabytes_text(bytes: nat) -> Seq<char> {
    let h = hundredths(bytes);
    decimal_digits(h / 100) + seq!['.', digit(h / 10 % 10), digit(h % 10)]
}

/// The titles of the columns; the size column is there only where sizes are
/// counted.
pub open spec fn header(count_size: bool) -> Seq<Seq<char>> {
    if count_size {
        seq!["Directory"@, "Subdirectories"@, "Files"@, "Size (GB)"@]
    } else {
        seq!["Directory"@, "Subdirectories"@, "Files"@]
    }
}

/// The cells of one row: the directory, its two counts and, where sizes are
/// counted, its size in gigabytes.
pub open spec fn cells(row: (String, DirectoryStats), count_size: bool) -> Seq<Seq<char>> {
    if count_size {
        seq![
            row.0@,
            decimal_digits(row.1.subdirectory_count as nat),
            decimal_digits(row.1.file_count as nat),
            gigabytes_text(row.1.total_size_bytes as nat),
        ]
    } else {
        seq![
            row.0@,
            decimal_digits(row.1.subdirectory_count as nat),
            decimal_digits(row.1.file_count as nat),
        ]
    }
}

/// The text of one decimal digit.
fn digit_text(d: u64) -> (text: &'static str)
    requires
        d < 10,
    ensures
        text@ == seq![digit(d as nat)],
{
    proof {
        reveal_strlit("0");
        reveal_strlit("1");
        reveal_strlit("2");
        reveal_strlit("3");
        reveal_strlit("4");
        reveal_strlit("5");
        reveal_strlit("6");
        reveal_strlit("7");
        reveal_strlit("8");
        reveal_strlit("9");
    }
    let text = if d == 0 {
        "0"
    } else if d == 1 {
        "1"
    } else if d == 2 {
        "2"
    } else if d == 3 {
        "3"
    } else if d == 4 {
        "4"
    } else if d == 5 {
        "5"
    } else if d == 6 {
        "6"
    } else if d == 7 {
        "7"
    } else if d == 8 {
        "8"
    } else {
        "9"
    };
    assert(text@ =~= seq![digit(d as nat)]);
    text
}

/// Writes a number in decimal.
pub fn decimal(n: u64) -> (text: String)
    ensures
        text@ == decimal_digits(n as nat),
    decreases n,
{
    if n < 10 {
        String::from_str(digit_text(n))
    } else {
        let mut text = decimal(n / 10);
        text.append(digit_text(n % 10));
        assert(text@ =~= decimal_digits(n as nat));
        text
    }
}

/// Writes a size in gigabytes with two decimal places: the bytes divided by
/// 2 to the power of 30, rounded to the nearest hundredth.
pub fn gigabytes(bytes: u64) -> (text: String)
    ensures
        text@ == gigabytes_text(bytes as nat),
{
    let unit: u128 = 1_073_741_824;
    let scaled: u128 = bytes as u128 * 100;
    let whole: u128 = scaled / unit;
    let rest: u128 = scaled % unit;
    let h: u128 = if rest > unit / 2 || (rest == unit / 2 && whole % 2 == 1) {
        whole + 1
    } else {
        whole
    };
    assert(h == hundredths(bytes as nat));
    let mut text = decimal((h / 100) as u64);
    text.append(".");
    text.append(digit_text((h / 10 % 10) as u64));
    text.append(digit_text((h % 10) as u64));
    proof {
        reveal_strlit(".");
        assert("."@ =~= seq!['.']);
        assert(text@ =~= gigabytes_text(bytes as nat));
    }
    text
}

/// The titles of the columns.
pub fn header_cells(count_size: bool) -> (titles: Vec<String>)
    ensures
        titles.deep_view() == header(count_size),
{
    let mut titles: Vec<String> = Vec::new();
    titles.push(String::from_str("Directory"));
    titles.push(String::from_str("Subdirectories"));
    titles.push(String::from_str("Files"));
    if count_size {
        titles.push(String::from_str("Size (GB)"));
    }
    assert(titles.deep_view() =~= header(count_size));
    titles
}

/// The cells of one row.
pub fn row_cells(row: &(String, DirectoryStats), count_size: bool) -> (texts: Vec<String>)
    ensures
        texts.deep_view() == cells(*row, count_size),
{
    let mut texts: Vec<String> = Vec::new();
    texts.push(row.0.clone());
    texts.push(decimal(row.1.subdirectory_count as u64));
    texts.push(decimal(row.1.file_count as u64));
    if count_size {
        texts.push(gigabytes(row.1.total_size_bytes));
    }
    assert(texts.deep_view() =~= cells(*row, count_size));
    texts
}

} // verus!
