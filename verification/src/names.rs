//! Human-readable names for candidate rows and constraint columns of the
//! exact-cover matrix.
//!
//! A candidate row number encodes one placement: a cell row `x`, a cell
//! column `y` and a digit `z`, as `(x * 9 + y) * 9 + (z - 1)`.  A column
//! number encodes one constraint instance; the four constraint families
//! (cell, row-digit, column-digit, box-digit) occupy four blocks of 81
//! column numbers each.

use vstd::prelude::*;

verus! {

/// The character for a single decimal digit 0 through 9.
pub open spec fn digit_char(d: int) -> char {
    if d == 0 {
        '0'
    } else if d == 1 {
        '1'
    } else if d == 2 {
        '2'
    } else if d == 3 {
        '3'
    } else if d == 4 {
        '4'
    } else if d == 5 {
        '5'
    } else if d == 6 {
        '6'
    } else if d == 7 {
        '7'
    } else if d == 8 {
        '8'
    } else {
        '9'
    }
}

/// A one-character string for a digit 0 through 9.
fn digit_str(d: usize) -> (s: &'static str)
    requires
        d <= 9,
    ensures
        s@ =~= seq![digit_char(d as int)],
{
    proof {
        reveal_strlit("0");
        reveal_strlit("1");
        reveal_strlit("2");
        reveal_strlit("3");
        reveal_strlit("4");
        reveal_strlit("5");
        reveal_strlit("6");
        reveal_strlit("7");
        reveal_strlit("8");
        reveal_strlit("9");
    }
    match d {
        0 => "0",
        1 => "1",
        2 => "2",
        3 => "3",
        4 => "4",
        5 => "5",
        6 => "6",
        7 => "7",
        8 => "8",
        _ => "9",
    }
}

/// Splits a candidate row number into its cell row, cell column and digit.
pub fn row_num_to_coords(i: usize) -> (r: (usize, usize, u8))
    requires
        i < 729,
    ensures
        r.0 == i / 81,
        r.1 == (i / 9) % 9,
        r.2 == i % 9 + 1,
{
    let x = i / (9 * 9);
    let y = (i / 9) % 9;
    let z = i % 9;
    (x, y, z as u8 + 1)
}

/// The spelled-out name of a candidate row, such as `R1C1#1`.
pub open spec fn row_name_seq(i: int) -> Seq<char> {
    seq![
        'R',
        digit_char(i / 81 + 1),
        'C',
        digit_char((i / 9) % 9 + 1),
        '#',
        digit_char(i % 9 + 1),
    ]
}

/// Names a candidate row after its cell row, cell column and digit.
pub fn row_num_to_name(i: usize) -> (s: String)
    requires
        i < 729,
    ensures
        s@ =~= row_name_seq(i as int),
{
    let (x, y, z) = row_num_to_coords(i);
    proof {
        reveal_strlit("R");
        reveal_strlit("C");
        reveal_strlit("#");
    }
    let mut s = String::from_str("R");
    s.append(digit_str(x + 1));
    s.append("C");
    s.append(digit_str(y + 1));
    s.append("#");
    s.append(digit_str(z as usize));
    s
}

/// The spelled-out name of a constraint column.  The four constraint
/// families read `RxCy` (cell), `Rx#z` (row-digit), `Cx#z` (column-digit)
/// and `Bxy#z` (box-digit).
pub open spec fn col_name_seq(i: int) -> Seq<char> {
    let j = i % 81;
    let x = j / 9;
    let y = j % 9 + 1;
    if i / 81 == 0 {
        seq!['R', digit_char(x + 1), 'C', digit_char(y)]
    } else if i / 81 == 1 {
        seq!['R', digit_char(x + 1), '#', digit_char(y)]
    } else if i / 81 == 2 {
        seq!['C', digit_char(x + 1), '#', digit_char(y)]
    } else {
        seq!['B', digit_char(x / 3 + 1), digit_char(x % 3 + 1), '#', digit_char(y)]
    }
}

/// Names a constraint column after the constraint instance it stands for.
pub fn col_num_to_name(i: usize) -> (s: String)
    requires
        i < 324,
    ensures
        s@ =~= col_name_seq(i as int),
{
    let j = i % (9 * 9);
    let x = j / 9;
    let y = j % 9 + 1;
    proof {
        reveal_strlit("R");
        reveal_strlit("C");
        reveal_strlit("B");
        reveal_strlit("#");
    }
    match i / (9 * 9) {
        0 => {
            let mut s = String::from_str("R");
            s.append(digit_str(x + 1));
            s.append("C");
            s.append(digit_str(y));
            s
        },
        1 => {
            let mut s = String::from_str("R");
            s.append(digit_str(x + 1));
            s.append("#");
            s.append(digit_str(y));
            s
        },
        2 => {
            let mut s = String::from_str("C");
            s.append(digit_str(x + 1));
            s.append("#");
            s.append(digit_str(y));
            s
        },
        _ => {
            let mut s = String::from_str("B");
            s.append(digit_str(x / 3 + 1));
            s.append(digit_str(x % 3 + 1));
            s.append("#");
            s.append(digit_str(y));
            s
        },
    }
}

} // verus!
