//! Helpers around the game: taking free numbers for clients and tables, and
//! text for showing a table (lines of dashes, columns side by side, numbers
//! in decimal).

use crate::game::Game;
use std::collections::{HashMap, HashSet};
use vstd::prelude::*;
use vstd::utf8::encode_utf8;

verus! {

/// `unit` written `n` times.
pub open spec fn repeated(unit: Seq<char>, n: nat) -> Seq<char>
    decreases n,
{
    if n == 0 {
        Seq::empty()
    } else {
        repeated(unit, (n - 1) as nat) + unit
    }
}

/// How wide a text is: the number of its bytes in UTF-8.
pub open spec fn width(text: Seq<char>) -> nat {
    encode_utf8(text).len()
}

/// The texts of the strings.
pub open spec fn texts_of(strings: Seq<String>) -> Seq<Seq<char>> {
    Seq::new(strings.len(), |i: int| strings[i]@)
}

/// The width of the widest of the first `n` texts.
pub open spec fn widest_prefix(texts: Seq<Seq<char>>, n: int) -> nat
    decreases n,
{
    if n <= 0 {
        0
    } else if width(texts[n - 1]) > widest_prefix(texts, n - 1) {
        width(texts[n - 1])
    } else {
        widest_prefix(texts, n - 1)
    }
}

/// The width of the widest text.
pub open spec fn widest(texts: Seq<Seq<char>>) -> nat {
    widest_prefix(texts, texts.len() as int)
}

/// The columns as texts.
pub open spec fn columns_of(columns: Seq<Vec<String>>) -> Seq<Seq<Seq<char>>> {
    Seq::new(columns.len(), |c: int| texts_of(columns[c]@))
}

/// The length of the longest of the first `n` columns.
pub open spec fn tallest_prefix(columns: Seq<Seq<Seq<char>>>, n: int) -> nat
    decreases n,
{
    if n <= 0 {
        0
    } else if columns[n - 1].len() > tallest_prefix(columns, n - 1) {
        columns[n - 1].len()
    } else {
        tallest_prefix(columns, n - 1)
    }
}

/// The length of the longest column.
pub open spec fn tallest(columns: Seq<Seq<Seq<char>>>) -> nat {
    tallest_prefix(columns, columns.len() as int)
}

/// What a column shows on a line: its text there, filled up with blanks to
/// the width of the column; only blanks below its last text.
pub open spec fn cell(column: Seq<Seq<char>>, line: int) -> Seq<char> {
    if 0 <= line < column.len() {
        column[line] + repeated(" "@, (widest(column) - width(column[line])) as nat)
    } else {
        repeated(" "@, widest(column))
    }
}

/// What the first `m` columns show on a line, with " | " between them.
pub open spec fn row_prefix(columns: Seq<Seq<Seq<char>>>, line: int, m: int) -> Seq<char>
    decreases m,
{
    if m <= 0 {
        Seq::empty()
    } else if m == 1 {
        cell(columns[0], line)
    } else {
        row_prefix(columns, line, m - 1) + " | "@ + cell(columns[m - 1], line)
    }
}

/// The first `k` lines of the columns side by side, each ended by a line
/// feed.
pub open spec fn table_prefix(columns: Seq<Seq<Seq<char>>>, k: int) -> Seq<char>
    decreases k,
{
    if k <= 0 {
        Seq::empty()
    } else {
        table_prefix(columns, k - 1) + row_prefix(columns, k - 1, columns.len() as int) + "\n"@
    }
}

/// The columns side by side, as many lines as the longest column has.
pub open spec fn table_text(columns: Seq<Seq<Seq<char>>>) -> Seq<char> {
    table_prefix(columns, tallest(columns) as int)
}

/// How a digit is written.
pub open spec fn digit_text(d: int) -> Seq<char> {
    if d == 0 {
        "0"@
    } else if d == 1 {
        "1"@
    } else if d == 2 {
        "2"@
    } else if d == 3 {
        "3"@
    } else if d == 4 {
        "4"@
    } else if d == 5 {
        "5"@
    } else if d == 6 {
        "6"@
    } else if d == 7 {
        "7"@
    } else if d == 8 {
        "8"@
    } else {
        "9"@
    }
}

/// How a number that is not negative is written in decimal.
pub open spec fn natural_text(n: nat) -> Seq<char>
    decreases n,
{
    if n < 10 {
        digit_text(n as int)
    } else {
        natural_text(n / 10) + digit_text((n % 10) as int)
    }
}

/// How a number is written in decimal, with a minus sign where it is
/// negative.
pub open spec fn decimal_text(n: int) -> Seq<char> {
    if n < 0 {
        "-"@ + natural_text((-n) as nat)
    } else {
        natural_text(n as nat)
    }
}

/// The big blind of a table that a client opens.
pub const DEFAULT_BIG_BLIND: i32 = 2;

/// What each player brings to a table that a client opens.
pub const DEFAULT_INITIAL_MONEY: i32 = 1000;

/// Takes `candidate` as the number of a new client if no client has it.
pub fn claim_client_id(ids: &mut HashSet<u128>, candidate: u128) -> (claimed: bool)
    ensures
        claimed == !old(ids)@.contains(candidate),
        final(ids)@ == old(ids)@.insert(candidate),
{
    broadcast use vstd::std_specs::hash::group_hash_axioms;

    ids.insert(candidate)
}

/// Opens a table with the number `candidate` if no table has it: an empty
/// table with the big blind and the money that a new table has.
pub fn open_table(games: &mut HashMap<u128, Game>, candidate: u128) -> (opened: bool)
    ensures
        opened == !old(games)@.dom().contains(candidate),
        !opened ==> final(games)@ == old(games)@,
        opened ==> final(games)@.dom() == old(games)@.dom().insert(candidate)
            && final(games)@[candidate]@ == Game::new_table(
            candidate,
            DEFAULT_BIG_BLIND as int,
            DEFAULT_INITIAL_MONEY as int,
        ) && forall|id: u128|
            old(games)@.dom().contains(id) ==> #[trigger] final(games)@[id] == old(games)@[id],
{
    broadcast use vstd::std_specs::hash::group_hash_axioms;

    if games.contains_key(&candidate) {
        false
    } else {
        games.insert(candidate, Game::new(candidate, DEFAULT_BIG_BLIND, DEFAULT_INITIAL_MONEY));
        true
    }
}

/// `unit` written `n` times.
pub fn repeat(unit: &str, n: usize) -> (text: String)
    ensures
        text@ == repeated(unit@, n as nat),
{
    let mut text = String::new();
    let mut i: usize = 0;
    while i < n
        invariant
            i <= n,
            text@ == repeated(unit@, i as nat),
        decreases n - i,
    {
        text.append(unit);
        i += 1;
    }
    text
}

/// How wide the text is.
fn width_of(text: &String) -> (w: usize)
    ensures
        w == width(text@),
{
    text.as_str().as_bytes().len()
}

/// The width of the widest string.
pub fn longest(strings: &Vec<String>) -> (w: usize)
    ensures
        w == widest(texts_of(strings@)),
        forall|i: int| 0 <= i < strings.len() ==> width(#[trigger] strings[i]@) <= w,
{
    let ghost texts = texts_of(strings@);
    let mut w: usize = 0;
    let mut i: usize = 0;
    while i < strings.len()
        invariant
            i <= strings.len(),
            texts == texts_of(strings@),
            w == widest_prefix(texts, i as int),
            forall|j: int| 0 <= j < i ==> width(#[trigger] strings[j]@) <= w,
        decreases strings.len() - i,
    {
        assert(texts[i as int] == strings[i as int]@);
        let here = width_of(&strings[i]);
        if here > w {
            w = here;
        }
        i += 1;
    }
    w
}

/// A line of `num` dashes.
pub fn dashes(num: usize) -> (line: String)
    ensures
        line@ == repeated("-"@, num as nat),
{
    repeat("-", num)
}

/// A line of dashes as wide as the widest of the strings.
pub fn get_dashes_for_longest_string(strings: &Vec<String>) -> (line: String)
    requires
        strings.len() > 0,
    ensures
        line@ == repeated("-"@, widest(texts_of(strings@))),
{
    repeat("-", longest(strings))
}

/// The columns side by side: on each line the text of every column, filled up
/// with blanks to the width of the column, with " | " between the columns and
/// a line feed at the end. There are as many lines as the longest column has.
pub fn format_next_to_each_other(strings_to_print: &Vec<Vec<String>>) -> (text: String)
    requires
        strings_to_print.len() > 0,
        forall|c: int| 0 <= c < strings_to_print.len()
            ==> (#[trigger] strings_to_print[c]).len() > 0,
    ensures
        text@ == table_text(columns_of(strings_to_print@)),
{
    let ghost columns = columns_of(strings_to_print@);
    let count = strings_to_print.len();
    let mut lines: usize = 0;
    let mut c: usize = 0;
    while c < count
        invariant
            c <= count,
            count == strings_to_print.len(),
            columns == columns_of(strings_to_print@),
            lines == tallest_prefix(columns, c as int),
        decreases count - c,
    {
        assert(columns[c as int].len() == strings_to_print[c as int].len());
        if strings_to_print[c].len() > lines {
            lines = strings_to_print[c].len();
        }
        c += 1;
    }
    let mut text = String::new();
    let mut line: usize = 0;
    while line < lines
        invariant
            line <= lines,
            count == strings_to_print.len(),
            count > 0,
            columns == columns_of(strings_to_print@),
            text@ == table_prefix(columns, line as int),
        decreases lines - line,
    {
        let ghost done = text@;
        let mut c: usize = 0;
        while c < count
            invariant
                c <= count,
                count == strings_to_print.len(),
                columns == columns_of(strings_to_print@),
                text@ == done + row_prefix(columns, line as int, c as int),
            decreases count - c,
        {
            let column = &strings_to_print[c];
            let ghost shown = columns[c as int];
            assert(shown == texts_of(column@));
            let ghost row = row_prefix(columns, line as int, c as int);
            if c > 0 {
                text.append(" | ");
            }
            let ghost with_divider = text@;
            let column_width = longest(column);
            if line < column.len() {
                assert(shown[line as int] == column[line as int]@);
                let used = width_of(&column[line]);
                text.append(column[line].as_str());
                let padding = repeat(" ", column_width - used);
                text.append(padding.as_str());
                assert(text@ == with_divider + cell(shown, line as int)) by {
                    assert(text@ =~= with_divider + (column[line as int]@ + padding@));
                }
            } else {
                let padding = repeat(" ", column_width);
                text.append(padding.as_str());
            }
            proof {
                if c > 0 {
                    assert(text@ =~= done + (row + " | "@ + cell(shown, line as int)));
                } else {
                    assert(row =~= Seq::<char>::empty());
                    assert(text@ =~= done + cell(shown, line as int));
                }
            }
            c += 1;
        }
        text.append("\n");
        assert(text@ =~= done + row_prefix(columns, line as int, count as int) + "\n"@);
        line += 1;
    }
    text
}

/// How a digit is written.
fn digit_name(d: u32) -> (name: &'static str)
    requires
        d < 10,
    ensures
        name@ == digit_text(d as int),
{
    if d == 0 {
        "0"
    } else if d == 1 {
        "1"
    } else if d == 2 {
        "2"
    } else if d == 3 {
        "3"
    } else if d == 4 {
        "4"
    } else if d == 5 {
        "5"
    } else if d == 6 {
        "6"
    } else if d == 7 {
        "7"
    } else if d == 8 {
        "8"
    } else {
        "9"
    }
}

/// Writes a number that is not negative behind the text.
fn append_natural(text: &mut String, n: u32)
    ensures
        final(text)@ == old(text)@ + natural_text(n as nat),
    decreases n,
{
    if n >= 10 {
        append_natural(text, n / 10);
        text.append(digit_name(n % 10));
        assert(text@ =~= old(text)@ + (natural_text((n / 10) as nat) + digit_text(
            (n % 10) as int,
        )));
    } else {
        text.append(digit_name(n));
    }
}

/// The number in decimal.
pub fn decimal(n: i32) -> (text: String)
    ensures
        text@ == decimal_text(n as int),
{
    let mut text = String::new();
    if n < 0 {
        text.append("-");
        let size: u32 = if n == i32::MIN {
            2147483648u32
        } else {
            (-n) as u32
        };
        append_natural(&mut text, size);
        assert(text@ =~= "-"@ + natural_text((-n) as nat));
    } else {
        append_natural(&mut text, n as u32);
        assert(text@ =~= natural_text(n as nat));
    }
    text
}

} // verus!
