//! The device list as text, one line per device.
//!
//! A line reads `[3]: Built-in speakers`; the line of the current default
//! starts with an asterisk. A device without a description is shown as
//! `Unknown device`.

use crate::listing::ListEntry;
use vstd::prelude::*;

verus! {

/// The character for a single decimal digit.
pub open spec fn digit(value: nat) -> char {
    if value == 0 {
        '0'
    } else if value == 1 {
        '1'
    } else if value == 2 {
        '2'
    } else if value == 3 {
        '3'
    } else if value == 4 {
        '4'
    } else if value == 5 {
        '5'
    } else if value == 6 {
        '6'
    } else if value == 7 {
        '7'
    } else if value == 8 {
        '8'
    } else {
        '9'
    }
}

/// A number in decimal notation, without sign or leading zeros.
pub open spec fn decimal(number: nat) -> Seq<char>
    decreases number,
{
    if number < 10 {
        seq![digit(number)]
    } else {
        decimal(number / 10).push(digit(number % 10))
    }
}

/// What stands at the top of the list.
pub open spec fn heading() -> Seq<char> {
    "Available devices (*default):\n\n"@
}

/// What is shown for a device that has no description.
pub open spec fn placeholder() -> Seq<char> {
    "Unknown device"@
}

/// The line for one entry, without the line break.
pub open spec fn entry_line(entry: ListEntry) -> Seq<char> {
    let mark = if entry.is_current {
        seq!['*']
    } else {
        Seq::<char>::empty()
    };
    let shown = match entry.description {
        Some(text) => text@,
        None => placeholder(),
    };
    mark + seq!['['] + decimal(entry.index as nat) + seq![']', ':', ' '] + shown
}

/// The lines for `entries`, each closed by a line break.
pub open spec fn entry_lines(entries: Seq<ListEntry>) -> Seq<char>
    decreases entries.len(),
{
    if entries.len() == 0 {
        Seq::<char>::empty()
    } else {
        entry_lines(entries.drop_last()) + entry_line(entries.last()) + seq!['\n']
    }
}

/// The whole list as text: the heading, then the lines.
pub open spec fn list_text(entries: Seq<ListEntry>) -> Seq<char> {
    heading() + entry_lines(entries)
}

fn digit_text(value: u32) -> (text: &'static str)
    requires
        value < 10,
    ensures
        text@ == seq![digit(value as nat)],
{
    proof {
        reveal_strlit("0");
        reveal_strlit("1");
        reveal_strlit("2");
        reveal_strlit("3");
        reveal_strlit("4");
        reveal_strlit("5");
        reveal_strlit("6");
        reveal_strlit("7");
        reveal_strlit("8");
        reveal_strlit("9");
    }
    let text = match value {
        0 => "0",
        1 => "1",
        2 => "2",
        3 => "3",
        4 => "4",
        5 => "5",
        6 => "6",
        7 => "7",
        8 => "8",
        _ => "9",
    };
    assert(text@ =~= seq![digit(value as nat)]);
    text
}

/// Writes `number` in decimal notation at the end of `text`.
pub fn append_decimal(text: &mut String, number: u32)
    ensures
        final(text)@ == old(text)@ + decimal(number as nat),
    decreases number,
{
    if number >= 10 {
        append_decimal(text, number / 10);
    }
    text.append(digit_text(number % 10));
    assert(text@ =~= old(text)@ + decimal(number as nat));
}

/// The line for `entry`, without a line break.
pub fn render_entry(entry: &ListEntry) -> (line: String)
    ensures
        line@ == entry_line(*entry),
{
    proof {
        reveal_strlit("*");
        reveal_strlit("[");
        reveal_strlit("]: ");
    }
    let mut line = String::new();
    if entry.is_current {
        line.append("*");
    }
    line.append("[");
    append_decimal(&mut line, entry.index);
    line.append("]: ");
    match &entry.description {
        Some(text) => line.append(text.as_str()),
        None => line.append("Unknown device"),
    }
    assert(line@ =~= entry_line(*entry));
    line
}

/// The whole list as text, ready to be printed: the heading, an empty
/// line, then one line per entry in the order of `entries`.
pub fn render_list(entries: &Vec<ListEntry>) -> (text: String)
    ensures
        text@ == list_text(entries@),
{
    let mut text = String::new();
    text.append("Available devices (*default):\n\n");
    let mut i: usize = 0;
    assert(entries@.take(0) =~= Seq::<ListEntry>::empty());
    assert(text@ =~= list_text(entries@.take(0)));
    while i < entries.len()
        invariant
            i <= entries.len(),
            text@ == list_text(entries@.take(i as int)),
        decreases entries.len() - i,
    {
        let line = render_entry(&entries[i]);
        proof {
            assert(entries@.take(i + 1).drop_last() =~= entries@.take(i as int));
            assert(entries@.take(i + 1).last() == entries[i as int]);
        }
        let ghost before = text@;
        text.append(line.as_str());
        text.append("\n");
        proof {
            let shorter = entries@.take(i as int);
            let longer = entries@.take(i + 1);
            assert(entry_lines(longer) == entry_lines(shorter) + entry_line(entries[i as int])
                + seq!['\n']);
            reveal_strlit("\n");
            assert(text@ =~= before + line@ + seq!['\n']);
            assert(text@ =~= heading() + entry_lines(longer));
        }
        i += 1;
    }
    assert(entries@.take(entries.len() as int) =~= entries@);
    text
}

} // verus!
