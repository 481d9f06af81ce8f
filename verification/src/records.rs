//! Textual output records: the fixed two-prefix convention that ties a
//! source name and a line index to each emitted line.

use vstd::prelude::*;
use vstd::string::StrSliceExecFns;
use vstd::string::StringExecFns;
use crate::highlight::end_marker;
use crate::highlight::end_marker_text;
use crate::scan::EventModel;
use crate::scan::ScanEvent;

verus! {

/// The decimal digit character for `d`.
pub open spec fn digit_char(d: int) -> char {
    if d == 0 {
        '0'
    } else if d == 1 {
        '1'
    } else if d == 2 {
        '2'
    } else if d == 3 {
        '3'
    } else if d == 4 {
        '4'
    } else if d == 5 {
        '5'
    } else if d == 6 {
        '6'
    } else if d == 7 {
        '7'
    } else if d == 8 {
        '8'
    } else {
        '9'
    }
}

/// The usual decimal rendering of a non-negative number, most significant
/// digit first, no leading zeros.
pub open spec fn dec_digits(v: int) -> Seq<char>
    decreases v,
{
    if v < 10 {
        seq![digit_char(v)]
    } else {
        dec_digits(v / 10).push(digit_char(v % 10))
    }
}

fn digit_text(d: usize) -> (r: &'static str)
    requires
        d < 10,
    ensures
        r@ == seq![digit_char(d as int)],
{
    let r: &'static str = if d == 0 {
        "0"
    } else if d == 1 {
        "1"
    } else if d == 2 {
        "2"
    } else if d == 3 {
        "3"
    } else if d == 4 {
        "4"
    } else if d == 5 {
        "5"
    } else if d == 6 {
        "6"
    } else if d == 7 {
        "7"
    } else if d == 8 {
        "8"
    } else {
        "9"
    };
    proof {
        reveal_strlit("0");
        reveal_strlit("1");
        reveal_strlit("2");
        reveal_strlit("3");
        reveal_strlit("4");
        reveal_strlit("5");
        reveal_strlit("6");
        reveal_strlit("7");
        reveal_strlit("8");
        reveal_strlit("9");
        assert(r@ =~= seq![digit_char(d as int)]);
    }
    r
}

/// Render a line index in decimal.
pub fn usize_to_decimal(v: usize) -> (r: String)
    ensures
        r@ == dec_digits(v as int),
    decreases v,
{
    if v < 10 {
        String::from_str(digit_text(v))
    } else {
        let mut s = usize_to_decimal(v / 10);
        s.append(digit_text(v % 10));
        proof {
            assert(dec_digits(v as int / 10) + seq![digit_char(v as int % 10)] =~= dec_digits(
                v as int / 10,
            ).push(digit_char(v as int % 10)));
        }
        s
    }
}

/// The characters of the colour that tints a match record's prefix.
pub open spec fn prefix_color() -> Seq<char> {
    "\x1b[32m"@
}

/// The textual record for one scan event of the source called `name`:
/// a context line reads `name-index: text`; a match line reads
/// `name-index:` (tinted, then reset) followed by the highlighted text.
pub open spec fn record_text(name: Seq<char>, ev: EventModel) -> Seq<char> {
    match ev {
        EventModel::Context { index, text } => name + "-"@ + dec_digits(index) + ": "@ + text,
        EventModel::Match { index, text } => prefix_color() + name + "-"@ + dec_digits(index)
            + ":"@ + end_marker() + text,
    }
}

/// Render one scan event as its output record.
pub fn format_record(name: &str, ev: &ScanEvent) -> (r: String)
    ensures
        r@ == record_text(name@, ev@),
{
    match ev {
        ScanEvent::Context { index, text } => {
            let mut s = String::from_str(name);
            s.append("-");
            let num = usize_to_decimal(*index);
            s.append(num.as_str());
            s.append(": ");
            s.append(text.as_str());
            s
        },
        ScanEvent::Match { index, text } => {
            let mut s = String::from_str("\x1b[32m");
            proof {
                assert(s@ == prefix_color());
            }
            s.append(name);
            s.append("-");
            let num = usize_to_decimal(*index);
            s.append(num.as_str());
            s.append(":");
            s.append(end_marker_text());
            s.append(text.as_str());
            s
        },
    }
}

} // verus!
