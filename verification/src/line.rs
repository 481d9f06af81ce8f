//! A line of text paired with its 0-based position in its source.

use vstd::prelude::*;

verus! {

/// One line record: the text and its ordinal position among decoded lines.
pub struct LineDetails {
    pub line: String,
    pub number: usize,
}

impl LineDetails {
    /// A fresh record; the empty line doubles as the "no match yet" sentinel,
    /// since a matched line always contains the non-empty term.
    pub fn new() -> (r: Self)
        ensures
            r.line@ == Seq::<char>::empty(),
            r.number == 0,
    {
        LineDetails { line: String::new(), number: 0 }
    }

    /// Overwrite the record in place with a new line and position.
    pub fn update_details(&mut self, line: String, number: usize)
        ensures
            final(self).line@ == line@,
            final(self).number == number,
    {
        self.line = line;
        self.number = number;
    }
}

} // verus!
