//! Literal substring containment, the membership test of the scanner.

use vstd::prelude::*;
use vstd::string::StrSliceExecFns;

verus! {

/// `term` occurs in `line` starting at character position `i`.
pub open spec fn is_match_at(line: Seq<char>, term: Seq<char>, i: int) -> bool {
    0 <= i && i + term.len() <= line.len() && line.subrange(i, i + term.len()) == term
}

/// `line` contains `term` as a substring (occurrences may overlap).
pub open spec fn contains_term(line: Seq<char>, term: Seq<char>) -> bool {
    exists|i: int| is_match_at(line, term, i)
}

/// Character-by-character substring test at one fixed position.
pub fn match_at(line: &str, term: &str, i: usize) -> (b: bool)
    requires
        line@.len() <= usize::MAX,
        i + term@.len() <= line@.len(),
    ensures
        b == is_match_at(line@, term@, i as int),
{
    let tlen = term.unicode_len();
    let mut j: usize = 0;
    while j < tlen
        invariant
            0 <= j <= tlen,
            tlen == term@.len(),
            line@.len() <= usize::MAX,
            i + tlen <= line@.len(),
            forall|t: int| 0 <= t < j ==> line@[i + t] == term@[t],
        decreases tlen - j,
    {
        if line.get_char(i + j) != term.get_char(j) {
            assert(line@.subrange(i as int, i + term@.len())[j as int] != term@[j as int]);
            return false;
        }
        j += 1;
    }
    assert(line@.subrange(i as int, i + term@.len()) =~= term@);
    true
}

/// Membership test: does `line` contain `term` anywhere?
pub fn line_contains(line: &str, term: &str) -> (b: bool)
    ensures
        b == contains_term(line@, term@),
{
    let llen = line.unicode_len();
    let tlen = term.unicode_len();
    if tlen > llen {
        assert(forall|k: int| !is_match_at(line@, term@, k));
        return false;
    }
    if tlen == 0 {
        assert(line@.subrange(0, 0) =~= term@);
        assert(is_match_at(line@, term@, 0));
        return true;
    }
    let mut i: usize = 0;
    while i <= llen - tlen
        invariant
            0 <= i <= llen - tlen + 1,
            1 <= tlen <= llen,
            llen == line@.len(),
            tlen == term@.len(),
            forall|t: int| 0 <= t < i ==> !is_match_at(line@, term@, t),
        decreases llen - tlen + 1 - i,
    {
        if match_at(line, term, i) {
            return true;
        }
        i += 1;
    }
    assert(forall|k: int| !is_match_at(line@, term@, k));
    false
}

} // verus!
