//! Highlighting: wrap every occurrence of the term, overlapping ones
//! included, in a paired start/end marker, without disturbing the line's own
//! characters.

use vstd::prelude::*;
use vstd::string::StrSliceExecFns;
use vstd::string::StringExecFns;
use crate::matching::is_match_at;
use crate::matching::contains_term;
use crate::matching::match_at;

verus! {

/// The characters of the start marker (bold red terminal emphasis).
pub open spec fn start_marker() -> Seq<char> {
    seq!['\x1b', '[', '9', '1', ';', '1', 'm']
}

/// The characters of the end marker (clears terminal formatting).
pub open spec fn end_marker() -> Seq<char> {
    seq!['\x1b', '[', '0', 'm']
}

/// The start marker as executable text.
pub fn start_marker_text() -> (r: &'static str)
    ensures
        r@ == start_marker(),
{
    let s = "\x1b[91;1m";
    proof {
        reveal_strlit("\x1b[91;1m");
        assert(s@ =~= start_marker());
    }
    s
}

/// The end marker as executable text.
pub fn end_marker_text() -> (r: &'static str)
    ensures
        r@ == end_marker(),
{
    let s = "\x1b[0m";
    proof {
        reveal_strlit("\x1b[0m");
        assert(s@ =~= end_marker());
    }
    s
}

/// The markers that fall at boundary `k` (between characters `k - 1` and
/// `k`): first the end marker of an occurrence ending here, then the start
/// marker of an occurrence beginning here.
pub open spec fn marks_at(line: Seq<char>, term: Seq<char>, k: int) -> Seq<char> {
    (if term.len() <= k && is_match_at(line, term, k - term.len()) {
        end_marker()
    } else {
        Seq::<char>::empty()
    }) + (if is_match_at(line, term, k) {
        start_marker()
    } else {
        Seq::<char>::empty()
    })
}

/// The markers at boundary `k` followed by the line's own character at `k`.
pub open spec fn piece_at(line: Seq<char>, term: Seq<char>, k: int) -> Seq<char> {
    marks_at(line, term, k) + (if 0 <= k < line.len() {
        seq![line[k]]
    } else {
        Seq::<char>::empty()
    })
}

/// The tail of the highlighted text from boundary `k` on.
pub open spec fn highlight_from(line: Seq<char>, term: Seq<char>, k: int) -> Seq<char>
    decreases line.len() + 1 - k,
{
    if k < 0 || k > line.len() {
        Seq::<char>::empty()
    } else {
        piece_at(line, term, k) + highlight_from(line, term, k + 1)
    }
}

/// The fully highlighted text of one line: every occurrence of the term,
/// overlapping ones included, wrapped in the marker pair.
pub open spec fn highlighted(line: Seq<char>, term: Seq<char>) -> Seq<char> {
    highlight_from(line, term, 0)
}

/// Build the display form of a matched line, walking the boundaries left to
/// right and inserting each marker where an occurrence begins or ends.
pub fn highlight(line: &str, term: &str) -> (r: String)
    requires
        term@.len() > 0,
    ensures
        r@ == highlighted(line@, term@),
{
    let llen = line.unicode_len();
    let tlen = term.unicode_len();
    let mut out = String::new();
    let mut k: usize = 0;
    while k < llen
        invariant
            0 <= k <= llen,
            llen == line@.len(),
            tlen == term@.len(),
            tlen > 0,
            out@ + highlight_from(line@, term@, k as int) == highlighted(line@, term@),
        decreases llen - k,
    {
        let ghost out0 = out@;
        if k >= tlen && match_at(line, term, k - tlen) {
            out.append(end_marker_text());
        }
        if tlen <= llen - k && match_at(line, term, k) {
            out.append(start_marker_text());
        }
        proof {
            assert(out@ =~= out0 + marks_at(line@, term@, k as int));
        }
        out.append(line.substring_char(k, k + 1));
        proof {
            assert(line@.subrange(k as int, k + 1) =~= seq![line@[k as int]]);
            assert(out@ =~= out0 + piece_at(line@, term@, k as int));
            assert(out@ + highlight_from(line@, term@, k + 1) =~= out0 + highlight_from(
                line@,
                term@,
                k as int,
            ));
        }
        k += 1;
    }
    // the last boundary, after the final character: an occurrence may end here
    let ghost out0 = out@;
    if llen >= tlen && match_at(line, term, llen - tlen) {
        out.append(end_marker_text());
    }
    proof {
        assert(!is_match_at(line@, term@, llen as int));
        assert(out@ =~= out0 + piece_at(line@, term@, llen as int));
        assert(highlight_from(line@, term@, llen + 1) =~= Seq::<char>::empty());
        assert(out@ =~= out0 + highlight_from(line@, term@, llen as int));
    }
    out
}

/// `p` is a prefix of `s`.
pub open spec fn begins_with(s: Seq<char>, p: Seq<char>) -> bool {
    p.len() <= s.len() && s.subrange(0, p.len() as int) == p
}

/// Remove every paired marker from a highlighted text, keeping all other
/// characters in order.
pub open spec fn strip_markers(s: Seq<char>) -> Seq<char>
    decreases s.len(),
{
    if s.len() == 0 {
        s
    } else if begins_with(s, start_marker()) {
        strip_markers(s.skip(start_marker().len() as int))
    } else if begins_with(s, end_marker()) {
        strip_markers(s.skip(end_marker().len() as int))
    } else {
        seq![s[0]] + strip_markers(s.skip(1))
    }
}

/// A line without any occurrence of the term is left entirely unchanged by
/// highlighting: no marker is ever wrapped around it.
pub proof fn lemma_no_match_unchanged(line: Seq<char>, term: Seq<char>)
    requires
        term.len() > 0,
        !contains_term(line, term),
    ensures
        highlighted(line, term) == line,
{
    lemma_no_match_unchanged_from(line, term, 0);
    assert(line.subrange(0, line.len() as int) =~= line);
}

proof fn lemma_no_match_unchanged_from(line: Seq<char>, term: Seq<char>, k: int)
    requires
        term.len() > 0,
        !contains_term(line, term),
        0 <= k <= line.len(),
    ensures
        highlight_from(line, term, k) == line.subrange(k, line.len() as int),
    decreases line.len() - k,
{
    assert(!is_match_at(line, term, k));
    assert(!is_match_at(line, term, k - term.len()));
    if k == line.len() {
        assert(highlight_from(line, term, k + 1) =~= Seq::<char>::empty());
        assert(highlight_from(line, term, k) =~= line.subrange(k, line.len() as int));
    } else {
        lemma_no_match_unchanged_from(line, term, k + 1);
        assert(highlight_from(line, term, k) =~= line.subrange(k, line.len() as int));
    }
}

proof fn lemma_strip_prepend_start(y: Seq<char>)
    ensures
        strip_markers(start_marker() + y) == strip_markers(y),
{
    let s = start_marker() + y;
    assert(s.subrange(0, start_marker().len() as int) =~= start_marker());
    assert(s.skip(start_marker().len() as int) =~= y);
}

proof fn lemma_strip_prepend_end(y: Seq<char>)
    ensures
        strip_markers(end_marker() + y) == strip_markers(y),
{
    let s = end_marker() + y;
    assert(!begins_with(s, start_marker())) by {
        if begins_with(s, start_marker()) {
            assert(s.subrange(0, start_marker().len() as int)[2] == s[2]);
            assert(s[2] == end_marker()[2]);
        }
    }
    assert(s.subrange(0, end_marker().len() as int) =~= end_marker());
    assert(s.skip(end_marker().len() as int) =~= y);
}

proof fn lemma_strip_prepend_char(c: char, y: Seq<char>)
    requires
        c != '\x1b',
    ensures
        strip_markers(seq![c] + y) == seq![c] + strip_markers(y),
{
    let s = seq![c] + y;
    assert(s[0] == c);
    assert(!begins_with(s, start_marker())) by {
        if begins_with(s, start_marker()) {
            assert(s.subrange(0, start_marker().len() as int)[0] == s[0]);
        }
    }
    assert(!begins_with(s, end_marker())) by {
        if begins_with(s, end_marker()) {
            assert(s.subrange(0, end_marker().len() as int)[0] == s[0]);
        }
    }
    assert(s.skip(1) =~= y);
    assert(seq![s[0]] + strip_markers(s.skip(1)) == seq![c] + strip_markers(y));
}

/// Stripping every paired marker from the highlighted form gives back the
/// original line, provided the line itself contains no escape character (a
/// line that spells out a marker literally would lose it in the stripping).
pub proof fn lemma_strip_restores_line(line: Seq<char>, term: Seq<char>)
    requires
        term.len() > 0,
        forall|i: int| 0 <= i < line.len() ==> line[i] != '\x1b',
    ensures
        strip_markers(highlighted(line, term)) == line,
{
    lemma_strip_highlight_from(line, term, 0);
    assert(line.subrange(0, line.len() as int) =~= line);
}

proof fn lemma_strip_highlight_from(line: Seq<char>, term: Seq<char>, k: int)
    requires
        term.len() > 0,
        forall|i: int| 0 <= i < line.len() ==> line[i] != '\x1b',
        0 <= k <= line.len(),
    ensures
        strip_markers(highlight_from(line, term, k)) == line.subrange(k, line.len() as int),
    decreases line.len() - k,
{
    let tail = highlight_from(line, term, k + 1);
    let has_end = term.len() <= k && is_match_at(line, term, k - term.len());
    if k == line.len() {
        assert(tail =~= Seq::<char>::empty());
        assert(!is_match_at(line, term, k));
        assert(line.subrange(k, line.len() as int) =~= Seq::<char>::empty());
        if has_end {
            assert(highlight_from(line, term, k) =~= end_marker() + Seq::<char>::empty());
            lemma_strip_prepend_end(Seq::<char>::empty());
        } else {
            assert(highlight_from(line, term, k) =~= Seq::<char>::empty());
        }
    } else {
        lemma_strip_highlight_from(line, term, k + 1);
        let rest1 = seq![line[k]] + tail;
        let rest2 = if is_match_at(line, term, k) {
            start_marker() + rest1
        } else {
            rest1
        };
        let whole = if has_end {
            end_marker() + rest2
        } else {
            rest2
        };
        assert(highlight_from(line, term, k) =~= whole);
        lemma_strip_prepend_char(line[k], tail);
        if is_match_at(line, term, k) {
            lemma_strip_prepend_start(rest1);
        }
        if has_end {
            lemma_strip_prepend_end(rest2);
        }
        assert(strip_markers(whole) == seq![line[k]] + strip_markers(tail));
        assert(seq![line[k]] + line.subrange(k + 1, line.len() as int) =~= line.subrange(
            k,
            line.len() as int,
        ));
    }
}

/// How many positions at or after boundary `k` begin an occurrence of the
/// term.
pub open spec fn occurrences_from(line: Seq<char>, term: Seq<char>, k: int) -> nat
    decreases line.len() + 1 - k,
{
    if k > line.len() {
        0
    } else {
        (if is_match_at(line, term, k) {
            1nat
        } else {
            0nat
        }) + occurrences_from(line, term, k + 1)
    }
}

/// The number of occurrences of the term in the line, overlapping ones
/// counted separately.
pub open spec fn occurrence_count(line: Seq<char>, term: Seq<char>) -> nat {
    occurrences_from(line, term, 0)
}

proof fn lemma_occurrences_none_past_end(line: Seq<char>, term: Seq<char>, k: int)
    requires
        k + term.len() > line.len(),
    ensures
        occurrences_from(line, term, k) == 0,
    decreases line.len() + 1 - k,
{
    if k <= line.len() {
        assert(!is_match_at(line, term, k));
        lemma_occurrences_none_past_end(line, term, k + 1);
    }
}

/// Every occurrence, overlapping ones included, is wrapped: the highlighted
/// text is exactly the line plus one marker pair (11 characters: a 7-character
/// start marker and a 4-character end marker) per occurrence.
pub proof fn lemma_highlight_length(line: Seq<char>, term: Seq<char>)
    requires
        term.len() > 0,
    ensures
        highlighted(line, term).len() == line.len() + 11 * occurrence_count(line, term),
{
    lemma_highlight_length_from(line, term, 0);
    lemma_occurrences_shift_negative(line, term, 0 - term.len());
}

proof fn lemma_occurrences_shift_negative(line: Seq<char>, term: Seq<char>, k: int)
    requires
        k <= 0,
    ensures
        occurrences_from(line, term, k) == occurrences_from(line, term, 0),
    decreases 1 - k,
{
    if k < 0 {
        assert(!is_match_at(line, term, k));
        lemma_occurrences_shift_negative(line, term, k + 1);
    }
}

proof fn lemma_highlight_length_from(line: Seq<char>, term: Seq<char>, k: int)
    requires
        term.len() > 0,
        0 <= k <= line.len() + 1,
    ensures
        highlight_from(line, term, k).len() == (if k <= line.len() {
            line.len() - k
        } else {
            0
        }) + 7 * occurrences_from(line, term, k) + 4 * occurrences_from(line, term, k - term.len()),
    decreases line.len() + 2 - k,
{
    if k > line.len() {
        assert(highlight_from(line, term, k) =~= Seq::<char>::empty());
        lemma_occurrences_none_past_end(line, term, k);
        lemma_occurrences_none_past_end(line, term, k - term.len());
    } else {
        lemma_highlight_length_from(line, term, k + 1);
        let s_here: nat = if is_match_at(line, term, k) {
            1
        } else {
            0
        };
        let e_here: nat = if is_match_at(line, term, k - term.len()) {
            1
        } else {
            0
        };
        assert(occurrences_from(line, term, k) == s_here + occurrences_from(line, term, k + 1));
        assert(occurrences_from(line, term, k - term.len()) == e_here + occurrences_from(
            line,
            term,
            k + 1 - term.len(),
        ));
        assert(marks_at(line, term, k).len() == 4 * e_here + 7 * s_here);
        assert(piece_at(line, term, k).len() == marks_at(line, term, k).len() + (if k
            < line.len() {
            1int
        } else {
            0int
        }));
        assert(highlight_from(line, term, k).len() == piece_at(line, term, k).len()
            + highlight_from(line, term, k + 1).len());
    }
}

} // verus!
