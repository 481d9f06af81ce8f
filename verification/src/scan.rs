//! The line scanner: classify each line of one source as match or non-match,
//! keep a bounded buffer of "before" context, emit trailing "after" context,
//! and decorate matches.

use vstd::prelude::*;
use crate::highlight::highlight;
use crate::highlight::highlighted;
use crate::line::LineDetails;
use crate::matching::contains_term;
use crate::matching::line_contains;

verus! {

/// One output event of a scan: a context line (emitted verbatim) or a matched
/// line (emitted in highlighted form). The index is the line's 0-based
/// position in its source.
pub enum ScanEvent {
    Context { index: usize, text: String },
    Match { index: usize, text: String },
}

/// The mathematical form of a scan event.
pub enum EventModel {
    Context { index: int, text: Seq<char> },
    Match { index: int, text: Seq<char> },
}

impl View for ScanEvent {
    type V = EventModel;

    open spec fn view(&self) -> EventModel {
        match self {
            ScanEvent::Context { index, text } => EventModel::Context {
                index: *index as int,
                text: text@,
            },
            ScanEvent::Match { index, text } => EventModel::Match {
                index: *index as int,
                text: text@,
            },
        }
    }
}

/// The scanner's state between lines: the buffered "before" candidates (each
/// an index paired with its text) and the index of the most recent match.
pub struct ScanState {
    pub buf: Seq<(int, Seq<char>)>,
    pub last: Option<int>,
}

/// The state at the start of a scan: nothing buffered, no match seen.
pub open spec fn initial_state() -> ScanState {
    ScanState { buf: Seq::empty(), last: None }
}

/// Line `i` falls in the trailing window of the most recent match: within `n`
/// lines after it.
pub open spec fn is_after_context(st: ScanState, i: int, n: int) -> bool {
    match st.last {
        Some(j) => j < i <= j + n,
        None => false,
    }
}

/// How one line transforms the scanner's state.
pub open spec fn step_state(st: ScanState, line: Seq<char>, i: int, term: Seq<char>, n: int) -> ScanState {
    if contains_term(line, term) {
        ScanState { buf: Seq::empty(), last: Some(i) }
    } else if n == 0 {
        st
    } else if is_after_context(st, i, n) {
        st
    } else {
        let pushed = st.buf.push((i, line));
        ScanState {
            buf: if pushed.len() > n {
                pushed.drop_first()
            } else {
                pushed
            },
            last: st.last,
        }
    }
}

/// The context events that flushing a buffer produces, oldest first.
pub open spec fn flush_events(buf: Seq<(int, Seq<char>)>) -> Seq<EventModel> {
    buf.map_values(|e: (int, Seq<char>)| EventModel::Context { index: e.0, text: e.1 })
}

/// The events that one line produces: on a match, the flushed buffer followed
/// by the highlighted match; on an after-context line, that line verbatim;
/// otherwise nothing.
pub open spec fn step_events(st: ScanState, line: Seq<char>, i: int, term: Seq<char>, n: int) -> Seq<EventModel> {
    if contains_term(line, term) {
        flush_events(st.buf).push(EventModel::Match { index: i, text: highlighted(line, term) })
    } else if n == 0 {
        Seq::empty()
    } else if is_after_context(st, i, n) {
        seq![EventModel::Context { index: i, text: line }]
    } else {
        Seq::empty()
    }
}

/// The scanner's state after the first `i` lines.
pub open spec fn state_at(lines: Seq<Seq<char>>, term: Seq<char>, n: int, i: int) -> ScanState
    decreases i,
{
    if i <= 0 {
        initial_state()
    } else {
        step_state(state_at(lines, term, n, i - 1), lines[i - 1], i - 1, term, n)
    }
}

/// The events produced by the lines from position `i` on.
pub open spec fn scan_from(lines: Seq<Seq<char>>, term: Seq<char>, n: int, i: int) -> Seq<EventModel>
    decreases lines.len() - i,
{
    if i < 0 || i >= lines.len() {
        Seq::empty()
    } else {
        step_events(state_at(lines, term, n, i), lines[i], i, term, n) + scan_from(
            lines,
            term,
            n,
            i + 1,
        )
    }
}

/// All events of a scan of `lines` with the given term and context size.
pub open spec fn scan_events(lines: Seq<Seq<char>>, term: Seq<char>, n: int) -> Seq<EventModel> {
    scan_from(lines, term, n, 0)
}

/// The views of the lines of a source.
pub open spec fn lines_view(lines: Seq<String>) -> Seq<Seq<char>> {
    lines.map_values(|s: String| s@)
}

/// The views of the events of a scan result.
pub open spec fn events_view(events: Seq<ScanEvent>) -> Seq<EventModel> {
    events.map_values(|e: ScanEvent| e@)
}

/// The executable buffer abstracts to the model buffer.
pub open spec fn buffer_abstracts(buf: Seq<LineDetails>, model: Seq<(int, Seq<char>)>) -> bool {
    &&& buf.len() == model.len()
    &&& forall|k: int|
        0 <= k < buf.len() ==> buf[k].number as int == model[k].0 && buf[k].line@ == model[k].1
}

/// The last-match record abstracts to the model marker; an empty stored line
/// means no match has been seen (a matched line is never empty, since it
/// contains the non-empty term).
pub open spec fn marker_abstracts(current: LineDetails, last: Option<int>) -> bool {
    match last {
        None => current.line@.len() == 0,
        Some(j) => current.line@.len() > 0 && current.number as int == j,
    }
}

/// Scan the decoded lines of one source. Returns, in source order: for every
/// match, the buffered lines before it (oldest first, each at most
/// `number_lines` back and not already emitted), the match itself in
/// highlighted form, and each line within `number_lines` after it; with
/// `number_lines == 0`, matches only.
pub fn scan_lines(lines: &Vec<String>, term: &str, number_lines: usize) -> (events: Vec<ScanEvent>)
    requires
        term@.len() > 0,
    ensures
        events_view(events@) == scan_events(lines_view(lines@), term@, number_lines as int),
{
    let ghost lm = lines_view(lines@);
    let ghost n = number_lines as int;
    let mut events: Vec<ScanEvent> = Vec::new();
    let mut prev_lines: Vec<LineDetails> = Vec::new();
    let mut current_match = LineDetails::new();
    let mut i: usize = 0;
    while i < lines.len()
        invariant
            term@.len() > 0,
            lm == lines_view(lines@),
            n == number_lines as int,
            0 <= i <= lines.len(),
            lm.len() == lines@.len(),
            buffer_abstracts(prev_lines@, state_at(lm, term@, n, i as int).buf),
            marker_abstracts(current_match, state_at(lm, term@, n, i as int).last),
            events_view(events@) + scan_from(lm, term@, n, i as int) == scan_events(lm, term@, n),
        decreases lines.len() - i,
    {
        let ghost st = state_at(lm, term@, n, i as int);
        let ghost ev0 = events_view(events@);
        let line = &lines[i];
        assert(line@ == lm[i as int]);
        if line_contains(line.as_str(), term) {
            let mut t: usize = 0;
            while t < prev_lines.len()
                invariant
                    0 <= t <= prev_lines.len(),
                    buffer_abstracts(prev_lines@, st.buf),
                    events_view(events@) == ev0 + flush_events(st.buf).take(t as int),
                decreases prev_lines.len() - t,
            {
                let ghost evb = events_view(events@);
                let entry_number = prev_lines[t].number;
                let entry_line = prev_lines[t].line.clone();
                events.push(ScanEvent::Context { index: entry_number, text: entry_line });
                proof {
                    assert(events_view(events@) =~= evb.push(
                        EventModel::Context { index: st.buf[t as int].0, text: st.buf[t as int].1 },
                    ));
                    assert(events_view(events@) =~= ev0 + flush_events(st.buf).take(t + 1));
                }
                t += 1;
            }
            prev_lines.clear();
            let colored = highlight(line.as_str(), term);
            events.push(ScanEvent::Match { index: i, text: colored });
            current_match.update_details(line.clone(), i);
            proof {
                assert(contains_term(lm[i as int], term@));
                assert(colored@ == highlighted(lm[i as int], term@));
                assert(flush_events(st.buf).take(st.buf.len() as int) =~= flush_events(st.buf));
                assert(events_view(events@) =~= (ev0 + flush_events(st.buf)).push(
                    EventModel::Match { index: i as int, text: colored@ },
                ));
                assert(step_events(st, lm[i as int], i as int, term@, n) == flush_events(
                    st.buf,
                ).push(EventModel::Match { index: i as int, text: highlighted(lm[i as int], term@) }));
                assert(events_view(events@) =~= ev0 + step_events(st, lm[i as int], i as int, term@, n));
                assert(lm[i as int].len() > 0) by {
                    let w = choose|w: int| crate::matching::is_match_at(lm[i as int], term@, w);
                    assert(crate::matching::is_match_at(lm[i as int], term@, w));
                }
            }
        } else if number_lines == 0 {
            proof {
                assert(events_view(events@) =~= ev0 + step_events(st, lm[i as int], i as int, term@, n));
            }
        } else if current_match.line.as_str().is_empty() == false && i > current_match.number && i
            - current_match.number <= number_lines {
            events.push(ScanEvent::Context { index: i, text: line.clone() });
            proof {
                assert(events_view(events@) =~= ev0 + step_events(st, lm[i as int], i as int, term@, n));
            }
        } else {
            prev_lines.push(LineDetails { line: line.clone(), number: i });
            if prev_lines.len() > number_lines {
                prev_lines.remove(0);
            }
            proof {
                assert(events_view(events@) =~= ev0 + step_events(st, lm[i as int], i as int, term@, n));
            }
        }
        proof {
            let st2 = state_at(lm, term@, n, i + 1);
            assert(st2 == step_state(st, lm[i as int], i as int, term@, n));
            assert(buffer_abstracts(prev_lines@, st2.buf));
            assert(marker_abstracts(current_match, st2.last));
            assert(events_view(events@) + scan_from(lm, term@, n, i + 1) =~= ev0 + scan_from(
                lm,
                term@,
                n,
                i as int,
            ));
        }
        i += 1;
    }
    proof {
        assert(scan_from(lm, term@, n, i as int) =~= Seq::<EventModel>::empty());
        assert(events_view(events@) + Seq::<EventModel>::empty() =~= events_view(events@));
    }
    events
}

/// Line `j` exists and contains the term.
pub open spec fn match_line(lines: Seq<Seq<char>>, term: Seq<char>, j: int) -> bool {
    0 <= j < lines.len() && contains_term(lines[j], term)
}

/// The index of the last matching line before position `i`, if any.
pub open spec fn last_match(lines: Seq<Seq<char>>, term: Seq<char>, i: int) -> Option<int>
    decreases i,
{
    if i <= 0 {
        None
    } else if contains_term(lines[i - 1], term) {
        Some(i - 1)
    } else {
        last_match(lines, term, i - 1)
    }
}

/// The first index that could still sit in the buffer at position `i`: lines
/// at or before the last match were flushed or dropped with it, and the `n`
/// lines after it are emitted directly rather than buffered.
pub open spec fn flush_floor(lines: Seq<Seq<char>>, term: Seq<char>, n: int, i: int) -> int {
    match last_match(lines, term, i) {
        None => 0,
        Some(j) => j + n + 1,
    }
}

/// The smallest index actually buffered at position `i`: the buffer holds at
/// most the `n` most recent candidates.
pub open spec fn window_low(lines: Seq<Seq<char>>, term: Seq<char>, n: int, i: int) -> int {
    let f = flush_floor(lines, term, n, i);
    if f > i - n {
        f
    } else {
        i - n
    }
}

/// The buffer at position `i`, written in closed form: the contiguous run of
/// indices from `window_low` up to (excluding) `i`, each with its line.
pub open spec fn model_buffer(lines: Seq<Seq<char>>, term: Seq<char>, n: int, i: int) -> Seq<
    (int, Seq<char>),
> {
    let lo = window_low(lines, term, n, i);
    if lo > i {
        Seq::empty()
    } else {
        Seq::new((i - lo) as nat, |t: int| (lo + t, lines[lo + t]))
    }
}

/// What `last_match` returns is a genuine last match: it matches, and no
/// later line before `i` does.
pub proof fn lemma_last_match(lines: Seq<Seq<char>>, term: Seq<char>, i: int)
    requires
        0 <= i <= lines.len(),
    ensures
        match last_match(lines, term, i) {
            None => forall|k: int| 0 <= k < i ==> !match_line(lines, term, k),
            Some(j) => 0 <= j < i && match_line(lines, term, j) && forall|k: int|
                j < k < i ==> !match_line(lines, term, k),
        },
    decreases i,
{
    if i > 0 {
        lemma_last_match(lines, term, i - 1);
    }
}

/// The scanner's state at position `i`, in closed form: the marker is the
/// last match so far, and the buffer is exactly the run of recent non-match,
/// non-after-context lines.
pub proof fn lemma_state_model(lines: Seq<Seq<char>>, term: Seq<char>, n: int, i: int)
    requires
        term.len() > 0,
        n >= 0,
        0 <= i <= lines.len(),
    ensures
        state_at(lines, term, n, i).last == last_match(lines, term, i),
        state_at(lines, term, n, i).buf == model_buffer(lines, term, n, i),
    decreases i,
{
    if i == 0 {
        assert(model_buffer(lines, term, n, i) =~= Seq::<(int, Seq<char>)>::empty());
    } else {
        lemma_state_model(lines, term, n, i - 1);
        lemma_last_match(lines, term, i - 1);
        lemma_last_match(lines, term, i);
        let st = state_at(lines, term, n, i - 1);
        let st2 = state_at(lines, term, n, i);
        let m = i - 1;
        let f = flush_floor(lines, term, n, i);
        let lo = window_low(lines, term, n, i);
        let lo_m = window_low(lines, term, n, m);
        if contains_term(lines[m], term) {
            assert(last_match(lines, term, i) == Some(m));
            assert(lo >= i);
            assert(st2.buf =~= model_buffer(lines, term, n, i));
        } else if n == 0 {
            assert(lo == i && lo_m == m);
            assert(st2.buf =~= model_buffer(lines, term, n, i));
        } else if is_after_context(st, m, n) {
            let j0 = st.last->Some_0;
            assert(last_match(lines, term, m) == Some(j0));
            assert(f == j0 + n + 1 && m <= j0 + n);
            assert(lo >= i && lo_m >= m);
            assert(st2.buf =~= model_buffer(lines, term, n, i));
        } else {
            // the push case: the new line joins the buffer, evicting the
            // oldest entry when the window is full
            assert(f == flush_floor(lines, term, n, m));
            assert(f <= m) by {
                match last_match(lines, term, m) {
                    Some(j0) => {
                        assert(j0 < m);
                        assert(!(j0 < m <= j0 + n));
                    },
                    None => {},
                }
            }
            assert(lo_m <= m);
            let pushed = st.buf.push((m, lines[m]));
            assert(pushed.len() == m - lo_m + 1);
            if pushed.len() > n {
                assert(lo_m == m - n);
                assert(f <= m - n);
                assert(lo == i - n);
                assert(st2.buf == pushed.drop_first());
                assert(st2.buf =~= model_buffer(lines, term, n, i)) by {
                    assert(st2.buf.len() == i - lo);
                    assert(forall|k: int|
                        0 <= k < st2.buf.len() ==> #[trigger] st2.buf[k] == pushed[k + 1]);
                }
            } else {
                assert(lo_m == f && f >= i - n);
                assert(lo == f);
                assert(st2.buf =~= model_buffer(lines, term, n, i));
            }
        }
    }
}

/// The context buffer never holds more than `n` lines at any point of a scan.
pub proof fn lemma_context_buffer_bounded(lines: Seq<Seq<char>>, term: Seq<char>, n: int, i: int)
    requires
        term.len() > 0,
        n >= 0,
        0 <= i <= lines.len(),
    ensures
        state_at(lines, term, n, i).buf.len() <= n,
{
    lemma_state_model(lines, term, n, i);
}

/// A scan event is faithful to its source: a context event carries a
/// non-matching line verbatim, and a match event carries the highlighted form
/// of a matching line.
pub open spec fn event_wf(ev: EventModel, lines: Seq<Seq<char>>, term: Seq<char>) -> bool {
    match ev {
        EventModel::Context { index, text } => 0 <= index < lines.len() && text == lines[index]
            && !contains_term(lines[index], term),
        EventModel::Match { index, text } => 0 <= index < lines.len() && contains_term(
            lines[index],
            term,
        ) && text == highlighted(lines[index], term),
    }
}

proof fn lemma_scan_from_wf(lines: Seq<Seq<char>>, term: Seq<char>, n: int, i: int)
    requires
        term.len() > 0,
        n >= 0,
        0 <= i <= lines.len(),
    ensures
        forall|k: int|
            0 <= k < scan_from(lines, term, n, i).len() ==> event_wf(
                #[trigger] scan_from(lines, term, n, i)[k],
                lines,
                term,
            ),
    decreases lines.len() - i,
{
    if i < lines.len() {
        lemma_scan_from_wf(lines, term, n, i + 1);
        lemma_state_model(lines, term, n, i);
        lemma_last_match(lines, term, i);
        let st = state_at(lines, term, n, i);
        let se = step_events(st, lines[i], i, term, n);
        let rest = scan_from(lines, term, n, i + 1);
        assert(scan_from(lines, term, n, i) == se + rest);
        let lo = window_low(lines, term, n, i);
        assert(forall|k: int|
            0 <= k < st.buf.len() ==> #[trigger] st.buf[k] == (lo + k, lines[lo + k]));
        assert forall|w: int| lo <= w < i implies !contains_term(#[trigger] lines[w], term) by {
            match last_match(lines, term, i) {
                Some(j) => {
                    assert(lo >= j + 1);
                    assert(!match_line(lines, term, w));
                },
                None => {
                    assert(!match_line(lines, term, w));
                },
            }
        }
        assert forall|k: int| 0 <= k < se.len() implies event_wf(#[trigger] se[k], lines, term) by {
            if contains_term(lines[i], term) {
                if k < st.buf.len() {
                    assert(se[k] == flush_events(st.buf)[k]);
                    assert(flush_events(st.buf)[k] == (EventModel::Context {
                        index: st.buf[k].0,
                        text: st.buf[k].1,
                    }));
                    assert(st.buf[k] == (lo + k, lines[lo + k]));
                    assert(!contains_term(lines[lo + k], term));
                } else {
                    assert(se[k] == (EventModel::Match {
                        index: i,
                        text: highlighted(lines[i], term),
                    }));
                }
            }
        }
        assert(forall|k: int|
            0 <= k < scan_from(lines, term, n, i).len() ==> event_wf(
                #[trigger] scan_from(lines, term, n, i)[k],
                lines,
                term,
            )) by {
            assert(forall|k: int|
                0 <= k < se.len() ==> #[trigger] scan_from(lines, term, n, i)[k] == se[k]);
            assert(forall|k: int|
                se.len() <= k < se.len() + rest.len() ==> #[trigger] scan_from(lines, term, n, i)[k]
                    == rest[k - se.len()]);
        }
    }
}

/// Every event of a scan is faithful: context lines are emitted verbatim and
/// are genuine non-matches; matched lines are emitted exactly in highlighted
/// form. In particular a line that does not contain the term never appears
/// wrapped in highlight markers.
pub proof fn lemma_events_well_formed(lines: Seq<Seq<char>>, term: Seq<char>, n: int)
    requires
        term.len() > 0,
        n >= 0,
    ensures
        forall|k: int|
            0 <= k < scan_events(lines, term, n).len() ==> event_wf(
                #[trigger] scan_events(lines, term, n)[k],
                lines,
                term,
            ),
{
    lemma_scan_from_wf(lines, term, n, 0);
}

/// Stripping every paired marker from an emitted match gives back the
/// original line byte for byte, for sources whose lines contain no escape
/// character of their own.
pub proof fn lemma_stripping_restores_lines(lines: Seq<Seq<char>>, term: Seq<char>, n: int)
    requires
        term.len() > 0,
        n >= 0,
        forall|j: int, p: int|
            0 <= j < lines.len() && 0 <= p < lines[j].len() ==> lines[j][p] != '\x1b',
    ensures
        forall|k: int|
            0 <= k < scan_events(lines, term, n).len() ==> (#[trigger] scan_events(lines, term, n)[k]
                matches EventModel::Match { index, text } ==> crate::highlight::strip_markers(text)
                == lines[index]),
{
    lemma_events_well_formed(lines, term, n);
    assert forall|k: int| 0 <= k < scan_events(lines, term, n).len() implies (
    #[trigger] scan_events(lines, term, n)[k] matches EventModel::Match { index, text }
        ==> crate::highlight::strip_markers(text) == lines[index]) by {
        let ev = scan_events(lines, term, n)[k];
        assert(event_wf(ev, lines, term));
        match ev {
            EventModel::Match { index, text } => {
                crate::highlight::lemma_strip_restores_line(lines[index], term);
            },
            EventModel::Context { index, text } => {},
        }
    }
}

/// The event stream contains a context event for line `m` with text `t`.
pub open spec fn context_in(evs: Seq<EventModel>, m: int, t: Seq<char>) -> bool {
    exists|k: int|
        0 <= k < evs.len() && #[trigger] evs[k] == (EventModel::Context { index: m, text: t })
}

/// Line `m` sits in the buffer at position `i` and a later match close enough
/// to it will flush it.
pub open spec fn emitted_from_buffer(
    lines: Seq<Seq<char>>,
    term: Seq<char>,
    n: int,
    i: int,
    m: int,
) -> bool {
    window_low(lines, term, n, i) <= m < i && exists|k: int|
        i <= k <= m + n && #[trigger] match_line(lines, term, k)
}

/// Line `m`, at or after position `i`, will be emitted as context: it does
/// not match, the window is positive, and a match lies within `n` lines of it
/// (either a future one, or the last one already seen).
pub open spec fn emitted_as_context(
    lines: Seq<Seq<char>>,
    term: Seq<char>,
    n: int,
    i: int,
    m: int,
) -> bool {
    i <= m < lines.len() && !contains_term(lines[m], term) && n >= 1 && ((exists|j: int|
        i <= j && #[trigger] match_line(lines, term, j) && j != m && m - n <= j <= m + n) || (
    match last_match(lines, term, i) {
        Some(j0) => m <= j0 + n,
        None => false,
    }))
}

proof fn lemma_context_in_concat(a: Seq<EventModel>, b: Seq<EventModel>, m: int, t: Seq<char>)
    ensures
        context_in(a + b, m, t) <==> (context_in(a, m, t) || context_in(b, m, t)),
{
    if context_in(a + b, m, t) {
        let k = choose|k: int|
            0 <= k < (a + b).len() && #[trigger] (a + b)[k] == (EventModel::Context {
                index: m,
                text: t,
            });
        if k < a.len() {
            assert((a + b)[k] == a[k]);
            assert(context_in(a, m, t));
        } else {
            assert((a + b)[k] == b[k - a.len()]);
            assert(context_in(b, m, t));
        }
    }
    if context_in(a, m, t) {
        let k = choose|k: int|
            0 <= k < a.len() && #[trigger] a[k] == (EventModel::Context { index: m, text: t });
        assert((a + b)[k] == a[k]);
        assert(context_in(a + b, m, t));
    }
    if context_in(b, m, t) {
        let k = choose|k: int|
            0 <= k < b.len() && #[trigger] b[k] == (EventModel::Context { index: m, text: t });
        assert((a + b)[k + a.len()] == b[k]);
        assert(context_in(a + b, m, t));
    }
}

proof fn lemma_context_in_flush_push(
    buf: Seq<(int, Seq<char>)>,
    ev: EventModel,
    m: int,
    t: Seq<char>,
)
    requires
        !(ev matches EventModel::Context { .. }),
    ensures
        context_in(flush_events(buf).push(ev), m, t) <==> exists|k: int|
            0 <= k < buf.len() && #[trigger] buf[k] == (m, t),
{
    let fl = flush_events(buf).push(ev);
    if context_in(fl, m, t) {
        let k = choose|k: int|
            0 <= k < fl.len() && #[trigger] fl[k] == (EventModel::Context { index: m, text: t });
        assert(k < buf.len());
        assert(fl[k] == flush_events(buf)[k]);
        assert(flush_events(buf)[k] == (EventModel::Context { index: buf[k].0, text: buf[k].1 }));
        assert(buf[k].0 == m && buf[k].1 == t);
        assert(buf[k] == (m, t));
    }
    if exists|k: int| 0 <= k < buf.len() && #[trigger] buf[k] == (m, t) {
        let k = choose|k: int| 0 <= k < buf.len() && #[trigger] buf[k] == (m, t);
        assert(fl[k] == flush_events(buf)[k]);
        assert(fl[k] == (EventModel::Context { index: m, text: t }));
        assert(context_in(fl, m, t));
    }
}

proof fn lemma_scan_from_contexts(lines: Seq<Seq<char>>, term: Seq<char>, n: int, i: int)
    requires
        term.len() > 0,
        n >= 0,
        0 <= i <= lines.len(),
    ensures
        forall|m: int, t: Seq<char>|
            #[trigger] context_in(scan_from(lines, term, n, i), m, t) <==> ((emitted_from_buffer(
                lines,
                term,
                n,
                i,
                m,
            ) || emitted_as_context(lines, term, n, i, m)) && t == lines[m]),
    decreases lines.len() - i,
{
    lemma_state_model(lines, term, n, i);
    lemma_last_match(lines, term, i);
    if i == lines.len() {
        assert forall|m: int, t: Seq<char>|
            #[trigger] context_in(scan_from(lines, term, n, i), m, t) <==> ((emitted_from_buffer(
                lines,
                term,
                n,
                i,
                m,
            ) || emitted_as_context(lines, term, n, i, m)) && t == lines[m]) by {
            assert(scan_from(lines, term, n, i).len() == 0);
            assert(!context_in(scan_from(lines, term, n, i), m, t));
            assert(!emitted_from_buffer(lines, term, n, i, m)) by {
                if emitted_from_buffer(lines, term, n, i, m) {
                    let k = choose|k: int|
                        i <= k <= m + n && #[trigger] match_line(lines, term, k);
                    assert(k < lines.len());
                }
            }
            assert(!emitted_as_context(lines, term, n, i, m));
        }
    } else {
        lemma_scan_from_contexts(lines, term, n, i + 1);
        lemma_state_model(lines, term, n, i + 1);
        lemma_last_match(lines, term, i + 1);
        let st = state_at(lines, term, n, i);
        let se = step_events(st, lines[i], i, term, n);
        let rest = scan_from(lines, term, n, i + 1);
        assert(scan_from(lines, term, n, i) == se + rest);
        assert forall|m: int, t: Seq<char>|
            #[trigger] context_in(scan_from(lines, term, n, i), m, t) <==> ((emitted_from_buffer(
                lines,
                term,
                n,
                i,
                m,
            ) || emitted_as_context(lines, term, n, i, m)) && t == lines[m]) by {
            lemma_context_in_concat(se, rest, m, t);
            lemma_step_case(lines, term, n, i, m, t);
        }
    }
}

/// One step of the characterization: the events of line `i` plus the
/// characterized remainder account exactly for the characterization at `i`.
proof fn lemma_step_case(lines: Seq<Seq<char>>, term: Seq<char>, n: int, i: int, m: int, t: Seq<char>)
    requires
        term.len() > 0,
        n >= 0,
        0 <= i < lines.len(),
        state_at(lines, term, n, i).last == last_match(lines, term, i),
        state_at(lines, term, n, i).buf == model_buffer(lines, term, n, i),
    ensures
        (context_in(step_events(state_at(lines, term, n, i), lines[i], i, term, n), m, t) || ((
        emitted_from_buffer(lines, term, n, i + 1, m) || emitted_as_context(lines, term, n, i + 1, m))
            && t == lines[m])) <==> ((emitted_from_buffer(lines, term, n, i, m)
            || emitted_as_context(lines, term, n, i, m)) && t == lines[m]),
{
    lemma_last_match(lines, term, i);
    lemma_last_match(lines, term, i + 1);
    let st = state_at(lines, term, n, i);
    let se = step_events(st, lines[i], i, term, n);
    let lo = window_low(lines, term, n, i);
    let lo2 = window_low(lines, term, n, i + 1);
    assert(forall|k: int| 0 <= k < st.buf.len() ==> #[trigger] st.buf[k] == (lo + k, lines[lo + k]));
    if contains_term(lines[i], term) {
        assert(match_line(lines, term, i));
        assert(last_match(lines, term, i + 1) == Some(i));
        assert(lo2 >= i + 1);
        lemma_context_in_flush_push(
            st.buf,
            EventModel::Match { index: i, text: highlighted(lines[i], term) },
            m,
            t,
        );
        // the flushed buffer accounts exactly for emitted_from_buffer at i
        assert(context_in(se, m, t) <==> (lo <= m < i && t == lines[m])) by {
            if lo <= m < i && t == lines[m] {
                assert(st.buf[m - lo] == (m, t));
            }
            if context_in(se, m, t) {
                let k = choose|k: int| 0 <= k < st.buf.len() && #[trigger] st.buf[k] == (m, t);
                assert(st.buf[k] == (lo + k, lines[lo + k]));
            }
        }
        assert(emitted_from_buffer(lines, term, n, i, m) <==> lo <= m < i) by {
            if lo <= m < i {
                assert(i <= i <= m + n && match_line(lines, term, i));
            }
        }
        assert(!emitted_from_buffer(lines, term, n, i + 1, m));
        if m == i {
            assert(!emitted_as_context(lines, term, n, i, m));
            assert(!emitted_as_context(lines, term, n, i + 1, m));
        }
        if m > i {
            assert(emitted_as_context(lines, term, n, i, m) <==> emitted_as_context(
                lines,
                term,
                n,
                i + 1,
                m,
            )) by {
                if emitted_as_context(lines, term, n, i, m) {
                    if exists|j: int|
                        i <= j && #[trigger] match_line(lines, term, j) && j != m && m - n <= j <= m
                            + n {
                        let j = choose|j: int|
                            i <= j && #[trigger] match_line(lines, term, j) && j != m && m - n <= j
                                <= m + n;
                        if j >= i + 1 {
                        } else {
                            assert(j == i);
                            assert(m <= i + n);
                        }
                    } else {
                        let j0 = last_match(lines, term, i)->Some_0;
                        assert(j0 <= i - 1);
                        assert(m <= j0 + n);
                        assert(m <= i + n);
                    }
                }
                if emitted_as_context(lines, term, n, i + 1, m) {
                    if exists|j: int|
                        i + 1 <= j && #[trigger] match_line(lines, term, j) && j != m && m - n <= j
                            <= m + n {
                    } else {
                        assert(m <= i + n);
                        assert(i <= i && match_line(lines, term, i) && i != m && m - n <= i <= m
                            + n);
                    }
                }
            }
        }
        if m < i {
            assert(!emitted_as_context(lines, term, n, i, m));
            assert(!emitted_as_context(lines, term, n, i + 1, m));
        }
    } else if n == 0 {
        assert(se.len() == 0);
        assert(!context_in(se, m, t));
        assert(lo == i && lo2 == i + 1);
        assert(!emitted_from_buffer(lines, term, n, i, m));
        assert(!emitted_from_buffer(lines, term, n, i + 1, m));
        assert(!emitted_as_context(lines, term, n, i, m));
        assert(!emitted_as_context(lines, term, n, i + 1, m));
    } else if is_after_context(st, i, n) {
        let j0 = st.last->Some_0;
        assert(last_match(lines, term, i) == Some(j0));
        assert(last_match(lines, term, i + 1) == Some(j0));
        assert(j0 < i <= j0 + n);
        assert(lo >= i && lo2 >= i + 1);
        assert(se =~= seq![EventModel::Context { index: i, text: lines[i] }]);
        assert(context_in(se, m, t) <==> (m == i && t == lines[i])) by {
            if m == i && t == lines[i] {
                assert(se[0] == (EventModel::Context { index: m, text: t }));
            }
            if context_in(se, m, t) {
                let k = choose|k: int|
                    0 <= k < se.len() && #[trigger] se[k] == (EventModel::Context {
                        index: m,
                        text: t,
                    });
                assert(k == 0);
            }
        }
        assert(!emitted_from_buffer(lines, term, n, i, m));
        assert(!emitted_from_buffer(lines, term, n, i + 1, m));
        if m == i {
            assert(emitted_as_context(lines, term, n, i, m));
            assert(!emitted_as_context(lines, term, n, i + 1, m));
        } else if m > i {
            assert(emitted_as_context(lines, term, n, i, m) <==> emitted_as_context(
                lines,
                term,
                n,
                i + 1,
                m,
            )) by {
                lemma_tail_context_same(lines, term, n, i, m);
            }
        } else {
            assert(!emitted_as_context(lines, term, n, i, m));
            assert(!emitted_as_context(lines, term, n, i + 1, m));
        }
    } else {
        // push: nothing is emitted; the new line joins the buffer
        assert(se.len() == 0);
        assert(!context_in(se, m, t));
        assert(last_match(lines, term, i + 1) == last_match(lines, term, i));
        let f = flush_floor(lines, term, n, i);
        assert(flush_floor(lines, term, n, i + 1) == f);
        assert(f <= i) by {
            match last_match(lines, term, i) {
                Some(j0) => {
                    assert(j0 < i);
                    assert(!(j0 < i <= j0 + n));
                },
                None => {},
            }
        }
        assert(!match_line(lines, term, i));
        if m < i {
            assert(!emitted_as_context(lines, term, n, i, m));
            assert(!emitted_as_context(lines, term, n, i + 1, m));
            assert(emitted_from_buffer(lines, term, n, i, m) <==> emitted_from_buffer(
                lines,
                term,
                n,
                i + 1,
                m,
            )) by {
                if emitted_from_buffer(lines, term, n, i, m) {
                    let k = choose|k: int|
                        i <= k <= m + n && #[trigger] match_line(lines, term, k);
                    assert(k != i);
                    assert(m >= lo2) by {
                        if lo2 > lo {
                            assert(lo2 == i + 1 - n);
                            assert(m + n >= k >= i + 1);
                        }
                    }
                }
                if emitted_from_buffer(lines, term, n, i + 1, m) {
                    let k = choose|k: int|
                        i + 1 <= k <= m + n && #[trigger] match_line(lines, term, k);
                    assert(lo <= lo2);
                }
            }
        } else if m == i {
            assert(!emitted_from_buffer(lines, term, n, i, m));
            assert(!emitted_as_context(lines, term, n, i + 1, m));
            assert(emitted_as_context(lines, term, n, i, m) <==> emitted_from_buffer(
                lines,
                term,
                n,
                i + 1,
                m,
            )) by {
                assert(lo2 <= i) by {
                    assert(f <= i);
                    assert(i + 1 - n <= i);
                }
                if emitted_as_context(lines, term, n, i, m) {
                    if exists|j: int|
                        i <= j && #[trigger] match_line(lines, term, j) && j != m && m - n <= j <= m
                            + n {
                        let j = choose|j: int|
                            i <= j && #[trigger] match_line(lines, term, j) && j != m && m - n <= j
                                <= m + n;
                        assert(j >= i + 1);
                        assert(i + 1 <= j <= m + n && match_line(lines, term, j));
                    } else {
                        let lm = last_match(lines, term, i);
                        assert(lm is Some ==> !(i <= lm->Some_0 + n));
                        assert(false);
                    }
                }
                if emitted_from_buffer(lines, term, n, i + 1, m) {
                    let k = choose|k: int|
                        i + 1 <= k <= m + n && #[trigger] match_line(lines, term, k);
                    assert(i <= k && match_line(lines, term, k) && k != m && m - n <= k <= m + n);
                }
            }
        } else {
            assert(!emitted_from_buffer(lines, term, n, i, m));
            assert(!emitted_from_buffer(lines, term, n, i + 1, m));
            assert(emitted_as_context(lines, term, n, i, m) <==> emitted_as_context(
                lines,
                term,
                n,
                i + 1,
                m,
            )) by {
                lemma_tail_context_same(lines, term, n, i, m);
            }
        }
    }
}

/// For a non-matching line `i` and a later line `m`, the context condition
/// reads the same from `i` and from `i + 1`.
proof fn lemma_tail_context_same(lines: Seq<Seq<char>>, term: Seq<char>, n: int, i: int, m: int)
    requires
        n >= 1,
        0 <= i < lines.len(),
        m >= i + 1,
        !contains_term(lines[i], term),
    ensures
        emitted_as_context(lines, term, n, i, m) <==> emitted_as_context(lines, term, n, i + 1, m),
{
    assert(last_match(lines, term, i + 1) == last_match(lines, term, i));
    assert(!match_line(lines, term, i));
    if emitted_as_context(lines, term, n, i, m) {
        if exists|j: int|
            i <= j && #[trigger] match_line(lines, term, j) && j != m && m - n <= j <= m + n {
            let j = choose|j: int|
                i <= j && #[trigger] match_line(lines, term, j) && j != m && m - n <= j <= m + n;
            assert(j != i);
            assert(i + 1 <= j);
        }
    }
    if emitted_as_context(lines, term, n, i + 1, m) {
        if exists|j: int|
            i + 1 <= j && #[trigger] match_line(lines, term, j) && j != m && m - n <= j <= m + n {
            let j = choose|j: int|
                i + 1 <= j && #[trigger] match_line(lines, term, j) && j != m && m - n <= j <= m
                    + n;
            assert(i <= j);
        }
    }
}

/// With a positive context size `n`, a line is emitted as context if and only
/// if it does not itself match and some matching line lies within `n` lines
/// of it, on either side; its text is then the line itself, verbatim. Lines
/// farther than `n` from every match are never emitted.
pub proof fn lemma_context_window_exact(lines: Seq<Seq<char>>, term: Seq<char>, n: int)
    requires
        term.len() > 0,
        n >= 1,
    ensures
        forall|m: int, t: Seq<char>|
            #[trigger] context_in(scan_events(lines, term, n), m, t) <==> (0 <= m < lines.len()
                && t == lines[m] && !contains_term(lines[m], term) && exists|j: int|
                #[trigger] match_line(lines, term, j) && j != m && m - n <= j <= m + n),
{
    lemma_scan_from_contexts(lines, term, n, 0);
    assert forall|m: int, t: Seq<char>|
        #[trigger] context_in(scan_events(lines, term, n), m, t) <==> (0 <= m < lines.len() && t
            == lines[m] && !contains_term(lines[m], term) && exists|j: int|
            #[trigger] match_line(lines, term, j) && j != m && m - n <= j <= m + n) by {
        assert(window_low(lines, term, n, 0) == 0);
        assert(!emitted_from_buffer(lines, term, n, 0, m));
        if emitted_as_context(lines, term, n, 0, m) {
            assert(exists|j: int|
                0 <= j && #[trigger] match_line(lines, term, j) && j != m && m - n <= j <= m + n);
        }
        if 0 <= m < lines.len() && !contains_term(lines[m], term) && exists|j: int|
            #[trigger] match_line(lines, term, j) && j != m && m - n <= j <= m + n {
            let j = choose|j: int|
                #[trigger] match_line(lines, term, j) && j != m && m - n <= j <= m + n;
            assert(0 <= j);
            assert(emitted_as_context(lines, term, n, 0, m));
        }
    }
}

/// The line index a context event speaks of, if the event is one.
pub open spec fn context_index(ev: EventModel) -> Option<int> {
    match ev {
        EventModel::Context { index, text } => Some(index),
        EventModel::Match { index, text } => None,
    }
}

proof fn lemma_scan_from_once(lines: Seq<Seq<char>>, term: Seq<char>, n: int, i: int)
    requires
        term.len() > 0,
        n >= 0,
        0 <= i <= lines.len(),
    ensures
        forall|k1: int, k2: int|
            0 <= k1 < scan_from(lines, term, n, i).len() && 0 <= k2 < scan_from(
                lines,
                term,
                n,
                i,
            ).len() && context_index(#[trigger] scan_from(lines, term, n, i)[k1]) is Some
                && context_index(scan_from(lines, term, n, i)[k1]) == context_index(
                #[trigger] scan_from(lines, term, n, i)[k2],
            ) ==> k1 == k2,
    decreases lines.len() - i,
{
    if i < lines.len() {
        lemma_scan_from_once(lines, term, n, i + 1);
        lemma_scan_from_contexts(lines, term, n, i + 1);
        lemma_state_model(lines, term, n, i);
        lemma_last_match(lines, term, i);
        let st = state_at(lines, term, n, i);
        let se = step_events(st, lines[i], i, term, n);
        let rest = scan_from(lines, term, n, i + 1);
        let evs = scan_from(lines, term, n, i);
        assert(evs == se + rest);
        let lo = window_low(lines, term, n, i);
        let lo2 = window_low(lines, term, n, i + 1);
        assert(forall|k: int|
            0 <= k < st.buf.len() ==> #[trigger] st.buf[k] == (lo + k, lines[lo + k]));
        // in the branches that emit anything, the remainder's context events
        // all speak of later lines
        if contains_term(lines[i], term) || (n >= 1 && is_after_context(st, i, n)) {
            assert(lo2 >= i + 1) by {
                if contains_term(lines[i], term) {
                    assert(last_match(lines, term, i + 1) == Some(i));
                } else {
                    let j0 = st.last->Some_0;
                    assert(last_match(lines, term, i + 1) == last_match(lines, term, i));
                    assert(flush_floor(lines, term, n, i + 1) == j0 + n + 1 >= i + 1);
                }
            }
            assert forall|k: int|
                0 <= k < rest.len() && context_index(#[trigger] rest[k]) is Some implies context_index(
                rest[k],
            )->Some_0 >= i + 1 by {
                match rest[k] {
                    EventModel::Context { index, text } => {
                        assert(rest[k] == (EventModel::Context { index, text }));
                        assert(context_in(rest, index, text));
                        assert(emitted_from_buffer(lines, term, n, i + 1, index)
                            || emitted_as_context(lines, term, n, i + 1, index));
                    },
                    EventModel::Match { index, text } => {},
                }
            }
        }
        assert forall|k1: int, k2: int|
            0 <= k1 < evs.len() && 0 <= k2 < evs.len() && context_index(#[trigger] evs[k1]) is Some
                && context_index(evs[k1]) == context_index(#[trigger] evs[k2]) implies k1 == k2 by {
            if k1 < se.len() {
                assert(evs[k1] == se[k1]);
            } else {
                assert(evs[k1] == rest[k1 - se.len()]);
            }
            if k2 < se.len() {
                assert(evs[k2] == se[k2]);
            } else {
                assert(evs[k2] == rest[k2 - se.len()]);
            }
            if contains_term(lines[i], term) {
                assert(forall|k: int|
                    0 <= k < st.buf.len() ==> #[trigger] se[k] == (EventModel::Context {
                        index: lo + k,
                        text: lines[lo + k],
                    }));
                assert(se[st.buf.len() as int] == (EventModel::Match {
                    index: i,
                    text: highlighted(lines[i], term),
                }));
            }
        }
    }
}

/// No line is ever emitted twice: any two context events that speak of the
/// same line index are the same event. Matches close enough to share window
/// lines therefore never duplicate them.
pub proof fn lemma_context_emitted_once(lines: Seq<Seq<char>>, term: Seq<char>, n: int)
    requires
        term.len() > 0,
        n >= 0,
    ensures
        forall|k1: int, k2: int|
            0 <= k1 < scan_events(lines, term, n).len() && 0 <= k2 < scan_events(
                lines,
                term,
                n,
            ).len() && context_index(#[trigger] scan_events(lines, term, n)[k1]) is Some
                && context_index(scan_events(lines, term, n)[k1]) == context_index(
                #[trigger] scan_events(lines, term, n)[k2],
            ) ==> k1 == k2,
{
    lemma_scan_from_once(lines, term, n, 0);
}

/// The line index an event speaks of.
pub open spec fn event_index(ev: EventModel) -> int {
    match ev {
        EventModel::Context { index, text } => index,
        EventModel::Match { index, text } => index,
    }
}

/// The smallest line index an event of the remaining scan can speak of.
spec fn min_event_index(lines: Seq<Seq<char>>, term: Seq<char>, n: int, i: int) -> int {
    if window_low(lines, term, n, i) <= i {
        window_low(lines, term, n, i)
    } else {
        i
    }
}

proof fn lemma_scan_from_increasing(lines: Seq<Seq<char>>, term: Seq<char>, n: int, i: int)
    requires
        term.len() > 0,
        n >= 0,
        0 <= i <= lines.len(),
    ensures
        forall|k1: int, k2: int|
            0 <= k1 < k2 < scan_from(lines, term, n, i).len() ==> event_index(
                #[trigger] scan_from(lines, term, n, i)[k1],
            ) < event_index(#[trigger] scan_from(lines, term, n, i)[k2]),
        forall|k: int|
            0 <= k < scan_from(lines, term, n, i).len() ==> event_index(
                #[trigger] scan_from(lines, term, n, i)[k],
            ) >= min_event_index(lines, term, n, i),
    decreases lines.len() - i,
{
    if i < lines.len() {
        lemma_scan_from_increasing(lines, term, n, i + 1);
        lemma_state_model(lines, term, n, i);
        lemma_last_match(lines, term, i);
        let st = state_at(lines, term, n, i);
        let se = step_events(st, lines[i], i, term, n);
        let rest = scan_from(lines, term, n, i + 1);
        let evs = scan_from(lines, term, n, i);
        assert(evs == se + rest);
        let lo = window_low(lines, term, n, i);
        let lo2 = window_low(lines, term, n, i + 1);
        assert(forall|k: int|
            0 <= k < st.buf.len() ==> #[trigger] st.buf[k] == (lo + k, lines[lo + k]));
        if contains_term(lines[i], term) {
            assert(last_match(lines, term, i + 1) == Some(i));
            assert(lo2 >= i + 1);
            assert(forall|k: int|
                0 <= k < st.buf.len() ==> #[trigger] se[k] == (EventModel::Context {
                    index: lo + k,
                    text: lines[lo + k],
                }));
            assert(se[st.buf.len() as int] == (EventModel::Match {
                index: i,
                text: highlighted(lines[i], term),
            }));
        } else if n == 0 {
            assert(lo == i && lo2 == i + 1);
        } else if is_after_context(st, i, n) {
            let j0 = st.last->Some_0;
            assert(last_match(lines, term, i + 1) == last_match(lines, term, i));
            assert(flush_floor(lines, term, n, i + 1) == j0 + n + 1 >= i + 1);
            assert(lo2 >= i + 1);
            assert(se[0] == (EventModel::Context { index: i, text: lines[i] }));
        } else {
            assert(last_match(lines, term, i + 1) == last_match(lines, term, i));
            assert(lo2 >= lo) by {
                assert(flush_floor(lines, term, n, i + 1) == flush_floor(lines, term, n, i));
            }
            assert(lo <= i) by {
                match last_match(lines, term, i) {
                    Some(j0) => {
                        assert(j0 < i);
                        assert(!(j0 < i <= j0 + n));
                    },
                    None => {},
                }
            }
        }
        assert forall|k: int| 0 <= k < evs.len() implies event_index(#[trigger] evs[k])
            >= min_event_index(lines, term, n, i) by {
            if k < se.len() {
                assert(evs[k] == se[k]);
            } else {
                assert(evs[k] == rest[k - se.len()]);
                assert(event_index(rest[k - se.len()]) >= min_event_index(lines, term, n, i + 1));
            }
        }
        assert forall|k1: int, k2: int| 0 <= k1 < k2 < evs.len() implies event_index(
            #[trigger] evs[k1],
        ) < event_index(#[trigger] evs[k2]) by {
            if k1 < se.len() {
                assert(evs[k1] == se[k1]);
            } else {
                assert(evs[k1] == rest[k1 - se.len()]);
            }
            if k2 < se.len() {
                assert(evs[k2] == se[k2]);
            } else {
                assert(evs[k2] == rest[k2 - se.len()]);
                assert(event_index(rest[k2 - se.len()]) >= min_event_index(lines, term, n, i + 1));
            }
        }
    }
}

/// Output events of one scan come in strictly increasing line-index order.
pub proof fn lemma_events_in_order(lines: Seq<Seq<char>>, term: Seq<char>, n: int)
    requires
        term.len() > 0,
        n >= 0,
    ensures
        forall|k1: int, k2: int|
            0 <= k1 < k2 < scan_events(lines, term, n).len() ==> event_index(
                #[trigger] scan_events(lines, term, n)[k1],
            ) < event_index(#[trigger] scan_events(lines, term, n)[k2]),
{
    lemma_scan_from_increasing(lines, term, n, 0);
}

/// With context size zero, no context event is ever emitted: the scan yields
/// matches only.
pub proof fn lemma_no_context_when_zero(lines: Seq<Seq<char>>, term: Seq<char>)
    requires
        term.len() > 0,
    ensures
        forall|m: int, t: Seq<char>| !context_in(scan_events(lines, term, 0), m, t),
{
    lemma_scan_from_contexts(lines, term, 0, 0);
    assert forall|m: int, t: Seq<char>| !context_in(scan_events(lines, term, 0), m, t) by {
        assert(window_low(lines, term, 0, 0) == 0);
        assert(!emitted_from_buffer(lines, term, 0, 0, m));
        assert(!emitted_as_context(lines, term, 0, 0, m));
        assert(!context_in(scan_from(lines, term, 0, 0), m, t));
    }
}

} // verus!
