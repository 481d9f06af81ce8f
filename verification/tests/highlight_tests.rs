use lgrep::highlight::highlight;

const START: &str = "\x1b[91;1m";
const END: &str = "\x1b[0m";

#[test]
fn single_occurrence_is_wrapped() {
    let got = highlight("say hello now", "hello");
    assert_eq!(got, format!("say {}hello{} now", START, END));
}

#[test]
fn no_occurrence_leaves_line_unchanged() {
    let got = highlight("nothing to see", "absent");
    assert_eq!(got, "nothing to see");
}

#[test]
fn overlapping_occurrences_are_all_marked() {
    // "aaa" with term "aa": occurrences at positions 0 and 1 are both wrapped
    let got = highlight("aaa", "aa");
    assert_eq!(got, format!("{}a{}a{}a{}{}", START, START, END, END, ""));
    let stripped = got.replace(START, "").replace(END, "");
    assert_eq!(stripped, "aaa");
    assert_eq!(got.matches(START).count(), 2);
    assert_eq!(got.matches(END).count(), 2);
}

#[test]
fn adjacent_occurrences_each_get_markers() {
    let got = highlight("abab", "ab");
    assert_eq!(got, format!("{}ab{}{}ab{}", START, END, START, END));
}

#[test]
fn stripping_markers_restores_original() {
    let line = "the needle sits by a needle factory";
    let got = highlight(line, "needle");
    assert_eq!(got.replace(START, "").replace(END, ""), line);
}

#[test]
fn whole_line_match_is_wrapped() {
    let got = highlight("beta", "beta");
    assert_eq!(got, format!("{}beta{}", START, END));
}

#[test]
fn occurrence_at_end_of_line() {
    let got = highlight("xyab", "ab");
    assert_eq!(got, format!("xy{}ab{}", START, END));
}

#[test]
fn unicode_text_is_preserved() {
    let got = highlight("caf\u{e9} crime", "crime");
    assert_eq!(got, format!("caf\u{e9} {}crime{}", START, END));
}
