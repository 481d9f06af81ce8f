use lgrep::search::check_search_root;
use lgrep::search::recursive_search;
use lgrep::search::search_file;
use lgrep::search::validate_config;
use lgrep::search::Emitted;
use lgrep::search::FileSource;
use lgrep::search::SearchError;
use lgrep::search::TreeNode;

const START: &str = "\x1b[91;1m";
const END: &str = "\x1b[0m";
const GREEN: &str = "\x1b[32m";

fn strings(xs: &[&str]) -> Vec<String> {
    xs.iter().map(|s| s.to_string()).collect()
}

fn expect_output(e: &Emitted, want: &str) {
    match e {
        Emitted::Output(s) => assert_eq!(s, want),
        Emitted::Diagnostic(_) => panic!("expected an output record"),
    }
}

fn expect_diagnostic(e: &Emitted, want: &str) {
    match e {
        Emitted::Diagnostic(s) => assert_eq!(s, want),
        Emitted::Output(_) => panic!("expected a diagnostic"),
    }
}

#[test]
fn file_report_formats_records() {
    let source = FileSource::Content {
        lines: strings(&["alpha", "beta", "gamma"]),
        binary_tail: false,
    };
    let out = search_file("notes.txt", &source, "beta", 1);
    assert_eq!(out.len(), 3);
    expect_output(&out[0], "notes.txt-0: alpha");
    expect_output(&out[1], &format!("{}notes.txt-1:{}{}beta{}", GREEN, END, START, END));
    expect_output(&out[2], "notes.txt-2: gamma");
}

#[test]
fn binary_file_reports_error_and_no_records() {
    // a binary file fails to decode at its first line: no output records,
    // one diagnostic
    let source = FileSource::Content { lines: strings(&[]), binary_tail: true };
    let out = search_file("blob.bin", &source, "beta", 2);
    assert_eq!(out.len(), 1);
    expect_diagnostic(&out[0], "blob.bin:  binary file matches");
}

#[test]
fn binary_tail_keeps_output_already_flushed() {
    let source = FileSource::Content { lines: strings(&["beta here"]), binary_tail: true };
    let out = search_file("part.bin", &source, "beta", 0);
    assert_eq!(out.len(), 2);
    expect_output(&out[0], &format!("{}part.bin-0:{}{}beta{} here", GREEN, END, START, END));
    expect_diagnostic(&out[1], "part.bin:  binary file matches");
}

#[test]
fn unreadable_file_reports_its_message() {
    let source = FileSource::Unreadable { message: "No such file or directory".to_string() };
    let out = search_file("gone.txt", &source, "beta", 3);
    assert_eq!(out.len(), 1);
    expect_diagnostic(&out[0], "No such file or directory");
}

#[test]
fn recursive_scan_visits_files_in_order() {
    let tree = TreeNode::Dir {
        entries: vec![
            TreeNode::File {
                name: "d/one.txt".to_string(),
                source: FileSource::Content { lines: strings(&["beta"]), binary_tail: false },
            },
            TreeNode::Dir {
                entries: vec![TreeNode::File {
                    name: "d/sub/two.txt".to_string(),
                    source: FileSource::Content {
                        lines: strings(&["no", "beta too"]),
                        binary_tail: false,
                    },
                }],
            },
            TreeNode::File {
                name: "d/three.txt".to_string(),
                source: FileSource::Content { lines: strings(&["nothing"]), binary_tail: false },
            },
        ],
    };
    let (out, aborted) = recursive_search(&tree, "beta", 0);
    assert!(!aborted);
    assert_eq!(out.len(), 2);
    expect_output(&out[0], &format!("{}d/one.txt-0:{}{}beta{}", GREEN, END, START, END));
    expect_output(&out[1], &format!("{}d/sub/two.txt-1:{}{}beta{} too", GREEN, END, START, END));
}

#[test]
fn binary_file_in_recursive_scan_does_not_stop_it() {
    let tree = TreeNode::Dir {
        entries: vec![
            TreeNode::File {
                name: "a.bin".to_string(),
                source: FileSource::Content { lines: strings(&[]), binary_tail: true },
            },
            TreeNode::File {
                name: "b.txt".to_string(),
                source: FileSource::Content { lines: strings(&["beta"]), binary_tail: false },
            },
        ],
    };
    let (out, aborted) = recursive_search(&tree, "beta", 1);
    assert!(!aborted);
    assert_eq!(out.len(), 2);
    expect_diagnostic(&out[0], "a.bin:  binary file matches");
    expect_output(&out[1], &format!("{}b.txt-0:{}{}beta{}", GREEN, END, START, END));
}

#[test]
fn unreadable_directory_abandons_the_scan() {
    let tree = TreeNode::Dir {
        entries: vec![
            TreeNode::File {
                name: "first.txt".to_string(),
                source: FileSource::Content { lines: strings(&["beta"]), binary_tail: false },
            },
            TreeNode::UnreadableDir,
            TreeNode::File {
                name: "never.txt".to_string(),
                source: FileSource::Content { lines: strings(&["beta"]), binary_tail: false },
            },
        ],
    };
    let (out, aborted) = recursive_search(&tree, "beta", 0);
    assert!(aborted);
    assert_eq!(out.len(), 1);
    expect_output(&out[0], &format!("{}first.txt-0:{}{}beta{}", GREEN, END, START, END));
}

#[test]
fn skipped_unreadable_file_keeps_scan_going() {
    let tree = TreeNode::Dir {
        entries: vec![
            TreeNode::File {
                name: "locked.txt".to_string(),
                source: FileSource::Unreadable { message: "Permission denied".to_string() },
            },
            TreeNode::File {
                name: "open.txt".to_string(),
                source: FileSource::Content { lines: strings(&["beta"]), binary_tail: false },
            },
        ],
    };
    let (out, aborted) = recursive_search(&tree, "beta", 0);
    assert!(!aborted);
    assert_eq!(out.len(), 2);
    expect_diagnostic(&out[0], "Permission denied");
    expect_output(&out[1], &format!("{}open.txt-0:{}{}beta{}", GREEN, END, START, END));
}

#[test]
fn regular_file_is_not_a_valid_recursive_root() {
    assert_eq!(check_search_root(true, true), Err(SearchError::Configuration));
}

#[test]
fn missing_path_is_not_a_valid_recursive_root() {
    assert_eq!(check_search_root(false, false), Err(SearchError::Configuration));
}

#[test]
fn existing_directory_is_a_valid_recursive_root() {
    assert_eq!(check_search_root(true, false), Ok(()));
}

#[test]
fn empty_term_is_a_configuration_error() {
    assert_eq!(validate_config("", 3), Err(SearchError::Configuration));
}

#[test]
fn oversized_context_is_a_configuration_error() {
    assert_eq!(validate_config("beta", 256), Err(SearchError::Configuration));
}

#[test]
fn valid_configuration_is_accepted() {
    assert_eq!(validate_config("beta", 0), Ok(()));
    assert_eq!(validate_config("beta", 255), Ok(()));
}
