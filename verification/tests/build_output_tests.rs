use doc_md::orchestrator::{classify_build_failure, BuildFailure};
use doc_md::text::{contains_substring, join_lines};

#[test]
fn substring_search() {
    assert!(contains_substring("error: no library targets found", "no library targets found"));
    assert!(contains_substring("abc", ""));
    assert!(contains_substring("abc", "abc"));
    assert!(contains_substring("abcabd", "abd"));
    assert!(!contains_substring("abc", "abcd"));
    assert!(!contains_substring("", "x"));
    assert!(!contains_substring("aab", "ab c"));
}

#[test]
fn joining_lines() {
    assert_eq!(join_lines(&Vec::new(), "\n"), "");
    assert_eq!(join_lines(&vec!["one".to_string()], "\n"), "one");
    assert_eq!(
        join_lines(&vec!["one".to_string(), "two".to_string()], "\n"),
        "one\ntwo"
    );
    assert_eq!(
        join_lines(
            &vec!["a".to_string(), "b".to_string(), "c".to_string()],
            ", "
        ),
        "a, b, c"
    );
}

#[test]
fn no_library_target_is_a_skip() {
    let lines = vec![
        "   Compiling x v0.1.0".to_string(),
        "error: no library targets found in package `x`".to_string(),
    ];
    assert!(matches!(
        classify_build_failure(&lines),
        BuildFailure::NoLibraryTarget
    ));
}

#[test]
fn first_two_error_lines_are_kept() {
    let lines = vec![
        "   Compiling y v0.1.0".to_string(),
        "error[E0308]: mismatched types".to_string(),
        "warning: unused variable".to_string(),
        "error[E0599]: no method named `foo`".to_string(),
        "error: aborting due to 2 previous errors".to_string(),
    ];
    match classify_build_failure(&lines) {
        BuildFailure::ErrorLines(v) => {
            assert_eq!(
                v,
                vec![
                    "error[E0308]: mismatched types".to_string(),
                    "error[E0599]: no method named `foo`".to_string(),
                ]
            );
        }
        _ => panic!("expected error lines"),
    }
}

#[test]
fn failed_lines_count_as_errors() {
    let lines = vec!["build failed for target".to_string()];
    match classify_build_failure(&lines) {
        BuildFailure::ErrorLines(v) => assert_eq!(v.len(), 1),
        _ => panic!("expected error lines"),
    }
}

#[test]
fn unrecognized_output_is_unknown() {
    let lines = vec!["   Compiling z v0.1.0".to_string(), "something odd".to_string()];
    assert!(matches!(classify_build_failure(&lines), BuildFailure::Unknown));
    assert!(matches!(
        classify_build_failure(&Vec::new()),
        BuildFailure::Unknown
    ));
}
