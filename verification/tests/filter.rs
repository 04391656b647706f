use bksync::filter::{Filter, FilterError};
use globset::{Glob, GlobSet, GlobSetBuilder};

fn filter(includes: &[&str], excludes: &[&str]) -> Filter {
    let includes: Vec<String> = includes.iter().map(|p| p.to_string()).collect();
    let excludes: Vec<String> = excludes.iter().map(|p| p.to_string()).collect();
    match Filter::new(&includes, &excludes) {
        Ok(made) => made,
        Err(_) => panic!("the patterns make a filter"),
    }
}

#[test]
fn everything_is_included_without_patterns() {
    let all = filter(&[], &[]);
    assert!(all.matches("a.txt"));
    assert!(all.matches("docs/deep/a.txt"));
}

#[test]
fn excluded_keys_are_left_out() {
    let some = filter(&["**/*"], &["*.tmp", ".DS_Store"]);
    assert!(some.matches("a.txt"));
    assert!(!some.matches("a.tmp"));
    assert!(!some.matches("docs/a.tmp"));
    assert!(!some.matches(".DS_Store"));
}

#[test]
fn only_included_keys_take_part() {
    let some = filter(&["*.tar.gz", "docs/*"], &[]);
    assert!(some.matches("a.tar.gz"));
    assert!(some.matches("docs/a"));
    assert!(!some.matches("a.zip"));
}

#[test]
fn one_more_pattern_excludes_or_includes_what_it_matches() {
    let before = filter(&["*.md"], &["draft*"]);
    let narrower = filter(&["*.md"], &["draft*", "old*"]);
    let wider = filter(&["*.md", "*.txt"], &["draft*"]);
    assert!(before.matches("old.md") && !narrower.matches("old.md"));
    assert!(before.matches("new.md") && narrower.matches("new.md"));
    assert!(!before.matches("a.txt") && wider.matches("a.txt"));
    assert!(!wider.matches("draft.txt"));
}

#[test]
fn first_bad_pattern_is_named() {
    let bad = vec!["ok".to_string(), "a[".to_string(), "b[".to_string()];
    match Filter::new(&bad, &[]) {
        Err(FilterError::Pattern { pattern, cause }) => {
            assert_eq!(pattern, "a[");
            assert_eq!(cause.glob(), Some("a["));
        }
        _ => panic!("the second pattern is no glob"),
    }
    match Filter::new(&[], &["{x".to_string()]) {
        Err(FilterError::Pattern { pattern, .. }) => assert_eq!(pattern, "{x"),
        _ => panic!("the pattern is no glob"),
    }
}

#[test]
fn patterns_too_large_to_compile_are_refused() {
    let huge = vec!["?".repeat(600_000)];
    assert!(matches!(Filter::new(&huge, &[]), Err(FilterError::Include { .. })));
    assert!(matches!(Filter::new(&[], &huge), Err(FilterError::Exclude { .. })));
}

fn compiled(pattern: &str) -> Result<GlobSet, globset::Error> {
    GlobSetBuilder::new().add(Glob::new(pattern)?).build()
}

#[test]
fn compiled_sets_make_a_filter() {
    match Filter::from_sets(compiled("*.md"), compiled("draft*")) {
        Ok(made) => assert!(made.matches("a.md") && !made.matches("draft.md")),
        Err(_) => panic!("both sets are there"),
    }
    assert!(matches!(
        Filter::from_sets(compiled("a["), compiled("b[")),
        Err(FilterError::Include { cause }) if cause.glob() == Some("a[")
    ));
    assert!(matches!(
        Filter::from_sets(compiled("a"), compiled("b[")),
        Err(FilterError::Exclude { cause }) if cause.glob() == Some("b[")
    ));
}
