use pyastq::files::{changed_paths_under, changed_python_paths, glob_regex, normalize, FileFilter};
use regex::Regex;

#[test]
fn supports_double_star_globs() {
    let regex = Regex::new(&glob_regex("src/**/*.py")).unwrap();
    assert!(regex.is_match("src/main.py"));
    assert!(regex.is_match("src/pkg/main.py"));
    assert!(!regex.is_match("tests/main.py"));
}

#[test]
fn globs_escape_regex_characters() {
    assert_eq!(glob_regex("a.py"), "^a\\.py$");
    assert_eq!(glob_regex("?x*"), "^[^/]x[^/]*$");
    assert_eq!(glob_regex("**"), "^.*$");
}

#[test]
fn filters_apply_includes_excludes_and_defaults() {
    let filter = FileFilter::new(
        &vec![vec!["src/**/*.py".to_owned()]],
        &vec!["**/generated/**".to_owned()],
        None,
    )
    .unwrap();
    assert!(filter.accepts("src/main.py"));
    assert!(filter.accepts("src\\pkg\\main.py"));
    assert!(!filter.accepts("tests/main.py"));
    assert!(!filter.accepts("src/generated/x.py"));
    assert!(!filter.accepts("src/.venv/lib.py"));
    assert!(filter.excludes_directory("src/__pycache__"));
    assert!(!filter.excludes_directory("src/pkg"));
}

#[test]
fn filters_on_changed_files() {
    let filter = FileFilter::new(&Vec::new(), &Vec::new(), Some(vec!["pkg\\a.py".to_owned()])).unwrap();
    assert!(filter.accepts("pkg/a.py"));
    assert!(!filter.accepts("pkg/b.py"));
}

#[test]
fn bracket_characters_in_globs_are_literal() {
    let filter = FileFilter::new(&vec![vec!["src/[".to_owned()]], &Vec::new(), None).unwrap();
    assert!(filter.accepts("src/["));
    assert!(!filter.accepts("src/a"));
    assert_eq!(normalize("a\\b/c"), "a/b/c");
}

#[test]
fn git_status_lines_name_changed_python_files() {
    let listing = " M src/app.py\n?? tests/new_test.py\nR  old.py -> pkg/renamed.py\n M README.md\r\nA  notes.py\r\nx\n";
    assert_eq!(
        changed_python_paths(listing),
        ["src/app.py", "tests/new_test.py", "pkg/renamed.py", "notes.py"]
    );
    assert!(changed_python_paths("").is_empty());
    assert_eq!(changed_python_paths("?? last.py"), ["last.py"]);
}

#[test]
fn changed_files_are_written_relative_to_the_searched_directory() {
    let listing = " M src/app.py\n?? tests/new_test.py\n M src/pkg/mod.py\n M src/notes.txt\n";
    assert_eq!(
        changed_paths_under(listing, "/repo", "/repo/src"),
        ["app.py", "pkg/mod.py"]
    );
    assert_eq!(
        changed_paths_under(listing, "/repo", "/repo"),
        ["src/app.py", "tests/new_test.py", "src/pkg/mod.py"]
    );
    assert!(changed_paths_under(listing, "/repo", "/elsewhere").is_empty());
}
