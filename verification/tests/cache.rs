use pyastq::cache::{content_hash, SearchCache};
use pyastq::query::variables::MatchCaptures;
use pyastq::report::Finding;

#[test]
fn content_hash_is_stable_and_content_sensitive() {
    assert_eq!(content_hash(b"same"), content_hash(b"same"));
    assert_ne!(content_hash(b"first"), content_hash(b"second"));
}

#[test]
fn content_hash_is_two_fnv1a_hashes_in_hex() {
    // FNV-1a of nothing is the seed itself.
    assert_eq!(content_hash(b""), "cbf29ce48422232584222325cbf29ce4");
    assert_eq!(content_hash(b"a").len(), 32);
    assert_eq!(&content_hash(b"a")[..16], "af63dc4c8601ec8c");
}

fn finding(line: usize) -> Finding {
    Finding {
        path: "example.py".to_owned(),
        line,
        column: 1,
        text: "eval(value)".to_owned(),
        rule_id: None,
        message: None,
        severity: None,
        start_byte: 0,
        end_byte: 11,
        captures: MatchCaptures::new(),
    }
}

#[test]
fn a_stored_result_is_read_back_while_the_hash_holds() {
    let mut cache = SearchCache::new("cache.json".to_owned(), "root".to_owned());
    cache.store("example.py", "h1", "rule-a".to_owned(), vec![finding(1)]);
    cache.store("example.py", "h1", "rule-b".to_owned(), vec![finding(2), finding(3)]);
    assert_eq!(cache.findings("example.py", "h1", "rule-a").unwrap()[0].line, 1);
    assert_eq!(cache.findings("example.py", "h1", "rule-b").unwrap().len(), 2);
    assert!(cache.findings("example.py", "h2", "rule-a").is_none());
    assert!(cache.findings("other.py", "h1", "rule-a").is_none());

    // A new hash drops the file's older results.
    cache.store("example.py", "h2", "rule-a".to_owned(), Vec::new());
    assert!(cache.findings("example.py", "h2", "rule-b").is_none());
    assert_eq!(cache.findings("example.py", "h2", "rule-a").unwrap().len(), 0);
}

#[test]
fn retaining_drops_results_of_files_no_longer_searched() {
    let mut cache = SearchCache::new("cache.json".to_owned(), "root".to_owned());
    cache.store("a.py", "h", "key".to_owned(), vec![finding(1)]);
    cache.store("b.py", "h", "key".to_owned(), vec![finding(2)]);
    cache.store("b.py", "h", "other".to_owned(), vec![finding(3)]);
    cache.retain_result_files("key", &vec!["a.py".to_owned()]);
    assert!(cache.findings("a.py", "h", "key").is_some());
    assert!(cache.findings("b.py", "h", "key").is_none());
    assert!(cache.findings("b.py", "h", "other").is_some());
    cache.retain_result_files("other", &Vec::new());
    assert_eq!(cache.entries().len(), 1);
}

#[test]
fn file_keys_are_relative_to_the_base_with_forward_slashes() {
    let cache = SearchCache::new("/work/.pyastq-cache.json".to_owned(), "/work".to_owned());
    assert_eq!(cache.file_key("/work/src/main.py"), "src/main.py");
    assert_eq!(cache.file_key("elsewhere\\main.py"), "elsewhere/main.py");
}
