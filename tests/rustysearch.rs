use rustysearch::segment::{Rustysearch, SegmentError, TermInfo};
use rustysearch::types::{Config, Stats};

fn info(entries: &[(&str, &[&str])]) -> TermInfo {
    let mut m = TermInfo::new();
    for (doc, positions) in entries {
        m.insert(doc.to_string(), positions.iter().map(|p| p.to_string()).collect());
    }
    m
}

fn entries(m: &TermInfo) -> Vec<(String, Vec<String>)> {
    (0..m.len()).map(|i| (m.key_at(i).clone(), m.val_at(i).clone())).collect()
}

fn info_json(m: &TermInfo) -> String {
    let mut obj = serde_json::Map::new();
    for (doc, positions) in entries(m) {
        let arr = positions.into_iter().map(serde_json::Value::String).collect();
        obj.insert(doc, serde_json::Value::Array(arr));
    }
    serde_json::to_string(&serde_json::Value::Object(obj)).unwrap()
}

fn clean_stats() -> Stats {
    Stats::new()
}

#[test]
fn test_create_new_config() {
    let config = Config::default();
    let config_two = Config::new();

    assert_eq!(config.http_addr, "127.0.0.1:4000");
    assert_eq!(config_two.http_addr, "127.0.0.1:4000");
}

#[test]
fn test_increment_total_docs() {
    let search = Rustysearch::new("/tmp/rustysearch_incrementtotaldocs");
    let mut stats = clean_stats();
    assert_eq!(stats.total_docs, 0);

    search.increment_total_docs(&mut stats);
    assert_eq!(stats.total_docs, 1);
}

#[test]
fn test_get_total_docs() {
    let search = Rustysearch::new("/tmp/rustysearch_gettotaldocs");
    let mut stats = clean_stats();
    assert_eq!(stats.total_docs, 0);

    search.increment_total_docs(&mut stats);
    assert_eq!(stats.total_docs, 1);

    let total_docs = search.get_total_docs(&stats);
    assert_eq!(total_docs, 1);
}

#[test]
fn test_make_ngrams() {
    let search = Rustysearch::new("/tmp/rustysearch_makengrams");

    let tokens = vec!["hello".to_string(), "world".to_string()];
    let terms = search.make_ngrams(tokens, 3, 6);

    assert_eq!(terms.get("hel").unwrap().len(), 1);
}

#[test]
fn ngrams_are_front_grams_with_positions() {
    let search = Rustysearch::new("/tmp/x");
    let tokens = vec!["hello".to_string(), "help".to_string(), "he".to_string()];
    let terms = search.make_ngrams(tokens, 2, 4);
    assert_eq!(terms.get("he"), Some(&vec![0, 1, 2]));
    assert_eq!(terms.get("hel"), Some(&vec![0, 1]));
    assert_eq!(terms.get("hell"), Some(&vec![0]));
    assert_eq!(terms.get("hello"), None);
    assert_eq!(terms.len(), 4);
}

#[test]
fn test_hash_name() {
    let search = Rustysearch::new("/tmp/rustysearch_hashname");

    let hash = search.hash_name("hello", 6);
    assert_eq!(hash, "5d4140");
}

#[test]
fn hash_name_lowercases_first() {
    let search = Rustysearch::new("/tmp/x");
    assert_eq!(search.hash_name("HeLLo", 6), "5d4140");
    assert_eq!(search.hash_name("hello", 32), "5d41402abc4b2a76b9719d911017c592");
}

#[test]
fn test_make_segment_name() {
    let search = Rustysearch::new("/tmp/rustysearch_makesegmentname");

    let segment_name = search.make_segment_name("hello");
    assert_eq!(
        segment_name,
        "/tmp/rustysearch_makesegmentname/index/5d4140.index"
    );
}

#[test]
fn paths_under_base_directory() {
    let search = Rustysearch::new("/tmp/x");
    assert_eq!(search.index_path, "/tmp/x/index");
    assert_eq!(search.docs_path, "/tmp/x/docs");
    assert_eq!(search.stats_path, "/tmp/x/stats.json");
    assert_eq!(search.make_segment_name("hello"), "/tmp/x/index/5d4140.index");
}

#[test]
fn test_parse_record() {
    let search = Rustysearch::new("/tmp/rustysearch_parserecord");

    let line = "my_term\t{\"frequency\": 100}";
    let (term, info) = search.parse_record(line);

    assert_eq!(term, "my_term");
    assert_eq!(info, "{\"frequency\": 100}");
}

#[test]
fn parse_record_trims_and_stops_at_second_tab() {
    let search = Rustysearch::new("/tmp/x");
    let (term, info) = search.parse_record("  t\ta\tb \n");
    assert_eq!(term, "t");
    assert_eq!(info, "a");
}

#[test]
fn test_make_tokens() {
    let search = Rustysearch::new("/tmp/rustysearch");
    let tokens = search.make_tokens("Hello, world!");
    assert_eq!(tokens, vec!["hello", "world"]);
}

#[test]
fn test_make_record() {
    let search = Rustysearch::new("/tmp/rustysearch");
    let term = "hello world";
    let mut obj = serde_json::Map::new();
    obj.insert("frequency".to_string(), serde_json::Value::from(100));
    obj.insert("idf".to_string(), serde_json::Value::from(1.5));
    let term_info = serde_json::to_string(&serde_json::Value::Object(obj)).unwrap();

    let record = search.make_record(term, &term_info);
    assert_eq!(record, "hello world\t{\"frequency\":100,\"idf\":1.5}\n");
}

#[test]
fn make_and_parse_record_round_trip() {
    let search = Rustysearch::new("/tmp/x");
    let record = search.make_record("my_term", "{\"frequency\":100}");
    assert_eq!(record, "my_term\t{\"frequency\":100}\n");
    let (term, info) = search.parse_record(&record);
    assert_eq!(term, "my_term");
    assert_eq!(info, "{\"frequency\":100}");
}

#[test]
fn test_update_term_info() {
    let mut orig_info = info(&[("doc1", &["1", "2"]), ("doc2", &["3", "4"])]);
    let new_info = info(&[("doc3", &["1", "2"])]);
    let expected_result = info(&[("doc1", &["1", "2"]), ("doc2", &["3", "4"]), ("doc3", &["1", "2"])]);
    let search = Rustysearch::new("/tmp/rustysearch");
    let result = search.update_term_info(&mut orig_info, &new_info);

    assert_eq!(entries(&result), entries(&expected_result));
}

#[test]
fn update_term_info_unions_positions() {
    let search = Rustysearch::new("/tmp/x");
    let mut a = info(&[("doc1", &["1", "5"]), ("doc2", &["2"])]);
    let b = info(&[("doc1", &["5", "10"]), ("doc3", &["3"])]);
    let r = search.update_term_info(&mut a, &b);
    let expected = info(&[("doc1", &["1", "5", "10"]), ("doc2", &["2"]), ("doc3", &["3"])]);
    assert_eq!(entries(&r), entries(&expected));
    assert_eq!(entries(&a), entries(&expected));
}

#[test]
fn test_save_segment() {
    let search = Rustysearch::new("/tmp/rustysearch_save_segment");

    let term = "rust";
    let term_info = info(&[("doc1", &["1", "5"]), ("doc2", &["2", "6"])]);

    // Saving a new segment
    let first = search.rewrite_segment("", term, &info_json(&term_info)).unwrap();
    assert_eq!(first, "rust\t{\"doc1\":[\"1\",\"5\"],\"doc2\":[\"2\",\"6\"]}\n");

    // Updating an existing segment
    let new_term_info = info(&[("doc1", &["1", "5", "10"]), ("doc3", &["3", "7"])]);
    let existing = search.find_record(&first, term).unwrap().unwrap();
    assert_eq!(existing, info_json(&term_info));
    let mut merged = term_info_from(&existing);
    let merged = search.update_term_info(&mut merged, &new_term_info);
    let second = search.rewrite_segment(&first, term, &info_json(&merged)).unwrap();
    assert_eq!(
        second,
        "rust\t{\"doc1\":[\"1\",\"5\",\"10\"],\"doc2\":[\"2\",\"6\"],\"doc3\":[\"3\",\"7\"]}\n"
    );

    // Overwriting an existing segment
    let third = search.rewrite_segment(&second, term, &info_json(&term_info)).unwrap();
    assert_eq!(third, first);
}

fn term_info_from(json: &str) -> TermInfo {
    let v: serde_json::Value = serde_json::from_str(json).unwrap();
    let mut m = TermInfo::new();
    for (doc, positions) in v.as_object().unwrap() {
        let ps = positions.as_array().unwrap().iter().map(|p| p.as_str().unwrap().to_string()).collect();
        m.insert(doc.clone(), ps);
    }
    m
}

#[test]
fn rewrite_segment_keeps_terms_sorted() {
    let search = Rustysearch::new("/tmp/x");
    let content = "apple\t{}\ncherry\t{}\n";
    let r = search.rewrite_segment(content, "banana", "{\"d\":[]}").unwrap();
    assert_eq!(r, "apple\t{}\nbanana\t{\"d\":[]}\ncherry\t{}\n");
    let r = search.rewrite_segment(content, "zebra", "{}").unwrap();
    assert_eq!(r, "apple\t{}\ncherry\t{}\nzebra\t{}\n");
    let r = search.rewrite_segment(content, "apple", "{\"x\":[]}").unwrap();
    assert_eq!(r, "apple\t{\"x\":[]}\ncherry\t{}\n");
    assert_eq!(search.find_record(content, "durian"), Ok(None));
}

#[test]
fn rewrite_segment_refuses_bad_segments() {
    let search = Rustysearch::new("/tmp/x");
    assert_eq!(search.rewrite_segment("no tab here\n", "a", "{}"), Err(SegmentError::MalformedLine));
    assert_eq!(search.rewrite_segment("b\t{}\na\t{}\n", "c", "{}"), Err(SegmentError::Unsorted));
    assert_eq!(search.rewrite_segment("a\t{}\na\t{}\n", "c", "{}"), Err(SegmentError::Unsorted));
    assert_eq!(search.find_record("x\n", "x"), Err(SegmentError::MalformedLine));
}

#[test]
fn update_term_info_is_commutative_on_position_sets() {
    let search = Rustysearch::new("/tmp/x");
    let a = info(&[("doc1", &["1", "2"]), ("doc2", &["7"])]);
    let b = info(&[("doc1", &["2", "3"]), ("doc3", &["4"])]);
    let mut a1 = info(&[("doc1", &["1", "2"]), ("doc2", &["7"])]);
    let mut b1 = info(&[("doc1", &["2", "3"]), ("doc3", &["4"])]);
    let ab = entries(&search.update_term_info(&mut a1, &b));
    let ba = entries(&search.update_term_info(&mut b1, &a));
    assert_eq!(ab.len(), 3);
    assert_eq!(ab.len(), ba.len());
    for ((d1, p1), (d2, p2)) in ab.iter().zip(ba.iter()) {
        assert_eq!(d1, d2);
        let mut s1 = p1.clone();
        let mut s2 = p2.clone();
        s1.sort();
        s2.sort();
        assert_eq!(s1, s2);
    }
}

#[test]
fn update_term_info_drops_repeated_positions() {
    let search = Rustysearch::new("/tmp/x");
    let mut a = info(&[("doc1", &["1", "1"]), ("doc2", &["4", "4"])]);
    let b = info(&[("doc1", &["2", "1", "2"])]);
    let r = search.update_term_info(&mut a, &b);
    let expected = info(&[("doc1", &["1", "2"]), ("doc2", &["4", "4"])]);
    assert_eq!(entries(&r), entries(&expected));
}

#[test]
fn info_to_save_merges_only_on_update() {
    let search = Rustysearch::new("/tmp/x");
    let new_info = info(&[("doc1", &["3"])]);
    let existing = || Some(info(&[("doc1", &["1"]), ("doc2", &["2"])]));
    let merged = search.info_to_save(existing(), &new_info, true);
    assert_eq!(entries(&merged), entries(&info(&[("doc1", &["1", "3"]), ("doc2", &["2"])])));
    let replaced = search.info_to_save(existing(), &new_info, false);
    assert_eq!(entries(&replaced), entries(&new_info));
    let fresh = search.info_to_save(None, &new_info, true);
    assert_eq!(entries(&fresh), entries(&new_info));
}
