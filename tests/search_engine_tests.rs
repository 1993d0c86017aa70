use rustysearch::engine::{SavedIndex, SearchEngine, TermHit};

#[test]
fn test_search_engine() {
    let mut search_engine = SearchEngine::new();

    search_engine.index("https://www.rust-lang.org/", "Rust Programming Language");
    let result = search_engine.search("Rust");

    assert_eq!(result.len(), 1);
    assert_eq!(search_engine.posts().len(), 1);
    assert_eq!(search_engine.number_of_documents(), 1);
}

#[test]
fn test_bulk_index() {
    let mut search_engine = SearchEngine::new();

    search_engine.bulk_index(vec![
        ("https://www.rust-lang.org/", "Rust Programming Language"),
        ("https://www.wikipedia.com/", "Rust Programming Language"),
    ]);

    assert_eq!(search_engine.posts().len(), 2);
    assert_eq!(search_engine.number_of_documents(), 2);
}

#[test]
fn single_document_search_evidence() {
    let mut engine = SearchEngine::new();
    engine.index("https://www.rust-lang.org/", "Rust Programming Language");
    let result = engine.search("Rust");
    assert_eq!(result.n_docs, 1);
    assert_eq!(result.total_len, 25);
    assert_eq!(result.hits.len(), 1);
    assert_eq!(result.hits.key_at(0).as_str(), "https://www.rust-lang.org/");
    let hits = result.hits.get("https://www.rust-lang.org/").unwrap();
    assert_eq!(hits, &vec![TermHit { postings: 1, freq: 1, doc_len: 25 }]);
}

#[test]
fn bulk_index_keeps_url_order() {
    let mut engine = SearchEngine::new();
    engine.bulk_index(vec![
        ("https://b", "Rust Programming Language"),
        ("https://a", "Rust Programming Language"),
    ]);
    assert_eq!(engine.posts(), vec!["https://a".to_string(), "https://b".to_string()]);
    assert_eq!(engine.number_of_documents(), 2);
    assert_eq!(engine.total_length(), 50);
}

#[test]
fn normalized_terms_are_indexed() {
    let mut engine = SearchEngine::new();
    engine.index("u1", "Hello, world!");
    let hello = engine.get_urls("hello");
    assert_eq!(hello.len(), 1);
    assert_eq!(hello.get("u1"), Some(&1));
    let world = engine.get_urls("WORLD!");
    assert_eq!(world.len(), 1);
    assert_eq!(world.get("u1"), Some(&1));
    assert_eq!(engine.get_urls("hello,").len(), 1);
    assert_eq!(engine.get_urls("helloworld").len(), 0);
    let saved = engine.to_saved();
    let terms: Vec<&str> = saved.index_btree_map.iter().map(|(t, _)| t.as_str()).collect();
    assert_eq!(terms, vec!["hello", "world"]);
}

#[test]
fn reindexing_adds_counts_and_replaces_content() {
    let mut engine = SearchEngine::new();
    engine.index("u1", "rust rust");
    engine.index("u1", "rust is fun");
    assert_eq!(engine.get_urls("rust").get("u1"), Some(&3));
    assert_eq!(engine.number_of_documents(), 1);
    let saved = engine.to_saved();
    assert_eq!(saved.documents_btree_map, vec![("u1".to_string(), "rust is fun".to_string())]);
}

#[test]
fn search_accumulates_keywords_per_document() {
    let mut engine = SearchEngine::new();
    engine.index("a", "apple banana");
    engine.index("b", "banana banana cherry");
    let result = engine.search("Banana apple, durian");
    assert_eq!(result.n_docs, 2);
    assert_eq!(result.len(), 2);
    let a = result.hits.get("a").unwrap();
    assert_eq!(a, &vec![
        TermHit { postings: 2, freq: 1, doc_len: 12 },
        TermHit { postings: 1, freq: 1, doc_len: 12 },
    ]);
    let b = result.hits.get("b").unwrap();
    assert_eq!(b, &vec![TermHit { postings: 2, freq: 2, doc_len: 20 }]);
}

#[test]
fn search_on_empty_engine_is_empty() {
    let engine = SearchEngine::new();
    let result = engine.search("anything");
    assert_eq!(result.len(), 0);
    assert_eq!(result.n_docs, 0);
    let empty_query = engine.search("");
    assert_eq!(empty_query.len(), 0);
}

#[test]
fn term_in_every_document_has_all_postings() {
    let mut engine = SearchEngine::new();
    engine.bulk_index(vec![("x", "common one"), ("y", "common two"), ("z", "common")]);
    let result = engine.search("common");
    for i in 0..result.hits.len() {
        let hits = result.hits.val_at(i);
        assert_eq!(hits[0].postings, 3);
    }
    assert_eq!(result.len(), 3);
}

#[test]
fn snapshot_keeps_documents_without_terms() {
    let mut engine = SearchEngine::new();
    engine.index("u1", "!");
    let restored = SearchEngine::from_saved(&engine.to_saved()).unwrap();
    assert_eq!(restored.number_of_documents(), 1);
    assert_eq!(restored.posts(), vec!["u1".to_string()]);
}

#[test]
fn snapshot_round_trip_gives_same_search() {
    let mut engine = SearchEngine::new();
    engine.index("https://a", "Rust Programming Language");
    engine.index("https://b", "Programming in Rust, rust and more rust");
    let saved = engine.to_saved();
    let restored = SearchEngine::from_saved(&saved).unwrap();
    for q in ["rust", "programming language", "more", "absent"] {
        let r1 = engine.search(q);
        let r2 = restored.search(q);
        assert_eq!(r1.n_docs, r2.n_docs);
        assert_eq!(r1.total_len, r2.total_len);
        assert_eq!(r1.len(), r2.len());
        for i in 0..r1.hits.len() {
            assert_eq!(r1.hits.key_at(i), r2.hits.key_at(i));
            assert_eq!(r1.hits.val_at(i), r2.hits.val_at(i));
        }
    }
    assert_eq!(restored.posts(), engine.posts());
}

#[test]
fn unsound_snapshot_is_refused() {
    let saved = SavedIndex {
        index_btree_map: vec![("rust".to_string(), vec![("https://missing".to_string(), 1)])],
        documents_btree_map: vec![("https://a".to_string(), "rust".to_string())],
    };
    assert!(SearchEngine::from_saved(&saved).is_none());
    let zero = SavedIndex {
        index_btree_map: vec![("rust".to_string(), vec![("https://a".to_string(), 0)])],
        documents_btree_map: vec![("https://a".to_string(), "rust".to_string())],
    };
    assert!(SearchEngine::from_saved(&zero).is_none());
    let empty_index = SavedIndex {
        index_btree_map: vec![],
        documents_btree_map: vec![("https://a".to_string(), "".to_string())],
    };
    assert_eq!(SearchEngine::from_saved(&empty_index).unwrap().number_of_documents(), 1);
}

#[test]
fn document_length_counts_bytes() {
    let mut engine = SearchEngine::new();
    engine.index("u", "héllo wörld");
    let result = engine.search("héllo");
    assert_eq!(result.total_len, 13);
    assert_eq!(result.hits.get("u").unwrap()[0].doc_len, 13);
}
