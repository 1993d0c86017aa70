use rustysearch::text::{normalize_string, split_whitespace};

#[test]
fn normalize_strips_punctuation_and_collapses_space() {
    assert_eq!(normalize_string("  Hello,   World!\tFoo-Bar "), "hello world foobar");
    assert_eq!(normalize_string(""), "");
    assert_eq!(normalize_string("!!!"), "");
}

#[test]
fn normalize_is_idempotent_on_examples() {
    for x in ["Hello, World!", "  a  b  ", "ÄBC déf", "x.y.z"] {
        let once = normalize_string(x);
        assert_eq!(normalize_string(&once), once);
    }
}

#[test]
fn normalize_lowercases_unicode() {
    assert_eq!(normalize_string("ÄBC"), "äbc");
}

#[test]
fn split_whitespace_gives_runs() {
    assert_eq!(split_whitespace(" a  bc\nd "), vec!["a", "bc", "d"]);
    assert!(split_whitespace("   ").is_empty());
}
