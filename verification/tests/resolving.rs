use phoneme_dict::service::{resolve, make_response};
use phoneme_dict::store::DictionaryStore;

fn store_from(lines: &[&str]) -> DictionaryStore {
    let v: Vec<String> = lines.iter().map(|s| s.to_string()).collect();
    DictionaryStore::load(&v).unwrap()
}

#[test]
fn known_word_returns_first_variant_and_found() {
    let store = store_from(&["cat\tK AE T", "dog\tD AO G"]);
    let r = resolve(&store, "cat");
    assert!(r.found);
    assert_eq!(r.phonemes, "K AE T");
}

#[test]
fn unknown_word_echoes_the_original_input() {
    let store = store_from(&["cat\tK AE T"]);
    let r = resolve(&store, "Zyzzyx");
    assert!(!r.found);
    assert_eq!(r.phonemes, "Zyzzyx");
}

#[test]
fn resolution_is_case_insensitive_on_hits() {
    let store = store_from(&["hello\tHH AH L OW"]);
    let upper = resolve(&store, "HELLO");
    let lower = resolve(&store, "hello");
    assert!(upper.found);
    assert!(lower.found);
    assert_eq!(upper.phonemes, lower.phonemes);
    assert_eq!(upper.phonemes, "HH AH L OW");
}

#[test]
fn repeated_calls_return_identical_results() {
    let store = store_from(&["cat\tK AE T"]);
    let first = resolve(&store, "cat");
    let second = resolve(&store, "cat");
    assert_eq!(first.found, second.found);
    assert_eq!(first.phonemes, second.phonemes);
    let miss_first = resolve(&store, "emu");
    let miss_second = resolve(&store, "emu");
    assert_eq!(miss_first.found, miss_second.found);
    assert_eq!(miss_first.phonemes, miss_second.phonemes);
}

#[test]
fn duplicate_key_resolves_to_the_line_appearing_first() {
    let store = store_from(&["read\tR IY D", "read\tR EH D"]);
    let r = resolve(&store, "read");
    assert!(r.found);
    assert_eq!(r.phonemes, "R IY D");
}

#[test]
fn end_to_end_example() {
    let store = store_from(&["cat\tK AE T"]);

    let hit = resolve(&store, "Cat");
    let reply = make_response("req-1".to_string(), hit);
    assert_eq!(reply.req_id, "req-1");
    assert_eq!(reply.phonemes, "K AE T");
    assert_eq!(reply.message, "data processed");

    let miss = resolve(&store, "xyzzy");
    let reply = make_response("req-2".to_string(), miss);
    assert_eq!(reply.req_id, "req-2");
    assert_eq!(reply.phonemes, "xyzzy");
    assert_eq!(reply.message, "unknown word");
}

#[test]
fn lookup_expects_an_already_normalized_key() {
    let store = store_from(&["cat\tK AE T"]);
    assert!(store.lookup("cat").is_some());
    assert!(store.lookup("Cat").is_none());
    let r = resolve(&store, "Cat");
    assert!(r.found);
}
