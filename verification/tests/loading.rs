use phoneme_dict::store::{DictionaryStore, LoadError};

fn to_lines(lines: &[&str]) -> Vec<String> {
    lines.iter().map(|s| s.to_string()).collect()
}

fn store_from(lines: &[&str]) -> DictionaryStore {
    DictionaryStore::load(&to_lines(lines)).unwrap()
}

#[test]
fn empty_file_loads_empty_store() {
    let store = store_from(&[]);
    assert_eq!(store.len(), 0);
    assert!(store.lookup("cat").is_none());
}

#[test]
fn tab_separated_line_parses() {
    let store = store_from(&["cat\tK AE T"]);
    assert_eq!(store.len(), 1);
    assert_eq!(store.lookup("cat").unwrap(), &vec!["K AE T".to_string()]);
}

#[test]
fn quote_space_quote_separated_line_parses() {
    let store = store_from(&["dog\" \"D AO G"]);
    assert_eq!(store.len(), 1);
    assert_eq!(store.lookup("dog").unwrap(), &vec!["D AO G".to_string()]);
}

#[test]
fn both_separators_give_the_same_entry_shape() {
    let tabbed = store_from(&["cat\tK AE T"]);
    let quoted = store_from(&["cat\" \"K AE T"]);
    assert_eq!(tabbed.len(), quoted.len());
    assert_eq!(tabbed.lookup("cat").unwrap(), quoted.lookup("cat").unwrap());
}

#[test]
fn further_separators_are_rejoined_with_single_spaces() {
    let store = store_from(&["a\tB\tC\" \"D"]);
    assert_eq!(store.lookup("a").unwrap(), &vec!["B C D".to_string()]);
}

#[test]
fn word_keys_are_lowercased() {
    let store = store_from(&["CAT\tK AE T"]);
    assert_eq!(store.lookup("cat").unwrap(), &vec!["K AE T".to_string()]);
    assert!(store.lookup("CAT").is_none());
}

#[test]
fn duplicate_words_share_one_entry_in_arrival_order() {
    let store = store_from(&["read\tR IY D", "dog\tD AO G", "Read\tR EH D"]);
    assert_eq!(store.len(), 2);
    assert_eq!(
        store.lookup("read").unwrap(),
        &vec!["R IY D".to_string(), "R EH D".to_string()]
    );
}

#[test]
fn line_without_separator_aborts_the_load() {
    let r = DictionaryStore::load(&to_lines(&["cat\tK AE T", "garbage", "dog\tD AO G"]));
    assert_eq!(r.unwrap_err(), LoadError::MalformedLine(1));
}

#[test]
fn empty_line_is_malformed() {
    let r = DictionaryStore::load(&to_lines(&[""]));
    assert_eq!(r.unwrap_err(), LoadError::MalformedLine(0));
}

#[test]
fn file_without_the_malformed_line_loads() {
    let store = store_from(&["cat\tK AE T", "dog\tD AO G"]);
    assert_eq!(store.len(), 2);
    assert_eq!(store.lookup("cat").unwrap(), &vec!["K AE T".to_string()]);
    assert_eq!(store.lookup("dog").unwrap(), &vec!["D AO G".to_string()]);
}

#[test]
fn empty_phoneme_string_is_kept() {
    let store = store_from(&["a\t"]);
    assert_eq!(store.lookup("a").unwrap(), &vec!["".to_string()]);
}
