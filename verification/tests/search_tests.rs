use nsedit::search::SearchBuffer;

#[test]
fn subsequence_search_is_case_insensitive() {
    let mut buffer = SearchBuffer::new();
    buffer.add_strings(&["AlphaBeta", "Gamma", "alBphaEta"]);
    let hits = buffer.find_all_subsequences("AlE");
    assert_eq!(hits, vec!["AlphaBeta".to_string(), "alBphaEta".to_string()]);
}

#[test]
fn subsequence_search_negative_cases() {
    let mut buffer = SearchBuffer::new();
    buffer.add_strings(&["AlphaBeta", "Gamma", "alBphaEta"]);
    // out-of-order characters never match
    let hits = buffer.find_all_subsequences("ba");
    assert_eq!(hits, vec!["AlphaBeta".to_string(), "alBphaEta".to_string()]);
    let none = buffer.find_all_subsequences("zzz");
    assert!(none.is_empty());
    let gm = buffer.find_all_subsequences("gmm");
    assert_eq!(gm, vec!["Gamma".to_string()]);
}

#[test]
fn empty_query_matches_every_entry() {
    let mut buffer = SearchBuffer::new();
    buffer.add_strings(&["AlphaBeta", "Gamma", "alBphaEta"]);
    let hits = buffer.find_all_subsequences("");
    assert_eq!(
        hits,
        vec![
            "AlphaBeta".to_string(),
            "Gamma".to_string(),
            "alBphaEta".to_string()
        ]
    );
}

#[test]
fn clear_empties_the_buffer() {
    let mut buffer = SearchBuffer::new();
    buffer.add_strings(&["abc"]);
    buffer.clear();
    assert!(buffer.find_all_subsequences("").is_empty());
}

#[test]
fn add_strings_owned_matches_add_strings() {
    let mut buffer = SearchBuffer::new();
    buffer.add_strings_owned(&["Hello".to_string(), "World".to_string()]);
    let hits = buffer.find_all_subsequences("wld");
    assert_eq!(hits, vec!["World".to_string()]);
}

#[test]
fn containing_char_returns_prefix_before_first_hit() {
    let mut buffer = SearchBuffer::new();
    buffer.add_strings(&["abcNdef", "xyz", "Nop"]);
    let hits = buffer.find_all_containing_char('n');
    assert_eq!(hits, vec!["abc".to_string(), "".to_string()]);
}
