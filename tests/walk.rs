use tiktoken_rs::cl100k_base;
use token_chunker::{
    group_paragraphs_by_max_content_len, on_decode_failure, split_encoded,
    split_text_by_max_tokens, split_token_ids, Retry,
};

/// A decoder that spells each token as one letter (0 is 'a') and fails on
/// any window that ends with one of `bad_last`.
fn letters(bad_last: Vec<u32>) -> impl Fn(Vec<u32>) -> Option<String> {
    move |w: Vec<u32>| {
        if let Some(last) = w.last() {
            if bad_last.contains(last) {
                return None;
            }
        }
        Some(w.iter().map(|t| char::from(b'a' + *t as u8)).collect())
    }
}

fn strings(v: &[&str]) -> Vec<String> {
    v.iter().map(|s| s.to_string()).collect()
}

#[test]
fn scenario_short_content_is_one_chunk() {
    let tokenizer = cl100k_base().unwrap();
    let out = split_text_by_max_tokens("Short content".to_string(), 100, &tokenizer).unwrap();
    assert_eq!(out, strings(&["Short content"]));
}

#[test]
fn scenario_split_by_five_rejoins() {
    let tokenizer = cl100k_base().unwrap();
    let content = "The quick brown fox jumps over the lazy dog, and then it runs away.".to_string();
    let k = tokenizer.encode_ordinary(&content).len();
    assert!(k > 5);
    let out = split_text_by_max_tokens(content.clone(), 5, &tokenizer).unwrap();
    assert_eq!(out.len(), (k + 4) / 5);
    assert_eq!(out.concat(), content);
}

#[test]
fn scenario_oversized_fragment_passes_through() {
    let out = group_paragraphs_by_max_content_len(vec!["a".repeat(10)], 1);
    assert_eq!(out, vec!["a".repeat(10)]);
}

#[test]
fn scenario_greedy_packing() {
    let out = group_paragraphs_by_max_content_len(strings(&["ab", "cd", "ef"]), 4);
    assert_eq!(out, strings(&["abcd", "ef"]));
}

#[test]
fn group_empty_input() {
    for n in [0usize, 1, 7, usize::MAX] {
        assert!(group_paragraphs_by_max_content_len(Vec::new(), n).is_empty());
    }
}

#[test]
fn split_empty_input() {
    let tokenizer = cl100k_base().unwrap();
    for n in [0usize, 1, 10] {
        assert!(split_text_by_max_tokens(String::new(), n, &tokenizer).unwrap().is_empty());
    }
}

#[test]
fn group_zero_limit_gives_each_fragment_its_own_chunk() {
    let out = group_paragraphs_by_max_content_len(strings(&["x", "yz", "w"]), 0);
    assert_eq!(out, strings(&["x", "yz", "w"]));
}

#[test]
fn group_drops_nothing_but_empty_chunks() {
    let frags = strings(&["", "abc", "", "de", "", "fghij", ""]);
    let out = group_paragraphs_by_max_content_len(frags.clone(), 5);
    assert_eq!(out, strings(&["abcde", "fghij"]));
    assert_eq!(out.concat(), frags.concat());
}

#[test]
fn group_counts_characters_not_bytes() {
    // "é" is one character of two bytes: three of them fit a limit of four.
    let out = group_paragraphs_by_max_content_len(strings(&["é", "é", "é"]), 4);
    assert_eq!(out, strings(&["ééé"]));
    let out = group_paragraphs_by_max_content_len(strings(&["é", "é", "é"]), 2);
    assert_eq!(out, strings(&["éé", "é"]));
}

#[test]
fn retry_extends_then_advances_then_terminates() {
    assert_eq!(on_decode_failure(0, 2, 5, 2), Retry::ExtendWindow { end: 3 });
    assert_eq!(on_decode_failure(1, 5, 5, 2), Retry::AdvanceStart { start: 2, end: 4 });
    assert_eq!(on_decode_failure(3, 5, 5, 4), Retry::AdvanceStart { start: 4, end: 5 });
    assert_eq!(on_decode_failure(4, 5, 5, 2), Retry::Terminate);
}

#[test]
fn walk_without_failures_tiles_the_tokens() {
    let ids: Vec<u32> = vec![0, 1, 2, 3, 4, 5, 6];
    let out = split_token_ids(&ids, 3, &letters(vec![]));
    assert_eq!(out, strings(&["abc", "def", "g"]));
}

#[test]
fn walk_extends_past_an_undecodable_end() {
    // Windows ending in token 2 fail: [0, 3) grows to [0, 4).
    let ids: Vec<u32> = vec![0, 1, 2, 3, 4, 5];
    let out = split_token_ids(&ids, 3, &letters(vec![2]));
    assert_eq!(out, strings(&["abcd", "ef"]));
}

#[test]
fn walk_skips_a_token_that_never_decodes() {
    // Every window ending in the last token fails: the walk skips leading
    // tokens of the tail and stops.
    let ids: Vec<u32> = vec![0, 1, 2, 25];
    let out = split_token_ids(&ids, 2, &letters(vec![25]));
    assert_eq!(out, strings(&["ab"]));
}

#[test]
fn walk_with_a_decoder_that_always_fails_ends_empty() {
    let ids: Vec<u32> = vec![0, 1, 2, 3, 4];
    let out = split_token_ids(&ids, 2, &|_w: Vec<u32>| None);
    assert!(out.is_empty());
}

#[test]
fn walk_with_zero_limit_takes_one_token_at_a_time() {
    let ids: Vec<u32> = vec![7, 8, 9];
    let out = split_token_ids(&ids, 0, &letters(vec![]));
    assert_eq!(out, strings(&["h", "i", "j"]));
}

#[test]
fn split_encoded_keeps_short_text_whole() {
    let out = split_encoded("hello".to_string(), vec![0, 1], 2, &|_w: Vec<u32>| None);
    assert_eq!(out, strings(&["hello"]));
    let out = split_encoded(String::new(), vec![0, 1, 2], 1, &letters(vec![]));
    assert!(out.is_empty());
    let out = split_encoded("abc".to_string(), vec![0, 1, 2], 1, &letters(vec![]));
    assert_eq!(out, strings(&["a", "b", "c"]));
}

#[test]
fn split_chunks_are_valid_text() {
    let tokenizer = cl100k_base().unwrap();
    let content = "naïve café — 日本語のテキスト 👩‍👩‍👧 done".to_string();
    for n in [1usize, 2, 3, 4] {
        let out = split_text_by_max_tokens(content.clone(), n, &tokenizer).unwrap();
        assert!(out.len() > 1);
        for chunk in &out {
            assert!(chunk.is_char_boundary(0));
            assert!(chunk.is_char_boundary(chunk.len()));
        }
    }
}

#[test]
fn split_decodes_real_tokens() {
    let tokenizer = cl100k_base().unwrap();
    let content = "one two three four".to_string();
    let out = split_text_by_max_tokens(content.clone(), 1, &tokenizer).unwrap();
    assert_eq!(out, strings(&["one", " two", " three", " four"]));
}

#[test]
fn split_with_bundled_tokenizer_matches_explicit_one() {
    let tokenizer = cl100k_base().unwrap();
    let content = "one two three four".to_string();
    let direct = split_text_by_max_tokens(content.clone(), 2, &tokenizer).unwrap();
    let bundled = token_chunker::split_text_by_cl100k(content, 2).unwrap();
    assert_eq!(direct, bundled);
    assert_eq!(bundled, strings(&["one two", " three four"]));
}

#[test]
fn split_reports_a_text_the_tokenizer_cannot_encode() {
    // A very long run of spaces exhausts the pattern matcher's backtracking.
    let tokenizer = cl100k_base().unwrap();
    let content = format!("{}x", " ".repeat(1_100_000));
    let out = split_text_by_max_tokens(content, 10, &tokenizer);
    assert!(matches!(out, Err(token_chunker::AppError::Encode(_))));
}
