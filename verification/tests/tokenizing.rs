use llm_lzh::tokenizer::Tokenizer;

fn tokenizer(text: &str) -> Tokenizer {
    match Tokenizer::new(text) {
        Ok(t) => t,
        Err(e) => panic!("{}", e),
    }
}

fn refusal(text: &str) -> String {
    match Tokenizer::new(text) {
        Ok(_) => panic!("a tokenizer was read"),
        Err(e) => e,
    }
}

const SMALL: &str = r#"{
    "added_tokens": [
        {"content": "<|end|>", "id": 9},
        {"content": "<|im|>", "id": 8}
    ],
    "model": {
        "vocab": {
            "a": 0, "b": 1, "ab": 2, "c": 3, "abc": 4, "Ġ": 5, "Ã": 6, "©": 7,
            "<": 10, "®": 11, "Âń": 12, "Â": 13
        },
        "merges": ["a b", "ab c"]
    }
}"#;

#[test]
fn text_is_merged_by_rank() {
    let t = tokenizer(SMALL);
    assert_eq!(t.encode(&"ab c".to_string()), vec![2, 5, 3]);
    assert_eq!(t.encode(&"abc".to_string()), vec![4]);
    assert_eq!(t.encode(&"ba".to_string()), vec![1, 0]);
    assert_eq!(t.encode(&"".to_string()), Vec::<usize>::new());
}

#[test]
fn unknown_parts_are_passed_over() {
    let t = tokenizer(SMALL);
    assert_eq!(t.encode(&"axb".to_string()), vec![0, 1]);
}

#[test]
fn special_words_are_found() {
    let t = tokenizer(SMALL);
    assert_eq!(t.encode(&"<|im|>ab<|end|>".to_string()), vec![8, 2, 9]);
    assert_eq!(t.encode(&"<|im|><|im|>".to_string()), vec![8, 8]);
    assert_eq!(t.encode(&"a<b".to_string()), vec![0, 10, 1]);
    assert!(!t.has_empty_special());
}

#[test]
fn encoding_splits_at_a_special_word() {
    let t = tokenizer(SMALL);
    let a = "ab é".to_string();
    let b = "abc<a".to_string();
    let mut parts = t.encode(&a);
    parts.push(8);
    parts.extend(t.encode(&b));
    assert_eq!(t.encode(&format!("{}<|im|>{}", a, b)), parts);
}

/// A vocabulary with the character of each byte and what comes out of its merges.
fn whole_vocabulary() -> String {
    let table = Tokenizer::bytes_to_unicode();
    let mut words: Vec<String> = Vec::new();
    for b in 0..=255u8 {
        let c = table[&b];
        let word = if c == '"' || c == '\\' { format!("\\{}", c) } else { c.to_string() };
        words.push(format!("\"{}\": {}", word, b));
    }
    words.push("\"he\": 256".to_string());
    words.push("\"llo\": 257".to_string());
    words.push("\"lo\": 258".to_string());
    words.push("\"Ġhe\": 259".to_string());
    format!(
        "{{\"added_tokens\": [{{\"content\": \"<|end|>\", \"id\": 300}}], \"model\": {{\
          \"vocab\": {{{}}}, \"merges\": [\"h e\", \"l o\", \"l lo\", \"Ġ he\"]}}}}",
        words.join(", ")
    )
}

#[test]
fn every_text_comes_back_with_a_whole_vocabulary() {
    let mut t = tokenizer(&whole_vocabulary());
    for text in ["hello hello", "日本語\u{0}\t\"\\", "a<|end|>🦀<|end", "ÿ é"] {
        let mut back = String::new();
        for token in t.encode(&text.to_string()) {
            back.push_str(&t.decode(token as u32));
        }
        assert_eq!(back, text);
    }
    assert_eq!(t.encode(&"hello he".to_string()), vec![256, 257, 259]);
}

#[test]
fn the_leftmost_pair_of_lowest_rank_comes_first() {
    let t = tokenizer(
        r#"{"model": {
            "vocab": {"a": 0, "aa": 1, "b": 2, "ab": 3},
            "merges": ["a b", "a a"]
        }}"#,
    );
    assert_eq!(t.encode(&"aaa".to_string()), vec![1, 0]);
    assert_eq!(t.encode(&"aab".to_string()), vec![0, 3]);
}

#[test]
fn merges_without_a_space_are_passed_over_and_later_ones_count() {
    let t = tokenizer(
        r#"{"model": {
            "vocab": {"a": 0, "b": 1, "c": 2, "ab": 3, "bc": 4},
            "merges": ["ab", "a b", "b c", "a b"]
        }}"#,
    );
    assert_eq!(t.encode(&"abc".to_string()), vec![0, 4]);
}

#[test]
fn tokens_are_decoded() {
    let mut t = tokenizer(SMALL);
    assert_eq!(t.decode(2), "ab");
    assert_eq!(t.decode(5), " ");
    assert_eq!(t.decode(9), "<|end|>");
    assert_eq!(t.decode(77), "");
}

#[test]
fn bytes_wait_for_the_rest_of_their_character() {
    let mut t = tokenizer(SMALL);
    assert_eq!(t.decode(6), "");
    assert_eq!(t.decode(77), "");
    assert_eq!(t.decode(7), "é");
    assert_eq!(t.decode(0), "a");
}

#[test]
fn bytes_that_are_no_text_are_replaced() {
    let mut t = tokenizer(SMALL);
    assert_eq!(t.decode(7), "\u{fffd}");
    assert_eq!(t.decode(0), "a");
    assert_eq!(t.decode(6), "");
    assert_eq!(t.decode(0), "\u{fffd}a");
}

#[test]
fn a_text_comes_back() {
    let mut t = tokenizer(SMALL);
    let text = "<|im|>abc a é<|end|>".to_string();
    let mut back = String::new();
    for token in t.encode(&text) {
        back.push_str(&t.decode(token as u32));
    }
    assert_eq!(back, text);
}

#[test]
fn the_sign_of_a_registered_mark_does_not_come_back() {
    let mut t = tokenizer(SMALL);
    assert_eq!(t.encode(&"®".to_string()), vec![13, 11]);
    assert_eq!(t.decode(11), "");
    assert_eq!(t.decode(12), "®");
}

#[test]
fn bytes_are_written_as_characters() {
    let table = Tokenizer::bytes_to_unicode();
    assert_eq!(table.len(), 256);
    assert_eq!(table[&b'!'], '!');
    assert_eq!(table[&b'~'], '~');
    assert_eq!(table[&0], 'Ā');
    assert_eq!(table[&b' '], 'Ġ');
    assert_eq!(table[&127], 'ġ');
    assert_eq!(table[&0xad], 'Ń');
    assert_eq!(table[&0xae], '®');
    assert_eq!(table[&0xff], 'ÿ');
    for a in 0..=255u8 {
        for b in 0..a {
            assert_ne!(table[&a], table[&b]);
        }
    }
}

#[test]
fn indices_are_cut_to_the_range() {
    let one = |index: &str| {
        let t = tokenizer(&format!("{{\"model\": {{\"vocab\": {{\"a\": {}}}}}}}", index));
        t.encode(&"a".to_string())
    };
    assert_eq!(one("3.7"), vec![3]);
    assert_eq!(one("-1"), vec![0]);
    assert_eq!(one("-2.5"), vec![0]);
    assert_eq!(one("4294967295"), vec![4294967295]);
    assert_eq!(one("4294967296"), vec![4294967295]);
    assert_eq!(one("18446744073709551615"), vec![4294967295]);
    assert_eq!(one("1e20"), vec![4294967295]);
}

#[test]
fn later_entries_replace_earlier_ones() {
    let mut t = tokenizer(
        r#"{
            "added_tokens": [
                {"content": "<x>", "id": 1},
                {"content": "<x>", "id": 2},
                {"content": "<y>", "id": 4294967299}
            ],
            "model": {"vocab": {"b": 2, "a": 2, "<": 7, "x": 8, ">": 9}}
        }"#,
    );
    assert_eq!(t.encode(&"<x>".to_string()), vec![2]);
    assert_eq!(t.encode(&"<y>".to_string()), vec![3]);
    assert_eq!(t.decode(1), "<x>");
    assert_eq!(t.decode(2), "b");
}

#[test]
fn a_missing_vocabulary_is_told() {
    assert!(tokenizer(SMALL).has_vocab());
    assert!(!tokenizer("{}").has_vocab());
    assert!(!tokenizer(r#"{"model": {"vocab": []}}"#).has_vocab());
    assert!(tokenizer(r#"{"added_tokens": [{"content": "", "id": 1}]}"#).has_empty_special());
}

#[test]
fn each_fault_has_its_message() {
    assert_eq!(refusal("{"), "cannot convert to str");
    assert_eq!(refusal(r#"{"added_tokens": [{"id": 1}]}"#), "cannot get content");
    assert_eq!(refusal(r#"{"added_tokens": [{"content": "a", "id": -1}]}"#), "cannot get id");
    assert_eq!(refusal(r#"{"model": {"vocab": {"a": "b"}}}"#), "cannot get index");
    assert_eq!(refusal(r#"{"model": {"merges": ["a b", 1]}}"#), "merge entry not a string");
    assert_eq!(
        refusal(r#"{"added_tokens": [{"content": "a"}], "model": {"merges": [1]}}"#),
        "cannot get id"
    );
}
