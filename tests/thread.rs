use xcli::thread::{auto_split, split_by_sentences, split_by_words, split_text, validate_chunks, weighted_len, SentenceIter};

#[test]
fn ascii_only() {
    assert_eq!(weighted_len("hello"), 5);
}

#[test]
fn korean_only() {
    assert_eq!(weighted_len("안녕하세요"), 10);
}

#[test]
fn mixed() {
    assert_eq!(weighted_len("hi안녕"), 6);
}

#[test]
fn empty() {
    assert_eq!(weighted_len(""), 0);
}

#[test]
fn emoji() {
    assert_eq!(weighted_len("😀"), 2);
}

#[test]
fn weight_boundary_at_basic_latin_max() {
    assert_eq!(weighted_len("\u{10FF}"), 1);
    assert_eq!(weighted_len("\u{1100}"), 2);
    assert_eq!(weighted_len("é"), 1);
}

#[test]
fn short_text_no_split() {
    let result = split_text("hello world");
    assert_eq!(result, vec!["hello world"]);
}

#[test]
fn separator_split() {
    let result = split_text("first tweet\n---\nsecond tweet");
    assert_eq!(result, vec!["first tweet", "second tweet"]);
}

#[test]
fn separator_trims_whitespace() {
    let result = split_text("  first  \n---\n  second  ");
    assert_eq!(result, vec!["first", "second"]);
}

#[test]
fn auto_split_on_paragraphs() {
    let p1 = "a".repeat(200);
    let p2 = "b".repeat(200);
    let text = format!("{p1}\n\n{p2}");
    let result = split_text(&text);
    assert_eq!(result.len(), 2);
    assert_eq!(result[0], p1);
    assert_eq!(result[1], p2);
}

#[test]
fn auto_split_on_sentences() {
    let s1 = "a".repeat(200);
    let s2 = "b".repeat(200);
    let text = format!("{s1}. {s2}.");
    let result = split_text(&text);
    assert_eq!(result.len(), 2);
    assert_eq!(result[0], format!("{s1}."));
    assert_eq!(result[1], format!("{s2}."));
}

#[test]
fn auto_split_on_words() {
    let word = "abcdefghij"; // 10 chars
    let words: Vec<&str> = std::iter::repeat(word).take(30).collect();
    let text = words.join(" ");
    let result = split_text(&text);
    assert!(result.len() >= 2);
    for chunk in &result {
        assert!(weighted_len(chunk) <= 280);
    }
}

#[test]
fn separator_empty_parts_filtered() {
    let result = split_text("only part\n---\n\n---\n");
    assert_eq!(result, vec!["only part"]);
}

#[test]
fn separator_with_only_blank_parts_falls_back() {
    let result = split_text("\n---\n");
    assert_eq!(result, vec!["\n---\n"]);
}

#[test]
fn exactly_the_limit_is_one_post() {
    let text = "x".repeat(280);
    assert_eq!(split_text(&text), vec![text.clone()]);
    let heavy = "가".repeat(141);
    assert_eq!(weighted_len(&heavy), 282);
    let parts = split_text(&heavy);
    assert_eq!(parts, vec![heavy.clone()]);
}

#[test]
fn words_pack_greedily() {
    let text = format!("{} {} {}", "a".repeat(139), "b".repeat(140), "c".repeat(5));
    let parts = split_by_words(&text);
    assert_eq!(parts, vec![format!("{} {}", "a".repeat(139), "b".repeat(140)), "c".repeat(5)]);
    assert_eq!(split_by_words("   "), Vec::<String>::new());
    assert_eq!(split_by_words(" one\ttwo\nthree "), vec!["one two three"]);
}

#[test]
fn sentences_read_one_by_one() {
    let mut it = SentenceIter::new("  First one. Second!  Third? last  ");
    assert_eq!(it.next_sentence(), Some("First one.".to_string()));
    assert_eq!(it.next_sentence(), Some("Second!".to_string()));
    assert_eq!(it.next_sentence(), Some("Third?".to_string()));
    assert_eq!(it.next_sentence(), Some("last".to_string()));
    assert_eq!(it.next_sentence(), None);
}

#[test]
fn sentences_pack_and_fall_back_to_words() {
    let text = format!("{}. {}", "a".repeat(100), "b".repeat(100));
    assert_eq!(split_by_sentences(&text), vec![format!("{}. {}", "a".repeat(100), "b".repeat(100))]);
    let long = vec!["word"; 80].join(" ");
    let parts = split_by_sentences(&long);
    assert!(parts.len() >= 2);
    assert!(parts.iter().all(|p| weighted_len(p) <= 280));
}

#[test]
fn auto_split_long_paragraph_by_sentences() {
    let text = format!("short\n\n{}. {}.", "a".repeat(200), "b".repeat(200));
    let parts = auto_split(&text);
    assert_eq!(parts, vec!["short".to_string(), format!("{}.", "a".repeat(200)), format!("{}.", "b".repeat(200))]);
}

#[test]
fn validate_finds_first_heavy_chunk() {
    let chunks = vec!["ok".to_string(), "x".repeat(281), "y".repeat(300)];
    assert_eq!(validate_chunks(&chunks), Err((1, 281)));
    assert_eq!(validate_chunks(&vec!["fine".to_string()]), Ok(()));
}
