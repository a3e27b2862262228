use tag_detector::recognize::recognize_tag_in_tokens;
use tag_detector::tags::{Tag, TagKind, TagScope, Threshold};

fn token_tag(text: &str) -> Tag {
    Tag {
        text: text.to_string(),
        kind: TagKind::FuzzyCandidate,
        scope: TagScope::PerToken,
    }
}

fn text_tag(text: &str) -> Tag {
    Tag {
        text: text.to_string(),
        kind: TagKind::FuzzyCandidate,
        scope: TagScope::WholeMessage,
    }
}

fn regexp_token_tag(text: &str) -> Tag {
    Tag {
        text: text.to_string(),
        kind: TagKind::Exact,
        scope: TagScope::PerToken,
    }
}

fn regexp_text_tag(text: &str) -> Tag {
    Tag {
        text: text.to_string(),
        kind: TagKind::Exact,
        scope: TagScope::WholeMessage,
    }
}

fn words(source: &str) -> Vec<String> {
    source.split(' ').map(str::to_string).collect()
}

fn quarter() -> Threshold {
    Threshold::new(25, 100)
}

#[test]
fn similarity_test_valid_unicode_regexp_on_tokens() {
    let tags = vec![regexp_token_tag("^wrong$"), regexp_token_tag("^правильный$")];
    let source = "This is the правильный token";
    let actual = recognize_tag_in_tokens(source, &words(source), &tags, &quarter());
    assert_eq!(actual, Some("^правильный$".to_string()));
}

#[test]
fn similarity_test_invalid_regexp_on_tokens() {
    let tags = vec![regexp_token_tag("^[is+$"), regexp_token_tag("^right$")];
    let source = "This is the right token";
    let actual = recognize_tag_in_tokens(source, &words(source), &tags, &quarter());
    assert_eq!(actual, Some("^right$".to_string()));
}

#[test]
fn similarity_test_valid_unicode_regexp_on_tokens_case_insensitive() {
    let tags = vec![regexp_token_tag("^wrong$"), regexp_token_tag("^правильный$")];
    let source = "THIS IS THE ПРАВИЛЬНЫЙ TOKEN";
    let actual = recognize_tag_in_tokens(source, &words(source), &tags, &quarter());
    assert_eq!(actual, Some("^правильный$".to_string()));
}

#[test]
fn similarity_test_valid_unicode_ordinary_tag_on_tokens_case() {
    let tags = vec![token_tag("праильнй"), token_tag("si")];
    let source = "THIS IS THE ПРАВИЛЬНЫЙ TOKEN";
    let actual = recognize_tag_in_tokens(source, &words(source), &tags, &quarter());
    assert_eq!(actual, Some("праильнй".to_string()));
}

#[test]
fn similarity_test_no_tags_on_tokens_case() {
    let tags: Vec<Tag> = Vec::new();
    let source = "THIS IS THE ПРАВИЛЬНЫЙ TOKEN";
    let actual = recognize_tag_in_tokens(source, &words(source), &tags, &quarter());
    assert_eq!(actual, None);
}

#[test]
fn similarity_test_both_regexp_and_ordinary_tags_on_tokens_case() {
    let tags = vec![
        regexp_token_tag("^token$"),
        token_tag("this"),
        regexp_token_tag("^wrong$"),
        token_tag("is"),
    ];
    let source = "this is the right token";
    let actual = recognize_tag_in_tokens(source, &words(source), &tags, &quarter());
    assert_eq!(actual, Some("^token$".to_string()));
}

#[test]
fn text_regexp_token_and_text_tag() {
    let tags = vec![
        regexp_token_tag(".*"),
        // matches when every letter, including non-ASCII ones, is uppercase
        regexp_text_tag(r"^(?=(?:[^\p{Ll}]*[\p{Lu}]){2})[^\p{Ll}]+$"),
    ];
    let source = r#"АХАХАWERTE@$%!#$ТПОНЇЪ !!!!!4565655БЯЯЬTER!!!@$%%$##$"#;
    let actual = recognize_tag_in_tokens(source, &words(source), &tags, &quarter());
    assert_eq!(
        actual,
        Some(r"^(?=(?:[^\p{Ll}]*[\p{Lu}]){2})[^\p{Ll}]+$".to_string())
    );
}

#[test]
fn text_ordinary_token_and_text_tag() {
    let tags = vec![token_tag("token"), text_tag("this is the right tokee")];
    let source = "this is the right token";
    let actual = recognize_tag_in_tokens(source, &words(source), &tags, &quarter());
    assert_eq!(actual, Some("this is the right tokee".to_string()));
}

#[test]
fn test_threshold_boundary_accepts_exact_score() {
    // "abxd" vs token "abcd": distance 1/4, exactly the threshold
    let tags = vec![token_tag("abxd")];
    let source = "abcd";
    let on = recognize_tag_in_tokens(source, &words(source), &tags, &Threshold::new(25, 100));
    assert_eq!(on, Some("abxd".to_string()));
    let off = recognize_tag_in_tokens(source, &words(source), &tags, &Threshold::new(24, 100));
    assert_eq!(off, None);
}

#[test]
fn test_tied_scores_pick_within_group() {
    // both tags are at distance 1/5 from the token; either may be drawn
    let tags = vec![token_tag("tokex"), token_tag("tokey")];
    let source = "token";
    let actual = recognize_tag_in_tokens(source, &words(source), &tags, &quarter());
    assert!(
        actual == Some("tokex".to_string()) || actual == Some("tokey".to_string()),
        "unexpected pick: {:?}",
        actual
    );
}

#[test]
fn test_whole_message_fuzzy_silences_per_token() {
    // the per-token tag matches a token exactly, but a whole-message
    // fuzzy tag is accepted first and wins
    let tags = vec![token_tag("right"), text_tag("this is the right tokee")];
    let source = "this is the right token";
    let actual = recognize_tag_in_tokens(source, &words(source), &tags, &quarter());
    assert_eq!(actual, Some("this is the right tokee".to_string()));
}

#[test]
fn test_empty_tokens_no_fuzzy_match() {
    let tags = vec![token_tag("anything")];
    let actual = recognize_tag_in_tokens("", &Vec::new(), &tags, &quarter());
    assert_eq!(actual, None);
}
