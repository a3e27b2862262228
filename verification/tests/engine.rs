use tag_detector::distance::{score, score_le};
use tag_detector::tokenizer::{is_special, split_on_tokens, split_text};

fn frac(x: &str, y: &str) -> (usize, usize) {
    let s = score(x, y);
    (s.num, s.den)
}

#[test]
fn similarity_test_unicode_scoring() {
    // expected results as: number of modifications / max char count
    assert_eq!(frac("как", "кам"), (1, 3));
    assert_eq!(frac("мультикак", "как"), (6, 9));
    assert_eq!(frac("сума", "ура"), (2, 4));
    assert_eq!(frac("hhhhрррр", "hр"), (6, 8));
}

#[test]
fn mod_test_unicode_scoring() {
    assert_eq!(frac("как", "кам"), (1, 3));
    assert_eq!(frac("мультикам", "кам"), (6, 9));
    assert_eq!(frac("сука", "ура"), (2, 4));
    assert_eq!(frac("hhhhрррр", "hр"), (6, 8));
}

#[test]
fn test_score_empty_and_self() {
    assert_eq!(frac("", ""), (0, 1));
    assert_eq!(frac("abc", ""), (3, 3));
    assert_eq!(frac("abc", "abc"), (0, 3));
}

fn excl(v: &[&str]) -> Vec<String> {
    v.iter().map(|s| s.to_string()).collect()
}

#[test]
fn test_text_few_exclusion() {
    let actual = split_text(
        "some random text with exc1 custom exc2 exclusions",
        &excl(&["exc1", "exc2"]),
    );
    let expected = vec!["some", "random", "text", "with", "custom", "exclusions"];
    assert_eq!(actual, expected);
}

#[test]
fn test_text_few_exclusion_wrong_order() {
    let actual = split_text(
        "some random text with exc1 custom exc2 exclusions",
        &excl(&["exc2", "exc1"]),
    );
    // exc1 is omitted because exc2 was being looked for first
    let expected = vec!["some", "random", "text", "with", "exc1", "custom", "exclusions"];
    assert_eq!(actual, expected);
}

#[test]
fn test_text_no_exclusion() {
    let actual = split_text("some random text", &excl(&[]));
    let expected = vec!["some", "random", "text"];
    assert_eq!(actual, expected);
}

#[test]
fn test_no_text_no_exclusion() {
    let actual = split_text("", &excl(&[]));
    let expected = Vec::<String>::new();
    assert_eq!(actual, expected);
}

#[test]
fn test_no_text_few_exclusions() {
    let actual = split_text("", &excl(&["exc2", "exc1"]));
    let expected = Vec::<String>::new();
    assert_eq!(actual, expected);
}

#[test]
fn test_text_exclusion_at_the_end() {
    let actual = split_text("some random text exc2", &excl(&["exc2"]));
    let expected = vec!["some", "random", "text"];
    assert_eq!(actual, expected);
}

#[test]
fn test_split_on_tokens_lowercases() {
    let actual = split_on_tokens("THIS IS the Правильный Token");
    let expected = vec!["this", "is", "the", "правильный", "token"];
    assert_eq!(actual, expected);
}

#[test]
fn test_is_special() {
    assert!(is_special(' '));
    assert!(is_special('/'));
    assert!(is_special(':'));
    assert!(is_special('@'));
    assert!(is_special('`'));
    assert!(!is_special('a'));
    assert!(!is_special('я'));
}

#[test]
fn test_hyper_filter() {
    let f = tag_detector::logfilter::HyperFilter {};
    assert!(f.rejects("hyper::proto"));
    assert!(!f.rejects("myapp::hyper"));
    assert!(!f.rejects("hype"));
}

#[test]
fn test_threshold_and_score_compare() {
    let a = score("как", "кам"); // 1/3
    let b = score("сума", "ура"); // 2/4
    assert!(score_le(&a, &b));
    assert!(!score_le(&b, &a));
    let t = tag_detector::tags::Threshold::new(25, 100);
    assert_eq!(t.num, 25);
    assert_eq!(t.den, 100);
}
