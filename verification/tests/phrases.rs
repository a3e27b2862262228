use tag_detector::similar::{
    extract_special_cases, find_similar, find_similar_in, maybe_special_case, phrase_catalog,
    PhraseEntry,
};
use tag_detector::tags::Threshold;

#[test]
fn test_maybe_special_case() {
    assert_eq!(maybe_special_case("ecommerce"), None);
    assert_eq!(maybe_special_case("екомммммерц"), None);
    assert_eq!(maybe_special_case("haaaalloooo"), None);

    assert_ne!(maybe_special_case("мmmм"), None);
    assert_ne!(maybe_special_case("оаoa"), None);
    assert_ne!(maybe_special_case("оооааа"), None);
    assert_ne!(maybe_special_case("string♂"), None);
}

#[test]
fn test_maybe_special_case_humming() {
    assert_eq!(maybe_special_case("mмm"), Some("Mmmmh"));
    assert_eq!(maybe_special_case("m"), None);
}

#[test]
fn test_extract_special_cases() {
    let words: Vec<String> = ["plain", "ммм", "word", "оао"]
        .iter()
        .map(|s| s.to_string())
        .collect();
    let found = extract_special_cases(&words);
    assert_eq!(found.len(), 2);
    assert_eq!(found[0], "Mmmmh");
    let screams = [
        "Orgasm 1",
        "Orgasm 2",
        "Orgasm 3",
        "Orgasm 4",
        "Orgasm 5",
        "Orgasm 6",
        "RIP EARS ORGASM",
    ];
    assert!(screams.contains(&found[1]));
}

#[test]
fn test_find_similar_special_case_wins() {
    let actual = find_similar("ну ооо поехали");
    // the scream token is answered before any catalog phrase
    let screams = [
        "Orgasm 1",
        "Orgasm 2",
        "Orgasm 3",
        "Orgasm 4",
        "Orgasm 5",
        "Orgasm 6",
        "RIP EARS ORGASM",
    ];
    let got = actual.expect("a special case must be answered");
    assert!(got == "Mmmmh" || screams.contains(&got.as_str()));
}

#[test]
fn test_find_similar_phrase_match() {
    let actual = find_similar("ну что погнали дальше");
    assert_eq!(actual, Some("come on lets go".to_string()));
}

#[test]
fn test_find_similar_no_match() {
    assert_eq!(find_similar("совершенно нейтральное предложение"), None);
    assert_eq!(find_similar(""), None);
}

#[test]
fn test_find_similar_in_picks_least_score() {
    let catalog = vec![
        PhraseEntry {
            id: "near".to_string(),
            tags: vec!["token".to_string()],
        },
        PhraseEntry {
            id: "far".to_string(),
            tags: vec!["tokkkkem".to_string()],
        },
    ];
    let tokens: Vec<String> = ["tokex"].iter().map(|s| s.to_string()).collect();
    // "token" is at 1/5 from "tokex"; "tokkkkem" is further away
    let actual = find_similar_in(&catalog, &tokens, &Threshold::new(26, 100));
    assert_eq!(actual, Some("near".to_string()));
}

#[test]
fn test_find_similar_in_empty_tokens() {
    let catalog = phrase_catalog();
    let actual = find_similar_in(&catalog, &Vec::new(), &Threshold::new(26, 100));
    assert_eq!(actual, None);
}
