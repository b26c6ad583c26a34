use rpgrep::text::{hash_token, split_lines, tokenize, unique_token_hashes, words};
use std::collections::hash_map::DefaultHasher;
use std::hash::{Hash, Hasher};

fn std_hash(s: &str) -> u64 {
    let mut h = DefaultHasher::new();
    s.hash(&mut h);
    h.finish()
}

#[test]
fn words_are_small_runs_of_three_characters() {
    assert_eq!(
        words("fn Handle_Connection(a1, ab, ABC) -> Ñu ñ日 x"),
        vec!["handle_connection", "abc"]
    );
    assert!(words("").is_empty());
    assert!(words("a b cd").is_empty());
    assert_eq!(words("___"), vec!["___"]);
    assert_eq!(words("one-two one"), vec!["one", "two", "one"]);
    // Only [A-Za-z0-9_] make words.
    assert!(words("año").is_empty());
    assert!(words("ÀÉ éé ñandú").iter().eq(["and"].iter()));
    assert_eq!(words("naïve_Word Z09_az"), vec!["ve_word", "z09_az"]);
}

#[test]
fn case_does_not_matter() {
    let text = "Alpha BETA_gamma Ñandu x2Y";
    assert_eq!(words(text), words(&text.to_ascii_lowercase()));
    assert_eq!(tokenize("ALPHA"), tokenize("alpha"));
    assert!(tokenize("año").is_empty());
}

#[test]
fn token_hashes_are_those_of_std() {
    for s in ["abc", "", "ñandú", "日本語"] {
        assert_eq!(hash_token(s), std_hash(s));
    }
    assert_eq!(
        tokenize("Alpha beta ALPHA of"),
        vec![std_hash("alpha"), std_hash("beta"), std_hash("alpha")]
    );
}

#[test]
fn unique_hashes_keep_first_places() {
    assert_eq!(
        unique_token_hashes("beta alpha beta gamma alpha"),
        vec![std_hash("beta"), std_hash("alpha"), std_hash("gamma")]
    );
}

#[test]
fn words_agree_with_splitting_by_std() {
    for s in ["a_b c-d_efg,h2o!", "x=y==zzz", "tab\tsep\nnew\r\nline", "٣٤٥ ⅷⅷ ǅǅ", "İİİ ΑΣ abcΣdef"] {
        let expected: Vec<String> = s
            .split(|c: char| !c.is_ascii_alphanumeric() && c != '_')
            .filter(|t| t.chars().count() >= 3)
            .map(|t| t.to_lowercase())
            .collect();
        assert_eq!(words(s), expected, "{s:?}");
    }
}

#[test]
fn lines_agree_with_std() {
    for s in ["", "\n", "a", "a\n", "a\r\n", "a\rb\n", "\r", "a\n\nb", "a\r\r\nb\r", "x\ny"] {
        let expected: Vec<&str> = s.lines().collect();
        assert_eq!(split_lines(s), expected, "{s:?}");
    }
}
