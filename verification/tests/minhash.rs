use rpgrep::index::minhash::{archived_jaccard, MinHash, Ratio, DEFAULT_K};
use std::collections::hash_map::DefaultHasher;
use std::hash::{Hash, Hasher};

fn value(r: Ratio) -> f32 {
    r.num as f32 / r.den as f32
}

fn jaccard(a: &MinHash, b: &MinHash) -> f32 {
    value(a.jaccard(b))
}

#[test]
fn identical_text_yields_jaccard_one() {
    let a = MinHash::from_text("fn validate_input(user, payload) -> Result<()>");
    let b = MinHash::from_text("fn validate_input(user, payload) -> Result<()>");
    assert_eq!(jaccard(&a, &b), 1.0);
}

#[test]
fn disjoint_vocabularies_yield_low_jaccard() {
    let a = MinHash::from_text("alpha bravo charlie delta echo foxtrot");
    let b = MinHash::from_text("uniform victor whiskey xray yankee zulu");
    let j = jaccard(&a, &b);
    assert!(j < 0.05, "expected about 0, got {j}");
}

#[test]
fn jaccard_decreases_when_adding_disjoint_tokens() {
    let base = "alpha bravo charlie delta";
    let a = MinHash::from_text(base);
    let b1 = MinHash::from_text(&format!("{base} echo"));
    let b2 = MinHash::from_text(&format!("{base} echo foxtrot golf hotel india juliet"));
    let j1 = jaccard(&a, &b1);
    let j2 = jaccard(&a, &b2);
    assert!(j1 >= j2, "added tokens must not raise the estimate: j1={j1} j2={j2}");
}

#[test]
fn empty_text_signature_yields_zero_jaccard() {
    let a = MinHash::from_text("");
    let b = MinHash::from_text("");
    assert_eq!(jaccard(&a, &b), 0.0);

    let c = MinHash::from_text("alpha bravo");
    assert_eq!(jaccard(&a, &c), 0.0);
}

#[test]
fn signature_is_deterministic() {
    let a = MinHash::from_text("handle_connection request response config");
    let b = MinHash::from_text("handle_connection request response config");
    assert_eq!(a.sig, b.sig);
}

#[test]
fn jaccard_estimator_within_expected_error() {
    let a_tokens = "alpha bravo charlie delta echo foxtrot golf hotel india juliet";
    let b_tokens = "alpha bravo charlie delta echo papa quebec romeo sierra tango";
    let a = MinHash::from_text(a_tokens);
    let b = MinHash::from_text(b_tokens);
    let est = jaccard(&a, &b);
    let real = 5.0_f32 / 15.0;
    let sigma = (real * (1.0 - real) / DEFAULT_K as f32).sqrt();
    assert!(
        (est - real).abs() < 3.0 * sigma + 0.05,
        "estimate {est} too far from {real}, sigma {sigma}"
    );
}

#[test]
fn custom_k_smaller_signature() {
    let a = MinHash::from_text_with_k("alpha bravo charlie", 32);
    assert_eq!(a.k(), 32);
}

#[test]
fn archived_jaccard_matches_owned() {
    let pairs = [
        ("alpha bravo charlie", "alpha bravo charlie"),
        ("alpha bravo", "uniform victor whiskey"),
        ("", "alpha bravo"),
        ("", ""),
        ("alpha bravo charlie delta echo foxtrot", "alpha bravo papa quebec"),
    ];
    for (a_text, b_text) in pairs {
        let a = MinHash::from_text(a_text);
        let b = MinHash::from_text(b_text);
        let owned = jaccard(&a, &b);
        let archived = value(archived_jaccard(&a.clone(), &b.clone()));
        assert!((owned - archived).abs() < 1e-6, "{owned} and {archived} differ");
    }
}

#[test]
fn signature_holds_the_least_seeded_hash() {
    let a = MinHash::from_text_with_k("Alpha beta_2 of alpha", 5);
    for (i, v) in a.sig.iter().enumerate() {
        let least = ["alpha", "beta_2"]
            .iter()
            .map(|t| {
                let mut h = DefaultHasher::new();
                (i as u64).hash(&mut h);
                t.hash(&mut h);
                h.finish()
            })
            .min()
            .unwrap();
        assert_eq!(*v, least);
    }
}

#[test]
fn signature_ignores_order_and_repetition() {
    let a = MinHash::from_text("one two three one");
    let b = MinHash::from_text("three two one");
    assert_eq!(a.sig, b.sig);
    assert_eq!(a.jaccard(&b), Ratio { num: DEFAULT_K, den: DEFAULT_K });
}

#[test]
fn estimate_is_symmetric_and_uses_the_shorter_signature() {
    let a = MinHash::from_text_with_k("alpha bravo", 8);
    let b = MinHash::from_text_with_k("alpha bravo charlie", 16);
    assert_eq!(a.jaccard(&b), b.jaccard(&a));
    assert_eq!(a.jaccard(&b).den, 8);
    let none = MinHash { sig: vec![] };
    assert_eq!(a.jaccard(&none), Ratio { num: 0, den: 1 });
    assert_eq!(none.k(), 0);
}

#[test]
fn short_words_leave_no_trace() {
    assert_eq!(MinHash::from_text_with_k("éé", 1).sig, vec![u64::MAX]);
    assert_eq!(MinHash::from_text_with_k("ab cd", 3).sig, vec![u64::MAX; 3]);
    assert_ne!(MinHash::from_text_with_k("abc", 1).sig, vec![u64::MAX]);
}
