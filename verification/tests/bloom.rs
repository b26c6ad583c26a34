use rpgrep::index::bloom::{
    candidates_archived, mix64, reduce_lemire, xor_contains_archived, ArchivableXor8, FileBloomIndex,
};
use rpgrep::text::unique_token_hashes;
use std::collections::HashSet;
use xorf::{Filter, Xor8};

fn build_synthetic_bloom(n: usize) -> (FileBloomIndex, Vec<(String, String)>) {
    let mut idx = FileBloomIndex::new();
    let mut catalog = Vec::with_capacity(n);
    for i in 0..n {
        let path = format!("synthetic_{i}.rs");
        let unique = format!("tok_unique_marker_{i:06}");
        let content = format!(
            "fn handler_{i}() {{\n    let common_shared_helper = {unique}();\n    do_work();\n}}\n"
        );
        idx.add_file(&path, &content);
        catalog.push((path, unique));
    }
    (idx, catalog)
}

#[test]
fn pre_screen_zero_false_negatives() {
    let mut idx = FileBloomIndex::new();
    idx.add_file("a.rs", "fn handle_connection() { do_thing(); }");
    idx.add_file("b.rs", "struct Config;");

    let cands = idx.candidates("handle_connection");
    assert!(cands.iter().any(|s| s == "a.rs"));
}

#[test]
fn archivable_round_trip_preserves_contains() {
    let mut idx = FileBloomIndex::new();
    idx.add_file("a.rs", "fn handle_connection() { do_thing(); }");
    idx.add_file("b.rs", "struct Config; fn make_thing() {}");

    let cands_before = idx.candidates("handle_connection");
    let archivable = idx.into_archivable();
    let idx2 = FileBloomIndex::from_archivable(archivable);
    let cands_after = idx2.candidates("handle_connection");
    assert_eq!(cands_before, cands_after);
    assert!(cands_after.iter().any(|s| s == "a.rs"));
}

#[test]
fn candidates_archived_matches_owned_for_diverse_queries() {
    let mut idx = FileBloomIndex::new();
    idx.add_file(
        "src/handler.rs",
        "pub fn handle_connection(request: Request, response: Response) -> Result<(), Error> { validate_user(&request); }",
    );
    idx.add_file(
        "src/auth.rs",
        "fn validate_user(req: &Request) -> bool { check_token(&req.token) }",
    );
    idx.add_file(
        "src/config.rs",
        "pub struct Config { pub host: String, pub port: u16 } impl Config { pub fn load() -> Self { todo!() } }",
    );
    idx.add_file("src/empty.rs", "// just a comment without enough alphanumerics ab cd");

    let archived = idx.to_archivable();
    let queries = [
        "handle_connection",
        "validate_user",
        "Config load",
        "nonexistent_token_xyz",
        "handle request",
        "ab",
        "",
        "request response validate",
    ];
    for q in queries {
        let mut owned: Vec<String> = idx.candidates(q);
        let mut arch: Vec<String> = candidates_archived(&archived, q);
        owned.sort();
        arch.sort();
        assert_eq!(owned, arch, "different candidates for {q:?}");
    }
}

#[test]
fn archived_xor_contains_matches_runtime() {
    let mut idx = FileBloomIndex::new();
    idx.add_file(
        "a.rs",
        "fn handle_connection(request, response) { do_thing(); validate_user(); }",
    );
    let archivable = idx.to_archivable();
    let xor = &idx.filters.iter().find(|e| e.path == "a.rs").unwrap().filter;

    let tokens: Vec<u64> = unique_token_hashes(
        "handle_connection request response do_thing validate_user struct missing",
    );
    let arch_xor = &archivable.iter().find(|e| e.path == "a.rs").unwrap().filter;
    for t in &tokens {
        assert_eq!(xor.contains(t), xor_contains_archived(arch_xor, *t), "token {t}");
    }
}

#[test]
fn stored_and_live_filters_agree_on_many_keys() {
    let keys: Vec<u64> = (0..5000u64).map(|i| i.wrapping_mul(0x9e37_79b9_7f4a_7c15)).collect();
    let live = Xor8::from(&keys);
    let stored = ArchivableXor8::from_xor8(live.clone());
    assert!((0..1000).all(|key| stored.can_look_up(key)));
    for k in &keys {
        assert!(xor_contains_archived(&stored, *k));
    }
    let mut positives = 0;
    for k in 0..20_000u64 {
        let answer = xor_contains_archived(&stored, k);
        assert_eq!(answer, live.contains(&k));
        if answer {
            positives += 1;
        }
    }
    assert!(positives < 400, "too many false positives: {positives}");
}

#[test]
fn plain_values_are_the_fields_of_the_filter() {
    let live = Xor8::from(&vec![1u64, 2, 3]);
    let stored = ArchivableXor8::from_xor8(live.clone());
    assert_eq!(stored.seed, live.seed);
    assert_eq!(stored.block_length, live.block_length as u64);
    assert_eq!(stored.fingerprints, live.fingerprints.to_vec());
    assert_eq!(stored.fingerprints.len(), 3 * live.block_length);
    let back = stored.into_xor8();
    assert_eq!(back.seed, live.seed);
    assert_eq!(back.block_length, live.block_length);
    assert_eq!(back.fingerprints, live.fingerprints);
}

#[test]
fn keys_beyond_a_filter_are_told() {
    let f = |block_length: u64, n: usize| ArchivableXor8 {
        seed: 0,
        block_length,
        fingerprints: vec![0; n],
    };
    let all = |filter: &ArchivableXor8| (0..2000).all(|key| filter.can_look_up(key));
    let none = |filter: &ArchivableXor8| (0..2000).all(|key| !filter.can_look_up(key));
    assert!(all(&f(1, 3)));
    assert!(all(&f(10, 31)));
    assert!(all(&f(0, 1)));
    assert!(none(&f(0, 0)));
    assert!(none(&f(1, 2)));
    assert!(none(&f(u64::MAX, 3)));
    assert!(none(&f(u32::MAX as u64 + 1, 3)));
    // Too short by one: the keys with the last place of the last block fail.
    let short = f(10, 29);
    assert!(!all(&short) && !none(&short));
    for key in 0..2000 {
        if short.can_look_up(key) {
            xor_contains_archived(&short, key);
        }
    }
}

#[test]
fn mixing_and_reducing_have_known_values() {
    assert_eq!(mix64(0), 0);
    assert_eq!(mix64(1), 0xb456_bcfc_34c2_cb2c);
    assert_eq!(reduce_lemire(0xffff_ffff, 10), 9);
    assert_eq!(reduce_lemire(0x8000_0000, 10), 5);
    assert_eq!(reduce_lemire(0xdead_beef_0000_0000, 10), 0);
    assert_eq!(reduce_lemire(u64::MAX, 0), 0);
}

#[test]
fn a_file_added_again_replaces_its_filter() {
    let mut idx = FileBloomIndex::new();
    assert!(idx.is_empty());
    idx.add_file("a.rs", "alpha beta gamma delta");
    idx.add_file("b.rs", "alpha");
    idx.add_file("a.rs", "omega");
    idx.add_file("c.rs", "ab cd");
    assert_eq!(idx.len(), 2);
    assert!(!idx.is_empty());
    assert!(idx.candidates("omega").contains(&"a.rs".to_string()));
    assert!(idx.candidates("alpha").contains(&"b.rs".to_string()));
    assert_eq!(idx.candidates("x"), vec!["a.rs", "b.rs"]);
}

#[test]
fn xor_filter_zero_false_negatives_on_random_corpus() {
    let (idx, catalog) = build_synthetic_bloom(1_000);
    assert_eq!(idx.len(), 1_000);
    for (path, unique_token) in &catalog {
        let cands = idx.candidates(unique_token);
        assert!(cands.contains(path), "`{unique_token}` does not lead to `{path}`");
    }
}

#[test]
fn empty_candidates_does_not_filter_all() {
    let (idx, _catalog) = build_synthetic_bloom(50);
    let total = idx.len();
    let cands: HashSet<_> = idx.candidates("a b c").into_iter().collect();
    assert_eq!(cands.len(), total);
    let cands_empty: HashSet<_> = idx.candidates("").into_iter().collect();
    assert_eq!(cands_empty.len(), total);
}
