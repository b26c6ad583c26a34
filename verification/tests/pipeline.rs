use rand::rngs::StdRng;
use rand_distr::{Distribution, Uniform};
use rpgrep::chunk::Chunk;
use rpgrep::index::bloom::{xor_contains_archived, ArchivableXor8, FileBloomIndex, StoredFilter};
use rpgrep::index::bm25::{Bm25Index, ScoreTerms};
use rpgrep::index::minhash::{MinHash, Ratio};
use rpgrep::index::store::{IndexStore, Payload};
use rpgrep::search::pipeline::{Formulas, SearchPipeline, SearchResult};
use rpgrep::search::qubo::{EnergyTerms, SimulatedAnnealer};
use rpgrep::serve::{
    default_budget, default_socket_path, default_topk, respond, Incoming, Reply, Request,
};
use rpgrep::single::Single;

fn single(v: f32) -> Single {
    Single { bits: v.to_bits() }
}

fn value(s: Single) -> f32 {
    f32::from_bits(s.bits)
}

fn mean(total: u128, n: u32) -> Single {
    single(total as f32 / n as f32)
}

fn weigh(t: &ScoreTerms) -> Single {
    let avgdl = value(t.avg_doc_len).max(1.0);
    let norm = 0.25 + 0.75 * (t.doc_len as f32 / avgdl);
    let mut score = 0.0_f32;
    for term in &t.terms {
        let (tf, df) = (term.tf as f32, term.df as f32);
        let idf = ((t.n_docs as f32 - df + 0.5) / (df + 0.5) + 1.0).ln();
        score += idf * (tf * 2.5) / (tf + 1.5 * norm);
    }
    single(score)
}

fn scale(s: Single, max: Single) -> Single {
    single(value(s) / value(max))
}

fn evaluate(t: &EnergyTerms) -> Single {
    let mut e: f32 = 0.0;
    for r in &t.relevance {
        e -= value(*r);
    }
    for s in &t.similarity {
        e += value(t.lambda) * value(*s);
    }
    let overflow = t.overflow as f32;
    single(e + value(t.mu) * overflow * overflow)
}

fn share(r: Ratio) -> Single {
    single(r.num as f32 / r.den as f32)
}

fn cool(annealer: SimulatedAnnealer, temp: Single) -> Single {
    let ratio = value(annealer.final_temp) / value(annealer.initial_temp);
    single(value(temp) * ratio.powf(1.0 / annealer.steps.max(1) as f32))
}

fn accept(mut rng: StdRng, new: Single, cur: Single, temp: Single) -> (StdRng, bool) {
    let uniform = Uniform::new(0.0_f32, 1.0_f32).unwrap();
    let taken = uniform.sample(&mut rng) < (-(value(new) - value(cur)) / value(temp)).exp();
    (rng, taken)
}

type F = Formulas<
    fn(&ScoreTerms) -> Single,
    fn(Single, Single) -> Single,
    fn(Ratio) -> Single,
    fn(&EnergyTerms) -> Single,
    fn(SimulatedAnnealer, Single) -> Single,
    fn(StdRng, Single, Single, Single) -> (StdRng, bool),
>;

fn formulas() -> F {
    Formulas { weigh, scale, share, evaluate, cool, accept }
}

fn store_of(files: &[(&str, &str)]) -> IndexStore {
    let mut chunks: Vec<Chunk> = Vec::new();
    let mut bloom = FileBloomIndex::new();
    for (i, (file, text)) in files.iter().enumerate() {
        bloom.add_file(file, text);
        chunks.push(Chunk {
            id: i as u64,
            file: file.to_string(),
            start_line: 1,
            end_line: 3,
            text: text.to_string(),
        });
    }
    let bm25 = Bm25Index::build(&chunks, &mean);
    let minhash = chunks.iter().map(|c| (c.id, MinHash::from_text(&c.text))).collect();
    IndexStore { chunks, bloom, bm25, minhash }
}

fn build_store() -> IndexStore {
    store_of(&[
        (
            "auth.rs",
            "fn authenticate(session: Session, token: Token) -> bool {\n    verify(session, token)\n}\n",
        ),
        (
            "render.rs",
            "fn draw(frame: Frame, pixels: Buffer) {\n    blit(frame, pixels);\n}\n",
        ),
        (
            "session.rs",
            "fn open_session(token: Token) -> Session {\n    Session::new(token)\n}\n",
        ),
    ])
}

fn set(files: &[&str]) -> Vec<String> {
    files.iter().map(|s| s.to_string()).collect()
}

fn select(p: &SearchPipeline, query: &str, files: &Vec<String>) -> Vec<SearchResult> {
    p.select(query, 4000, 50, files, &formulas()).unwrap()
}

const QUERY: &str = "authenticate session token";

#[test]
fn select_only_returns_files_in_set() {
    let pipeline = SearchPipeline::from_store(build_store());
    let files = set(&["auth.rs"]);
    let results = select(&pipeline, QUERY, &files);
    assert!(!results.is_empty());
    for r in &results {
        assert!(files.contains(&r.chunk.file), "outside the set: {}", r.chunk.file);
    }
}

#[test]
fn select_empty_set_returns_empty() {
    let pipeline = SearchPipeline::from_store(build_store());
    let results = select(&pipeline, QUERY, &vec![]);
    assert!(results.is_empty());
}

#[test]
fn select_never_returns_files_outside_set() {
    let pipeline = SearchPipeline::from_store(build_store());
    let files = set(&["auth.rs", "session.rs"]);
    let results = select(&pipeline, QUERY, &files);
    for r in &results {
        assert_ne!(r.chunk.file, "render.rs");
        assert!(files.contains(&r.chunk.file));
    }
}

#[test]
fn unknown_files_are_passed_over() {
    let pipeline = SearchPipeline::from_store(build_store());
    assert!(select(&pipeline, QUERY, &set(&["nowhere.rs"])).is_empty());
    let results = select(&pipeline, QUERY, &set(&["nowhere.rs", "auth.rs", "auth.rs"]));
    assert_eq!(results.len(), 1);
    assert_eq!(results[0].chunk.file, "auth.rs");
}

#[test]
fn the_best_result_has_score_one_and_scores_fall() {
    let pipeline = SearchPipeline::from_store(build_store());
    let results = pipeline.search(QUERY, 4000, 50, &formulas()).unwrap();
    assert!(!results.is_empty());
    assert_eq!(value(results[0].score), 1.0);
    assert_eq!(results[0].chunk.file, "auth.rs");
    for w in results.windows(2) {
        assert!(value(w[0].score) >= value(w[1].score));
    }
    assert!(results.iter().all(|r| r.chunk.file != "render.rs"));
}

#[test]
fn the_same_query_gets_the_same_answer() {
    let a = SearchPipeline::from_store(build_store());
    let b = SearchPipeline::try_from_store(build_store()).unwrap();
    for q in [QUERY, "frame pixels", "token", "nothing_at_all", "", "ab"] {
        let x = a.search(q, 4000, 50, &formulas()).unwrap();
        let y = b.search(q, 4000, 50, &formulas()).unwrap();
        let show = |r: &Vec<SearchResult>| -> Vec<(u64, u32)> {
            r.iter().map(|h| (h.chunk.id, h.score.bits)).collect()
        };
        assert_eq!(show(&x), show(&y), "{q:?}");
    }
}

#[test]
fn queries_without_tokens_or_matches_find_nothing() {
    let pipeline = SearchPipeline::from_store(build_store());
    for q in ["", "a b c", "zzz_unknown_zzz"] {
        assert!(pipeline.search(q, 4000, 50, &formulas()).unwrap().is_empty(), "{q:?}");
    }
}

#[test]
fn redundant_chunks_are_thinned_out() {
    let same = "fn parse_header(bytes: Input) -> Header { header_from(bytes) }";
    let pipeline = SearchPipeline::from_store(store_of(&[
        ("a.rs", same),
        ("b.rs", same),
        ("c.rs", same),
        ("d.rs", "fn parse_header_fast() { unrolled(); parse_header(); table_lookup() }"),
        ("e.rs", "struct Unrelated { field: u8 }"),
    ]));
    let all = pipeline.search("parse_header", 4000, 50, &formulas()).unwrap();
    assert!(all.iter().any(|r| r.chunk.file == "d.rs"));
    assert!(all.iter().all(|r| r.chunk.file != "e.rs"));
    // Taking a second or a third copy costs half a point each time.
    let copies = all.iter().filter(|r| r.chunk.text == same).count();
    assert!(copies <= 2, "{copies} copies of one text");
}

#[test]
fn a_small_budget_keeps_the_answer_small() {
    let body = "fn worker() { shared_token(); } ".repeat(200);
    let files: Vec<(String, String)> =
        (0..12).map(|i| (format!("f{i}.rs"), format!("{body} unique_{i}"))).collect();
    let refs: Vec<(&str, &str)> = files.iter().map(|(a, b)| (a.as_str(), b.as_str())).collect();
    let pipeline = SearchPipeline::from_store(store_of(&refs));
    let small = pipeline.search("shared_token", 1700, 50, &formulas()).unwrap();
    assert_eq!(small.len(), 1, "one chunk takes about 1600 tokens");
}

#[test]
fn no_more_results_than_asked_for_but_at_least_ten_compete() {
    let files: Vec<(String, String)> = (0..30)
        .map(|i| (format!("f{i}.rs"), format!("common_word filler_{i} extra_{i} more_{i} rest_{i}")))
        .collect();
    let refs: Vec<(&str, &str)> = files.iter().map(|(a, b)| (a.as_str(), b.as_str())).collect();
    let pipeline = SearchPipeline::from_store(store_of(&refs));
    let few = pipeline.search("common_word", 100_000, 1, &formulas()).unwrap();
    assert!(few.len() <= 10);
    let many = pipeline.search("common_word", 100_000, 20, &formulas()).unwrap();
    assert!(many.len() <= 20);
}

#[test]
fn the_last_chunk_counts_where_identifiers_clash() {
    let mut store = store_of(&[("a.rs", "alpha beta gamma"), ("b.rs", "alpha beta gamma delta")]);
    store.chunks[1].id = 0;
    let pipeline = SearchPipeline::from_store(store);
    let results = select(&pipeline, "alpha", &set(&["a.rs"]));
    assert_eq!(results.len(), 1);
    assert_eq!(results[0].chunk.file, "b.rs");
}

#[test]
fn missing_signatures_are_no_redundancy() {
    let text = "fn twin_function(argument: Kind) -> Kind { argument }";
    let mut store = store_of(&[("a.rs", text), ("b.rs", text)]);
    store.minhash.clear();
    let pipeline = SearchPipeline::from_store(store);
    assert_eq!(pipeline.search("twin_function", 4000, 50, &formulas()).unwrap().len(), 2);
}

#[test]
fn queries_that_stay_within_the_filters_are_answered() {
    let store = build_store();
    let mut payload = store.to_payload();
    payload.bloom_filters.push(StoredFilter {
        path: "bad.rs".to_string(),
        filter: ArchivableXor8 { seed: 1, block_length: 10, fingerprints: vec![0; 5] },
    });
    let pipeline = SearchPipeline::from_payload(payload);
    assert!(!pipeline.can_answer(QUERY));
    assert!(pipeline.can_answer("a b"));
    assert!(pipeline.search("a b", 4000, 50, &formulas()).unwrap().is_empty());
    assert!(!select(&pipeline, QUERY, &set(&["auth.rs"])).is_empty());
    let empty = Payload {
        chunks: vec![],
        bloom_filters: vec![],
        bm25: Bm25Index::new(),
        minhash: Default::default(),
    };
    let pipeline = SearchPipeline::from_payload(empty);
    assert!(pipeline.can_answer("alpha"));
    assert!(pipeline.search("alpha", 1, 1, &formulas()).unwrap().is_empty());
}

#[test]
fn a_loaded_file_answers_alike() {
    let store = build_store();
    let bytes = store.to_file_bytes().unwrap();
    let loaded = SearchPipeline::from_file_bytes(&bytes).unwrap();
    let fresh = SearchPipeline::from_store(store);
    for query in [QUERY, "a b", "auth token", "nothing_of_the_kind"] {
        assert!(loaded.can_answer(query));
        let a = loaded.search(query, 4000, 50, &formulas()).unwrap();
        let b = fresh.search(query, 4000, 50, &formulas()).unwrap();
        assert_eq!(a.len(), b.len());
        for (x, y) in a.iter().zip(b.iter()) {
            assert_eq!((x.chunk.id, &x.chunk.text, x.score), (y.chunk.id, &y.chunk.text, y.score));
        }
    }
}

#[test]
fn keys_behind_a_hit_are_not_looked_up() {
    let mut payload = build_store().to_payload();
    // Some key within these three fingerprints is held, some other is out of them.
    let filter = ArchivableXor8 { seed: 7, block_length: 10, fingerprints: vec![0; 29] };
    payload.bloom_filters = vec![StoredFilter { path: "odd.rs".to_string(), filter }];
    let words: Vec<String> = (0..4000).map(|i| format!("word_{i}")).collect();
    let filter = &payload.bloom_filters[0].filter;
    let held = words.iter().find(|w| {
        let k = rpgrep::text::hash_token(w);
        filter.can_look_up(k) && xor_contains_archived(filter, k)
    });
    let out = words.iter().find(|w| !filter.can_look_up(rpgrep::text::hash_token(w)));
    let (held, out) = (held.unwrap().clone(), out.unwrap().clone());
    let pipeline = SearchPipeline::from_payload(payload);
    assert!(pipeline.can_answer(&format!("{held} {out}")));
    assert!(!pipeline.can_answer(&format!("{out} {held}")));
    pipeline.search(&format!("{held} {out}"), 4000, 50, &formulas()).unwrap();
}

#[test]
fn a_connection_is_answered() {
    let pipeline = SearchPipeline::from_store(build_store());
    let f = formulas();
    assert!(respond(&pipeline, Incoming::Nothing, &f).is_none());
    match respond(&pipeline, Incoming::Malformed("EOF".to_string()), &f) {
        Some(Reply::Error(msg)) => assert_eq!(msg, "JSON inválido: EOF"),
        other => panic!("{other:?}"),
    }
    let request = Request {
        query: QUERY.to_string(),
        budget: default_budget(),
        topk: default_topk(),
    };
    match respond(&pipeline, Incoming::Query(request), &f) {
        Some(Reply::Results(hits)) => {
            let expected = pipeline.search(QUERY, 4000, 50, &f).unwrap();
            assert_eq!(hits.len(), expected.len());
            for (h, r) in hits.iter().zip(expected.iter()) {
                assert_eq!(h.file, r.chunk.file);
                assert_eq!((h.start_line, h.end_line), (1, 3));
                assert_eq!(h.score, r.score);
                assert_eq!(h.text, r.chunk.text);
            }
        }
        other => panic!("{other:?}"),
    }
}

#[test]
fn defaults_of_the_server() {
    assert_eq!(default_budget(), 4000);
    assert_eq!(default_topk(), 50);
    assert_eq!(default_socket_path(".rpgrep"), ".rpgrep/rpgrep.sock");
    assert_eq!(default_socket_path("/var/idx/"), "/var/idx/rpgrep.sock");
    assert_eq!(default_socket_path(""), "rpgrep.sock");
}

#[test]
fn a_search_is_a_query_over_its_candidates() {
    let store = build_store();
    let files = store.bloom.candidates(QUERY);
    assert!(!files.is_empty() && files.len() < 3);
    let pipeline = SearchPipeline::from_store(store);
    let searched = pipeline.search(QUERY, 4000, 50, &formulas()).unwrap();
    let selected = select(&pipeline, QUERY, &files);
    assert_eq!(searched.len(), selected.len());
    for (a, b) in searched.iter().zip(selected.iter()) {
        assert_eq!((a.chunk.id, a.score), (b.chunk.id, b.score));
    }
}

#[test]
fn the_screening_loses_nothing() {
    let pipeline = SearchPipeline::from_store(build_store());
    let all = set(&["auth.rs", "render.rs", "session.rs", "absent.rs"]);
    for q in [QUERY, "frame pixels", "TOKEN", "nothing_at_all", ""] {
        let searched = pipeline.search(q, 4000, 50, &formulas()).unwrap();
        let selected = select(&pipeline, q, &all);
        assert_eq!(searched.len(), selected.len(), "{q:?}");
        for (a, b) in searched.iter().zip(selected.iter()) {
            assert_eq!((a.chunk.id, a.score), (b.chunk.id, b.score));
        }
    }
}

#[test]
fn scores_are_shares_and_no_chunk_comes_twice() {
    let pipeline = SearchPipeline::from_store(build_store());
    let results = pipeline.search("session token frame", 100_000, 50, &formulas()).unwrap();
    let mut ids: Vec<u64> = results.iter().map(|r| r.chunk.id).collect();
    ids.sort();
    ids.dedup();
    assert_eq!(ids.len(), results.len());
    for r in &results {
        assert!(value(r.score) > 0.0 && value(r.score) <= 1.0);
    }
}

#[test]
fn a_filter_in_which_every_key_can_be_looked_up_is_accepted() {
    let mut payload = build_store().to_payload();
    payload.bloom_filters.push(StoredFilter {
        path: "odd.rs".to_string(),
        filter: ArchivableXor8 { seed: 1, block_length: 0, fingerprints: vec![7] },
    });
    let pipeline = SearchPipeline::from_payload(payload);
    assert!(pipeline.can_answer(QUERY));
    assert!(!pipeline.search(QUERY, 4000, 50, &formulas()).unwrap().is_empty());
}

#[test]
fn a_loaded_index_answers_as_before() {
    let a = SearchPipeline::from_store(build_store());
    let b = SearchPipeline::from_payload(build_store().to_payload());
    let x = a.search(QUERY, 4000, 50, &formulas()).unwrap();
    let y = b.search(QUERY, 4000, 50, &formulas()).unwrap();
    assert_eq!(x.len(), y.len());
    for (r, s) in x.iter().zip(y.iter()) {
        assert_eq!((r.chunk.id, r.score), (s.chunk.id, s.score));
    }
}
