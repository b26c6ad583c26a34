use rpgrep::chunk::Chunk;
use rpgrep::index::bm25::{
    best_pairs, score_archived, top_n_archived, Bm25Index, ScoreTerms, TermStat,
};
use rpgrep::single::Single;
use rpgrep::text::hash_token;

const K1: f32 = 1.5;
const B: f32 = 0.75;

fn single(v: f32) -> Single {
    Single { bits: v.to_bits() }
}

fn value(s: Single) -> f32 {
    f32::from_bits(s.bits)
}

fn mean(total: u128, n: u32) -> Single {
    single(total as f32 / n as f32)
}

fn weigh(t: &ScoreTerms) -> Single {
    let avgdl = value(t.avg_doc_len).max(1.0);
    let norm = 1.0 - B + B * (t.doc_len as f32 / avgdl);
    let mut score = 0.0_f32;
    for term in &t.terms {
        let (tf, df) = (term.tf as f32, term.df as f32);
        let idf = ((t.n_docs as f32 - df + 0.5) / (df + 0.5) + 1.0).ln();
        score += idf * (tf * (K1 + 1.0)) / (tf + K1 * norm);
    }
    single(score)
}

fn build(chunks: &[Chunk]) -> Bm25Index {
    Bm25Index::build(&chunks.to_vec(), &mean)
}

fn score(idx: &Bm25Index, query: &str, id: u64) -> f32 {
    value(idx.score(query, id, &weigh))
}

fn top_n(idx: &Bm25Index, query: &str, candidates: &[u64], n: usize) -> Vec<(u64, f32)> {
    idx.top_n(query, &candidates.to_vec(), n, &weigh)
        .into_iter()
        .map(|(id, s)| (id, value(s)))
        .collect()
}

fn make_chunk(id: u64, text: &str) -> Chunk {
    Chunk {
        id,
        file: format!("c{id}.rs"),
        start_line: 1,
        end_line: 1,
        text: text.to_string(),
    }
}

#[test]
fn empty_index_returns_zero_and_no_topn() {
    let idx = Bm25Index::new();
    assert_eq!(score(&idx, "anything", 42), 0.0);
    assert!(top_n(&idx, "anything", &[], 10).is_empty());
}

#[test]
fn score_zero_when_no_query_term_in_chunk() {
    let idx = build(&[
        make_chunk(1, "validate user input checker"),
        make_chunk(2, "render html template engine"),
    ]);
    assert_eq!(score(&idx, "rocket science", 1), 0.0);
}

#[test]
fn score_positive_when_token_overlaps() {
    let idx = build(&[
        make_chunk(1, "validate user input checker"),
        make_chunk(2, "render html template engine"),
    ]);
    assert!(score(&idx, "validate input", 1) > 0.0);
    assert_eq!(score(&idx, "validate input", 2), 0.0);
}

#[test]
fn idf_rewards_rare_terms_over_common_ones() {
    let chunks: Vec<Chunk> = (0..10)
        .map(|i| {
            if i == 0 {
                make_chunk(0, "rare common common common")
            } else {
                make_chunk(i as u64, "common common common")
            }
        })
        .collect();
    let idx = build(&chunks);
    let s_rare = score(&idx, "rare", 0);
    let s_common = score(&idx, "common", 0);
    assert!(s_rare > s_common, "rare={s_rare} common={s_common}");
}

#[test]
fn longer_doc_penalized_for_same_absolute_tf() {
    let short = make_chunk(1, "validate validate validate");
    let mut long_text = String::from("validate validate validate ");
    for i in 0..40 {
        long_text.push_str(&format!("filler_{i} "));
    }
    let long = make_chunk(2, &long_text);
    let idx = build(&[short, long]);
    assert!(score(&idx, "validate", 1) > score(&idx, "validate", 2));
}

#[test]
fn top_n_sorted_descending_and_truncated() {
    let idx = build(&[
        make_chunk(10, "alpha beta gamma"),
        make_chunk(20, "alpha alpha beta"),
        make_chunk(30, "alpha alpha alpha"),
        make_chunk(40, "delta epsilon"),
    ]);
    let top = top_n(&idx, "alpha", &[], 2);
    assert_eq!(top.len(), 2);
    assert!(top[0].1 >= top[1].1);
    assert_eq!(top[0].0, 30);
}

#[test]
fn top_n_respects_candidate_filter() {
    let idx = build(&[
        make_chunk(1, "alpha alpha"),
        make_chunk(2, "alpha"),
        make_chunk(3, "alpha alpha alpha"),
    ]);
    let top = top_n(&idx, "alpha", &[2], 10);
    assert_eq!(top.len(), 1);
    assert_eq!(top[0].0, 2);
}

#[test]
fn archived_top_n_matches_owned() {
    let idx = build(&[
        make_chunk(10, "alpha beta gamma"),
        make_chunk(20, "alpha alpha beta"),
        make_chunk(30, "alpha alpha alpha"),
        make_chunk(40, "delta epsilon"),
    ]);
    let arch = idx.clone();

    let owned_empty = top_n(&idx, "alpha", &[], 3);
    let arch_empty = top_n_archived(&arch, "alpha", &vec![], 3, &weigh);
    assert_eq!(owned_empty.len(), arch_empty.len());
    for (a, b) in owned_empty.iter().zip(arch_empty.iter()) {
        assert_eq!(a.0, b.0);
        assert!((a.1 - value(b.1)).abs() < 1e-6);
    }

    let queries_and_candidates: Vec<(&str, Vec<u64>)> = vec![
        ("alpha", vec![10, 20, 30, 40]),
        ("alpha", vec![40, 30, 20, 10]),
        ("alpha", vec![10, 30]),
        ("alpha beta", vec![10, 20, 30, 40]),
        ("nonexistent_token", vec![10, 20, 30, 40]),
        ("alpha", vec![999, 40, 10]),
    ];
    for (q, cands) in queries_and_candidates {
        let owned = top_n(&idx, q, &cands, 10);
        let arch = top_n_archived(&arch, q, &cands, 10, &weigh);
        assert_eq!(owned.len(), arch.len(), "q={q:?} cands={cands:?}");
        for (a, b) in owned.iter().zip(arch.iter()) {
            assert_eq!(a.0, b.0);
            assert!((a.1 - value(b.1)).abs() < 1e-6);
        }
    }
}

#[test]
fn rebuild_is_deterministic() {
    let chunks = vec![
        make_chunk(1, "fn handle_connection request response"),
        make_chunk(2, "struct Config name path"),
        make_chunk(3, "impl handler for connection"),
    ];
    let a = build(&chunks);
    let b = build(&chunks);
    for c in &chunks {
        assert_eq!(
            score(&a, "handle connection", c.id).to_bits(),
            score(&b, "handle connection", c.id).to_bits()
        );
        assert_eq!(
            score_archived(&a, "handle connection", c.id, &weigh),
            a.score("handle connection", c.id, &weigh)
        );
    }
}

#[test]
fn statistics_count_tokens_and_chunks() {
    let idx = build(&[
        make_chunk(1, "Alpha beta alpha of"),
        make_chunk(2, "beta"),
        make_chunk(3, "a b"),
    ]);
    let (alpha, beta) = (hash_token("alpha"), hash_token("beta"));
    assert_eq!(idx.n_docs, 2);
    assert_eq!(idx.doc_len.len(), 2);
    assert_eq!(idx.doc_len[&1], 3);
    assert_eq!(idx.doc_len[&2], 1);
    assert_eq!(idx.term_freq[&1][&alpha], 2);
    assert_eq!(idx.term_freq[&1][&beta], 1);
    assert_eq!(idx.doc_freq[&alpha], 1);
    assert_eq!(idx.doc_freq[&beta], 2);
    assert_eq!(idx.doc_freq.len(), 2);
    assert_eq!(value(idx.avg_doc_len), 2.0);
}

#[test]
fn a_chunk_added_again_counts_once() {
    let mut idx = Bm25Index::new();
    let c = make_chunk(1, "alpha");
    idx.add_chunk(&c);
    idx.add_chunk(&c);
    assert_eq!(idx.doc_freq[&hash_token("alpha")], 1);
    assert_eq!(idx.n_docs, 1);
    assert_eq!(idx.doc_len.len(), 1);
}

#[test]
fn a_chunk_added_again_takes_the_place_of_the_earlier_one() {
    let mut idx = Bm25Index::new();
    idx.add_chunk(&make_chunk(7, "alpha beta"));
    idx.add_chunk(&make_chunk(8, "alpha delta"));
    idx.add_chunk(&make_chunk(7, "alpha gamma gamma"));
    idx.finalize(&mean);
    assert_eq!(idx.n_docs, 2);
    assert_eq!(idx.doc_freq[&hash_token("alpha")], 2);
    assert_eq!(idx.doc_freq[&hash_token("gamma")], 1);
    assert!(!idx.doc_freq.contains_key(&hash_token("beta")));
    assert_eq!(idx.doc_len[&7], 3);
    assert_eq!(idx.term_freq[&7].len(), 2);
    assert_eq!(value(idx.avg_doc_len), 2.5);
    // Without tokens nothing changes.
    let before = idx.clone();
    idx.add_chunk(&make_chunk(7, "a b c"));
    assert_eq!(idx.doc_freq, before.doc_freq);
    assert_eq!(idx.term_freq, before.term_freq);
    let mut none = Bm25Index::new();
    none.finalize(&mean);
    assert_eq!(none.avg_doc_len.bits, 0);
}

#[test]
fn an_index_fits_together() {
    let chunks = vec![
        make_chunk(1, "alpha beta alpha"),
        make_chunk(2, "ab"),
        make_chunk(3, "beta gamma"),
    ];
    let idx = Bm25Index::build(&chunks, &mean);
    assert_eq!(idx.n_docs as usize, idx.doc_len.len());
    assert_eq!(idx.doc_len.len(), 2);
    assert!(!idx.term_freq.contains_key(&2));
    for (id, tf) in &idx.term_freq {
        assert_eq!(idx.doc_len[id], tf.values().sum::<u32>());
    }
    for (t, n) in &idx.doc_freq {
        let holding = idx.term_freq.values().filter(|tf| tf.contains_key(t)).count();
        assert_eq!(*n as usize, holding);
    }
}

#[test]
fn what_is_not_a_number_is_neither_less_nor_greater() {
    let nan = Single { bits: 0xFFC0_0000 };
    for s in [single(0.0), single(-1.0), single(f32::NEG_INFINITY), single(f32::INFINITY), nan, single(f32::NAN)] {
        assert!(!nan.less_than(s) && !s.less_than(nan));
    }
    assert_eq!(nan.max(single(1.0)), single(1.0));
    assert_eq!(single(1.0).max(nan), single(1.0));
    assert!(!nan.is_positive() && !single(f32::NAN).is_positive());
    assert!(single(f32::NEG_INFINITY).less_than(single(-1.0)));
}

#[test]
fn terms_are_those_of_the_query_that_the_chunk_holds() {
    let idx = build(&[
        make_chunk(1, "alpha beta alpha"),
        make_chunk(2, "beta gamma"),
    ]);
    let t = idx.score_terms("gamma beta BETA alpha missing", 1).unwrap();
    assert_eq!(t.terms, vec![TermStat { tf: 1, df: 2 }, TermStat { tf: 2, df: 1 }]);
    assert_eq!(t.doc_len, 3);
    assert_eq!(t.n_docs, 2);
    assert_eq!(value(t.avg_doc_len), 2.5);
    assert!(idx.score_terms("alpha", 99).is_none());
    // Two chunks, one of them with the token, twice in three tokens.
    let idf = (1.5f32 / 1.5 + 1.0).ln();
    let norm = 0.25 + 0.75 * (3.0f32 / 2.5);
    assert_eq!(score(&idx, "alpha", 1), 0.0 + idf * (2.0 * 2.5) / (2.0 + 1.5 * norm));
}

#[test]
fn equal_scores_keep_their_order() {
    let pairs: Vec<(u64, Single)> = [(1, 0.5), (2, 2.0), (3, 0.5), (4, 2.0), (5, 0.25)]
        .iter()
        .map(|(id, s)| (*id as u64, single(*s as f32)))
        .collect();
    let ids = |n: usize| -> Vec<u64> { best_pairs(&pairs, n).iter().map(|p| p.0).collect() };
    assert_eq!(ids(9), vec![2, 4, 1, 3, 5]);
    assert_eq!(ids(3), vec![2, 4, 1]);
    assert!(ids(0).is_empty());
}

#[test]
fn nothing_asked_nothing_found() {
    let idx = build(&[make_chunk(1, "alpha")]);
    assert!(top_n(&idx, "alpha", &[1], 0).is_empty());
    assert!(top_n(&idx, "al", &[1], 5).is_empty());
    assert!(top_n(&idx, "alpha", &[2, 3], 5).is_empty());
    assert_eq!(top_n(&idx, "alpha", &[1, 1], 5).len(), 2);
}

#[test]
fn singles_are_ordered_as_numbers() {
    let values = [f32::NEG_INFINITY, -2.5, -1e-40, 0.0, 1e-40, 0.1, 3.0, f32::INFINITY];
    for a in values {
        for b in values {
            assert_eq!(single(a).less_than(single(b)), a < b, "{a} {b}");
            assert_eq!(value(single(a).max(single(b))), a.max(b));
        }
        assert_eq!(single(a).is_positive(), a > 0.0);
    }
    assert!(!single(-0.0).less_than(single(0.0)));
    assert!(!single(0.0).less_than(single(-0.0)));
    assert!(!single(f32::NAN).is_positive());
    assert_eq!(Single::zero().order_key(), 0);
    assert_eq!(single(-1.0).order_key(), -(1.0f32.to_bits() as i64));
}

#[test]
fn finalizing_again_changes_nothing() {
    let chunks = vec![
        make_chunk(1, "alpha beta gamma"),
        make_chunk(2, "alpha delta epsilon zeta eta theta"),
    ];
    let mut idx = Bm25Index::build(&chunks, &mean);
    let once = idx.clone();
    assert_eq!(value(once.avg_doc_len), 4.5);
    idx.finalize(&mean);
    assert_eq!(idx.avg_doc_len, once.avg_doc_len);
    assert_eq!(idx.term_freq, once.term_freq);
    assert_eq!(idx.doc_freq, once.doc_freq);
    assert_eq!(idx.doc_len, once.doc_len);
    assert_eq!(idx.n_docs, once.n_docs);
}
