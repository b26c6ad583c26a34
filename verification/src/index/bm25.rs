use crate::chunk;
use crate::chunk::Chunk;
use crate::order;
use crate::order::descending_order;
use crate::single::Single;
use crate::text;
use crate::text::{distinct, tokenize, unique_token_hashes};
use std::collections::HashMap;
use vstd::prelude::*;

verus! {

/// Statistics of a collection of chunks for ranking by BM25 (Robertson and
/// Walker 1994): how often a token occurs in a chunk, in how many chunks it
/// occurs, and how long the chunks are.
pub struct Bm25Index {
    /// For each chunk, how often each token occurs in it.
    pub term_freq: HashMap<u64, HashMap<u64, u32>>,
    /// For each token, how many chunks hold it.
    pub doc_freq: HashMap<u64, u32>,
    /// For each chunk, its length in tokens, repetitions included.
    pub doc_len: HashMap<u64, u32>,
    /// Mean length of a chunk.
    pub avg_doc_len: Single,
    /// How many chunks were added.
    pub n_docs: u32,
}

/// What a `Bm25Index` holds.
#[verifier::ext_equal]
pub struct Bm25View {
    pub term_freq: Map<u64, Map<u64, u32>>,
    pub doc_freq: Map<u64, u32>,
    pub doc_len: Map<u64, u32>,
    pub avg_doc_len: Single,
    pub n_docs: u32,
}

impl View for Bm25Index {
    type V = Bm25View;

    open spec fn view(&self) -> Bm25View {
        Bm25View {
            term_freq: self.term_freq@.map_values(|m: HashMap<u64, u32>| m@),
            doc_freq: self.doc_freq@,
            doc_len: self.doc_len@,
            avg_doc_len: self.avg_doc_len,
            n_docs: self.n_docs,
        }
    }
}

impl Clone for Bm25Index {
    fn clone(&self) -> (r: Self)
        ensures
            r@ == self@,
    {
        Bm25Index {
            term_freq: self.term_freq.clone(),
            doc_freq: self.doc_freq.clone(),
            doc_len: self.doc_len.clone(),
            avg_doc_len: self.avg_doc_len,
            n_docs: self.n_docs,
        }
    }
}

/// The count of `k`, or 0.
pub open spec fn count_of(m: Map<u64, u32>, k: u64) -> u32 {
    if m.contains_key(k) {
        m[k]
    } else {
        0
    }
}

/// The counts with that of `k` one higher; a count starts over behind the
/// greatest number it can hold.
pub open spec fn bumped(m: Map<u64, u32>, k: u64) -> Map<u64, u32> {
    m.insert(k, count_of(m, k).wrapping_add(1))
}

/// The counts with that of each of `keys` one higher.
pub open spec fn all_bumped(m: Map<u64, u32>, keys: Seq<u64>) -> Map<u64, u32>
    decreases keys.len(),
{
    if keys.len() == 0 {
        m
    } else {
        bumped(all_bumped(m, keys.drop_last()), keys.last())
    }
}

/// How often each value occurs in `tokens`.
pub open spec fn frequencies(tokens: Seq<u64>) -> Map<u64, u32> {
    all_bumped(Map::empty(), tokens)
}

/// The counts with that of each key of `held` one lower; a count of one goes.
pub open spec fn lowered(m: Map<u64, u32>, held: Map<u64, u32>) -> Map<u64, u32> {
    Map::new(
        |t: u64| m.contains_key(t) && !(held.contains_key(t) && m[t] <= 1),
        |t: u64|
            if held.contains_key(t) {
                (m[t] - 1) as u32
            } else {
                m[t]
            },
    )
}

impl Bm25View {
    /// The chunks that hold the token `t`.
    pub open spec fn holding(self, t: u64) -> Set<u64> {
        self.term_freq.dom().filter(|id: u64| self.term_freq[id].contains_key(t))
    }

    /// The statistics fit together: there is a length for each chunk with term
    /// frequencies, as many as were counted, and the count of each token is the
    /// number of distinct chunks that hold it.
    pub open spec fn wf(self) -> bool {
        &&& self.term_freq.dom() == self.doc_len.dom()
        &&& self.doc_len.dom().finite()
        &&& self.n_docs == self.doc_len.dom().len()
        &&& forall|t: u64| #[trigger] count_of(self.doc_freq, t) == self.holding(t).len()
        &&& forall|t: u64| #[trigger] self.doc_freq.contains_key(t) ==> self.doc_freq[t] > 0
    }

    /// There is room for the chunk `id`: it is known, or another one can be
    /// counted.
    pub open spec fn has_room(self, id: u64) -> bool {
        self.doc_len.contains_key(id) || self.n_docs < u32::MAX
    }

    /// The statistics without any chunk.
    pub open spec fn none() -> Self {
        Bm25View {
            term_freq: Map::empty(),
            doc_freq: Map::empty(),
            doc_len: Map::empty(),
            avg_doc_len: Single { bits: 0 },
            n_docs: 0,
        }
    }

    /// The statistics without the chunk `id`.
    pub open spec fn without(self, id: u64) -> Self {
        Bm25View {
            term_freq: self.term_freq.remove(id),
            doc_freq: if self.term_freq.contains_key(id) {
                lowered(self.doc_freq, self.term_freq[id])
            } else {
                self.doc_freq
            },
            doc_len: self.doc_len.remove(id),
            avg_doc_len: self.avg_doc_len,
            n_docs: if self.doc_len.contains_key(id) {
                self.n_docs.wrapping_sub(1)
            } else {
                self.n_docs
            },
        }
    }

    /// The statistics with one more chunk, in place of an earlier one with the
    /// same identifier. A chunk without tokens leaves them.
    pub open spec fn with_chunk(self, c: chunk::ChunkView) -> Self {
        let tokens = text::token_hashes(c.text);
        let others = self.without(c.id);
        if tokens.len() == 0 {
            self
        } else {
            Bm25View {
                term_freq: others.term_freq.insert(c.id, frequencies(tokens)),
                doc_freq: all_bumped(others.doc_freq, text::unique(tokens)),
                doc_len: others.doc_len.insert(c.id, tokens.len() as u32),
                avg_doc_len: others.avg_doc_len,
                n_docs: others.n_docs.wrapping_add(1),
            }
        }
    }

    /// The statistics with all of `list`, one after the other.
    pub open spec fn with_chunks(self, list: Seq<chunk::ChunkView>) -> Self
        decreases list.len(),
    {
        if list.len() == 0 {
            self
        } else {
            self.with_chunks(list.drop_last()).with_chunk(list.last())
        }
    }
}

/// Bumping distinct keys raises no count by more than one.
proof fn lemma_bump_distinct(m: Map<u64, u32>, keys: Seq<u64>)
    requires
        keys.no_duplicates(),
        forall|t: u64| #[trigger] m.contains_key(t) ==> m[t] < u32::MAX,
    ensures
        forall|t: u64| #[trigger]
            all_bumped(m, keys).contains_key(t) <==> m.contains_key(t) || keys.contains(t),
        forall|t: u64| #[trigger]
            all_bumped(m, keys).contains_key(t) ==> all_bumped(m, keys)[t] == count_of(m, t)
                + if keys.contains(t) {
                1int
            } else {
                0
            },
    decreases keys.len(),
{
    if keys.len() > 0 {
        let init = keys.drop_last();
        let k = keys.last();
        assert(keys =~= init.push(k));
        assert(init.no_duplicates());
        assert(!init.contains(k));
        lemma_bump_distinct(m, init);
        let before = all_bumped(m, init);
        assert(count_of(before, k) == count_of(m, k));
        assert forall|t: u64| #[trigger]
            all_bumped(m, keys).contains_key(t) <==> m.contains_key(t) || keys.contains(t) by {
            vstd::seq_lib::lemma_seq_contains_after_push(init, k, t);
        }
        assert forall|t: u64| #[trigger] all_bumped(m, keys).contains_key(t) implies all_bumped(
            m,
            keys,
        )[t] == count_of(m, t) + if keys.contains(t) {
            1int
        } else {
            0
        } by {
            vstd::seq_lib::lemma_seq_contains_after_push(init, k, t);
            assert(before.contains_key(t) || t == k);
        }
    }
}

/// Raises the count of `k` by one.
fn bump(m: &mut HashMap<u64, u32>, k: u64)
    ensures
        final(m)@ == bumped(old(m)@, k),
{
    broadcast use vstd::std_specs::hash::group_hash_axioms;

    let n: u32 = match m.get(&k) {
        Some(n) => *n,
        None => 0,
    };
    m.insert(k, n.wrapping_add(1));
}

/// Raises the count of each of `keys` by one.
fn bump_all(m: &mut HashMap<u64, u32>, keys: &Vec<u64>)
    ensures
        final(m)@ == all_bumped(old(m)@, keys@),
{
    let mut i: usize = 0;
    assert(all_bumped(m@, keys@.take(0)) == m@);
    while i < keys.len()
        invariant
            i <= keys.len(),
            m@ == all_bumped(old(m)@, keys@.take(i as int)),
        decreases keys.len() - i,
    {
        assert(keys@.take(i + 1).drop_last() =~= keys@.take(i as int));
        bump(m, keys[i]);
        i = i + 1;
    }
    assert(keys@.take(keys@.len() as int) =~= keys@);
}

/// How often each value occurs in `tokens`.
fn count_all(tokens: &Vec<u64>) -> (r: HashMap<u64, u32>)
    ensures
        r@ == frequencies(tokens@),
{
    let mut m: HashMap<u64, u32> = HashMap::new();
    bump_all(&mut m, tokens);
    m
}

/// Lowers the count of each of `keys` by one.
fn lower_all(m: &mut HashMap<u64, u32>, keys: &Vec<u64>, Ghost(held): Ghost<Map<u64, u32>>)
    requires
        keys@.no_duplicates(),
        keys@.to_set() == held.dom(),
    ensures
        final(m)@ == lowered(old(m)@, held),
{
    broadcast use vstd::std_specs::hash::group_hash_axioms;

    let ghost first = m@;
    let mut i: usize = 0;
    while i < keys.len()
        invariant
            i <= keys.len(),
            keys@.no_duplicates(),
            first == old(m)@,
            forall|t: u64|
                #![trigger m@.contains_key(t)]
                m@.contains_key(t) <==> first.contains_key(t) && !(keys@.take(i as int).contains(t)
                    && first[t] <= 1),
            forall|t: u64|
                #![trigger m@[t]]
                m@.contains_key(t) ==> m@[t] == first[t] - if keys@.take(i as int).contains(t) {
                    1int
                } else {
                    0
                },
        decreases keys.len() - i,
    {
        let k: u64 = keys[i];
        let ghost passed = keys@.take(i as int);
        proof {
            assert(keys@.take(i + 1) =~= passed.push(k));
            if passed.contains(k) {
                let j = choose|j: int| 0 <= j < passed.len() && passed[j] == k;
                assert(keys@[j] == keys@[i as int]);
            }
            assert forall|t: u64| #[trigger] passed.push(k).contains(t) <==> passed.contains(t) || t
                == k by {
                vstd::seq_lib::lemma_seq_contains_after_push(passed, k, t);
            }
        }
        let n: u32 = match m.get(&k) {
            Some(n) => *n,
            None => 0,
        };
        if n > 1 {
            m.insert(k, n - 1);
        } else {
            m.remove(&k);
        }
        i = i + 1;
    }
    proof {
        assert(keys@.take(keys@.len() as int) =~= keys@);
        assert forall|t: u64| keys@.contains(t) <==> #[trigger] held.contains_key(t) by {
            assert(keys@.to_set().contains(t) <==> keys@.contains(t));
        }
        assert(m@ =~= lowered(first, held));
    }
}

/// No more chunks hold a token than there are.
proof fn lemma_holding(v: Bm25View, t: u64)
    requires
        v.term_freq.dom().finite(),
    ensures
        v.holding(t).finite(),
        v.holding(t).len() <= v.term_freq.dom().len(),
{
    vstd::set_lib::lemma_len_subset(v.holding(t), v.term_freq.dom());
}

/// Taking a chunk out keeps the statistics together.
proof fn lemma_without_wf(v: Bm25View, id: u64)
    requires
        v.wf(),
    ensures
        v.without(id).wf(),
{
    let w = v.without(id);
    assert(w.term_freq.dom() =~= v.term_freq.dom().remove(id));
    assert(w.doc_len.dom() =~= v.doc_len.dom().remove(id));
    assert forall|t: u64| #[trigger] count_of(w.doc_freq, t) == w.holding(t).len() by {
        lemma_holding(v, t);
        assert(w.holding(t) =~= v.holding(t).remove(id));
        assert(count_of(v.doc_freq, t) == v.holding(t).len());
        if v.term_freq.contains_key(id) {
            assert(v.holding(t).contains(id) <==> v.term_freq[id].contains_key(t));
        } else {
            assert(!v.holding(t).contains(id));
        }
    }
}

/// Nothing is to be taken out of statistics that do not know the chunk.
proof fn lemma_without_unknown(v: Bm25View, id: u64)
    requires
        !v.term_freq.contains_key(id),
        !v.doc_len.contains_key(id),
    ensures
        v.without(id) == v,
{
    assert(v.term_freq.remove(id) =~= v.term_freq);
    assert(v.doc_len.remove(id) =~= v.doc_len);
}

/// The frequencies of a list hold its values.
pub proof fn lemma_frequency_keys(tokens: Seq<u64>, t: u64)
    ensures
        frequencies(tokens).contains_key(t) <==> tokens.contains(t),
    decreases tokens.len(),
{
    if tokens.len() > 0 {
        let init = tokens.drop_last();
        lemma_frequency_keys(init, t);
        assert(tokens =~= init.push(tokens.last()));
        vstd::seq_lib::lemma_seq_contains_after_push(init, tokens.last(), t);
    }
}

/// Adding a chunk keeps the statistics together, as long as it can be counted.
proof fn lemma_with_chunk_wf(v: Bm25View, c: chunk::ChunkView)
    requires
        v.wf(),
        v.has_room(c.id),
    ensures
        v.with_chunk(c).wf(),
{
    let tokens = text::token_hashes(c.text);
    if tokens.len() > 0 {
        let id = c.id;
        let others = v.without(id);
        let after = v.with_chunk(c);
        let keys = text::unique(tokens);
        lemma_without_wf(v, id);
        text::lemma_unique(tokens);
        assert(others.doc_len.dom() =~= v.doc_len.dom().remove(id));
        assert(others.n_docs < u32::MAX);
        assert forall|t: u64| #[trigger] others.doc_freq.contains_key(t) implies others.doc_freq[t]
            < u32::MAX by {
            lemma_holding(others, t);
            assert(count_of(others.doc_freq, t) == others.holding(t).len());
        }
        lemma_bump_distinct(others.doc_freq, keys);
        assert(after.term_freq.dom() =~= others.term_freq.dom().insert(id));
        assert(after.doc_len.dom() =~= others.doc_len.dom().insert(id));
        assert forall|t: u64| #[trigger] count_of(after.doc_freq, t) == after.holding(t).len() by {
            lemma_holding(others, t);
            lemma_frequency_keys(tokens, t);
            assert(count_of(others.doc_freq, t) == others.holding(t).len());
            assert(!others.holding(t).contains(id));
            assert(keys.contains(t) <==> tokens.contains(t));
            assert(after.doc_freq.contains_key(t) <==> others.doc_freq.contains_key(t)
                || keys.contains(t));
            if tokens.contains(t) {
                assert(after.holding(t) =~= others.holding(t).insert(id));
            } else {
                assert(after.holding(t) =~= others.holding(t));
            }
        }
        assert forall|t: u64| #[trigger] after.doc_freq.contains_key(t) implies after.doc_freq[t]
            > 0 by {
            assert(others.doc_freq.contains_key(t) || keys.contains(t));
        }
    }
}

/// The sum of all counts.
pub open spec fn total(m: Map<u64, u32>) -> int
    decreases m.dom().len(),
    when m.dom().finite()
{
    if m.dom().len() == 0 {
        0
    } else {
        let k = m.dom().choose();
        m[k] + total(m.remove(k))
    }
}

/// Any key may be taken out of the sum first.
proof fn lemma_total_remove(m: Map<u64, u32>, k: u64)
    requires
        m.dom().finite(),
        m.contains_key(k),
    ensures
        total(m) == m[k] + total(m.remove(k)),
    decreases m.dom().len(),
{
    let c = m.dom().choose();
    assert(m.dom().contains(c));
    assert(m.remove(c).dom() =~= m.dom().remove(c));
    assert(m.remove(k).dom() =~= m.dom().remove(k));
    if c != k {
        lemma_total_remove(m.remove(c), k);
        lemma_total_remove(m.remove(k), c);
        assert(m.remove(c).remove(k) =~= m.remove(k).remove(c));
    }
}

/// The sum of the counts of `keys`.
pub open spec fn sum_over(m: Map<u64, u32>, keys: Seq<u64>) -> int
    decreases keys.len(),
{
    if keys.len() == 0 {
        0
    } else {
        sum_over(m, keys.drop_last()) + m[keys.last()]
    }
}

/// Listing all keys once sums up everything.
proof fn lemma_sum_is_total(m: Map<u64, u32>, keys: Seq<u64>)
    requires
        m.dom().finite(),
        keys.no_duplicates(),
        keys.to_set() == m.dom(),
    ensures
        sum_over(m, keys) == total(m),
    decreases keys.len(),
{
    if keys.len() == 0 {
        assert(m.dom() =~= Set::<u64>::empty());
    } else {
        let init = keys.drop_last();
        let k = keys.last();
        let rest = m.remove(k);
        assert(keys =~= init.push(k));
        assert(keys.to_set().contains(k)) by {
            assert(keys[keys.len() - 1] == k);
        }
        assert(init.no_duplicates());
        assert forall|t: u64| #[trigger] init.to_set().contains(t) <==> rest.dom().contains(t) by {
            vstd::seq_lib::lemma_seq_contains_after_push(init, k, t);
            assert(keys.to_set().contains(t) <==> keys.contains(t));
            if init.contains(k) {
                let i = choose|i: int| 0 <= i < init.len() && init[i] == k;
                assert(keys[i] == keys[keys.len() - 1]);
            }
        }
        assert(init.to_set() =~= rest.dom());
        lemma_sum_is_total(rest, init);
        lemma_sum_agrees(m, rest, init);
        lemma_total_remove(m, k);
    }
}

/// The sum looks at the listed keys only.
proof fn lemma_sum_agrees(a: Map<u64, u32>, b: Map<u64, u32>, keys: Seq<u64>)
    requires
        forall|i: int| 0 <= i < keys.len() ==> a[#[trigger] keys[i]] == b[keys[i]],
    ensures
        sum_over(a, keys) == sum_over(b, keys),
    decreases keys.len(),
{
    if keys.len() > 0 {
        let init = keys.drop_last();
        assert forall|i: int| 0 <= i < init.len() implies a[#[trigger] init[i]] == b[init[i]] by {
            assert(init[i] == keys[i]);
        }
        lemma_sum_agrees(a, b, init);
        assert(keys.last() == keys[keys.len() - 1]);
    }
}

/// The keys of `m`, each once, in whatever order the map gives them.
pub(crate) fn keys_of<V>(m: &HashMap<u64, V>) -> (r: Vec<u64>)
    ensures
        r@.no_duplicates(),
        r@.to_set() == m@.dom(),
{
    broadcast use vstd::std_specs::hash::group_hash_axioms;

    let mut out: Vec<u64> = Vec::new();
    let ghost all = vstd::std_specs::iter::IteratorSpec::remaining(
        &vstd::std_specs::hash::spec_keys_iter(m),
    );
    for k in it: m.keys()
        invariant
            out@ == all.unref().take(it.index()),
            it.seq() == all,
            all.no_duplicates(),
            all.unref().to_set() == m@.dom(),
    {
        out.push(*k);
        assert(all.unref().take(it.index() + 1) =~= all.unref().take(it.index()).push(*k));
    }
    assert(out@ =~= all.unref());
    out
}

/// One token of a query that the chunk holds: how often the chunk holds it, and
/// how many chunks do.
#[derive(Clone, Copy, Debug, PartialEq, Eq, Structural)]
pub struct TermStat {
    pub tf: u32,
    pub df: u32,
}

/// All that the score of a chunk for a query is computed from.
#[derive(Debug)]
pub struct ScoreTerms {
    /// Length of the chunk in tokens.
    pub doc_len: u32,
    /// Mean length of a chunk.
    pub avg_doc_len: Single,
    /// How many chunks there are.
    pub n_docs: u32,
    /// One entry per distinct token of the query that the chunk holds, in the
    /// order of the query.
    pub terms: Vec<TermStat>,
}

/// What `ScoreTerms` hold.
#[verifier::ext_equal]
pub struct TermsView {
    pub doc_len: u32,
    pub avg_doc_len: Single,
    pub n_docs: u32,
    pub terms: Seq<TermStat>,
}

impl View for ScoreTerms {
    type V = TermsView;

    open spec fn view(&self) -> TermsView {
        TermsView {
            doc_len: self.doc_len,
            avg_doc_len: self.avg_doc_len,
            n_docs: self.n_docs,
            terms: self.terms@,
        }
    }
}

/// The statistics of those of `keys` that a chunk holds, in order.
pub open spec fn term_stats(
    tf: Map<u64, u32>,
    df: Map<u64, u32>,
    keys: Seq<u64>,
) -> Seq<TermStat>
    decreases keys.len(),
{
    if keys.len() == 0 {
        Seq::empty()
    } else {
        let before = term_stats(tf, df, keys.drop_last());
        let k = keys.last();
        if tf.contains_key(k) {
            before.push(TermStat { tf: tf[k], df: count_of(df, k) })
        } else {
            before
        }
    }
}

impl Bm25View {
    /// All that the score of chunk `id` for `query` is computed from; none if
    /// the chunk is not indexed.
    pub open spec fn terms_for(self, query: Seq<char>, id: u64) -> Option<TermsView> {
        if self.doc_len.contains_key(id) && self.term_freq.contains_key(id) {
            Some(
                TermsView {
                    doc_len: self.doc_len[id],
                    avg_doc_len: self.avg_doc_len,
                    n_docs: self.n_docs,
                    terms: term_stats(
                        self.term_freq[id],
                        self.doc_freq,
                        text::unique(text::token_hashes(query)),
                    ),
                },
            )
        } else {
            None
        }
    }
}

/// `r` is what `weigh` makes of terms that hold `t`.
pub open spec fn weighs<F: Fn(&ScoreTerms) -> Single>(weigh: F, t: TermsView, r: Single) -> bool {
    exists|terms: ScoreTerms| terms@ == t && #[trigger] call_ensures(weigh, (&terms,), r)
}

/// `r` is the score of chunk `id` for `query`: 0 if the chunk is not indexed or
/// holds no token of the query, and what `weigh` makes of the terms otherwise.
pub open spec fn is_score<F: Fn(&ScoreTerms) -> Single>(
    v: Bm25View,
    query: Seq<char>,
    id: u64,
    weigh: F,
    r: Single,
) -> bool {
    match v.terms_for(query, id) {
        Some(t) => if t.terms.len() == 0 {
            r == (Single { bits: 0 })
        } else {
            weighs(weigh, t, r)
        },
        None => r == (Single { bits: 0 }),
    }
}

/// `weigh` takes any terms.
pub open spec fn takes_all<F: Fn(&ScoreTerms) -> Single>(weigh: F) -> bool {
    forall|terms: ScoreTerms| #[trigger] call_requires(weigh, (&terms,))
}

/// `mean` takes any total and count.
pub open spec fn takes_any<F: Fn(u128, u32) -> Single>(mean: F) -> bool {
    forall|sum: u128, n: u32| #[trigger] call_requires(mean, (sum, n))
}

/// `r` holds what `v` does, with the mean length that `mean` makes of the total
/// and the count, or 0 if there is nothing to count.
pub open spec fn is_finalized<F: Fn(u128, u32) -> Single>(
    v: Bm25View,
    mean: F,
    r: Bm25View,
) -> bool {
    &&& r == (Bm25View { avg_doc_len: r.avg_doc_len, ..v })
    &&& if v.n_docs == 0 {
        r.avg_doc_len == (Single { bits: 0 })
    } else {
        &&& 0 <= total(v.doc_len) <= u128::MAX
        &&& call_ensures(mean, (total(v.doc_len) as u128, v.n_docs), r.avg_doc_len)
    }
}

impl Bm25Index {
    /// An index without chunks.
    pub fn new() -> (r: Self)
        ensures
            r@ == Bm25View::none(),
            r@.wf(),
    {
        let r = Bm25Index {
            term_freq: HashMap::new(),
            doc_freq: HashMap::new(),
            doc_len: HashMap::new(),
            avg_doc_len: Single::zero(),
            n_docs: 0,
        };
        proof {
            assert(r@ =~= Bm25View::none());
            assert forall|t: u64| #[trigger] count_of(r@.doc_freq, t) == r@.holding(t).len() by {
                assert(r@.holding(t) =~= Set::<u64>::empty());
            }
            assert(r@.term_freq.dom() =~= r@.doc_len.dom());
        }
        r
    }

    /// Takes the chunk `id` out.
    fn forget(&mut self, id: u64)
        ensures
            final(self)@ == old(self)@.without(id),
    {
        broadcast use vstd::std_specs::hash::group_hash_axioms;

        let ghost before = self@;
        match self.term_freq.remove(&id) {
            Some(held) => {
                let keys: Vec<u64> = keys_of(&held);
                assert(before.term_freq[id] == held@);
                lower_all(&mut self.doc_freq, &keys, Ghost(held@));
            },
            None => {},
        }
        match self.doc_len.remove(&id) {
            Some(_) => {
                self.n_docs = self.n_docs.wrapping_sub(1);
            },
            None => {},
        }
        proof {
            assert(self@.term_freq =~= before.term_freq.remove(id));
            assert(self@.doc_len =~= before.doc_len.remove(id));
            assert(self@ =~= before.without(id));
        }
    }

    /// Adds a chunk, in place of an earlier one with the same identifier. Call
    /// `finalize` when all are added.
    pub fn add_chunk(&mut self, chunk: &Chunk)
        ensures
            final(self)@ == old(self)@.with_chunk(chunk@),
            old(self)@.wf() && old(self)@.has_room(chunk@.id) ==> final(self)@.wf(),
    {
        broadcast use vstd::std_specs::hash::group_hash_axioms;

        proof {
            if self@.wf() && self@.has_room(chunk@.id) {
                lemma_with_chunk_wf(self@, chunk@);
            }
        }
        let tokens: Vec<u64> = tokenize(chunk.text.as_str());
        if tokens.len() == 0 {
            return;
        }
        let ghost start = self@;
        self.forget(chunk.id);
        let tf: HashMap<u64, u32> = count_all(&tokens);
        let keys: Vec<u64> = distinct(&tokens);
        let ghost before = self@;
        bump_all(&mut self.doc_freq, &keys);
        self.term_freq.insert(chunk.id, tf);
        self.doc_len.insert(chunk.id, tokens.len() as u32);
        self.n_docs = self.n_docs.wrapping_add(1);
        proof {
            assert(self@.term_freq =~= before.term_freq.insert(chunk.id, frequencies(tokens@)));
            assert(self@ =~= start.with_chunk(chunk@));
        }
    }

    /// Computes the mean length of a chunk, with `mean` of the total length and
    /// the number of chunks. Doing so again changes nothing further.
    pub fn finalize<F: Fn(u128, u32) -> Single>(&mut self, mean: &F)
        requires
            takes_any(*mean),
        ensures
            is_finalized(old(self)@, *mean, final(self)@),
    {
        broadcast use vstd::std_specs::hash::group_hash_axioms;

        if self.n_docs == 0 {
            self.avg_doc_len = Single::zero();
            return;
        }
        let keys: Vec<u64> = keys_of(&self.doc_len);
        let mut sum: u128 = 0;
        let mut i: usize = 0;
        while i < keys.len()
            invariant
                i <= keys.len(),
                keys@.to_set() == self.doc_len@.dom(),
                sum == sum_over(self.doc_len@, keys@.take(i as int)),
                sum <= i * u32::MAX,
            decreases keys.len() - i,
        {
            let k: u64 = keys[i];
            assert(keys@.to_set().contains(k));
            let n: u32 = match self.doc_len.get(&k) {
                Some(n) => *n,
                None => 0,
            };
            proof {
                assert(keys@.take(i + 1).drop_last() =~= keys@.take(i as int));
                assert(i * u32::MAX + u32::MAX == (i + 1) * u32::MAX) by (nonlinear_arith);
                assert((i + 1) * u32::MAX <= u64::MAX * u32::MAX) by (nonlinear_arith)
                    requires
                        i + 1 <= u64::MAX,
                ;
            }
            sum = sum + n as u128;
            i = i + 1;
        }
        proof {
            assert(keys@.take(keys@.len() as int) =~= keys@);
            lemma_sum_is_total(self.doc_len@, keys@);
        }
        self.avg_doc_len = mean(sum, self.n_docs);
    }

    /// The index over `chunks`, the mean length included.
    pub fn build<F: Fn(u128, u32) -> Single>(chunks: &Vec<Chunk>, mean: &F) -> (r: Self)
        requires
            takes_any(*mean),
        ensures
            is_built(chunk::views(chunks@), *mean, r@),
    {
        let mut idx: Bm25Index = Self::new();
        let ghost all = chunk::views(chunks@);
        let mut i: usize = 0;
        assert(Bm25View::none().with_chunks(all.take(0)) == Bm25View::none());
        while i < chunks.len()
            invariant
                i <= chunks.len(),
                all == chunk::views(chunks@),
                idx@ == Bm25View::none().with_chunks(all.take(i as int)),
            decreases chunks.len() - i,
        {
            proof {
                assert(all.take(i + 1).drop_last() =~= all.take(i as int));
                assert(all.take(i + 1).last() == chunks@[i as int]@);
            }
            idx.add_chunk(&chunks[i]);
            i = i + 1;
        }
        assert(all.take(all.len() as int) =~= all);
        idx.finalize(mean);
        idx
    }
}

/// `r` holds the statistics of all of `list`, the mean length included.
pub open spec fn is_built<F: Fn(u128, u32) -> Single>(
    list: Seq<chunk::ChunkView>,
    mean: F,
    r: Bm25View,
) -> bool {
    is_finalized(Bm25View::none().with_chunks(list), mean, r)
}

/// The statistics of those of `keys` that a chunk holds.
fn collect_terms(tf: &HashMap<u64, u32>, df: &HashMap<u64, u32>, keys: &Vec<u64>) -> (r: Vec<
    TermStat,
>)
    ensures
        r@ == term_stats(tf@, df@, keys@),
{
    broadcast use vstd::std_specs::hash::group_hash_axioms;

    let mut out: Vec<TermStat> = Vec::new();
    let mut i: usize = 0;
    while i < keys.len()
        invariant
            i <= keys.len(),
            out@ == term_stats(tf@, df@, keys@.take(i as int)),
        decreases keys.len() - i,
    {
        let k: u64 = keys[i];
        assert(keys@.take(i + 1).drop_last() =~= keys@.take(i as int));
        if let Some(n) = tf.get(&k) {
            let d: u32 = match df.get(&k) {
                Some(d) => *d,
                None => 0,
            };
            out.push(TermStat { tf: *n, df: d });
        }
        i = i + 1;
    }
    assert(keys@.take(keys@.len() as int) =~= keys@);
    out
}

impl Bm25Index {
    /// All that the score of a chunk for a query is computed from; none if the
    /// chunk is not indexed.
    pub fn score_terms(&self, query: &str, chunk_id: u64) -> (r: Option<ScoreTerms>)
        ensures
            match r {
                Some(t) => self@.terms_for(query@, chunk_id) == Some(t@),
                None => self@.terms_for(query@, chunk_id) is None,
            },
    {
        let keys: Vec<u64> = unique_token_hashes(query);
        self.terms_by_key(&keys, chunk_id, Ghost(query@))
    }

    /// `score_terms` with the distinct tokens of the query at hand.
    fn terms_by_key(&self, keys: &Vec<u64>, chunk_id: u64, Ghost(query): Ghost<Seq<char>>) -> (r:
        Option<ScoreTerms>)
        requires
            keys@ == text::unique(text::token_hashes(query)),
        ensures
            match r {
                Some(t) => self@.terms_for(query, chunk_id) == Some(t@),
                None => self@.terms_for(query, chunk_id) is None,
            },
    {
        broadcast use vstd::std_specs::hash::group_hash_axioms;

        let dl: u32 = match self.doc_len.get(&chunk_id) {
            Some(dl) => *dl,
            None => {
                return None;
            },
        };
        match self.term_freq.get(&chunk_id) {
            Some(tf) => {
                let terms: Vec<TermStat> = collect_terms(tf, &self.doc_freq, keys);
                let r = ScoreTerms {
                    doc_len: dl,
                    avg_doc_len: self.avg_doc_len,
                    n_docs: self.n_docs,
                    terms,
                };
                assert(self@.term_freq[chunk_id] == tf@);
                Some(r)
            },
            None => None,
        }
    }

    /// Score of a chunk for a query, `weigh` computing the formula. 0 if the
    /// chunk is not indexed or holds no token of the query.
    pub fn score<F: Fn(&ScoreTerms) -> Single>(
        &self,
        query: &str,
        chunk_id: u64,
        weigh: &F,
    ) -> (r: Single)
        requires
            takes_all(*weigh),
        ensures
            is_score(self@, query@, chunk_id, *weigh, r),
    {
        let keys: Vec<u64> = unique_token_hashes(query);
        self.score_by_key(&keys, chunk_id, weigh, Ghost(query@))
    }

    /// `score` with the distinct tokens of the query at hand.
    fn score_by_key<F: Fn(&ScoreTerms) -> Single>(
        &self,
        keys: &Vec<u64>,
        chunk_id: u64,
        weigh: &F,
        Ghost(query): Ghost<Seq<char>>,
    ) -> (r: Single)
        requires
            takes_all(*weigh),
            keys@ == text::unique(text::token_hashes(query)),
        ensures
            is_score(self@, query, chunk_id, *weigh, r),
    {
        match self.terms_by_key(keys, chunk_id, Ghost(query)) {
            Some(terms) => {
                if terms.terms.len() == 0 {
                    Single::zero()
                } else {
                    assert(call_requires(*weigh, (&terms,)));
                    let r: Single = weigh(&terms);
                    assert(weighs(*weigh, terms@, r));
                    r
                }
            },
            None => Single::zero(),
        }
    }
}

/// The pairs of an identifier and its score whose score is positive, in order.
pub open spec fn positives(ids: Seq<u64>, scores: Seq<Single>) -> Seq<(u64, Single)>
    decreases ids.len(),
{
    if ids.len() == 0 {
        Seq::empty()
    } else {
        let before = positives(ids.drop_last(), scores.drop_last());
        if scores.last().positive() {
            before.push((ids.last(), scores.last()))
        } else {
            before
        }
    }
}

/// The scores of `pairs`.
pub open spec fn scores_of(pairs: Seq<(u64, Single)>) -> Seq<Single> {
    pairs.map_values(|p: (u64, Single)| p.1)
}

/// The smaller of a length and a limit.
pub open spec fn limited(len: nat, n: int) -> int {
    if n < len {
        n
    } else {
        len as int
    }
}

/// `r` holds the first `n` of `pairs` by descending score, equal scores in
/// their original order.
pub open spec fn is_best(pairs: Seq<(u64, Single)>, n: int, r: Seq<(u64, Single)>) -> bool {
    exists|order: Seq<usize>| #[trigger]
        order::is_stable_descending(scores_of(pairs), order) && r == picked(
            pairs,
            order,
            limited(pairs.len(), n),
        )
}

/// The pairs at the first `n` positions of `order`.
pub open spec fn picked(
    pairs: Seq<(u64, Single)>,
    order: Seq<usize>,
    n: int,
) -> Seq<(u64, Single)> {
    Seq::new(n as nat, |i: int| pairs[order[i] as int])
}

/// Each of `scores` is the score of the chunk in its place.
pub open spec fn are_scores<F: Fn(&ScoreTerms) -> Single>(
    v: Bm25View,
    query: Seq<char>,
    ids: Seq<u64>,
    weigh: F,
    scores: Seq<Single>,
) -> bool {
    &&& scores.len() == ids.len()
    &&& forall|i: int| 0 <= i < ids.len() ==> is_score(v, query, #[trigger] ids[i], weigh, scores[i])
}

/// The chunks to be scored: the candidates, or all that are indexed, in any
/// order, if there are none.
pub open spec fn are_ids(v: Bm25View, candidates: Seq<u64>, ids: Seq<u64>) -> bool {
    if candidates.len() > 0 {
        ids == candidates
    } else {
        ids.no_duplicates() && ids.to_set() == v.doc_len.dom()
    }
}

/// `r` holds the `n` best of the candidates with a positive score.
pub open spec fn is_top_n<F: Fn(&ScoreTerms) -> Single>(
    v: Bm25View,
    query: Seq<char>,
    candidates: Seq<u64>,
    n: int,
    weigh: F,
    r: Seq<(u64, Single)>,
) -> bool {
    if v.n_docs == 0 || n == 0 || text::token_hashes(query).len() == 0 {
        r.len() == 0
    } else {
        exists|ids: Seq<u64>, scores: Seq<Single>|
            {
                &&& are_ids(v, candidates, ids)
                &&& #[trigger] are_scores(v, query, ids, weigh, scores)
                &&& is_best(positives(ids, scores), n, r)
            }
    }
}

/// The `n` best of `pairs` by descending score; equal scores keep their order.
pub fn best_pairs(pairs: &Vec<(u64, Single)>, n: usize) -> (r: Vec<(u64, Single)>)
    ensures
        is_best(pairs@, n as int, r@),
{
    let mut keys: Vec<Single> = Vec::new();
    let mut i: usize = 0;
    while i < pairs.len()
        invariant
            i <= pairs.len(),
            keys@ =~= scores_of(pairs@).take(i as int),
        decreases pairs.len() - i,
    {
        keys.push(pairs[i].1);
        i = i + 1;
    }
    assert(scores_of(pairs@).take(pairs@.len() as int) =~= scores_of(pairs@));
    let order: Vec<usize> = descending_order(&keys);
    let m: usize = if n < pairs.len() {
        n
    } else {
        pairs.len()
    };
    let mut out: Vec<(u64, Single)> = Vec::new();
    let mut j: usize = 0;
    while j < m
        invariant
            j <= m <= pairs.len(),
            order@.len() == pairs@.len(),
            forall|k: int| 0 <= k < order@.len() ==> 0 <= #[trigger] order@[k] < pairs@.len(),
            out@ =~= picked(pairs@, order@, j as int),
        decreases m - j,
    {
        out.push(pairs[order[j]]);
        j = j + 1;
    }
    assert(order::is_stable_descending(scores_of(pairs@), order@));
    out
}

impl Bm25Index {
    /// The `n` chunks with the highest positive scores, highest first.
    ///
    /// Without candidates all indexed chunks are looked at: a screening that
    /// rules nothing in does not rule everything out.
    pub fn top_n<F: Fn(&ScoreTerms) -> Single>(
        &self,
        query: &str,
        candidates: &Vec<u64>,
        n: usize,
        weigh: &F,
    ) -> (r: Vec<(u64, Single)>)
        requires
            takes_all(*weigh),
        ensures
            is_top_n(self@, query@, candidates@, n as int, *weigh, r@),
    {
        let keys: Vec<u64> = unique_token_hashes(query);
        proof {
            text::lemma_unique(text::token_hashes(query@));
            if text::token_hashes(query@).len() > 0 {
                let t = text::token_hashes(query@)[0];
                assert(text::token_hashes(query@).contains(t));
                assert(keys@.contains(t));
            }
        }
        if self.n_docs == 0 || n == 0 || keys.len() == 0 {
            return Vec::new();
        }
        if candidates.len() == 0 {
            let ids: Vec<u64> = keys_of(&self.doc_len);
            self.best_of(&keys, &ids, n, weigh, Ghost(query@), Ghost(candidates@))
        } else {
            self.best_of(&keys, candidates, n, weigh, Ghost(query@), Ghost(candidates@))
        }
    }

    /// The `n` best of `ids`.
    fn best_of<F: Fn(&ScoreTerms) -> Single>(
        &self,
        keys: &Vec<u64>,
        ids: &Vec<u64>,
        n: usize,
        weigh: &F,
        Ghost(query): Ghost<Seq<char>>,
        Ghost(candidates): Ghost<Seq<u64>>,
    ) -> (r: Vec<(u64, Single)>)
        requires
            takes_all(*weigh),
            keys@ == text::unique(text::token_hashes(query)),
            are_ids(self@, candidates, ids@),
            self@.n_docs != 0,
            n != 0,
            text::token_hashes(query).len() > 0,
        ensures
            is_top_n(self@, query, candidates, n as int, *weigh, r@),
    {
        let mut pairs: Vec<(u64, Single)> = Vec::new();
        let ghost mut scores: Seq<Single> = Seq::empty();
        let mut i: usize = 0;
        assert(pairs@ =~= positives(ids@.take(0), scores));
        while i < ids.len()
            invariant
                i <= ids.len(),
                takes_all(*weigh),
                keys@ == text::unique(text::token_hashes(query)),
                scores.len() == i,
                forall|k: int|
                    0 <= k < i ==> is_score(self@, query, #[trigger] ids@[k], *weigh, scores[k]),
                pairs@ == positives(ids@.take(i as int), scores),
            decreases ids.len() - i,
        {
            let id: u64 = ids[i];
            let s: Single = self.score_by_key(keys, id, weigh, Ghost(query));
            if s.is_positive() {
                pairs.push((id, s));
            }
            proof {
                let before = scores;
                scores = scores.push(s);
                assert(scores.drop_last() =~= before);
                assert(ids@.take(i + 1).drop_last() =~= ids@.take(i as int));
            }
            i = i + 1;
        }
        assert(ids@.take(ids@.len() as int) =~= ids@);
        let r: Vec<(u64, Single)> = best_pairs(&pairs, n);
        assert(are_scores(self@, query, ids@, *weigh, scores));
        r
    }
}

/// `Bm25Index::score` on an index as it is stored.
pub fn score_archived<F: Fn(&ScoreTerms) -> Single>(
    arch: &Bm25Index,
    query: &str,
    chunk_id: u64,
    weigh: &F,
) -> (r: Single)
    requires
        takes_all(*weigh),
    ensures
        is_score(arch@, query@, chunk_id, *weigh, r),
{
    arch.score(query, chunk_id, weigh)
}

/// `Bm25Index::top_n` on an index as it is stored.
pub fn top_n_archived<F: Fn(&ScoreTerms) -> Single>(
    arch: &Bm25Index,
    query: &str,
    candidates: &Vec<u64>,
    n: usize,
    weigh: &F,
) -> (r: Vec<(u64, Single)>)
    requires
        takes_all(*weigh),
    ensures
        is_top_n(arch@, query@, candidates@, n as int, *weigh, r@),
{
    arch.top_n(query, candidates, n, weigh)
}

/// A stored index scores a chunk as the index does, if `weigh` gives the same
/// score for terms that hold the same.
pub proof fn law_same_query_same_score<F: Fn(&ScoreTerms) -> Single>(
    v: Bm25View,
    query: Seq<char>,
    id: u64,
    weigh: F,
    r: Single,
    s: Single,
)
    requires
        weighs_alike(weigh),
        is_score(v, query, id, weigh, r),
        is_score(v, query, id, weigh, s),
    ensures
        r == s,
{
}

/// Computing the mean length again changes nothing, if `mean` gives the same
/// answer whenever it is asked the same.
pub proof fn law_finalize_is_idempotent<F: Fn(u128, u32) -> Single>(
    v: Bm25View,
    mean: F,
    once: Bm25View,
    twice: Bm25View,
)
    requires
        is_finalized(v, mean, once),
        is_finalized(once, mean, twice),
        forall|sum: u128, n: u32, a: Single, b: Single| #[trigger]
            call_ensures(mean, (sum, n), a) && #[trigger] call_ensures(mean, (sum, n), b) ==> a
                == b,
    ensures
        twice == once,
{
}

/// How often `t` occurs in `s`.
pub open spec fn occurrences(s: Seq<u64>, t: u64) -> int
    decreases s.len(),
{
    if s.len() == 0 {
        0
    } else {
        occurrences(s.drop_last(), t) + if s.last() == t {
            1int
        } else {
            0
        }
    }
}

/// The term frequencies of a chunk count the occurrences of its tokens, and
/// hold no others.
pub proof fn law_frequencies_count_occurrences(tokens: Seq<u64>, t: u64)
    requires
        tokens.len() <= u32::MAX,
    ensures
        frequencies(tokens).contains_key(t) <==> tokens.contains(t),
        count_of(frequencies(tokens), t) == occurrences(tokens, t),
        0 <= occurrences(tokens, t) <= tokens.len(),
    decreases tokens.len(),
{
    if tokens.len() > 0 {
        let init = tokens.drop_last();
        law_frequencies_count_occurrences(init, t);
        law_frequencies_count_occurrences(init, tokens.last());
        assert(tokens =~= init.push(tokens.last()));
        vstd::seq_lib::lemma_seq_contains_after_push(init, tokens.last(), t);
    }
}

/// How many of `list` hold the token `t`.
pub open spec fn holders(list: Seq<chunk::ChunkView>, t: u64) -> int
    decreases list.len(),
{
    if list.len() == 0 {
        0
    } else {
        holders(list.drop_last(), t) + if text::token_hashes(list.last().text).contains(t) {
            1int
        } else {
            0
        }
    }
}

/// How many of `list` hold any token.
pub open spec fn with_tokens(list: Seq<chunk::ChunkView>) -> int
    decreases list.len(),
{
    if list.len() == 0 {
        0
    } else {
        with_tokens(list.drop_last()) + if text::token_hashes(list.last().text).len() > 0 {
            1int
        } else {
            0
        }
    }
}

/// The statistics of an index fit together: the count of each token is the
/// number of distinct chunks that hold it, and as many chunks were counted as
/// there are lengths.
pub proof fn law_index_fits_together(list: Seq<chunk::ChunkView>)
    requires
        list.len() <= u32::MAX,
    ensures
        Bm25View::none().with_chunks(list).wf(),
        Bm25View::none().with_chunks(list).n_docs <= list.len(),
    decreases list.len(),
{
    let v = Bm25View::none().with_chunks(list);
    if list.len() > 0 {
        law_index_fits_together(list.drop_last());
        let before = Bm25View::none().with_chunks(list.drop_last());
        lemma_with_chunk_wf(before, list.last());
        if text::token_hashes(list.last().text).len() > 0 {
            assert(v.doc_len.dom() =~= before.doc_len.dom().insert(list.last().id));
        }
    } else {
        assert forall|t: u64| #[trigger] count_of(v.doc_freq, t) == v.holding(t).len() by {
            assert(v.holding(t) =~= Set::<u64>::empty());
        }
        assert(v.term_freq.dom() =~= v.doc_len.dom());
    }
}

/// `id` is that of a chunk of `list` with tokens.
pub open spec fn has_tokens(list: Seq<chunk::ChunkView>, id: u64) -> bool {
    exists|i: int|
        #![trigger list[i]]
        0 <= i < list.len() && list[i].id == id && text::token_hashes(list[i].text).len() > 0
}

/// The index holds term frequencies and lengths of exactly the chunks with
/// tokens.
pub proof fn law_index_holds_the_chunks_with_tokens(list: Seq<chunk::ChunkView>, id: u64)
    ensures
        Bm25View::none().with_chunks(list).term_freq.contains_key(id) <==> has_tokens(list, id),
        Bm25View::none().with_chunks(list).doc_len.contains_key(id) <==> has_tokens(list, id),
    decreases list.len(),
{
    if list.len() > 0 {
        let init = list.drop_last();
        let last = list.last();
        law_index_holds_the_chunks_with_tokens(init, id);
        assert(list[list.len() - 1] == last);
        if has_tokens(init, id) {
            let i = choose|i: int|
                #![trigger init[i]]
                0 <= i < init.len() && init[i].id == id && text::token_hashes(init[i].text).len()
                    > 0;
            assert(list[i] == init[i]);
        }
        if has_tokens(list, id) && !(last.id == id && text::token_hashes(last.text).len() > 0) {
            let i = choose|i: int|
                #![trigger list[i]]
                0 <= i < list.len() && list[i].id == id && text::token_hashes(list[i].text).len()
                    > 0;
            assert(init[i] == list[i]);
        }
    }
}

/// Raising a count raises the sum.
proof fn lemma_bump_total(m: Map<u64, u32>, k: u64)
    requires
        m.dom().finite(),
        count_of(m, k) < u32::MAX,
    ensures
        bumped(m, k).dom().finite(),
        total(bumped(m, k)) == total(m) + 1,
{
    let after = bumped(m, k);
    assert(after.dom() =~= m.dom().insert(k));
    lemma_total_remove(after, k);
    if m.contains_key(k) {
        lemma_total_remove(m, k);
        assert(after.remove(k) =~= m.remove(k));
    } else {
        assert(after.remove(k) =~= m);
    }
}

/// The length of a chunk is the sum of its term frequencies.
pub proof fn law_length_is_the_sum_of_frequencies(tokens: Seq<u64>)
    requires
        tokens.len() <= u32::MAX,
    ensures
        frequencies(tokens).dom().finite(),
        total(frequencies(tokens)) == tokens.len(),
    decreases tokens.len(),
{
    if tokens.len() > 0 {
        let init = tokens.drop_last();
        law_length_is_the_sum_of_frequencies(init);
        law_frequencies_count_occurrences(init, tokens.last());
        lemma_bump_total(frequencies(init), tokens.last());
    }
}

/// No two of `list` have the same identifier.
pub open spec fn distinct_ids(list: Seq<chunk::ChunkView>) -> bool {
    forall|i: int, j: int|
        #![trigger list[i], list[j]]
        0 <= i < j < list.len() ==> list[i].id != list[j].id
}

/// The index knows for every token how many chunks hold it, and how many chunks
/// hold any, provided that identifiers are distinct.
pub proof fn law_index_counts_chunks(list: Seq<chunk::ChunkView>, t: u64)
    requires
        distinct_ids(list),
        list.len() <= u32::MAX,
    ensures
        count_of(Bm25View::none().with_chunks(list).doc_freq, t) == holders(list, t),
        Bm25View::none().with_chunks(list).n_docs == with_tokens(list),
        0 <= holders(list, t) <= with_tokens(list) <= list.len(),
    decreases list.len(),
{
    if list.len() > 0 {
        let init = list.drop_last();
        let last = list.last();
        lemma_distinct_init(list);
        law_index_counts_chunks(init, t);
        law_index_fits_together(init);
        let v = Bm25View::none().with_chunks(init);
        let tokens = text::token_hashes(last.text);
        if tokens.len() > 0 {
            law_index_holds_the_chunks_with_tokens(init, last.id);
            if has_tokens(init, last.id) {
                let i = choose|i: int|
                    #![trigger init[i]]
                    0 <= i < init.len() && init[i].id == last.id && text::token_hashes(
                        init[i].text,
                    ).len() > 0;
                assert(list[i] == init[i]);
                assert(list[i].id != list[list.len() - 1].id);
            }
            lemma_without_unknown(v, last.id);
            text::lemma_unique(tokens);
            let keys = text::unique(tokens);
            assert forall|s: u64| #[trigger] v.doc_freq.contains_key(s) implies v.doc_freq[s]
                < u32::MAX by {
                lemma_holding(v, s);
                assert(count_of(v.doc_freq, s) == v.holding(s).len());
            }
            lemma_bump_distinct(v.doc_freq, keys);
            let after = all_bumped(v.doc_freq, keys);
            assert(after.contains_key(t) <==> v.doc_freq.contains_key(t) || keys.contains(t));
            assert(keys.contains(t) <==> tokens.contains(t));
        } else {
            assert(!tokens.contains(t));
        }
    }
}

/// A list with distinct identifiers has them without its last member too.
proof fn lemma_distinct_init(list: Seq<chunk::ChunkView>)
    requires
        distinct_ids(list),
        list.len() > 0,
    ensures
        distinct_ids(list.drop_last()),
{
    let init = list.drop_last();
    assert forall|a: int, b: int|
        #![trigger init[a], init[b]]
        0 <= a < b < init.len() implies init[a].id != init[b].id by {
        assert(init[a] == list[a] && init[b] == list[b]);
    }
}

/// The index knows of every chunk with tokens its length and its own term
/// frequencies, provided that identifiers are distinct.
pub proof fn law_index_knows_each_chunk(list: Seq<chunk::ChunkView>, i: int)
    requires
        distinct_ids(list),
        0 <= i < list.len(),
        text::token_hashes(list[i].text).len() > 0,
    ensures
        ({
            let v = Bm25View::none().with_chunks(list);
            let tokens = text::token_hashes(list[i].text);
            &&& v.term_freq.contains_key(list[i].id)
            &&& v.term_freq[list[i].id] == frequencies(tokens)
            &&& v.doc_len.contains_key(list[i].id)
            &&& v.doc_len[list[i].id] == tokens.len() as u32
        }),
    decreases list.len(),
{
    let init = list.drop_last();
    if i < init.len() {
        assert(init[i] == list[i]);
        lemma_distinct_init(list);
        law_index_knows_each_chunk(init, i);
        assert(list[i].id != list[list.len() - 1].id);
    }
}

/// Terms come only from tokens of the query that the chunk holds.
proof fn lemma_no_terms(tf: Map<u64, u32>, df: Map<u64, u32>, keys: Seq<u64>)
    requires
        forall|i: int| 0 <= i < keys.len() ==> !tf.contains_key(#[trigger] keys[i]),
    ensures
        term_stats(tf, df, keys).len() == 0,
    decreases keys.len(),
{
    if keys.len() > 0 {
        let init = keys.drop_last();
        assert forall|i: int| 0 <= i < init.len() implies !tf.contains_key(#[trigger] init[i]) by {
            assert(init[i] == keys[i]);
        }
        lemma_no_terms(tf, df, init);
        assert(keys.last() == keys[keys.len() - 1]);
    }
}

/// A chunk that holds no token of the query scores 0.
pub proof fn law_no_shared_token_scores_zero<F: Fn(&ScoreTerms) -> Single>(
    v: Bm25View,
    query: Seq<char>,
    id: u64,
    weigh: F,
    r: Single,
)
    requires
        is_score(v, query, id, weigh, r),
        forall|t: u64| #[trigger]
            text::token_hashes(query).contains(t) ==> !v.term_freq[id].contains_key(t),
    ensures
        r.bits == 0,
{
    let keys = text::unique(text::token_hashes(query));
    text::lemma_unique(text::token_hashes(query));
    assert forall|i: int| 0 <= i < keys.len() implies !v.term_freq[id].contains_key(
        #[trigger] keys[i],
    ) by {
        assert(keys.contains(keys[i]));
        assert(text::token_hashes(query).contains(keys[i]));
    }
    lemma_no_terms(v.term_freq[id], v.doc_freq, keys);
}

/// The best come highest first, no more than asked for, all of them from the
/// pairs they were chosen from, and nothing left behind beats one of them.
pub proof fn law_best_are_the_highest(
    pairs: Seq<(u64, Single)>,
    n: int,
    r: Seq<(u64, Single)>,
)
    requires
        0 <= n,
        pairs.len() <= usize::MAX,
        is_best(pairs, n, r),
    ensures
        r.len() == limited(pairs.len(), n),
        forall|i: int, j: int|
            #![trigger r[i], r[j]]
            0 <= i < j < r.len() ==> r[i].1.key() >= r[j].1.key(),
        forall|i: int| 0 <= i < r.len() ==> pairs.contains(#[trigger] r[i]),
        forall|k: int|
            #![trigger pairs[k]]
            0 <= k < pairs.len() ==> r.contains(pairs[k]) || forall|i: int|
                0 <= i < r.len() ==> (#[trigger] r[i]).1.key() >= pairs[k].1.key(),
{
    let order = choose|order: Seq<usize>| #[trigger]
        order::is_stable_descending(scores_of(pairs), order) && r == picked(
            pairs,
            order,
            limited(pairs.len(), n),
        );
    let keys = scores_of(pairs);
    let prior = order::descending(keys);
    assert forall|i: int, j: int|
        #![trigger r[i], r[j]]
        0 <= i < j < r.len() implies r[i].1.key() >= r[j].1.key() by {
        assert(prior(order[i] as int, order[j] as int));
    }
    assert forall|k: int| #![trigger pairs[k]] 0 <= k < pairs.len() implies r.contains(pairs[k])
        || forall|i: int| 0 <= i < r.len() ==> (#[trigger] r[i]).1.key() >= pairs[k].1.key() by {
        assert(order.contains(k as usize));
        let at = choose|at: int| 0 <= at < order.len() && order[at] == k as usize;
        if at < r.len() {
            assert(r[at] == pairs[k]);
        } else {
            assert forall|i: int| 0 <= i < r.len() implies (#[trigger] r[i]).1.key()
                >= pairs[k].1.key() by {
                assert(prior(order[i] as int, order[at] as int));
            }
        }
    }
}

/// A positive pair comes from the lists it was made from.
proof fn lemma_positives(ids: Seq<u64>, scores: Seq<Single>)
    requires
        ids.len() == scores.len(),
    ensures
        positives(ids, scores).len() <= ids.len(),
        forall|k: int|
            #![trigger positives(ids, scores)[k]]
            0 <= k < positives(ids, scores).len() ==> {
                &&& positives(ids, scores)[k].1.positive()
                &&& exists|i: int|
                    #![trigger ids[i]]
                    0 <= i < ids.len() && positives(ids, scores)[k] == (ids[i], scores[i])
            },
    decreases ids.len(),
{
    if ids.len() > 0 {
        let a = ids.drop_last();
        let b = scores.drop_last();
        lemma_positives(a, b);
        let before = positives(a, b);
        let all = positives(ids, scores);
        assert forall|k: int| #![trigger all[k]] 0 <= k < all.len() implies all[k].1.positive()
            && exists|i: int|
            #![trigger ids[i]]
            0 <= i < ids.len() && all[k] == (ids[i], scores[i]) by {
            if k < before.len() {
                let i = choose|i: int|
                    #![trigger a[i]]
                    0 <= i < a.len() && before[k] == (a[i], b[i]);
                assert(ids[i] == a[i] && scores[i] == b[i]);
            } else {
                let i = ids.len() - 1;
                assert(all[k] == (ids[i], scores[i]));
            }
        }
    }
}

/// What `top_n` returns are candidates with their positive scores, highest
/// first and no more than asked for; without candidates, indexed chunks.
pub proof fn law_top_n_are_scored_candidates<F: Fn(&ScoreTerms) -> Single>(
    v: Bm25View,
    query: Seq<char>,
    candidates: Seq<u64>,
    n: int,
    weigh: F,
    r: Seq<(u64, Single)>,
)
    requires
        0 <= n,
        candidates.len() <= usize::MAX,
        candidates.len() == 0 ==> v.doc_len.dom().finite() && v.doc_len.dom().len() <= usize::MAX,
        is_top_n(v, query, candidates, n, weigh, r),
    ensures
        r.len() <= n,
        forall|i: int, j: int|
            #![trigger r[i], r[j]]
            0 <= i < j < r.len() ==> r[i].1.key() >= r[j].1.key(),
        forall|i: int|
            #![trigger r[i]]
            0 <= i < r.len() ==> {
                &&& r[i].1.positive()
                &&& is_score(v, query, r[i].0, weigh, r[i].1)
                &&& if candidates.len() > 0 {
                    candidates.contains(r[i].0)
                } else {
                    v.doc_len.contains_key(r[i].0)
                }
            },
{
    if v.n_docs != 0 && n != 0 && text::token_hashes(query).len() > 0 {
        let (ids, scores) = choose|ids: Seq<u64>, scores: Seq<Single>|
            {
                &&& are_ids(v, candidates, ids)
                &&& #[trigger] are_scores(v, query, ids, weigh, scores)
                &&& is_best(positives(ids, scores), n, r)
            };
        let pairs = positives(ids, scores);
        lemma_positives(ids, scores);
        if candidates.len() == 0 {
            ids.unique_seq_to_set();
        }
        law_best_are_the_highest(pairs, n, r);
        assert forall|i: int| #![trigger r[i]] 0 <= i < r.len() implies {
            &&& r[i].1.positive()
            &&& is_score(v, query, r[i].0, weigh, r[i].1)
            &&& if candidates.len() > 0 {
                candidates.contains(r[i].0)
            } else {
                v.doc_len.contains_key(r[i].0)
            }
        } by {
            assert(pairs.contains(r[i]));
            let k = choose|k: int| 0 <= k < pairs.len() && pairs[k] == r[i];
            let at = choose|at: int|
                #![trigger ids[at]]
                0 <= at < ids.len() && pairs[k] == (ids[at], scores[at]);
            assert(is_score(v, query, ids[at], weigh, scores[at]));
            assert(ids.to_set().contains(ids[at]));
        }
    }
}

/// No two of `pairs` have the same identifier.
pub open spec fn are_apart(pairs: Seq<(u64, Single)>) -> bool {
    forall|i: int, j: int|
        #![trigger pairs[i], pairs[j]]
        0 <= i < j < pairs.len() ==> pairs[i].0 != pairs[j].0
}

/// Positive pairs of distinct identifiers are apart.
proof fn lemma_positives_apart(ids: Seq<u64>, scores: Seq<Single>)
    requires
        ids.len() == scores.len(),
        ids.no_duplicates(),
    ensures
        are_apart(positives(ids, scores)),
    decreases ids.len(),
{
    if ids.len() > 0 {
        let a = ids.drop_last();
        let b = scores.drop_last();
        lemma_positives_apart(a, b);
        lemma_positives(a, b);
        let before = positives(a, b);
        let all = positives(ids, scores);
        assert forall|i: int, j: int| #![trigger all[i], all[j]] 0 <= i < j < all.len() implies {
            all[i].0 != all[j].0
        } by {
            assert(all[i] == before[i]);
            if j < before.len() {
                assert(all[j] == before[j]);
            } else {
                let k = choose|k: int|
                    #![trigger a[k]]
                    0 <= k < a.len() && before[i] == (a[k], b[k]);
                assert(ids[k] == a[k]);
                assert(ids[k] != ids[ids.len() - 1]);
            }
        }
    }
}

/// `top_n` returns no identifier twice, if no candidate is given twice.
pub proof fn law_top_n_are_apart<F: Fn(&ScoreTerms) -> Single>(
    v: Bm25View,
    query: Seq<char>,
    candidates: Seq<u64>,
    n: int,
    weigh: F,
    r: Seq<(u64, Single)>,
)
    requires
        0 <= n,
        candidates.no_duplicates(),
        is_top_n(v, query, candidates, n, weigh, r),
    ensures
        are_apart(r),
{
    if v.n_docs != 0 && n != 0 && text::token_hashes(query).len() > 0 {
        let (ids, scores) = choose|ids: Seq<u64>, scores: Seq<Single>|
            {
                &&& are_ids(v, candidates, ids)
                &&& #[trigger] are_scores(v, query, ids, weigh, scores)
                &&& is_best(positives(ids, scores), n, r)
            };
        let pairs = positives(ids, scores);
        lemma_positives_apart(ids, scores);
        let order = choose|order: Seq<usize>| #[trigger]
            order::is_stable_descending(scores_of(pairs), order) && r == picked(
                pairs,
                order,
                limited(pairs.len(), n),
            );
        let prior = order::descending(scores_of(pairs));
        assert forall|i: int, j: int| #![trigger r[i], r[j]] 0 <= i < j < r.len() implies r[i].0
            != r[j].0 by {
            assert(prior(order[i] as int, order[j] as int));
            let a = pairs[order[i] as int];
            let b = pairs[order[j] as int];
            assert(r[i] == a && r[j] == b);
        }
    }
}

/// `weigh` gives the same score for terms that hold the same.
pub open spec fn weighs_alike<F: Fn(&ScoreTerms) -> Single>(weigh: F) -> bool {
    forall|s: ScoreTerms, t: ScoreTerms, a: Single, b: Single|
        s@ == t@ && #[trigger] call_ensures(weigh, (&s,), a) && #[trigger] call_ensures(
            weigh,
            (&t,),
            b,
        ) ==> a == b
}

/// The best of given candidates are determined: asked the same again, or of the
/// stored index, `top_n` gives the same answer, if `weigh` does.
pub proof fn law_same_query_same_top_n<F: Fn(&ScoreTerms) -> Single>(
    v: Bm25View,
    query: Seq<char>,
    candidates: Seq<u64>,
    n: int,
    weigh: F,
    r: Seq<(u64, Single)>,
    s: Seq<(u64, Single)>,
)
    requires
        candidates.len() > 0,
        weighs_alike(weigh),
        is_top_n(v, query, candidates, n, weigh, r),
        is_top_n(v, query, candidates, n, weigh, s),
    ensures
        r == s,
{
    if v.n_docs == 0 || n == 0 || text::token_hashes(query).len() == 0 {
        assert(r =~= s);
    } else {
        let (ids, a) = choose|ids: Seq<u64>, scores: Seq<Single>|
            {
                &&& are_ids(v, candidates, ids)
                &&& #[trigger] are_scores(v, query, ids, weigh, scores)
                &&& is_best(positives(ids, scores), n, r)
            };
        let (jds, b) = choose|ids: Seq<u64>, scores: Seq<Single>|
            {
                &&& are_ids(v, candidates, ids)
                &&& #[trigger] are_scores(v, query, ids, weigh, scores)
                &&& is_best(positives(ids, scores), n, s)
            };
        assert forall|i: int| 0 <= i < a.len() implies a[i] == b[i] by {
            assert(is_score(v, query, ids[i], weigh, a[i]));
            assert(is_score(v, query, jds[i], weigh, b[i]));
        }
        assert(a =~= b);
        let pairs = positives(ids, a);
        let x = choose|order: Seq<usize>| #[trigger]
            order::is_stable_descending(scores_of(pairs), order) && r == picked(
                pairs,
                order,
                limited(pairs.len(), n),
            );
        let y = choose|order: Seq<usize>| #[trigger]
            order::is_stable_descending(scores_of(pairs), order) && s == picked(
                pairs,
                order,
                limited(pairs.len(), n),
            );
        order::lemma_stable_order_unique(scores_of(pairs), x, y);
    }
}

/// Which of `keys` the statistics are of, by their places.
proof fn lemma_term_stats(tf: Map<u64, u32>, df: Map<u64, u32>, keys: Seq<u64>) -> (at: Seq<int>)
    ensures
        at.len() == term_stats(tf, df, keys).len(),
        forall|k: int|
            #![trigger at[k]]
            0 <= k < at.len() ==> {
                &&& 0 <= at[k] < keys.len()
                &&& tf.contains_key(keys[at[k]])
                &&& term_stats(tf, df, keys)[k].tf == tf[keys[at[k]]]
                &&& term_stats(tf, df, keys)[k].df == count_of(df, keys[at[k]])
            },
        forall|k: int, l: int|
            #![trigger at[k], at[l]]
            0 <= k < l < at.len() ==> at[k] < at[l],
        forall|i: int|
            #![trigger keys[i]]
            0 <= i < keys.len() && tf.contains_key(keys[i]) ==> at.contains(i),
    decreases keys.len(),
{
    if keys.len() == 0 {
        Seq::empty()
    } else {
        let init = keys.drop_last();
        let before = lemma_term_stats(tf, df, init);
        let n = keys.len() - 1;
        let at = if tf.contains_key(keys.last()) {
            before.push(n)
        } else {
            before
        };
        assert forall|k: int| #![trigger at[k]] 0 <= k < at.len() implies {
            &&& 0 <= at[k] < keys.len()
            &&& tf.contains_key(keys[at[k]])
            &&& term_stats(tf, df, keys)[k].tf == tf[keys[at[k]]]
            &&& term_stats(tf, df, keys)[k].df == count_of(df, keys[at[k]])
        } by {
            if k < before.len() {
                assert(at[k] == before[k]);
                assert(init[before[k]] == keys[before[k]]);
            }
        }
        assert forall|i: int|
            #![trigger keys[i]]
            0 <= i < keys.len() && tf.contains_key(keys[i]) implies at.contains(i) by {
            if i < n {
                assert(init[i] == keys[i]);
                assert(before.contains(i));
                let k = choose|k: int| 0 <= k < before.len() && before[k] == i;
                assert(at[k] == i);
            } else {
                assert(at[before.len() as int] == i);
            }
        }
        at
    }
}

/// A chunk that is indexed and holds at least one token of the query scores what
/// `weigh` makes of exactly those tokens of the query that it holds: for each, how
/// often it occurs in the chunk and in how many chunks, in the order in which
/// they first occur in the query, with the length of the chunk, the mean length
/// and the number of chunks.
pub proof fn law_shared_tokens_are_weighed<F: Fn(&ScoreTerms) -> Single>(
    v: Bm25View,
    query: Seq<char>,
    id: u64,
    weigh: F,
    r: Single,
    t: u64,
)
    requires
        is_score(v, query, id, weigh, r),
        v.doc_len.contains_key(id),
        v.term_freq.contains_key(id),
        text::token_hashes(query).contains(t),
        v.term_freq[id].contains_key(t),
    ensures
        exists|terms: ScoreTerms, held: Seq<u64>|
            {
                &&& #[trigger] call_ensures(weigh, (&terms,), r)
                &&& terms.doc_len == v.doc_len[id]
                &&& terms.avg_doc_len == v.avg_doc_len
                &&& terms.n_docs == v.n_docs
                &&& #[trigger] held.no_duplicates()
                &&& terms.terms@.len() == held.len()
                &&& forall|k: int|
                    #![trigger held[k]]
                    0 <= k < held.len() ==> {
                        &&& text::token_hashes(query).contains(held[k])
                        &&& v.term_freq[id].contains_key(held[k])
                        &&& terms.terms@[k].tf == v.term_freq[id][held[k]]
                        &&& terms.terms@[k].df == if v.doc_freq.contains_key(held[k]) {
                            v.doc_freq[held[k]]
                        } else {
                            0
                        }
                    }
                &&& forall|u: u64|
                    text::token_hashes(query).contains(u) && v.term_freq[id].contains_key(u)
                        ==> #[trigger] held.contains(u)
                &&& forall|k: int, l: int|
                    #![trigger held[k], held[l]]
                    0 <= k < l < held.len() ==> occurs_first(
                        text::token_hashes(query),
                        held[k],
                        held[l],
                    )
            },
{
    let all = text::token_hashes(query);
    let keys = text::unique(all);
    let tf = v.term_freq[id];
    text::lemma_unique(all);
    let at = lemma_term_stats(tf, v.doc_freq, keys);
    let held = at.map_values(|i: int| keys[i]);
    assert(keys.contains(t));
    let i = choose|i: int| 0 <= i < keys.len() && keys[i] == t;
    assert(at.contains(i));
    let stats = v.terms_for(query, id)->0;
    assert(stats.terms.len() > 0);
    let terms = choose|terms: ScoreTerms|
        terms@ == stats && #[trigger] call_ensures(weigh, (&terms,), r);
    assert forall|k: int| #![trigger held[k]] 0 <= k < held.len() implies {
        &&& all.contains(held[k])
        &&& tf.contains_key(held[k])
        &&& terms.terms@[k].tf == tf[held[k]]
        &&& terms.terms@[k].df == if v.doc_freq.contains_key(held[k]) {
            v.doc_freq[held[k]]
        } else {
            0
        }
    } by {
        assert(held[k] == keys[at[k]]);
        assert(keys.contains(keys[at[k]]));
    }
    assert forall|u: u64| all.contains(u) && tf.contains_key(u) implies #[trigger] held.contains(
        u,
    ) by {
        assert(keys.contains(u));
        let j = choose|j: int| 0 <= j < keys.len() && keys[j] == u;
        assert(at.contains(j));
        let k = choose|k: int| 0 <= k < at.len() && at[k] == j;
        assert(held[k] == u);
    }
    assert forall|k: int, l: int|
        #![trigger held[k], held[l]]
        0 <= k < l < held.len() implies occurs_first(all, held[k], held[l]) by {
        assert(at[k] < at[l]);
        text::lemma_unique_order(all, at[k], at[l]);
    }
    assert(held.no_duplicates()) by {
        assert forall|k: int, l: int| 0 <= k < held.len() && 0 <= l < held.len() && k
            != l implies held[k] != held[l] by {
            assert(at[k] != at[l]) by {
                if k < l {
                    assert(at[k] < at[l]);
                } else {
                    assert(at[l] < at[k]);
                }
            }
            assert(keys[at[k]] != keys[at[l]]);
        }
    }
    assert(call_ensures(weigh, (&terms,), r));
}

/// `a` occurs in `s` before the first `b`.
pub open spec fn occurs_first(s: Seq<u64>, a: u64, b: u64) -> bool {
    exists|k: int|
        #![trigger s[k]]
        0 <= k < s.len() && s[k] == a && forall|m: int| 0 <= m <= k ==> s[m] != b
}

/// A chunk that is not indexed scores 0.
pub proof fn law_unknown_chunk_scores_zero<F: Fn(&ScoreTerms) -> Single>(
    v: Bm25View,
    query: Seq<char>,
    id: u64,
    weigh: F,
    r: Single,
)
    requires
        is_score(v, query, id, weigh, r),
        !v.doc_len.contains_key(id) || !v.term_freq.contains_key(id),
    ensures
        r.bits == 0,
{
}

/// Where the positive pairs stand in the list they come from.
proof fn lemma_positives_at(ids: Seq<u64>, scores: Seq<Single>) -> (at: Seq<int>)
    requires
        ids.len() == scores.len(),
    ensures
        at.len() == positives(ids, scores).len(),
        forall|k: int|
            #![trigger at[k]]
            0 <= k < at.len() ==> 0 <= at[k] < ids.len() && positives(ids, scores)[k] == (
                ids[at[k]],
                scores[at[k]],
            ),
        forall|k: int, l: int|
            #![trigger at[k], at[l]]
            0 <= k < l < at.len() ==> at[k] < at[l],
        forall|i: int|
            #![trigger scores[i]]
            0 <= i < ids.len() && scores[i].positive() ==> at.contains(i),
    decreases ids.len(),
{
    if ids.len() == 0 {
        Seq::empty()
    } else {
        let a = ids.drop_last();
        let b = scores.drop_last();
        let before = lemma_positives_at(a, b);
        let n = ids.len() - 1;
        let at = if scores.last().positive() {
            before.push(n)
        } else {
            before
        };
        assert forall|k: int| #![trigger at[k]] 0 <= k < at.len() implies 0 <= at[k] < ids.len()
            && positives(ids, scores)[k] == (ids[at[k]], scores[at[k]]) by {
            if k < before.len() {
                assert(at[k] == before[k]);
                assert(a[before[k]] == ids[before[k]] && b[before[k]] == scores[before[k]]);
            }
        }
        assert forall|i: int|
            #![trigger scores[i]]
            0 <= i < ids.len() && scores[i].positive() implies at.contains(i) by {
            if i < n {
                assert(b[i] == scores[i]);
                assert(before.contains(i));
                let k = choose|k: int| 0 <= k < before.len() && before[k] == i;
                assert(at[k] == i);
            } else {
                assert(at[before.len() as int] == i);
            }
        }
        at
    }
}

/// No chunk that scores is left out for nothing: each candidate with a positive
/// score is among the results, or as many as were asked for are there and none of
/// them scores less. Without candidates this holds of every indexed chunk.
pub proof fn law_no_scorer_is_left_out<F: Fn(&ScoreTerms) -> Single>(
    v: Bm25View,
    query: Seq<char>,
    candidates: Seq<u64>,
    n: int,
    weigh: F,
    r: Seq<(u64, Single)>,
    id: u64,
)
    requires
        0 < n,
        0 < v.n_docs,
        text::token_hashes(query).len() > 0,
        candidates.len() <= usize::MAX,
        candidates.len() == 0 ==> v.doc_len.dom().finite() && v.doc_len.dom().len() <= usize::MAX,
        is_top_n(v, query, candidates, n, weigh, r),
        if candidates.len() > 0 {
            candidates.contains(id)
        } else {
            v.doc_len.contains_key(id)
        },
    ensures
        exists|s: Single|
            {
                &&& #[trigger] is_score(v, query, id, weigh, s)
                &&& s.positive() ==> r.contains((id, s)) || (r.len() == n && forall|i: int|
                    0 <= i < r.len() ==> (#[trigger] r[i]).1.key() >= s.key())
            },
{
    let (ids, scores) = choose|ids: Seq<u64>, scores: Seq<Single>|
        {
            &&& are_ids(v, candidates, ids)
            &&& #[trigger] are_scores(v, query, ids, weigh, scores)
            &&& is_best(positives(ids, scores), n, r)
        };
    if candidates.len() == 0 {
        ids.unique_seq_to_set();
        assert(ids.to_set().contains(id));
    }
    assert(ids.contains(id));
    let i = choose|i: int| 0 <= i < ids.len() && ids[i] == id;
    let s = scores[i];
    assert(is_score(v, query, ids[i], weigh, s));
    let pairs = positives(ids, scores);
    lemma_positives(ids, scores);
    let at = lemma_positives_at(ids, scores);
    law_best_are_the_highest(pairs, n, r);
    if s.positive() {
        assert(at.contains(i));
        let k = choose|k: int| 0 <= k < at.len() && at[k] == i;
        assert(pairs[k] == (id, s));
        if !r.contains(pairs[k]) {
            if r.len() < n {
                lemma_all_picked(pairs, n, r, k);
            }
        }
    }
}

/// Where there is room for all pairs, all are picked.
proof fn lemma_all_picked(pairs: Seq<(u64, Single)>, n: int, r: Seq<(u64, Single)>, k: int)
    requires
        0 <= k < pairs.len() <= usize::MAX,
        is_best(pairs, n, r),
        r.len() < n,
    ensures
        r.contains(pairs[k]),
{
    let order = choose|order: Seq<usize>| #[trigger]
        order::is_stable_descending(scores_of(pairs), order) && r == picked(
            pairs,
            order,
            limited(pairs.len(), n),
        );
    assert(order.contains(k as usize));
    let i = choose|i: int| 0 <= i < order.len() && order[i] == k as usize;
    assert(r[i] == pairs[k]);
}

/// Candidates with equal scores come in the order in which they were given.
pub proof fn law_equal_scores_keep_their_order<F: Fn(&ScoreTerms) -> Single>(
    v: Bm25View,
    query: Seq<char>,
    candidates: Seq<u64>,
    n: int,
    weigh: F,
    r: Seq<(u64, Single)>,
    i: int,
    j: int,
)
    requires
        0 < n,
        0 < candidates.len() <= usize::MAX,
        is_top_n(v, query, candidates, n, weigh, r),
        0 <= i < j < r.len(),
        r[i].1.key() == r[j].1.key(),
    ensures
        exists|a: int, b: int|
            #![trigger candidates[a], candidates[b]]
            0 <= a < b < candidates.len() && candidates[a] == r[i].0 && candidates[b] == r[j].0,
{
    let (ids, scores) = choose|ids: Seq<u64>, scores: Seq<Single>|
        {
            &&& are_ids(v, candidates, ids)
            &&& #[trigger] are_scores(v, query, ids, weigh, scores)
            &&& is_best(positives(ids, scores), n, r)
        };
    let pairs = positives(ids, scores);
    let at = lemma_positives_at(ids, scores);
    let order = choose|order: Seq<usize>| #[trigger]
        order::is_stable_descending(scores_of(pairs), order) && r == picked(
            pairs,
            order,
            limited(pairs.len(), n),
        );
    let prior = order::descending(scores_of(pairs));
    assert(prior(order[i] as int, order[j] as int));
    let x = order[i] as int;
    let y = order[j] as int;
    assert(r[i] == pairs[x] && r[j] == pairs[y]);
    assert(x < y);
    assert(at[x] < at[y]);
    assert(candidates[at[x]] == r[i].0 && candidates[at[y]] == r[j].0);
}

/// The mean is made of the sum of all lengths and the number of chunks, and is 0
/// where there are none; nothing else changes.
pub proof fn law_mean_is_of_all_lengths<F: Fn(u128, u32) -> Single>(
    v: Bm25View,
    mean: F,
    r: Bm25View,
)
    requires
        is_finalized(v, mean, r),
    ensures
        r.term_freq == v.term_freq,
        r.doc_freq == v.doc_freq,
        r.doc_len == v.doc_len,
        r.n_docs == v.n_docs,
        v.n_docs == 0 ==> r.avg_doc_len.bits == 0,
        v.n_docs > 0 ==> exists|sum: u128|
            sum == total(v.doc_len) && #[trigger] call_ensures(
                mean,
                (sum, v.n_docs),
                r.avg_doc_len,
            ),
{
    if v.n_docs > 0 {
        let sum = total(v.doc_len) as u128;
        assert(call_ensures(mean, (sum, v.n_docs), r.avg_doc_len));
    }
}

/// A sum of counts is 0 without any, and one more count adds itself.
pub proof fn law_counts_add_up(m: Map<u64, u32>, k: u64, n: u32)
    requires
        m.dom().finite(),
        !m.contains_key(k),
    ensures
        total(Map::<u64, u32>::empty()) == 0,
        total(m.insert(k, n)) == total(m) + n,
{
    let all = m.insert(k, n);
    lemma_total_remove(all, k);
    assert(all.remove(k) =~= m);
}

/// A chunk with tokens is taken in: its own statistics are those of its text,
/// those of all other chunks stay, and all fit together. A chunk without tokens
/// changes nothing.
pub proof fn law_chunk_is_taken_in(v: Bm25View, c: chunk::ChunkView)
    requires
        v.wf(),
        v.has_room(c.id),
    ensures
        text::tokens(c.text).len() == 0 ==> v.with_chunk(c) == v,
        text::tokens(c.text).len() > 0 ==> {
            let w = v.with_chunk(c);
            &&& w.wf()
            &&& w.term_freq.dom() == v.term_freq.dom().insert(c.id)
            &&& w.term_freq[c.id] == frequencies(text::token_hashes(c.text))
            &&& w.doc_len[c.id] == text::tokens(c.text).len() as u32
            &&& forall|id: u64|
                id != c.id && #[trigger] v.term_freq.contains_key(id) ==> w.term_freq[id]
                    == v.term_freq[id] && w.doc_len[id] == v.doc_len[id]
            &&& w.avg_doc_len == v.avg_doc_len
        },
{
    lemma_with_chunk_wf(v, c);
    let w = v.with_chunk(c);
    if text::tokens(c.text).len() > 0 {
        assert(w.term_freq.dom() =~= v.term_freq.dom().insert(c.id));
    }
}

/// A chunk that is taken out is gone, and nothing else is.
pub proof fn law_chunk_is_taken_out(v: Bm25View, id: u64)
    requires
        v.wf(),
    ensures
        v.without(id).wf(),
        v.without(id).term_freq == v.term_freq.remove(id),
        v.without(id).doc_len == v.doc_len.remove(id),
        v.without(id).avg_doc_len == v.avg_doc_len,
        !v.term_freq.contains_key(id) ==> v.without(id) == v,
{
    lemma_without_wf(v, id);
    if !v.term_freq.contains_key(id) {
        assert(v.doc_len.dom() == v.term_freq.dom());
        lemma_without_unknown(v, id);
    }
}

/// A later chunk takes the place of an earlier one with the same identifier, as if
/// that one had never been: of the chunks themselves nothing of it is left.
pub proof fn law_later_chunk_takes_the_place(v: Bm25View, a: chunk::ChunkView, b: chunk::ChunkView)
    requires
        v.wf(),
        v.has_room(a.id),
        a.id == b.id,
        text::tokens(b.text).len() > 0,
    ensures
        v.with_chunk(a).with_chunk(b).term_freq == v.with_chunk(b).term_freq,
        v.with_chunk(a).with_chunk(b).doc_len == v.with_chunk(b).doc_len,
        v.with_chunk(a).with_chunk(b).n_docs == v.with_chunk(b).n_docs,
        forall|t: u64| #[trigger]
            count_of(v.with_chunk(a).with_chunk(b).doc_freq, t) == count_of(
                v.with_chunk(b).doc_freq,
                t,
            ),
{
    let w = v.with_chunk(a);
    law_chunk_is_taken_in(v, a);
    assert(w.has_room(b.id)) by {
        if text::tokens(a.text).len() > 0 {
            assert(w.term_freq.dom() == w.doc_len.dom());
            assert(w.term_freq.contains_key(a.id));
        }
    }
    law_chunk_is_taken_in(v, b);
    law_chunk_is_taken_in(w, b);
    let x = w.with_chunk(b);
    let y = v.with_chunk(b);
    assert(x.term_freq =~= y.term_freq);
    assert(x.doc_len =~= y.doc_len);
    assert forall|t: u64| #[trigger] count_of(x.doc_freq, t) == count_of(y.doc_freq, t) by {
        assert(count_of(x.doc_freq, t) == x.holding(t).len());
        assert(count_of(y.doc_freq, t) == y.holding(t).len());
        assert(x.holding(t) =~= y.holding(t));
    }
}

/// What `top_n` gives are scores of the candidates that are asked for, at most as
/// many as that, and the best there are.
pub proof fn law_top_n_gives_the_best<F: Fn(&ScoreTerms) -> Single>(
    index: &Bm25Index,
    query: &str,
    candidates: &Vec<u64>,
    n: usize,
    weigh: &F,
    r: Vec<(u64, Single)>,
    id: u64,
)
    requires
        call_ensures(Bm25Index::top_n::<F>, (index, query, candidates, n, weigh), r),
        0 < candidates@.len() <= usize::MAX,
    ensures
        r@.len() <= n,
        forall|i: int|
            #![trigger r@[i]]
            0 <= i < r@.len() ==> candidates@.contains(r@[i].0) && r@[i].1.positive() && is_score(
                index@,
                query@,
                r@[i].0,
                *weigh,
                r@[i].1,
            ),
        n > 0 && index@.n_docs > 0 && text::tokens(query@).len() > 0 && candidates@.contains(id)
            ==> exists|s: Single|
            {
                &&& #[trigger] is_score(index@, query@, id, *weigh, s)
                &&& s.positive() ==> r@.contains((id, s)) || (r@.len() == n && forall|i: int|
                    0 <= i < r@.len() ==> (#[trigger] r@[i]).1.key() >= s.key())
            },
{
    law_top_n_are_scored_candidates(index@, query@, candidates@, n as int, *weigh, r@);
    if n > 0 && index@.n_docs > 0 && text::tokens(query@).len() > 0 && candidates@.contains(id) {
        assert(text::token_hashes(query@).len() == text::tokens(query@).len());
        law_no_scorer_is_left_out(index@, query@, candidates@, n as int, *weigh, r@, id);
    }
}

/// A chunk that shares a token with the query gets the score that `weigh` makes of
/// its terms, and one that shares none or is not indexed gets 0.
pub proof fn law_score_is_of_the_shared_tokens<F: Fn(&ScoreTerms) -> Single>(
    index: &Bm25Index,
    query: &str,
    id: u64,
    weigh: &F,
    r: Single,
    k: int,
)
    requires
        call_ensures(Bm25Index::score::<F>, (index, query, id, weigh), r),
    ensures
        !index@.doc_len.contains_key(id) || !index@.term_freq.contains_key(id) ==> r.bits == 0,
        index@.doc_len.contains_key(id) && index@.term_freq.contains_key(id) && 0 <= k
            < text::tokens(query@).len() && index@.term_freq[id].contains_key(
            text::token_hashes(query@)[k],
        ) ==> exists|terms: ScoreTerms|
            {
                &&& #[trigger] call_ensures(*weigh, (&terms,), r)
                &&& terms.doc_len == index@.doc_len[id]
                &&& terms.avg_doc_len == index@.avg_doc_len
                &&& terms.n_docs == index@.n_docs
                &&& terms.terms@.len() > 0
            },
{
    let v = index@;
    if v.doc_len.contains_key(id) && v.term_freq.contains_key(id) && 0 <= k < text::tokens(
        query@,
    ).len() && v.term_freq[id].contains_key(text::token_hashes(query@)[k]) {
        let all = text::token_hashes(query@);
        let keys = text::unique(all);
        text::lemma_unique(all);
        assert(all.contains(all[k]));
        assert(keys.contains(all[k]));
        let j = choose|j: int| 0 <= j < keys.len() && keys[j] == all[k];
        let at = lemma_term_stats(v.term_freq[id], v.doc_freq, keys);
        assert(at.contains(j));
        let t = v.terms_for(query@, id)->0;
        assert(t.terms.len() > 0);
        let terms = choose|terms: ScoreTerms|
            terms@ == t && #[trigger] call_ensures(*weigh, (&terms,), r);
        assert(terms@.doc_len == v.doc_len[id]);
    }
}

} // verus!
