use crate::chunk;
use crate::chunk::Chunk;
use crate::index::archive;
use crate::index::archive::from_file_bytes;
use crate::index::bloom;
use crate::index::bloom::{can_screen, candidates_archived};
use crate::index::bm25;
use crate::index::bm25::{top_n_archived, ScoreTerms};
use crate::index::frame;
use crate::index::minhash;
use crate::index::minhash::{archived_jaccard, MinHash, Ratio};
use crate::index::store;
use crate::index::store::{IndexStore, Payload};
use crate::order;
use crate::order::descending_order;
use crate::search::qubo;
use crate::search::qubo::{EnergyTerms, QuboProblem, SimulatedAnnealer};
use crate::single::Single;
use crate::text;
use crate::{PersistError, RpgrepError};
use rand::rngs::StdRng;
use std::collections::HashMap;
use vstd::hash_set::StringHashSet;
use vstd::prelude::*;

verus! {

/// A chunk that was found, with its score between 0 and 1.
#[derive(Debug)]
pub struct SearchResult {
    pub chunk: Chunk,
    pub score: Single,
}

/// What a `SearchResult` holds.
#[verifier::ext_equal]
pub struct ResultView {
    pub chunk: chunk::ChunkView,
    pub score: Single,
}

impl View for SearchResult {
    type V = ResultView;

    open spec fn view(&self) -> ResultView {
        ResultView { chunk: self.chunk@, score: self.score }
    }
}

/// What a list of results holds.
pub open spec fn result_views(list: Seq<SearchResult>) -> Seq<ResultView> {
    list.map_values(|r: SearchResult| r@)
}

/// The formulas that a search computes with.
pub struct Formulas<W, S, H, E, C, A> {
    /// Score of a chunk from its terms.
    pub weigh: W,
    /// A score as a share of the highest one.
    pub scale: S,
    /// A share as a number.
    pub share: H,
    /// Energy of a choice from its terms.
    pub evaluate: E,
    /// The temperature that follows another.
    pub cool: C,
    /// Whether a change that does not lower the energy is taken.
    pub accept: A,
}

/// `share` takes any share.
pub open spec fn takes_shares<H: Fn(Ratio) -> Single>(share: H) -> bool {
    forall|r: Ratio| #[trigger] call_requires(share, (r,))
}

/// The formulas take whatever a search hands them.
pub open spec fn formulas_ready<
    W: Fn(&ScoreTerms) -> Single,
    S: Fn(Single, Single) -> Single,
    H: Fn(Ratio) -> Single,
    E: Fn(&EnergyTerms) -> Single,
    C: Fn(SimulatedAnnealer, Single) -> Single,
    A: Fn(StdRng, Single, Single, Single) -> (StdRng, bool),
>(f: Formulas<W, S, H, E, C, A>) -> bool {
    &&& bm25::takes_all(f.weigh)
    &&& forall|s: Single, max: Single| #[trigger] call_requires(f.scale, (s, max))
    &&& takes_shares(f.share)
    &&& qubo::take_all(f.evaluate, f.cool, f.accept)
}

/// Where each identifier stands in the list, the last place counting.
pub open spec fn places(list: Seq<chunk::ChunkView>) -> Map<u64, usize>
    decreases list.len(),
{
    if list.len() == 0 {
        Map::empty()
    } else {
        places(list.drop_last()).insert(list.last().id, (list.len() - 1) as usize)
    }
}

/// The scored identifiers as places in the list, as far as they have one.
pub open spec fn resolved(at: Map<u64, usize>, scored: Seq<(u64, Single)>) -> Seq<(usize, Single)>
    decreases scored.len(),
{
    if scored.len() == 0 {
        Seq::empty()
    } else {
        let before = resolved(at, scored.drop_last());
        let last = scored.last();
        if at.contains_key(last.0) {
            before.push((at[last.0], last.1))
        } else {
            before
        }
    }
}

/// The least number that scores are divided by: one millionth.
pub const SCALE_FLOOR_BITS: u32 = 0x3586_37BD;

/// The highest of the scores, and not less than zero.
pub open spec fn highest(items: Seq<(usize, Single)>) -> Single
    decreases items.len(),
{
    if items.len() == 0 {
        Single { bits: 0 }
    } else {
        highest(items.drop_last()).greater(items.last().1)
    }
}

/// What the scores are divided by.
pub open spec fn scale_base(items: Seq<(usize, Single)>) -> Single {
    highest(items).greater(Single { bits: SCALE_FLOOR_BITS })
}

/// `relevance` holds the score of each item as a share of the highest one.
pub open spec fn are_scaled<S: Fn(Single, Single) -> Single>(
    scale: S,
    items: Seq<(usize, Single)>,
    relevance: Seq<Single>,
) -> bool {
    &&& relevance.len() == items.len()
    &&& forall|i: int|
        #![trigger relevance[i]]
        0 <= i < items.len() ==> call_ensures(
            scale,
            (items[i].1, scale_base(items)),
            relevance[i],
        )
}

/// The signature of the chunk at place `at`, if there is one.
pub open spec fn signature_at(v: store::StoreView, at: usize) -> Option<Seq<u64>> {
    let id = v.chunks[at as int].id;
    if v.minhash.contains_key(id) {
        Some(v.minhash[id])
    } else {
        None
    }
}

/// `r` is what `share` makes of the estimate from the signatures `a` and `b`.
pub open spec fn is_shared<H: Fn(Ratio) -> Single>(
    share: H,
    a: Seq<u64>,
    b: Seq<u64>,
    r: Single,
) -> bool {
    exists|e: Ratio| minhash::is_estimate(a, b, e) && #[trigger] call_ensures(share, (e,), r)
}

/// `r` is how alike the items `i` and `j` are: the estimate from their
/// signatures, and 0 where one is missing or both are the same item.
pub open spec fn is_likeness<H: Fn(Ratio) -> Single>(
    v: store::StoreView,
    items: Seq<(usize, Single)>,
    share: H,
    i: int,
    j: int,
    r: Single,
) -> bool {
    let a = signature_at(v, items[i].0);
    let b = signature_at(v, items[j].0);
    if i == j || a is None || b is None {
        r == (Single { bits: 0 })
    } else {
        is_shared(share, a->0, b->0, r)
    }
}

/// `m` holds how alike each two items are.
pub open spec fn are_likenesses<H: Fn(Ratio) -> Single>(
    v: store::StoreView,
    items: Seq<(usize, Single)>,
    share: H,
    m: Seq<Seq<Single>>,
) -> bool {
    &&& m.len() == items.len()
    &&& forall|i: int| 0 <= i < m.len() ==> (#[trigger] m[i]).len() == items.len()
    &&& forall|i: int, j: int|
        0 <= i < items.len() && 0 <= j < items.len() ==> is_likeness(
            v,
            items,
            share,
            i,
            j,
            #[trigger] m[i][j],
        )
}

/// The tokens of each item.
pub open spec fn item_tokens(v: store::StoreView, items: Seq<(usize, Single)>) -> Seq<usize> {
    items.map_values(
        |item: (usize, Single)| chunk::tokens_in(v.chunks[item.0 as int].text) as usize,
    )
}

/// `p` is the choice to be made among `items`.
pub open spec fn is_problem<S: Fn(Single, Single) -> Single, H: Fn(Ratio) -> Single>(
    v: store::StoreView,
    items: Seq<(usize, Single)>,
    budget: usize,
    scale: S,
    share: H,
    p: qubo::ProblemView,
) -> bool {
    &&& are_scaled(scale, items, p.relevance)
    &&& are_likenesses(v, items, share, p.similarity)
    &&& p.tokens == item_tokens(v, items)
    &&& p.budget == budget
    &&& p.lambda == (Single { bits: 0x3F00_0000 })
    &&& p.mu == (Single { bits: 0x3A83_126F })
}

/// The chosen items with their scores, as they stand.
pub open spec fn chosen_results(
    v: store::StoreView,
    items: Seq<(usize, Single)>,
    relevance: Seq<Single>,
    x: Seq<bool>,
) -> Seq<ResultView> {
    qubo::chosen(
        Seq::new(
            items.len(),
            |i: int| ResultView { chunk: v.chunks[items[i].0 as int], score: relevance[i] },
        ),
        x,
    )
}

/// The scores of `list`.
pub open spec fn result_scores(list: Seq<ResultView>) -> Seq<Single> {
    list.map_values(|r: ResultView| r.score)
}

/// `r` holds `list` by descending score, equal scores in their original order.
pub open spec fn is_sorted_list(list: Seq<ResultView>, r: Seq<ResultView>) -> bool {
    exists|order: Seq<usize>| #[trigger]
        order::is_stable_descending(result_scores(list), order) && r == Seq::new(
            list.len(),
            |i: int| list[order[i] as int],
        )
}

/// The greater of the two.
pub open spec fn at_least(n: usize, least: usize) -> usize {
    if n < least {
        least
    } else {
        n
    }
}

/// How many chunks go into the choice at least.
pub const MIN_CANDIDATES: usize = 10;

/// `r` is the answer to `query` among the chunks `ids`: the best by score, as
/// many as `topk` allows, thinned out by the annealer and sorted by score.
pub open spec fn is_ranking<
    W: Fn(&ScoreTerms) -> Single,
    S: Fn(Single, Single) -> Single,
    H: Fn(Ratio) -> Single,
    E: Fn(&EnergyTerms) -> Single,
    C: Fn(SimulatedAnnealer, Single) -> Single,
    A: Fn(StdRng, Single, Single, Single) -> (StdRng, bool),
>(
    v: store::StoreView,
    query: Seq<char>,
    budget: usize,
    topk: usize,
    ids: Seq<u64>,
    f: Formulas<W, S, H, E, C, A>,
    r: Seq<ResultView>,
) -> bool {
    if ids.len() == 0 {
        r.len() == 0
    } else {
        exists|scored: Seq<(u64, Single)>, p: qubo::ProblemView, x: Seq<bool>|
            {
                let items = resolved(places(v.chunks), scored);
                &&& #[trigger] bm25::is_top_n(
                    v.bm25,
                    query,
                    ids,
                    at_least(topk, MIN_CANDIDATES) as int,
                    f.weigh,
                    scored,
                )
                &&& is_problem(v, items, budget, f.scale, f.share, p)
                &&& #[trigger] qubo::is_solution(
                    annealer(),
                    p,
                    f.evaluate,
                    f.cool,
                    f.accept,
                    x,
                )
                &&& is_sorted_list(chosen_results(v, items, p.relevance, x), r)
            }
    }
}

/// The annealer that searches are made with.
pub open spec fn annealer() -> SimulatedAnnealer {
    SimulatedAnnealer {
        initial_temp: Single { bits: 0x40A0_0000 },
        final_temp: Single { bits: 0x3C23_D70A },
        steps: 5000,
        seed: 0xC0DE_F00D,
    }
}

/// Places lie within the list and hold the identifier they stand for.
proof fn lemma_places(list: Seq<chunk::ChunkView>)
    requires
        list.len() <= usize::MAX,
    ensures
        forall|id: u64| #[trigger]
            places(list).contains_key(id) ==> places(list)[id] < list.len()
                && list[places(list)[id] as int].id == id,
        forall|i: int|
            #![trigger list[i]]
            0 <= i < list.len() ==> places(list).contains_key(list[i].id) && i <= places(
                list,
            )[list[i].id],
    decreases list.len(),
{
    if list.len() > 0 {
        let init = list.drop_last();
        lemma_places(init);
        let before = places(init);
        assert forall|id: u64| #[trigger] places(list).contains_key(id) implies places(list)[id]
            < list.len() && list[places(list)[id] as int].id == id by {
            if id != list.last().id {
                assert(before.contains_key(id));
                assert(init[before[id] as int] == list[before[id] as int]);
            }
        }
        assert forall|i: int| #![trigger list[i]] 0 <= i < list.len() implies places(
            list,
        ).contains_key(list[i].id) && i <= places(list)[list[i].id] by {
            if i < init.len() {
                assert(init[i] == list[i]);
            }
        }
    }
}

/// Where each identifier stands in the list.
fn find_places(chunks: &Vec<Chunk>) -> (r: HashMap<u64, usize>)
    ensures
        r@ == places(chunk::views(chunks@)),
{
    broadcast use vstd::std_specs::hash::group_hash_axioms;

    let ghost all = chunk::views(chunks@);
    let mut m: HashMap<u64, usize> = HashMap::new();
    let mut i: usize = 0;
    assert(places(all.take(0)) =~= m@);
    while i < chunks.len()
        invariant
            i <= chunks.len(),
            all == chunk::views(chunks@),
            m@ == places(all.take(i as int)),
        decreases chunks.len() - i,
    {
        proof {
            assert(all.take(i + 1).drop_last() =~= all.take(i as int));
            assert(all.take(i + 1).last() == chunks@[i as int]@);
        }
        m.insert(chunks[i].id, i);
        i = i + 1;
    }
    assert(all.take(all.len() as int) =~= all);
    m
}

/// All items stand within a list of `len`.
pub open spec fn within_list(items: Seq<(usize, Single)>, len: nat) -> bool {
    forall|i: int| 0 <= i < items.len() ==> (#[trigger] items[i]).0 < len
}

/// The scored identifiers as places in the list.
fn resolve(chunks: &Vec<Chunk>, scored: &Vec<(u64, Single)>) -> (r: Vec<(usize, Single)>)
    ensures
        r@ == resolved(places(chunk::views(chunks@)), scored@),
        within_list(r@, chunks@.len()),
{
    broadcast use vstd::std_specs::hash::group_hash_axioms;

    let at: HashMap<u64, usize> = find_places(chunks);
    let len: usize = chunks.len();
    proof {
        assert(chunk::views(chunks@).len() == chunks@.len());
        lemma_places(chunk::views(chunks@));
    }
    let mut out: Vec<(usize, Single)> = Vec::new();
    let mut i: usize = 0;
    while i < scored.len()
        invariant
            i <= scored.len(),
            len == chunks@.len(),
            forall|id: u64| #[trigger] at@.contains_key(id) ==> at@[id] < len,
            out@ == resolved(at@, scored@.take(i as int)),
            within_list(out@, len as nat),
        decreases scored.len() - i,
    {
        let pair: (u64, Single) = scored[i];
        assert(scored@.take(i + 1).drop_last() =~= scored@.take(i as int));
        if let Some(place) = at.get(&pair.0) {
            assert(at@.contains_key(pair.0));
            out.push((*place, pair.1));
        }
        i = i + 1;
    }
    assert(scored@.take(scored@.len() as int) =~= scored@);
    out
}

/// What the scores are divided by.
fn find_base(items: &Vec<(usize, Single)>) -> (r: Single)
    ensures
        r == scale_base(items@),
{
    let mut max: Single = Single::zero();
    let mut i: usize = 0;
    while i < items.len()
        invariant
            i <= items.len(),
            max == highest(items@.take(i as int)),
        decreases items.len() - i,
    {
        assert(items@.take(i + 1).drop_last() =~= items@.take(i as int));
        max = max.max(items[i].1);
        i = i + 1;
    }
    assert(items@.take(items@.len() as int) =~= items@);
    max.max(Single { bits: SCALE_FLOOR_BITS })
}

/// The score of each item as a share of the highest one.
fn scale_all<S: Fn(Single, Single) -> Single>(
    items: &Vec<(usize, Single)>,
    scale: &S,
) -> (r: Vec<Single>)
    requires
        forall|s: Single, max: Single| #[trigger] call_requires(*scale, (s, max)),
    ensures
        are_scaled(*scale, items@, r@),
{
    let base: Single = find_base(items);
    let mut out: Vec<Single> = Vec::new();
    let mut i: usize = 0;
    while i < items.len()
        invariant
            i <= items.len(),
            base == scale_base(items@),
            forall|s: Single, max: Single| #[trigger] call_requires(*scale, (s, max)),
            out.len() == i,
            forall|k: int|
                #![trigger out@[k]]
                0 <= k < i ==> call_ensures(*scale, (items@[k].1, base), out@[k]),
        decreases items.len() - i,
    {
        out.push(scale(items[i].1, base));
        i = i + 1;
    }
    out
}

impl Payload {
    /// The signature of the chunk at place `at`.
    fn signature(&self, at: usize) -> (r: Option<&MinHash>)
        requires
            at < self.chunks@.len(),
        ensures
            match r {
                Some(m) => signature_at(self@, at) == Some(m@),
                None => signature_at(self@, at) is None,
            },
    {
        broadcast use vstd::std_specs::hash::group_hash_axioms;

        let id: u64 = self.chunks[at].id;
        assert(self@.chunks[at as int].id == id);
        match self.minhash.get(&id) {
            Some(m) => {
                assert(self@.minhash[id] == m@);
                Some(m)
            },
            None => None,
        }
    }

    /// How alike two items are.
    fn likeness<H: Fn(Ratio) -> Single>(
        &self,
        items: &Vec<(usize, Single)>,
        share: &H,
        i: usize,
        j: usize,
    ) -> (r: Single)
        requires
            within_list(items@, self.chunks@.len()),
            takes_shares(*share),
            i < items@.len(),
            j < items@.len(),
        ensures
            is_likeness(self@, items@, *share, i as int, j as int, r),
    {
        if i == j {
            return Single::zero();
        }
        assert(items@[i as int].0 < self.chunks@.len());
        assert(items@[j as int].0 < self.chunks@.len());
        match (self.signature(items[i].0), self.signature(items[j].0)) {
            (Some(a), Some(b)) => {
                let e: Ratio = archived_jaccard(a, b);
                let r: Single = share(e);
                assert(is_shared(*share, a@, b@, r));
                r
            },
            _ => Single::zero(),
        }
    }

    /// How alike each two items are. Where a signature is missing, nothing is
    /// taken for redundant.
    fn similarity_matrix<H: Fn(Ratio) -> Single>(
        &self,
        items: &Vec<(usize, Single)>,
        share: &H,
    ) -> (r: Vec<Vec<Single>>)
        requires
            within_list(items@, self.chunks@.len()),
            takes_shares(*share),
        ensures
            are_likenesses(self@, items@, *share, r@.map_values(|row: Vec<Single>| row@)),
    {
        let n: usize = items.len();
        let mut out: Vec<Vec<Single>> = Vec::new();
        let mut i: usize = 0;
        while i < n
            invariant
                i <= n,
                n == items@.len(),
                within_list(items@, self.chunks@.len()),
                takes_shares(*share),
                out.len() == i,
                forall|a: int| 0 <= a < i ==> (#[trigger] out@[a])@.len() == n,
                forall|a: int, b: int|
                    0 <= a < i && 0 <= b < n ==> is_likeness(
                        self@,
                        items@,
                        *share,
                        a,
                        b,
                        #[trigger] out@[a]@[b],
                    ),
            decreases n - i,
        {
            let mut row: Vec<Single> = Vec::new();
            let mut j: usize = 0;
            while j < n
                invariant
                    i < n,
                    j <= n,
                    n == items@.len(),
                    within_list(items@, self.chunks@.len()),
                    takes_shares(*share),
                    row.len() == j,
                    forall|b: int|
                        0 <= b < j ==> is_likeness(
                            self@,
                            items@,
                            *share,
                            i as int,
                            b,
                            #[trigger] row@[b],
                        ),
                decreases n - j,
            {
                row.push(self.likeness(items, share, i, j));
                j = j + 1;
            }
            out.push(row);
            i = i + 1;
        }
        let ghost m = out@.map_values(|row: Vec<Single>| row@);
        assert forall|a: int, b: int|
            0 <= a < items@.len() && 0 <= b < items@.len() implies is_likeness(
            self@,
            items@,
            *share,
            a,
            b,
            #[trigger] m[a][b],
        ) by {
            assert(m[a][b] == out@[a]@[b]);
        }
        assert forall|a: int| 0 <= a < m.len() implies (#[trigger] m[a]).len() == items@.len() by {
            assert(m[a] == out@[a]@);
        }
        out
    }

    /// The tokens of each item.
    fn token_list(&self, items: &Vec<(usize, Single)>) -> (r: Vec<usize>)
        requires
            within_list(items@, self.chunks@.len()),
        ensures
            r@ == item_tokens(self@, items@),
    {
        let mut out: Vec<usize> = Vec::new();
        let mut i: usize = 0;
        while i < items.len()
            invariant
                i <= items.len(),
                within_list(items@, self.chunks@.len()),
                out@ =~= item_tokens(self@, items@).take(i as int),
            decreases items.len() - i,
        {
            let at: usize = items[i].0;
            assert(items@[i as int].0 < self.chunks@.len());
            out.push(self.chunks[at].token_estimate());
            proof {
                let all = item_tokens(self@, items@);
                assert(self@.chunks[at as int].text == self.chunks@[at as int].text@);
                assert(all.take(i + 1) =~= all.take(i as int).push(all[i as int]));
            }
            i = i + 1;
        }
        assert(out@ =~= item_tokens(self@, items@));
        out
    }

    /// The choice to be made among `items`.
    fn problem<S: Fn(Single, Single) -> Single, H: Fn(Ratio) -> Single>(
        &self,
        items: &Vec<(usize, Single)>,
        budget: usize,
        scale: &S,
        share: &H,
    ) -> (r: QuboProblem)
        requires
            within_list(items@, self.chunks@.len()),
            forall|s: Single, max: Single| #[trigger] call_requires(*scale, (s, max)),
            takes_shares(*share),
        ensures
            is_problem(self@, items@, budget, *scale, *share, r@),
            r@.wf(),
    {
        let relevance: Vec<Single> = scale_all(items, scale);
        let tokens: Vec<usize> = self.token_list(items);
        let similarity: Vec<Vec<Single>> = self.similarity_matrix(items, share);
        QuboProblem {
            relevance,
            similarity,
            tokens,
            budget,
            lambda: Single { bits: 0x3F00_0000 },
            mu: Single { bits: 0x3A83_126F },
        }
    }

    /// The chosen items with their scores.
    fn materialize(
        &self,
        items: &Vec<(usize, Single)>,
        relevance: &Vec<Single>,
        x: &Vec<bool>,
    ) -> (r: Vec<SearchResult>)
        requires
            within_list(items@, self.chunks@.len()),
            relevance@.len() == items@.len(),
            x@.len() == items@.len(),
        ensures
            result_views(r@) == chosen_results(self@, items@, relevance@, x@),
    {
        let ghost all = Seq::new(
            items@.len(),
            |i: int|
                ResultView { chunk: self@.chunks[items@[i].0 as int], score: relevance@[i] },
        );
        let mut out: Vec<SearchResult> = Vec::new();
        let mut i: usize = 0;
        assert(result_views(out@) =~= qubo::chosen(all, x@.take(0)));
        while i < items.len()
            invariant
                i <= items.len(),
                within_list(items@, self.chunks@.len()),
                relevance@.len() == items@.len(),
                x@.len() == items@.len(),
                all == Seq::new(
                    items@.len(),
                    |i: int|
                        ResultView {
                            chunk: self@.chunks[items@[i].0 as int],
                            score: relevance@[i],
                        },
                ),
                result_views(out@) == qubo::chosen(all, x@.take(i as int)),
            decreases items.len() - i,
        {
            assert(x@.take(i + 1).drop_last() =~= x@.take(i as int));
            if x[i] {
                let at: usize = items[i].0;
                assert(items@[i as int].0 < self.chunks@.len());
                let ghost before = out@;
                let hit = SearchResult { chunk: self.chunks[at].clone(), score: relevance[i] };
                out.push(hit);
                proof {
                    assert(self@.chunks[at as int] == self.chunks@[at as int]@);
                    assert(all[i as int] == hit@);
                    assert(result_views(out@) =~= result_views(before).push(hit@));
                }
            }
            i = i + 1;
        }
        assert(x@.take(x@.len() as int) =~= x@);
        out
    }
}

/// The results by descending score; equal scores keep their order.
fn sort_results(list: Vec<SearchResult>) -> (r: Vec<SearchResult>)
    ensures
        is_sorted_list(result_views(list@), result_views(r@)),
{
    let ghost all = result_views(list@);
    let mut keys: Vec<Single> = Vec::new();
    let mut i: usize = 0;
    while i < list.len()
        invariant
            i <= list.len(),
            all == result_views(list@),
            keys@ =~= result_scores(all).take(i as int),
        decreases list.len() - i,
    {
        assert(all[i as int] == list@[i as int]@);
        keys.push(list[i].score);
        i = i + 1;
        assert(result_scores(all).take(i as int) =~= result_scores(all).take(i - 1).push(
            list@[i - 1].score,
        ));
    }
    assert(keys@ =~= result_scores(all));
    let order: Vec<usize> = descending_order(&keys);
    let mut out: Vec<SearchResult> = Vec::new();
    let mut j: usize = 0;
    while j < order.len()
        invariant
            j <= order.len(),
            all == result_views(list@),
            order@.len() == list@.len(),
            forall|k: int| 0 <= k < order@.len() ==> 0 <= #[trigger] order@[k] < list@.len(),
            out.len() == j,
            forall|k: int| 0 <= k < j ==> #[trigger] out@[k]@ == all[order@[k] as int],
        decreases order.len() - j,
    {
        let hit: &SearchResult = &list[order[j]];
        out.push(SearchResult { chunk: hit.chunk.clone(), score: hit.score });
        j = j + 1;
    }
    proof {
        assert(order::is_stable_descending(result_scores(all), order@));
        assert(result_views(out@) =~= Seq::new(all.len(), |i: int| all[order@[i] as int]));
    }
    out
}

/// The answer to `query` among the chunks `candidate_ids`.
pub fn rank<
    W: Fn(&ScoreTerms) -> Single,
    S: Fn(Single, Single) -> Single,
    H: Fn(Ratio) -> Single,
    E: Fn(&EnergyTerms) -> Single,
    C: Fn(SimulatedAnnealer, Single) -> Single,
    A: Fn(StdRng, Single, Single, Single) -> (StdRng, bool),
>(
    payload: &Payload,
    query: &str,
    budget: usize,
    topk: usize,
    candidate_ids: &Vec<u64>,
    f: &Formulas<W, S, H, E, C, A>,
) -> (r: Vec<SearchResult>)
    requires
        formulas_ready(*f),
    ensures
        is_ranking(
            payload@,
            query@,
            budget,
            topk,
            candidate_ids@,
            *f,
            result_views(r@),
        ),
{
    if candidate_ids.len() == 0 {
        return Vec::new();
    }
    let n: usize = if topk < MIN_CANDIDATES {
        MIN_CANDIDATES
    } else {
        topk
    };
    let scored: Vec<(u64, Single)> = top_n_archived(
        &payload.bm25,
        query,
        candidate_ids,
        n,
        &f.weigh,
    );
    let items: Vec<(usize, Single)> = resolve(&payload.chunks, &scored);
    let problem: QuboProblem = payload.problem(&items, budget, &f.scale, &f.share);
    let solver: SimulatedAnnealer = SimulatedAnnealer::default();
    let x: Vec<bool> = solver.solve(&problem, &f.evaluate, &f.cool, &f.accept);
    let hits: Vec<SearchResult> = payload.materialize(&items, &problem.relevance, &x);
    let r: Vec<SearchResult> = sort_results(hits);
    proof {
        let v = payload@;
        assert(items@ == resolved(places(v.chunks), scored@));
        assert(is_problem(v, items@, budget, f.scale, f.share, problem@));
        assert(qubo::is_solution(annealer(), problem@, f.evaluate, f.cool, f.accept, x@));
        assert(is_sorted_list(
            chosen_results(v, items@, problem@.relevance, x@),
            result_views(r@),
        ));
        assert(bm25::is_top_n(
            v.bm25,
            query@,
            candidate_ids@,
            at_least(topk, MIN_CANDIDATES) as int,
            f.weigh,
            scored@,
        ));
    }
    r
}

/// The identifiers of all of `list`.
pub open spec fn all_ids(list: Seq<chunk::ChunkView>) -> Seq<u64> {
    list.map_values(|c: chunk::ChunkView| c.id)
}

/// The identifiers of those of `list` whose file is one of `files`.
pub open spec fn ids_in(list: Seq<chunk::ChunkView>, files: Seq<Seq<char>>) -> Seq<u64>
    decreases list.len(),
{
    if list.len() == 0 {
        Seq::empty()
    } else {
        let before = ids_in(list.drop_last(), files);
        if files.contains(list.last().file) {
            before.push(list.last().id)
        } else {
            before
        }
    }
}

/// The chunks that a search looks at: those of the candidate files, and all of
/// them if there are no candidates.
pub open spec fn search_ids(v: store::StoreView, query: Seq<char>) -> Seq<u64> {
    let files = bloom::matching(v.filters, bloom::lookup_keys(query));
    if files.len() == 0 {
        all_ids(v.chunks)
    } else {
        ids_in(v.chunks, files)
    }
}

/// The identifiers of all of `chunks`.
fn list_ids(chunks: &Vec<Chunk>) -> (r: Vec<u64>)
    ensures
        r@ == all_ids(chunk::views(chunks@)),
{
    let ghost all = all_ids(chunk::views(chunks@));
    let mut out: Vec<u64> = Vec::new();
    let mut i: usize = 0;
    while i < chunks.len()
        invariant
            i <= chunks.len(),
            all == all_ids(chunk::views(chunks@)),
            out@ =~= all.take(i as int),
        decreases chunks.len() - i,
    {
        out.push(chunks[i].id);
        assert(all[i as int] == chunks@[i as int].id);
        assert(all.take(i + 1) =~= all.take(i as int).push(all[i as int]));
        i = i + 1;
    }
    assert(out@ =~= all);
    out
}

/// The identifiers of those of `chunks` whose file is one of `files`.
fn list_ids_in(chunks: &Vec<Chunk>, files: &Vec<String>) -> (r: Vec<u64>)
    ensures
        r@ == ids_in(chunk::views(chunks@), text::texts(files@)),
{
    let ghost wanted = text::texts(files@);
    let mut set: StringHashSet = StringHashSet::new();
    let mut k: usize = 0;
    while k < files.len()
        invariant
            k <= files.len(),
            wanted == text::texts(files@),
            forall|f: Seq<char>| #[trigger]
                set@.contains(f) <==> wanted.take(k as int).contains(f),
        decreases files.len() - k,
    {
        set.insert(files[k].clone());
        proof {
            let before = wanted.take(k as int);
            assert(wanted.take(k + 1) =~= before.push(files@[k as int]@));
            assert forall|f: Seq<char>| #[trigger] set@.contains(f) <==> wanted.take(
                k + 1,
            ).contains(f) by {
                vstd::seq_lib::lemma_seq_contains_after_push(before, files@[k as int]@, f);
            }
        }
        k = k + 1;
    }
    assert(wanted.take(wanted.len() as int) =~= wanted);
    let ghost all = chunk::views(chunks@);
    let mut out: Vec<u64> = Vec::new();
    let mut i: usize = 0;
    while i < chunks.len()
        invariant
            i <= chunks.len(),
            all == chunk::views(chunks@),
            forall|f: Seq<char>| #[trigger] set@.contains(f) <==> wanted.contains(f),
            out@ == ids_in(all.take(i as int), wanted),
        decreases chunks.len() - i,
    {
        proof {
            assert(all.take(i + 1).drop_last() =~= all.take(i as int));
            assert(all.take(i + 1).last() == chunks@[i as int]@);
        }
        if set.contains(chunks[i].file.as_str()) {
            out.push(chunks[i].id);
        }
        i = i + 1;
    }
    assert(all.take(all.len() as int) =~= all);
    out
}

/// Answers queries over an index.
pub struct SearchPipeline {
    pub payload: Payload,
}

impl SearchPipeline {
    /// The tokens of the query can be looked up in every filter of the index, up
    /// to the first that it holds.
    pub open spec fn answers(&self, query: Seq<char>) -> bool {
        bloom::all_reach(self.payload@.filters, bloom::lookup_keys(query))
    }

    /// Searches over the given index.
    pub fn from_store(store: IndexStore) -> (r: Self)
        ensures
            r.payload@ == store@,
    {
        SearchPipeline { payload: store.to_payload() }
    }

    /// Searches over the given index as its archive holds it, the filters in the
    /// order of their paths. An index that no archive can hold is an error.
    pub fn try_from_store(store: IndexStore) -> (r: Result<Self, RpgrepError>)
        requires
            store.bloom.wf(),
        ensures
            match r {
                Ok(p) => {
                    &&& archive::is_archivable(store@)
                    &&& archive::archive_of(p.payload@) == archive::archive_of(store@)
                    &&& bloom::distinct_paths(p.payload@.filters)
                    &&& archive::in_path_order(p.payload@.filters)
                },
                Err(e) => !archive::is_archivable(store@) && e is Persist && e->Persist_0 is Codec,
            },
    {
        match store.to_file_bytes() {
            Ok(file) => Self::from_file_bytes(file.as_slice()),
            Err(e) => Err(e),
        }
    }

    /// Searches over the index in a file, the filters in the order of their paths.
    /// A file that is not framed as an index is an error, and so is one whose
    /// archive cannot be read.
    pub fn from_file_bytes(file: &[u8]) -> (r: Result<Self, RpgrepError>)
        ensures
            match r {
                Ok(p) => {
                    &&& archive::stored_in(file@) == Some(archive::archive_of(p.payload@))
                    &&& bloom::distinct_paths(p.payload@.filters)
                    &&& archive::in_path_order(p.payload@.filters)
                },
                Err(RpgrepError::Persist(PersistError::Frame(e))) => frame::section_of(file@)
                    == Err::<frame::Section, _>(e),
                Err(RpgrepError::Persist(PersistError::Codec(msg))) => {
                    &&& frame::section_of(file@) is Ok
                    &&& archive::stored_in(file@) is None
                    &&& "rkyv access: "@.is_prefix_of(msg@)
                },
                Err(_) => false,
            },
    {
        match from_file_bytes(file, "rkyv access: ") {
            Ok(payload) => Ok(SearchPipeline { payload }),
            Err(e) => Err(RpgrepError::Persist(e)),
        }
    }

    /// Searches over a stored index.
    pub fn from_payload(payload: Payload) -> (r: Self)
        ensures
            r.payload == payload,
    {
        SearchPipeline { payload }
    }

    /// Whether the tokens of the query can be looked up in every filter, up to the
    /// first that it holds. They can in every index whose filters were built here.
    pub fn can_answer(&self, query: &str) -> (r: bool)
        ensures
            r == self.answers(query@),
    {
        can_screen(&self.payload.bloom_filters, query)
    }

    /// Answers a query over the whole index: screens the files by their
    /// filters, ranks the chunks of the candidates, and chooses among the best.
    /// A screening that leaves no file is no screening.
    pub fn search<
        W: Fn(&ScoreTerms) -> Single,
        S: Fn(Single, Single) -> Single,
        H: Fn(Ratio) -> Single,
        E: Fn(&EnergyTerms) -> Single,
        C: Fn(SimulatedAnnealer, Single) -> Single,
        A: Fn(StdRng, Single, Single, Single) -> (StdRng, bool),
    >(
        &self,
        query: &str,
        budget: usize,
        topk: usize,
        f: &Formulas<W, S, H, E, C, A>,
    ) -> (r: Result<Vec<SearchResult>, RpgrepError>)
        requires
            self.answers(query@),
            formulas_ready(*f),
        ensures
            r is Ok,
            is_ranking(
                self.payload@,
                query@,
                budget,
                topk,
                search_ids(self.payload@, query@),
                *f,
                result_views(r->Ok_0@),
            ),
    {
        let files: Vec<String> = candidates_archived(&self.payload.bloom_filters, query);
        assert(text::texts(files@).len() == files@.len());
        let ids: Vec<u64> = if files.len() == 0 {
            list_ids(&self.payload.chunks)
        } else {
            list_ids_in(&self.payload.chunks, &files)
        };
        Ok(rank(&self.payload, query, budget, topk, &ids, f))
    }

    /// Answers a query over the given files only, without screening. No files
    /// give no results, and files that are not indexed are passed over.
    pub fn select<
        W: Fn(&ScoreTerms) -> Single,
        S: Fn(Single, Single) -> Single,
        H: Fn(Ratio) -> Single,
        E: Fn(&EnergyTerms) -> Single,
        C: Fn(SimulatedAnnealer, Single) -> Single,
        A: Fn(StdRng, Single, Single, Single) -> (StdRng, bool),
    >(
        &self,
        query: &str,
        budget: usize,
        topk: usize,
        files: &Vec<String>,
        f: &Formulas<W, S, H, E, C, A>,
    ) -> (r: Result<Vec<SearchResult>, RpgrepError>)
        requires
            formulas_ready(*f),
        ensures
            r is Ok,
            is_ranking(
                self.payload@,
                query@,
                budget,
                topk,
                ids_in(self.payload@.chunks, text::texts(files@)),
                *f,
                result_views(r->Ok_0@),
            ),
            files@.len() == 0 ==> r->Ok_0@.len() == 0,
    {
        let ids: Vec<u64> = list_ids_in(&self.payload.chunks, files);
        proof {
            if files@.len() == 0 {
                lemma_no_files_no_ids(self.payload@.chunks, text::texts(files@));
            }
        }
        let r: Vec<SearchResult> = rank(&self.payload, query, budget, topk, &ids, f);
        assert(result_views(r@).len() == r@.len());
        Ok(r)
    }
}

/// Without files there are no identifiers.
proof fn lemma_no_files_no_ids(list: Seq<chunk::ChunkView>, files: Seq<Seq<char>>)
    requires
        files.len() == 0,
    ensures
        ids_in(list, files).len() == 0,
    decreases list.len(),
{
    if list.len() > 0 {
        lemma_no_files_no_ids(list.drop_last(), files);
    }
}

/// `item` is one of the scored identifiers at its place.
spec fn is_resolved(at: Map<u64, usize>, scored: Seq<(u64, Single)>, item: (usize, Single)) -> bool {
    exists|i: int|
        #![trigger scored[i]]
        0 <= i < scored.len() && at.contains_key(scored[i].0) && item == (
            at[scored[i].0],
            scored[i].1,
        )
}

/// Items are scored identifiers at the place of their chunk.
proof fn lemma_resolved(at: Map<u64, usize>, scored: Seq<(u64, Single)>)
    ensures
        resolved(at, scored).len() <= scored.len(),
        forall|k: int|
            #![trigger resolved(at, scored)[k]]
            0 <= k < resolved(at, scored).len() ==> is_resolved(
                at,
                scored,
                resolved(at, scored)[k],
            ),
    decreases scored.len(),
{
    if scored.len() > 0 {
        let init = scored.drop_last();
        lemma_resolved(at, init);
        let before = resolved(at, init);
        let all = resolved(at, scored);
        assert forall|k: int| #![trigger all[k]] 0 <= k < all.len() implies is_resolved(
            at,
            scored,
            all[k],
        ) by {
            if k < before.len() {
                assert(all[k] == before[k]);
                assert(is_resolved(at, init, before[k]));
                let i = choose|i: int|
                    #![trigger init[i]]
                    0 <= i < init.len() && at.contains_key(init[i].0) && before[k] == (
                        at[init[i].0],
                        init[i].1,
                    );
                assert(scored[i] == init[i]);
            } else {
                let i = scored.len() - 1;
                assert(all[k] == (at[scored[i].0], scored[i].1));
            }
        }
    }
}

/// `value` is one of the first `n` of `values`.
spec fn is_among<T>(values: Seq<T>, n: int, value: T) -> bool {
    exists|i: int| 0 <= i < n && value == #[trigger] values[i]
}

/// What is chosen comes from the list.
proof fn lemma_chosen<T>(values: Seq<T>, x: Seq<bool>)
    ensures
        qubo::chosen(values, x).len() <= x.len(),
        forall|k: int|
            #![trigger qubo::chosen(values, x)[k]]
            0 <= k < qubo::chosen(values, x).len() ==> is_among(
                values,
                x.len() as int,
                qubo::chosen(values, x)[k],
            ),
    decreases x.len(),
{
    if x.len() > 0 {
        let init = x.drop_last();
        lemma_chosen(values, init);
        let before = qubo::chosen(values, init);
        let all = qubo::chosen(values, x);
        assert forall|k: int| #![trigger all[k]] 0 <= k < all.len() implies is_among(
            values,
            x.len() as int,
            all[k],
        ) by {
            if k < before.len() {
                assert(all[k] == before[k]);
                assert(is_among(values, init.len() as int, before[k]));
            } else {
                assert(all[k] == values[x.len() - 1]);
            }
        }
    }
}

/// The steps by which an answer came about: the scored chunks, the choice among
/// them and what was chosen.
proof fn lemma_steps<
    W: Fn(&ScoreTerms) -> Single,
    S: Fn(Single, Single) -> Single,
    H: Fn(Ratio) -> Single,
    E: Fn(&EnergyTerms) -> Single,
    C: Fn(SimulatedAnnealer, Single) -> Single,
    A: Fn(StdRng, Single, Single, Single) -> (StdRng, bool),
>(
    v: store::StoreView,
    query: Seq<char>,
    budget: usize,
    topk: usize,
    ids: Seq<u64>,
    f: Formulas<W, S, H, E, C, A>,
    r: Seq<ResultView>,
) -> (steps: (Seq<(u64, Single)>, qubo::ProblemView, Seq<bool>))
    requires
        ids.len() > 0,
        is_ranking(v, query, budget, topk, ids, f, r),
    ensures
        bm25::is_top_n(
            v.bm25,
            query,
            ids,
            at_least(topk, MIN_CANDIDATES) as int,
            f.weigh,
            steps.0,
        ),
        is_problem(v, resolved(places(v.chunks), steps.0), budget, f.scale, f.share, steps.1),
        qubo::is_solution(annealer(), steps.1, f.evaluate, f.cool, f.accept, steps.2),
        is_sorted_list(
            chosen_results(v, resolved(places(v.chunks), steps.0), steps.1.relevance, steps.2),
            r,
        ),
{
    choose|scored: Seq<(u64, Single)>, p: qubo::ProblemView, x: Seq<bool>|
        {
            let items = resolved(places(v.chunks), scored);
            &&& #[trigger] bm25::is_top_n(
                v.bm25,
                query,
                ids,
                at_least(topk, MIN_CANDIDATES) as int,
                f.weigh,
                scored,
            )
            &&& is_problem(v, items, budget, f.scale, f.share, p)
            &&& #[trigger] qubo::is_solution(annealer(), p, f.evaluate, f.cool, f.accept, x)
            &&& is_sorted_list(chosen_results(v, items, p.relevance, x), r)
        }
}

/// Whatever a search answers are chunks of the index whose identifiers it was
/// given, highest score first, and no more than it was asked for.
pub proof fn law_answers_are_given_chunks<
    W: Fn(&ScoreTerms) -> Single,
    S: Fn(Single, Single) -> Single,
    H: Fn(Ratio) -> Single,
    E: Fn(&EnergyTerms) -> Single,
    C: Fn(SimulatedAnnealer, Single) -> Single,
    A: Fn(StdRng, Single, Single, Single) -> (StdRng, bool),
>(
    v: store::StoreView,
    query: Seq<char>,
    budget: usize,
    topk: usize,
    ids: Seq<u64>,
    f: Formulas<W, S, H, E, C, A>,
    r: Seq<ResultView>,
)
    requires
        v.chunks.len() <= usize::MAX,
        ids.len() <= usize::MAX,
        is_ranking(v, query, budget, topk, ids, f, r),
    ensures
        r.len() <= at_least(topk, MIN_CANDIDATES),
        forall|i: int, j: int|
            #![trigger r[i], r[j]]
            0 <= i < j < r.len() ==> r[i].score.key() >= r[j].score.key(),
        forall|i: int|
            #![trigger r[i]]
            0 <= i < r.len() ==> ids.contains(r[i].chunk.id) && v.chunks.contains(r[i].chunk),
{
    if ids.len() > 0 {
        let n = at_least(topk, MIN_CANDIDATES) as int;
        let at = places(v.chunks);
        let (scored, p, x) = lemma_steps(v, query, budget, topk, ids, f, r);
        let items = resolved(at, scored);
        let list = chosen_results(v, items, p.relevance, x);
        let values = Seq::new(
            items.len(),
            |i: int| ResultView { chunk: v.chunks[items[i].0 as int], score: p.relevance[i] },
        );
        let order = choose|order: Seq<usize>| #[trigger]
            order::is_stable_descending(result_scores(list), order) && r == Seq::new(
                list.len(),
                |i: int| list[order[i] as int],
            );
        bm25::law_top_n_are_scored_candidates(v.bm25, query, ids, n, f.weigh, scored);
        lemma_resolved(at, scored);
        lemma_places(v.chunks);
        qubo::lemma_solution_len(annealer(), p, f.evaluate, f.cool, f.accept, x);
        lemma_chosen(values, x);
        let prior = order::descending(result_scores(list));
        assert forall|i: int, j: int|
            #![trigger r[i], r[j]]
            0 <= i < j < r.len() implies r[i].score.key() >= r[j].score.key() by {
            assert(prior(order[i] as int, order[j] as int));
        }
        assert forall|i: int| #![trigger r[i]] 0 <= i < r.len() implies ids.contains(
            r[i].chunk.id,
        ) && v.chunks.contains(r[i].chunk) by {
            let k = order[i] as int;
            assert(r[i] == list[k]);
            assert(is_among(values, x.len() as int, list[k]));
            let m = choose|m: int| 0 <= m < x.len() && list[k] == #[trigger] values[m];
            assert(is_resolved(at, scored, items[m]));
            let s = choose|s: int|
                #![trigger scored[s]]
                0 <= s < scored.len() && at.contains_key(scored[s].0) && items[m] == (
                    at[scored[s].0],
                    scored[s].1,
                );
            assert(v.chunks[items[m].0 as int].id == scored[s].0);
            assert(r[i].chunk == v.chunks[items[m].0 as int]);
        }
    }
}

/// An identifier comes from a chunk of one of the files.
proof fn lemma_ids_in(list: Seq<chunk::ChunkView>, files: Seq<Seq<char>>, id: u64)
    requires
        ids_in(list, files).contains(id),
    ensures
        exists|i: int|
            #![trigger list[i]]
            0 <= i < list.len() && list[i].id == id && files.contains(list[i].file),
    decreases list.len(),
{
    let all = ids_in(list, files);
    let k = choose|k: int| 0 <= k < all.len() && all[k] == id;
    let init = list.drop_last();
    let before = ids_in(init, files);
    if k < before.len() {
        assert(before[k] == id);
        assert(before.contains(id));
        lemma_ids_in(init, files, id);
        let i = choose|i: int|
            #![trigger init[i]]
            0 <= i < init.len() && init[i].id == id && files.contains(init[i].file);
        assert(list[i] == init[i]);
    } else {
        assert(list[list.len() - 1] == list.last());
    }
}

/// No more identifiers than chunks.
proof fn lemma_ids_in_len(list: Seq<chunk::ChunkView>, files: Seq<Seq<char>>)
    ensures
        ids_in(list, files).len() <= list.len(),
    decreases list.len(),
{
    if list.len() > 0 {
        lemma_ids_in_len(list.drop_last(), files);
    }
}

/// A query over given files is answered from these files only, provided that
/// no two chunks of the index have the same identifier.
pub proof fn law_select_keeps_to_its_files<
    W: Fn(&ScoreTerms) -> Single,
    S: Fn(Single, Single) -> Single,
    H: Fn(Ratio) -> Single,
    E: Fn(&EnergyTerms) -> Single,
    C: Fn(SimulatedAnnealer, Single) -> Single,
    A: Fn(StdRng, Single, Single, Single) -> (StdRng, bool),
>(
    v: store::StoreView,
    query: Seq<char>,
    budget: usize,
    topk: usize,
    files: Seq<Seq<char>>,
    f: Formulas<W, S, H, E, C, A>,
    r: Seq<ResultView>,
)
    requires
        v.chunks.len() <= usize::MAX,
        bm25::distinct_ids(v.chunks),
        is_ranking(v, query, budget, topk, ids_in(v.chunks, files), f, r),
    ensures
        forall|i: int| 0 <= i < r.len() ==> files.contains((#[trigger] r[i]).chunk.file),
{
    let ids = ids_in(v.chunks, files);
    lemma_ids_in_len(v.chunks, files);
    law_answers_are_given_chunks(v, query, budget, topk, ids, f, r);
    assert forall|i: int| 0 <= i < r.len() implies files.contains((#[trigger] r[i]).chunk.file) by {
        let c = r[i].chunk;
        assert(ids.contains(c.id));
        lemma_ids_in(v.chunks, files, c.id);
        let j = choose|j: int|
            #![trigger v.chunks[j]]
            0 <= j < v.chunks.len() && v.chunks[j].id == c.id && files.contains(v.chunks[j].file);
        let k = choose|k: int| 0 <= k < v.chunks.len() && v.chunks[k] == c;
        assert(j == k);
    }
}

/// A search that finds candidate files is answered from them only, provided
/// that no two chunks of the index have the same identifier.
pub proof fn law_search_keeps_to_candidates<
    W: Fn(&ScoreTerms) -> Single,
    S: Fn(Single, Single) -> Single,
    H: Fn(Ratio) -> Single,
    E: Fn(&EnergyTerms) -> Single,
    C: Fn(SimulatedAnnealer, Single) -> Single,
    A: Fn(StdRng, Single, Single, Single) -> (StdRng, bool),
>(
    v: store::StoreView,
    query: Seq<char>,
    budget: usize,
    topk: usize,
    f: Formulas<W, S, H, E, C, A>,
    r: Seq<ResultView>,
)
    requires
        v.chunks.len() <= usize::MAX,
        bm25::distinct_ids(v.chunks),
        bloom::matching(v.filters, bloom::lookup_keys(query)).len() > 0,
        is_ranking(v, query, budget, topk, search_ids(v, query), f, r),
    ensures
        forall|i: int|
            0 <= i < r.len() ==> bloom::matching(v.filters, bloom::lookup_keys(query)).contains(
                (#[trigger] r[i]).chunk.file,
            ),
{
    law_select_keeps_to_its_files(
        v,
        query,
        budget,
        topk,
        bloom::matching(v.filters, bloom::lookup_keys(query)),
        f,
        r,
    );
}

/// `share` gives the same answer whenever it is asked the same.
pub open spec fn shares_alike<H: Fn(Ratio) -> Single>(share: H) -> bool {
    forall|e: Ratio, a: Single, b: Single| #[trigger]
        call_ensures(share, (e,), a) && #[trigger] call_ensures(share, (e,), b) ==> a == b
}

/// The formulas give the same answer whenever they are asked the same.
pub open spec fn formulas_alike<
    W: Fn(&ScoreTerms) -> Single,
    S: Fn(Single, Single) -> Single,
    H: Fn(Ratio) -> Single,
    E: Fn(&EnergyTerms) -> Single,
    C: Fn(SimulatedAnnealer, Single) -> Single,
    A: Fn(StdRng, Single, Single, Single) -> (StdRng, bool),
>(f: Formulas<W, S, H, E, C, A>) -> bool {
    &&& bm25::weighs_alike(f.weigh)
    &&& forall|s: Single, max: Single, a: Single, b: Single| #[trigger]
        call_ensures(f.scale, (s, max), a) && #[trigger] call_ensures(f.scale, (s, max), b) ==> a
            == b
    &&& shares_alike(f.share)
    &&& qubo::answer_alike(f.evaluate, f.cool, f.accept)
}

/// The choice to be made among given items is determined.
proof fn lemma_problem_unique<S: Fn(Single, Single) -> Single, H: Fn(Ratio) -> Single>(
    v: store::StoreView,
    items: Seq<(usize, Single)>,
    budget: usize,
    scale: S,
    share: H,
    p: qubo::ProblemView,
    q: qubo::ProblemView,
)
    requires
        is_problem(v, items, budget, scale, share, p),
        is_problem(v, items, budget, scale, share, q),
        shares_alike(share),
        forall|s: Single, max: Single, a: Single, b: Single| #[trigger]
            call_ensures(scale, (s, max), a) && #[trigger] call_ensures(scale, (s, max), b) ==> a
                == b,
    ensures
        p == q,
{
    let base = scale_base(items);
    assert forall|i: int| 0 <= i < items.len() implies p.relevance[i] == q.relevance[i] by {
        assert(call_ensures(scale, (items[i].1, base), p.relevance[i]));
        assert(call_ensures(scale, (items[i].1, base), q.relevance[i]));
    }
    assert(p.relevance =~= q.relevance);
    assert forall|i: int| 0 <= i < items.len() implies p.similarity[i] == q.similarity[i] by {
        assert forall|j: int| 0 <= j < items.len() implies p.similarity[i][j]
            == q.similarity[i][j] by {
            assert(is_likeness(v, items, share, i, j, p.similarity[i][j]));
            assert(is_likeness(v, items, share, i, j, q.similarity[i][j]));
        }
        assert(p.similarity[i] =~= q.similarity[i]);
    }
    assert(p.similarity =~= q.similarity);
}

/// The same query over the same chunks of an index gets the same answer, to the
/// last bit, if the formulas give the same answer whenever they are asked the
/// same.
pub proof fn law_same_query_same_answer<
    W: Fn(&ScoreTerms) -> Single,
    S: Fn(Single, Single) -> Single,
    H: Fn(Ratio) -> Single,
    E: Fn(&EnergyTerms) -> Single,
    C: Fn(SimulatedAnnealer, Single) -> Single,
    A: Fn(StdRng, Single, Single, Single) -> (StdRng, bool),
>(
    v: store::StoreView,
    query: Seq<char>,
    budget: usize,
    topk: usize,
    ids: Seq<u64>,
    f: Formulas<W, S, H, E, C, A>,
    r: Seq<ResultView>,
    s: Seq<ResultView>,
)
    requires
        formulas_alike(f),
        is_ranking(v, query, budget, topk, ids, f, r),
        is_ranking(v, query, budget, topk, ids, f, s),
    ensures
        r == s,
{
    if ids.len() == 0 {
        assert(r =~= s);
    } else {
        let n = at_least(topk, MIN_CANDIDATES) as int;
        let (a, p, x) = lemma_steps(v, query, budget, topk, ids, f, r);
        let (b, q, y) = lemma_steps(v, query, budget, topk, ids, f, s);
        bm25::law_same_query_same_top_n(v.bm25, query, ids, n, f.weigh, a, b);
        let items = resolved(places(v.chunks), a);
        lemma_problem_unique(v, items, budget, f.scale, f.share, p, q);
        qubo::law_same_seed_same_choice(annealer(), p, f.evaluate, f.cool, f.accept, x, y);
        let list = chosen_results(v, items, p.relevance, x);
        let o = choose|order: Seq<usize>| #[trigger]
            order::is_stable_descending(result_scores(list), order) && r == Seq::new(
                list.len(),
                |i: int| list[order[i] as int],
            );
        let t = choose|order: Seq<usize>| #[trigger]
            order::is_stable_descending(result_scores(list), order) && s == Seq::new(
                list.len(),
                |i: int| list[order[i] as int],
            );
        order::lemma_stable_order_unique(result_scores(list), o, t);
        assert(r =~= s);
    }
}

/// Files without chunks in the index do not matter: lists of files that agree
/// on the indexed ones select the same chunks.
pub proof fn law_unknown_files_do_not_matter(
    list: Seq<chunk::ChunkView>,
    files: Seq<Seq<char>>,
    others: Seq<Seq<char>>,
)
    requires
        forall|i: int|
            #![trigger list[i]]
            0 <= i < list.len() ==> (files.contains(list[i].file) <==> others.contains(
                list[i].file,
            )),
    ensures
        ids_in(list, files) == ids_in(list, others),
    decreases list.len(),
{
    if list.len() > 0 {
        let init = list.drop_last();
        assert forall|i: int| #![trigger init[i]] 0 <= i < init.len() implies (files.contains(
            init[i].file,
        ) <==> others.contains(init[i].file)) by {
            assert(init[i] == list[i]);
        }
        law_unknown_files_do_not_matter(init, files, others);
        assert(list.last() == list[list.len() - 1]);
    }
}

/// A search that finds candidate files answers as a query over these files
/// does: behind the screening both go the same way.
pub proof fn law_search_is_a_query_over_its_candidates<
    W: Fn(&ScoreTerms) -> Single,
    S: Fn(Single, Single) -> Single,
    H: Fn(Ratio) -> Single,
    E: Fn(&EnergyTerms) -> Single,
    C: Fn(SimulatedAnnealer, Single) -> Single,
    A: Fn(StdRng, Single, Single, Single) -> (StdRng, bool),
>(
    v: store::StoreView,
    query: Seq<char>,
    budget: usize,
    topk: usize,
    f: Formulas<W, S, H, E, C, A>,
    searched: Seq<ResultView>,
    selected: Seq<ResultView>,
)
    requires
        formulas_alike(f),
        bloom::matching(v.filters, bloom::lookup_keys(query)).len() > 0,
        is_ranking(v, query, budget, topk, search_ids(v, query), f, searched),
        is_ranking(
            v,
            query,
            budget,
            topk,
            ids_in(v.chunks, bloom::matching(v.filters, bloom::lookup_keys(query))),
            f,
            selected,
        ),
    ensures
        searched == selected,
{
    law_same_query_same_answer(
        v,
        query,
        budget,
        topk,
        search_ids(v, query),
        f,
        searched,
        selected,
    );
}

/// A query without tokens gets an empty answer, whatever chunks it is put to.
pub proof fn law_no_tokens_no_answer<
    W: Fn(&ScoreTerms) -> Single,
    S: Fn(Single, Single) -> Single,
    H: Fn(Ratio) -> Single,
    E: Fn(&EnergyTerms) -> Single,
    C: Fn(SimulatedAnnealer, Single) -> Single,
    A: Fn(StdRng, Single, Single, Single) -> (StdRng, bool),
>(
    v: store::StoreView,
    query: Seq<char>,
    budget: usize,
    topk: usize,
    ids: Seq<u64>,
    f: Formulas<W, S, H, E, C, A>,
    r: Seq<ResultView>,
)
    requires
        text::token_hashes(query).len() == 0,
        is_ranking(v, query, budget, topk, ids, f, r),
    ensures
        r.len() == 0,
{
    if ids.len() > 0 {
        let (scored, p, x) = lemma_steps(v, query, budget, topk, ids, f, r);
        lemma_nothing_scored(v, budget, f, p, x, scored, r);
    }
}

/// Items of distinct scored identifiers are distinct chunks.
proof fn lemma_items_apart(list: Seq<chunk::ChunkView>, scored: Seq<(u64, Single)>)
    requires
        list.len() <= usize::MAX,
        bm25::are_apart(scored),
    ensures
        forall|i: int, j: int|
            #![trigger resolved(places(list), scored)[i], resolved(places(list), scored)[j]]
            0 <= i < j < resolved(places(list), scored).len() ==> list[resolved(
                places(list),
                scored,
            )[i].0 as int].id != list[resolved(places(list), scored)[j].0 as int].id,
    decreases scored.len(),
{
    let at = places(list);
    lemma_places(list);
    if scored.len() > 0 {
        let init = scored.drop_last();
        assert(bm25::are_apart(init)) by {
            assert forall|i: int, j: int|
                #![trigger init[i], init[j]]
                0 <= i < j < init.len() implies init[i].0 != init[j].0 by {
                assert(init[i] == scored[i] && init[j] == scored[j]);
            }
        }
        lemma_items_apart(list, init);
        lemma_resolved(at, init);
        let before = resolved(at, init);
        let all = resolved(at, scored);
        assert forall|i: int, j: int| #![trigger all[i], all[j]] 0 <= i < j < all.len() implies {
            list[all[i].0 as int].id != list[all[j].0 as int].id
        } by {
            assert(all[i] == before[i]);
            if j < before.len() {
                assert(all[j] == before[j]);
            } else {
                assert(is_resolved(at, init, before[i]));
                let k = choose|k: int|
                    #![trigger init[k]]
                    0 <= k < init.len() && at.contains_key(init[k].0) && before[i] == (
                        at[init[k].0],
                        init[k].1,
                    );
                assert(scored[k] == init[k]);
                assert(scored[k].0 != scored[scored.len() - 1].0);
                assert(at.contains_key(scored.last().0));
            }
        }
    }
}

/// No two of `list` have a chunk with the same identifier.
pub open spec fn results_apart(list: Seq<ResultView>) -> bool {
    forall|i: int, j: int|
        #![trigger list[i], list[j]]
        0 <= i < j < list.len() ==> list[i].chunk.id != list[j].chunk.id
}

/// What is chosen from distinct results is distinct.
proof fn lemma_chosen_apart(values: Seq<ResultView>, x: Seq<bool>)
    requires
        results_apart(values),
        x.len() <= values.len(),
    ensures
        results_apart(qubo::chosen(values, x)),
    decreases x.len(),
{
    if x.len() > 0 {
        let init = x.drop_last();
        lemma_chosen_apart(values, init);
        lemma_chosen(values, init);
        let before = qubo::chosen(values, init);
        let all = qubo::chosen(values, x);
        assert forall|i: int, j: int| #![trigger all[i], all[j]] 0 <= i < j < all.len() implies {
            all[i].chunk.id != all[j].chunk.id
        } by {
            assert(all[i] == before[i]);
            if j < before.len() {
                assert(all[j] == before[j]);
            } else {
                assert(is_among(values, init.len() as int, before[i]));
                let k = choose|k: int| 0 <= k < init.len() && before[i] == #[trigger] values[k];
                assert(values[k].chunk.id != values[x.len() - 1].chunk.id);
            }
        }
    }
}

/// No chunk comes twice in an answer, if no candidate is given twice.
pub proof fn law_no_chunk_comes_twice<
    W: Fn(&ScoreTerms) -> Single,
    S: Fn(Single, Single) -> Single,
    H: Fn(Ratio) -> Single,
    E: Fn(&EnergyTerms) -> Single,
    C: Fn(SimulatedAnnealer, Single) -> Single,
    A: Fn(StdRng, Single, Single, Single) -> (StdRng, bool),
>(
    v: store::StoreView,
    query: Seq<char>,
    budget: usize,
    topk: usize,
    ids: Seq<u64>,
    f: Formulas<W, S, H, E, C, A>,
    r: Seq<ResultView>,
)
    requires
        v.chunks.len() <= usize::MAX,
        ids.no_duplicates(),
        is_ranking(v, query, budget, topk, ids, f, r),
    ensures
        results_apart(r),
{
    if ids.len() > 0 {
        let (scored, p, x) = lemma_steps(v, query, budget, topk, ids, f, r);
        let n = at_least(topk, MIN_CANDIDATES) as int;
        let items = resolved(places(v.chunks), scored);
        let values = Seq::new(
            items.len(),
            |i: int| ResultView { chunk: v.chunks[items[i].0 as int], score: p.relevance[i] },
        );
        let list = chosen_results(v, items, p.relevance, x);
        bm25::law_top_n_are_apart(v.bm25, query, ids, n, f.weigh, scored);
        lemma_items_apart(v.chunks, scored);
        assert forall|i: int, j: int|
            #![trigger values[i], values[j]]
            0 <= i < j < values.len() implies values[i].chunk.id != values[j].chunk.id by {
            let a = items[i];
            let b = items[j];
            assert(v.chunks[a.0 as int].id != v.chunks[b.0 as int].id);
        }
        qubo::lemma_solution_len(annealer(), p, f.evaluate, f.cool, f.accept, x);
        lemma_chosen_apart(values, x);
        let order = choose|order: Seq<usize>| #[trigger]
            order::is_stable_descending(result_scores(list), order) && r == Seq::new(
                list.len(),
                |i: int| list[order[i] as int],
            );
        let prior = order::descending(result_scores(list));
        assert forall|i: int, j: int| #![trigger r[i], r[j]] 0 <= i < j < r.len() implies {
            r[i].chunk.id != r[j].chunk.id
        } by {
            assert(prior(order[i] as int, order[j] as int));
            let a = list[order[i] as int];
            let b = list[order[j] as int];
            assert(r[i] == a && r[j] == b);
        }
    }
}

/// The number one.
pub const ONE_BITS: u32 = 0x3F80_0000;

/// The highest of positive scores is none below any of them.
proof fn lemma_highest(items: Seq<(usize, Single)>)
    requires
        forall|i: int| 0 <= i < items.len() ==> (#[trigger] items[i]).1.positive(),
    ensures
        highest(items).is_number(),
        highest(items).key() >= 0,
        forall|i: int|
            0 <= i < items.len() ==> (#[trigger] items[i]).1.key() <= highest(items).key(),
    decreases items.len(),
{
    if items.len() > 0 {
        let init = items.drop_last();
        assert forall|i: int| 0 <= i < init.len() implies (#[trigger] init[i]).1.positive() by {
            assert(init[i] == items[i]);
        }
        lemma_highest(init);
        assert(items[items.len() - 1].1.positive());
        assert forall|i: int| 0 <= i < items.len() implies (#[trigger] items[i]).1.key()
            <= highest(items).key() by {
            if i < init.len() {
                assert(items[i] == init[i]);
            }
        }
    }
}

/// Scores of answers lie above 0 and up to 1, if `scale` makes such shares of
/// positive scores and a number that is not below them.
pub proof fn law_scores_are_shares<
    W: Fn(&ScoreTerms) -> Single,
    S: Fn(Single, Single) -> Single,
    H: Fn(Ratio) -> Single,
    E: Fn(&EnergyTerms) -> Single,
    C: Fn(SimulatedAnnealer, Single) -> Single,
    A: Fn(StdRng, Single, Single, Single) -> (StdRng, bool),
>(
    v: store::StoreView,
    query: Seq<char>,
    budget: usize,
    topk: usize,
    ids: Seq<u64>,
    f: Formulas<W, S, H, E, C, A>,
    r: Seq<ResultView>,
)
    requires
        ids.len() <= usize::MAX,
        is_ranking(v, query, budget, topk, ids, f, r),
        forall|s: Single, max: Single, q: Single| #[trigger]
            call_ensures(f.scale, (s, max), q) && s.positive() && max.is_number() && s.key()
                <= max.key() ==> q.positive() && q.key() <= ONE_BITS,
    ensures
        forall|i: int|
            #![trigger r[i]]
            0 <= i < r.len() ==> r[i].score.positive() && r[i].score.key() <= ONE_BITS,
{
    if ids.len() > 0 {
        let (scored, p, x) = lemma_steps(v, query, budget, topk, ids, f, r);
        let n = at_least(topk, MIN_CANDIDATES) as int;
        let at = places(v.chunks);
        let items = resolved(at, scored);
        let values = Seq::new(
            items.len(),
            |i: int| ResultView { chunk: v.chunks[items[i].0 as int], score: p.relevance[i] },
        );
        let list = chosen_results(v, items, p.relevance, x);
        bm25::law_top_n_are_scored_candidates(v.bm25, query, ids, n, f.weigh, scored);
        lemma_resolved(at, scored);
        assert forall|i: int| 0 <= i < items.len() implies (#[trigger] items[i]).1.positive() by {
            assert(is_resolved(at, scored, items[i]));
            let s = choose|s: int|
                #![trigger scored[s]]
                0 <= s < scored.len() && at.contains_key(scored[s].0) && items[i] == (
                    at[scored[s].0],
                    scored[s].1,
                );
            assert(scored[s].1.positive());
        }
        lemma_highest(items);
        let base = scale_base(items);
        qubo::lemma_solution_len(annealer(), p, f.evaluate, f.cool, f.accept, x);
        lemma_chosen(values, x);
        let order = choose|order: Seq<usize>| #[trigger]
            order::is_stable_descending(result_scores(list), order) && r == Seq::new(
                list.len(),
                |i: int| list[order[i] as int],
            );
        assert forall|i: int| #![trigger r[i]] 0 <= i < r.len() implies r[i].score.positive()
            && r[i].score.key() <= ONE_BITS by {
            let k = order[i] as int;
            assert(r[i] == list[k]);
            assert(is_among(values, x.len() as int, list[k]));
            let m = choose|m: int| 0 <= m < x.len() && list[k] == #[trigger] values[m];
            assert(items[m].1.positive());
            assert(call_ensures(f.scale, (items[m].1, base), p.relevance[m]));
        }
    }
}

/// The tokens of each chunk lie in the filter of its file.
pub open spec fn is_screened(v: store::StoreView) -> bool {
    forall|i: int, t: u64|
        #![trigger v.chunks[i], text::token_hashes(v.chunks[i].text).contains(t)]
        0 <= i < v.chunks.len() && text::token_hashes(v.chunks[i].text).contains(t) ==> exists|
            at: int,
        |
            #![trigger v.filters[at]]
            bloom::entry_at(v.filters, v.chunks[i].file, at) && v.filters[at].1.member(t)
}

/// The scores of those chunks of `list` whose file is one of `files`.
spec fn scores_in(
    list: Seq<chunk::ChunkView>,
    files: Seq<Seq<char>>,
    scores: Seq<Single>,
) -> Seq<Single>
    decreases list.len(),
{
    if list.len() == 0 {
        Seq::empty()
    } else {
        let before = scores_in(list.drop_last(), files, scores.drop_last());
        if files.contains(list.last().file) {
            before.push(scores.last())
        } else {
            before
        }
    }
}

/// Chunks without a positive score may be left out beforehand.
proof fn lemma_left_out<W: Fn(&ScoreTerms) -> Single>(
    v: bm25::Bm25View,
    query: Seq<char>,
    weigh: W,
    list: Seq<chunk::ChunkView>,
    files: Seq<Seq<char>>,
    scores: Seq<Single>,
)
    requires
        bm25::are_scores(v, query, all_ids(list), weigh, scores),
        forall|i: int|
            #![trigger list[i]]
            0 <= i < list.len() && !files.contains(list[i].file) ==> !scores[i].positive(),
    ensures
        bm25::are_scores(v, query, ids_in(list, files), weigh, scores_in(list, files, scores)),
        bm25::positives(ids_in(list, files), scores_in(list, files, scores)) == bm25::positives(
            all_ids(list),
            scores,
        ),
    decreases list.len(),
{
    if list.len() > 0 {
        let init = list.drop_last();
        let fewer = scores.drop_last();
        assert(all_ids(list).drop_last() =~= all_ids(init));
        assert forall|i: int| 0 <= i < all_ids(init).len() implies bm25::is_score(
            v,
            query,
            #[trigger] all_ids(init)[i],
            weigh,
            fewer[i],
        ) by {
            assert(all_ids(init)[i] == all_ids(list)[i]);
        }
        assert forall|i: int|
            #![trigger init[i]]
            0 <= i < init.len() && !files.contains(init[i].file) implies !fewer[i].positive() by {
            assert(init[i] == list[i]);
        }
        lemma_left_out(v, query, weigh, init, files, fewer);
        let last = list.len() - 1;
        assert(list[last] == list.last());
        assert(bm25::is_score(v, query, all_ids(list)[last], weigh, scores[last]));
        let ids = ids_in(list, files);
        let kept = scores_in(list, files, scores);
        if files.contains(list.last().file) {
            assert(ids.drop_last() =~= ids_in(init, files));
            assert(kept.drop_last() =~= scores_in(init, files, fewer));
            assert forall|i: int| 0 <= i < ids.len() implies bm25::is_score(
                v,
                query,
                #[trigger] ids[i],
                weigh,
                kept[i],
            ) by {
                if i < ids.len() - 1 {
                    assert(ids_in(init, files)[i] == ids[i]);
                }
            }
        }
    } else {
        assert(all_ids(list) =~= ids_in(list, files));
        assert(scores =~= scores_in(list, files, scores));
    }
}

/// A chunk whose file is no candidate scores 0.
proof fn lemma_screened_out<W: Fn(&ScoreTerms) -> Single, M: Fn(u128, u32) -> Single>(
    v: store::StoreView,
    query: Seq<char>,
    weigh: W,
    mean: M,
    i: int,
    score: Single,
)
    requires
        bm25::distinct_ids(v.chunks),
        bm25::is_built(v.chunks, mean, v.bm25),
        is_screened(v),
        0 <= i < v.chunks.len(),
        !bloom::matching(v.filters, bloom::lookup_keys(query)).contains(v.chunks[i].file),
        bm25::is_score(v.bm25, query, v.chunks[i].id, weigh, score),
    ensures
        !score.positive(),
{
    let c = v.chunks[i];
    let tokens = text::token_hashes(c.text);
    let keys = bloom::lookup_keys(query);
    if tokens.len() == 0 {
        bm25::law_index_holds_the_chunks_with_tokens(v.chunks, c.id);
        if bm25::has_tokens(v.chunks, c.id) {
            let j = choose|j: int|
                #![trigger v.chunks[j]]
                0 <= j < v.chunks.len() && v.chunks[j].id == c.id && text::token_hashes(
                    v.chunks[j].text,
                ).len() > 0;
            assert(j == i);
        }
    } else {
        bm25::law_index_knows_each_chunk(v.chunks, i);
        text::lemma_unique(text::token_hashes(query));
        assert forall|t: u64| #[trigger]
            text::token_hashes(query).contains(t) implies !v.bm25.term_freq[c.id].contains_key(
            t,
        ) by {
            bm25::lemma_frequency_keys(tokens, t);
            if tokens.contains(t) {
                let at = choose|at: int|
                    #![trigger v.filters[at]]
                    bloom::entry_at(v.filters, v.chunks[i].file, at) && v.filters[at].1.member(t);
                assert(keys.contains(t));
                let k = choose|k: int| 0 <= k < keys.len() && keys[k] == t;
                assert(v.filters[at].1.member(keys[k]));
                bloom::lemma_matching_contains(v.filters, keys, at);
            }
        }
        bm25::law_no_shared_token_scores_zero(v.bm25, query, c.id, weigh, score);
    }
}

/// The screening loses nothing: where the tokens of each chunk lie in the filter
/// of its file, a search answers as a query over all files of the index does.
pub proof fn law_screening_loses_nothing<
    W: Fn(&ScoreTerms) -> Single,
    S: Fn(Single, Single) -> Single,
    H: Fn(Ratio) -> Single,
    E: Fn(&EnergyTerms) -> Single,
    C: Fn(SimulatedAnnealer, Single) -> Single,
    A: Fn(StdRng, Single, Single, Single) -> (StdRng, bool),
    M: Fn(u128, u32) -> Single,
>(
    v: store::StoreView,
    query: Seq<char>,
    budget: usize,
    topk: usize,
    files: Seq<Seq<char>>,
    f: Formulas<W, S, H, E, C, A>,
    mean: M,
    searched: Seq<ResultView>,
    selected: Seq<ResultView>,
)
    requires
        formulas_alike(f),
        bm25::distinct_ids(v.chunks),
        bm25::is_built(v.chunks, mean, v.bm25),
        is_screened(v),
        forall|i: int|
            #![trigger v.chunks[i]]
            0 <= i < v.chunks.len() ==> files.contains(v.chunks[i].file),
        is_ranking(v, query, budget, topk, search_ids(v, query), f, searched),
        is_ranking(v, query, budget, topk, ids_in(v.chunks, files), f, selected),
    ensures
        searched == selected,
{
    let all = all_ids(v.chunks);
    let candidates = bloom::matching(v.filters, bloom::lookup_keys(query));
    lemma_all_files(v.chunks, files);
    if candidates.len() == 0 {
        law_same_query_same_answer(v, query, budget, topk, all, f, searched, selected);
    } else if all.len() == 0 {
        lemma_ids_in_len(v.chunks, candidates);
        assert(searched =~= selected);
    } else {
        let ids = ids_in(v.chunks, candidates);
        let n = at_least(topk, MIN_CANDIDATES) as int;
        let (scored, p, x) = lemma_steps(v, query, budget, topk, all, f, selected);
        if v.bm25.n_docs != 0 && n != 0 && text::token_hashes(query).len() > 0 {
            let (listed, scores) = choose|ids: Seq<u64>, scores: Seq<Single>|
                {
                    &&& bm25::are_ids(v.bm25, all, ids)
                    &&& #[trigger] bm25::are_scores(v.bm25, query, ids, f.weigh, scores)
                    &&& bm25::is_best(bm25::positives(ids, scores), n, scored)
                };
            assert forall|i: int|
                #![trigger v.chunks[i]]
                0 <= i < v.chunks.len() && !candidates.contains(
                    v.chunks[i].file,
                ) implies !scores[i].positive() by {
                assert(bm25::is_score(v.bm25, query, all[i], f.weigh, scores[i]));
                lemma_screened_out(v, query, f.weigh, mean, i, scores[i]);
            }
            lemma_left_out(v.bm25, query, f.weigh, v.chunks, candidates, scores);
            let kept = scores_in(v.chunks, candidates, scores);
            assert(bm25::are_scores(v.bm25, query, ids, f.weigh, kept));
            if ids.len() > 0 {
                assert(bm25::is_top_n(v.bm25, query, ids, n, f.weigh, scored));
            } else {
                assert(bm25::positives(all, scores).len() == 0);
                assert(scored.len() == 0);
            }
        }
        if ids.len() > 0 {
            assert(bm25::is_top_n(v.bm25, query, ids, n, f.weigh, scored));
            assert(is_ranking(v, query, budget, topk, ids, f, selected));
            law_same_query_same_answer(v, query, budget, topk, ids, f, searched, selected);
        } else {
            lemma_nothing_scored(v, budget, f, p, x, scored, selected);
            assert(searched =~= selected);
        }
    }
}

/// Where nothing is scored, nothing is answered.
proof fn lemma_nothing_scored<
    W: Fn(&ScoreTerms) -> Single,
    S: Fn(Single, Single) -> Single,
    H: Fn(Ratio) -> Single,
    E: Fn(&EnergyTerms) -> Single,
    C: Fn(SimulatedAnnealer, Single) -> Single,
    A: Fn(StdRng, Single, Single, Single) -> (StdRng, bool),
>(
    v: store::StoreView,
    budget: usize,
    f: Formulas<W, S, H, E, C, A>,
    p: qubo::ProblemView,
    x: Seq<bool>,
    scored: Seq<(u64, Single)>,
    r: Seq<ResultView>,
)
    requires
        scored.len() == 0,
        is_problem(v, resolved(places(v.chunks), scored), budget, f.scale, f.share, p),
        qubo::is_solution(annealer(), p, f.evaluate, f.cool, f.accept, x),
        is_sorted_list(
            chosen_results(v, resolved(places(v.chunks), scored), p.relevance, x),
            r,
        ),
    ensures
        r.len() == 0,
{
    let items = resolved(places(v.chunks), scored);
    assert(items.len() == 0);
    assert(p.relevance.len() == 0);
    assert(chosen_results(v, items, p.relevance, x).len() == 0);
}

/// A list of all files selects all chunks.
proof fn lemma_all_files(list: Seq<chunk::ChunkView>, files: Seq<Seq<char>>)
    requires
        forall|i: int|
            #![trigger list[i]]
            0 <= i < list.len() ==> files.contains(list[i].file),
    ensures
        ids_in(list, files) == all_ids(list),
    decreases list.len(),
{
    if list.len() > 0 {
        let init = list.drop_last();
        assert forall|i: int| #![trigger init[i]] 0 <= i < init.len() implies files.contains(
            init[i].file,
        ) by {
            assert(init[i] == list[i]);
        }
        lemma_all_files(init, files);
        assert(list[list.len() - 1] == list.last());
    }
    assert(ids_in(list, files) =~= all_ids(list));
}

/// Files without chunks in the index do not matter to an answer.
pub proof fn law_unknown_files_change_no_answer<
    W: Fn(&ScoreTerms) -> Single,
    S: Fn(Single, Single) -> Single,
    H: Fn(Ratio) -> Single,
    E: Fn(&EnergyTerms) -> Single,
    C: Fn(SimulatedAnnealer, Single) -> Single,
    A: Fn(StdRng, Single, Single, Single) -> (StdRng, bool),
>(
    v: store::StoreView,
    query: Seq<char>,
    budget: usize,
    topk: usize,
    files: Seq<Seq<char>>,
    absent: Seq<Seq<char>>,
    f: Formulas<W, S, H, E, C, A>,
    r: Seq<ResultView>,
    s: Seq<ResultView>,
)
    requires
        formulas_alike(f),
        forall|i: int|
            #![trigger v.chunks[i]]
            0 <= i < v.chunks.len() ==> !absent.contains(v.chunks[i].file),
        is_ranking(v, query, budget, topk, ids_in(v.chunks, files), f, r),
        is_ranking(v, query, budget, topk, ids_in(v.chunks, files + absent), f, s),
    ensures
        r == s,
{
    let both = files + absent;
    assert forall|i: int| #![trigger v.chunks[i]] 0 <= i < v.chunks.len() implies (files.contains(
        v.chunks[i].file,
    ) <==> both.contains(v.chunks[i].file)) by {
        let name = v.chunks[i].file;
        if files.contains(name) {
            let k = choose|k: int| 0 <= k < files.len() && files[k] == name;
            assert(both[k] == name);
        }
        if both.contains(name) {
            let k = choose|k: int| 0 <= k < both.len() && both[k] == name;
            if k >= files.len() {
                assert(absent[k - files.len()] == name);
            }
        }
    }
    law_unknown_files_do_not_matter(v.chunks, files, both);
    law_same_query_same_answer(v, query, budget, topk, ids_in(v.chunks, files), f, r, s);
}

/// Indexes with the same archive screen files alike.
proof fn lemma_same_screening(
    a: Seq<bloom::EntryView>,
    b: Seq<bloom::EntryView>,
    keys: Seq<u64>,
    path: Seq<char>,
)
    requires
        bloom::distinct_paths(a),
        bloom::distinct_paths(b),
        archive::by_path(a) == archive::by_path(b),
        bloom::matching(a, keys).contains(path),
    ensures
        bloom::matching(b, keys).contains(path),
{
    bloom::law_candidates_are_indexed(a, keys, path);
    let at = choose|at: int|
        #![trigger a[at]]
        bloom::entry_at(a, path, at) && (keys.len() == 0 || bloom::holds_any(a[at].1, keys));
    assert(a.contains(a[at]));
    archive::lemma_same_entries(a, b, a[at]);
    let k = choose|k: int| 0 <= k < b.len() && b[k] == a[at];
    bloom::lemma_matching_contains(b, keys, k);
}

/// Indexes with the same archive rank the same chunks for a query.
proof fn lemma_same_search_ids(v: store::StoreView, w: store::StoreView, query: Seq<char>)
    requires
        bloom::distinct_paths(v.filters),
        bloom::distinct_paths(w.filters),
        archive::archive_of(v) == archive::archive_of(w),
    ensures
        search_ids(v, query) == search_ids(w, query),
{
    let keys = bloom::lookup_keys(query);
    let a = bloom::matching(v.filters, keys);
    let b = bloom::matching(w.filters, keys);
    assert(archive::by_path(v.filters) == archive::archive_of(v).filters);
    assert(archive::by_path(w.filters) == archive::archive_of(w).filters);
    assert forall|path: Seq<char>| a.contains(path) <==> b.contains(path) by {
        if a.contains(path) {
            lemma_same_screening(v.filters, w.filters, keys, path);
        }
        if b.contains(path) {
            lemma_same_screening(w.filters, v.filters, keys, path);
        }
    }
    if a.len() > 0 {
        assert(a.contains(a[0]));
        assert(b.contains(a[0]));
    }
    if b.len() > 0 {
        assert(b.contains(b[0]));
        assert(a.contains(b[0]));
    }
    law_unknown_files_do_not_matter(v.chunks, a, b);
}

/// A ranking does not look at the filters.
proof fn lemma_ranking_without_filters<
    W: Fn(&ScoreTerms) -> Single,
    S: Fn(Single, Single) -> Single,
    H: Fn(Ratio) -> Single,
    E: Fn(&EnergyTerms) -> Single,
    C: Fn(SimulatedAnnealer, Single) -> Single,
    A: Fn(StdRng, Single, Single, Single) -> (StdRng, bool),
>(
    v: store::StoreView,
    w: store::StoreView,
    query: Seq<char>,
    budget: usize,
    topk: usize,
    ids: Seq<u64>,
    f: Formulas<W, S, H, E, C, A>,
    r: Seq<ResultView>,
)
    requires
        v.chunks == w.chunks,
        v.bm25 == w.bm25,
        v.minhash == w.minhash,
        is_ranking(v, query, budget, topk, ids, f, r),
    ensures
        is_ranking(w, query, budget, topk, ids, f, r),
{
    if ids.len() > 0 {
        let (scored, p, x) = choose|scored: Seq<(u64, Single)>, p: qubo::ProblemView, x: Seq<bool>|
            {
                let items = resolved(places(v.chunks), scored);
                &&& #[trigger] bm25::is_top_n(
                    v.bm25,
                    query,
                    ids,
                    at_least(topk, MIN_CANDIDATES) as int,
                    f.weigh,
                    scored,
                )
                &&& is_problem(v, items, budget, f.scale, f.share, p)
                &&& #[trigger] qubo::is_solution(
                    annealer(),
                    p,
                    f.evaluate,
                    f.cool,
                    f.accept,
                    x,
                )
                &&& is_sorted_list(chosen_results(v, items, p.relevance, x), r)
            };
        let items = resolved(places(v.chunks), scored);
        assert(item_tokens(v, items) =~= item_tokens(w, items));
        assert forall|i: int, j: int|
            0 <= i < items.len() && 0 <= j < items.len() implies is_likeness(
            w,
            items,
            f.share,
            i,
            j,
            #[trigger] p.similarity[i][j],
        ) by {
            assert(is_likeness(v, items, f.share, i, j, p.similarity[i][j]));
            assert(signature_at(v, items[i].0) == signature_at(w, items[i].0));
            assert(signature_at(v, items[j].0) == signature_at(w, items[j].0));
        }
        assert(is_problem(w, items, budget, f.scale, f.share, p));
        let a = Seq::new(
            items.len(),
            |i: int| ResultView { chunk: v.chunks[items[i].0 as int], score: p.relevance[i] },
        );
        let b = Seq::new(
            items.len(),
            |i: int| ResultView { chunk: w.chunks[items[i].0 as int], score: p.relevance[i] },
        );
        assert(a =~= b);
        assert(chosen_results(v, items, p.relevance, x) == qubo::chosen(a, x));
        assert(chosen_results(w, items, p.relevance, x) == qubo::chosen(b, x));
    }
}

/// An index that was saved and loaded answers every query as it did before.
pub proof fn law_loaded_index_answers_alike<
    W: Fn(&ScoreTerms) -> Single,
    S: Fn(Single, Single) -> Single,
    H: Fn(Ratio) -> Single,
    E: Fn(&EnergyTerms) -> Single,
    C: Fn(SimulatedAnnealer, Single) -> Single,
    A: Fn(StdRng, Single, Single, Single) -> (StdRng, bool),
>(
    file: Seq<u8>,
    saved: store::StoreView,
    loaded: store::StoreView,
    query: Seq<char>,
    budget: usize,
    topk: usize,
    f: Formulas<W, S, H, E, C, A>,
    r: Seq<ResultView>,
    s: Seq<ResultView>,
)
    requires
        formulas_alike(f),
        bloom::distinct_paths(saved.filters),
        bloom::distinct_paths(loaded.filters),
        archive::stored_in(file) == Some(archive::archive_of(saved)),
        archive::stored_in(file) == Some(archive::archive_of(loaded)),
        is_ranking(saved, query, budget, topk, search_ids(saved, query), f, r),
        is_ranking(loaded, query, budget, topk, search_ids(loaded, query), f, s),
    ensures
        r == s,
{
    archive::law_written_index_is_read_back(file, saved, loaded);
    lemma_same_search_ids(saved, loaded, query);
    let ids = search_ids(saved, query);
    lemma_ranking_without_filters(loaded, saved, query, budget, topk, ids, f, s);
    law_same_query_same_answer(saved, query, budget, topk, ids, f, r, s);
}

/// An index that was saved and loaded can answer the queries that it could before.
pub proof fn law_loaded_index_takes_the_same_queries(
    file: Seq<u8>,
    saved: store::StoreView,
    loaded: store::StoreView,
    query: Seq<char>,
)
    requires
        bloom::distinct_paths(saved.filters),
        bloom::distinct_paths(loaded.filters),
        archive::stored_in(file) == Some(archive::archive_of(saved)),
        archive::stored_in(file) == Some(archive::archive_of(loaded)),
        bloom::all_reach(saved.filters, bloom::lookup_keys(query)),
    ensures
        bloom::all_reach(loaded.filters, bloom::lookup_keys(query)),
{
    archive::law_written_index_is_read_back(file, saved, loaded);
    let keys = bloom::lookup_keys(query);
    assert forall|i: int| 0 <= i < loaded.filters.len() implies bloom::reaches_hit(
        (#[trigger] loaded.filters[i]).1,
        keys,
    ) by {
        let e = loaded.filters[i];
        assert(loaded.filters.contains(e));
        let k = choose|k: int| 0 <= k < saved.filters.len() && saved.filters[k] == e;
        assert(bloom::reaches_hit(saved.filters[k].1, keys));
    }
}

/// What a text costs of a budget: a token for every four bytes, and at least one.
pub open spec fn cost(t: Seq<char>) -> int {
    if vstd::utf8::encode_utf8(t).len() < 8 {
        1
    } else {
        vstd::utf8::encode_utf8(t).len() as int / 4
    }
}

/// What the chunks of an answer cost together.
pub open spec fn cost_of(r: Seq<ResultView>) -> int
    decreases r.len(),
{
    if r.len() == 0 {
        0
    } else {
        cost_of(r.drop_last()) + cost(r.last().chunk.text)
    }
}

/// This machine can count the bytes of every chunk.
pub open spec fn texts_countable(v: store::StoreView) -> bool {
    forall|i: int|
        0 <= i < v.chunks.len() ==> vstd::utf8::encode_utf8((#[trigger] v.chunks[i]).text).len()
            <= usize::MAX
}

/// Taking one result out takes its cost off.
proof fn lemma_cost_remove(r: Seq<ResultView>, j: int)
    requires
        0 <= j < r.len(),
    ensures
        cost_of(r) == cost_of(r.remove(j)) + cost(r[j].chunk.text),
    decreases r.len(),
{
    let n = r.len() - 1;
    if j == n {
        assert(r.remove(j) =~= r.drop_last());
    } else {
        lemma_cost_remove(r.drop_last(), j);
        assert(r.remove(j).drop_last() =~= r.drop_last().remove(j));
        assert(r.remove(j).last() == r.last());
    }
}

/// The order of results does not change what they cost.
proof fn lemma_cost_in_order(list: Seq<ResultView>, order: Seq<int>)
    requires
        order.len() == list.len(),
        forall|k: int| 0 <= k < order.len() ==> 0 <= #[trigger] order[k] < list.len(),
        forall|p: int| 0 <= p < list.len() ==> #[trigger] order.contains(p),
    ensures
        cost_of(Seq::new(list.len(), |i: int| list[order[i]])) == cost_of(list),
    decreases list.len(),
{
    let r = Seq::new(list.len(), |i: int| list[order[i]]);
    if list.len() > 0 {
        let n = list.len() - 1;
        let init = list.drop_last();
        assert(order.contains(n));
        let j = choose|j: int| 0 <= j < order.len() && order[j] == n;
        let rest = order.remove(j);
        assert forall|p: int| 0 <= p < init.len() implies #[trigger] rest.contains(p) by {
            assert(order.contains(p));
            let k = choose|k: int| 0 <= k < order.len() && order[k] == p;
            if k < j {
                assert(rest[k] == p);
            } else {
                assert(rest[k - 1] == p);
            }
        }
        lemma_places_are_used_once(rest, n);
        assert forall|k: int| 0 <= k < rest.len() implies 0 <= #[trigger] rest[k] < init.len() by {
            if rest[k] == n {
                assert(rest.contains(n));
            }
        }
        lemma_cost_in_order(init, rest);
        lemma_cost_remove(r, j);
        assert(r.remove(j) =~= Seq::new(init.len(), |i: int| init[rest[i]]));
    } else {
        assert(r =~= list);
    }
}

/// Where `n` places hold all numbers below `n`, they hold no other.
proof fn lemma_places_are_used_once(rest: Seq<int>, n: int)
    requires
        rest.len() == n,
        forall|p: int| 0 <= p < n ==> #[trigger] rest.contains(p),
    ensures
        !rest.contains(n),
{
    if rest.contains(n) {
        let low = Seq::new((n + 1) as nat, |i: int| i);
        let held = rest.to_set();
        assert(low.no_duplicates());
        low.unique_seq_to_set();
        assert(low.to_set().subset_of(held)) by {
            assert forall|p: int| low.to_set().contains(p) implies held.contains(p) by {
                let i = choose|i: int| 0 <= i < low.len() && low[i] == p;
                assert(rest.contains(p));
            }
        }
        vstd::set_lib::lemma_len_subset(low.to_set(), held);
        vstd::seq_lib::seq_to_set_is_finite(rest);
        rest.lemma_cardinality_of_set();
    }
}

/// What is chosen costs the tokens that the choice takes.
proof fn lemma_cost_of_chosen(values: Seq<ResultView>, tokens: Seq<usize>, x: Seq<bool>)
    requires
        x.len() <= tokens.len(),
        forall|i: int|
            #![trigger tokens[i]]
            0 <= i < x.len() ==> tokens[i] == cost(values[i].chunk.text),
    ensures
        cost_of(qubo::chosen(values, x)) == qubo::used_tokens(tokens, x),
    decreases x.len(),
{
    if x.len() > 0 {
        let init = x.drop_last();
        lemma_cost_of_chosen(values, tokens, init);
        let n = x.len() - 1;
        let before = qubo::chosen(values, init);
        assert(tokens[n] == cost(values[n].chunk.text));
        if x.last() {
            assert(before.push(values[n]).drop_last() =~= before);
        }
    }
}

/// How an answer came about, step by step.
pub open spec fn is_weighed_choice<
    W: Fn(&ScoreTerms) -> Single,
    S: Fn(Single, Single) -> Single,
    H: Fn(Ratio) -> Single,
    E: Fn(&EnergyTerms) -> Single,
    C: Fn(SimulatedAnnealer, Single) -> Single,
    A: Fn(StdRng, Single, Single, Single) -> (StdRng, bool),
>(
    v: store::StoreView,
    query: Seq<char>,
    budget: usize,
    f: Formulas<W, S, H, E, C, A>,
    picks: Seq<int>,
    scores: Seq<Single>,
    p: qubo::ProblemView,
) -> bool {
    &&& scores.len() == picks.len()
    &&& p.relevance.len() == picks.len()
    &&& p.similarity.len() == picks.len()
    &&& p.tokens.len() == picks.len()
    &&& p.budget == budget
    // One half for what is alike, one thousandth for what is too much.
    &&& p.lambda.bits == 0x3F00_0000
    &&& p.mu.bits == 0x3A83_126F
    &&& forall|i: int|
        #![trigger picks[i]]
        0 <= i < picks.len() ==> {
            &&& 0 <= picks[i] < v.chunks.len()
            &&& p.tokens[i] == cost(v.chunks[picks[i]].text)
            &&& scores[i].positive()
            &&& bm25::is_score(v.bm25, query, v.chunks[picks[i]].id, f.weigh, scores[i])
            &&& exists|top: Single|
                is_top_score(scores, top) && #[trigger] call_ensures(
                    f.scale,
                    (scores[i], top),
                    p.relevance[i],
                )
        }
    &&& forall|i: int, j: int|
        #![trigger picks[i], picks[j]]
        0 <= i < picks.len() && 0 <= j < picks.len() ==> is_alike(
            v,
            v.chunks[picks[i]].id,
            v.chunks[picks[j]].id,
            i == j,
            f.share,
            p.similarity[i][j],
        )
}

/// `top` is the greatest of the scores that are numbers, or the floor of one
/// millionth where that is greater.
pub open spec fn is_top_score(scores: Seq<Single>, top: Single) -> bool {
    &&& top.bits == 0x3586_37BD || scores.contains(top)
    &&& 0x3586_37BD <= top.key()
    &&& forall|i: int|
        0 <= i < scores.len() && (#[trigger] scores[i]).is_number() ==> scores[i].key()
            <= top.key()
}

/// `s` is how alike two chunks are: what `share` makes of the estimate from their
/// signatures, whatever else they hold, and 0 for a chunk and itself or where a
/// signature is missing.
pub open spec fn is_alike<H: Fn(Ratio) -> Single>(
    v: store::StoreView,
    a: u64,
    b: u64,
    same: bool,
    share: H,
    s: Single,
) -> bool {
    if !same && v.minhash.contains_key(a) && v.minhash.contains_key(b) {
        exists|e: Ratio|
            minhash::is_estimate(v.minhash[a], v.minhash[b], e) && #[trigger] call_ensures(
                share,
                (e,),
                s,
            )
    } else {
        s.bits == 0
    }
}

/// `r` holds the chunks at `picks` that `x` takes, with their relevance, highest
/// first, and nothing else.
pub open spec fn is_bundle(
    v: store::StoreView,
    picks: Seq<int>,
    relevance: Seq<Single>,
    x: Seq<bool>,
    r: Seq<ResultView>,
) -> bool {
    &&& x.len() == picks.len()
    &&& r.len() == qubo::count_taken(x)
    &&& forall|i: int|
        #![trigger x[i]]
        0 <= i < x.len() && x[i] ==> r.contains(
            ResultView { chunk: v.chunks[picks[i]], score: relevance[i] },
        )
    &&& forall|k: int|
        #![trigger r[k]]
        0 <= k < r.len() ==> exists|i: int|
            #![trigger x[i]]
            0 <= i < x.len() && x[i] && r[k] == (ResultView {
                chunk: v.chunks[picks[i]],
                score: relevance[i],
            })
    &&& forall|k: int, l: int|
        #![trigger r[k], r[l]]
        0 <= k < l < r.len() ==> r[k].score.key() >= r[l].score.key()
}

/// The highest score is one of the scores, or nothing.
proof fn lemma_highest_is_held(items: Seq<(usize, Single)>)
    ensures
        highest(items).bits == 0 || exists|i: int|
            0 <= i < items.len() && (#[trigger] items[i]).1 == highest(items),
    decreases items.len(),
{
    if items.len() > 0 {
        let init = items.drop_last();
        lemma_highest_is_held(init);
        let top = highest(items);
        if top == highest(init) && top.bits != 0 {
            let i = choose|i: int| 0 <= i < init.len() && (#[trigger] init[i]).1 == highest(init);
            assert(items[i].1 == top);
        }
        if top == items.last().1 {
            assert(items[items.len() - 1].1 == top);
        }
    }
}

/// An answer is a choice weighed as asked for: among the chunks with the best
/// scores, each with its score as a share of the highest one, the tokens its text
/// takes, and how alike each two of them are, the annealer chooses within the
/// budget that was given, and the answer is what it chose, highest score first.
pub proof fn law_answer_is_a_choice_within_the_budget<
    W: Fn(&ScoreTerms) -> Single,
    S: Fn(Single, Single) -> Single,
    H: Fn(Ratio) -> Single,
    E: Fn(&EnergyTerms) -> Single,
    C: Fn(SimulatedAnnealer, Single) -> Single,
    A: Fn(StdRng, Single, Single, Single) -> (StdRng, bool),
>(
    v: store::StoreView,
    query: Seq<char>,
    budget: usize,
    topk: usize,
    ids: Seq<u64>,
    f: Formulas<W, S, H, E, C, A>,
    r: Seq<ResultView>,
)
    requires
        v.chunks.len() <= usize::MAX,
        texts_countable(v),
        0 < ids.len() <= usize::MAX,
        is_ranking(v, query, budget, topk, ids, f, r),
    ensures
        exists|picks: Seq<int>, scores: Seq<Single>, p: qubo::ProblemView, x: Seq<bool>|
            {
                &&& #[trigger] is_weighed_choice(v, query, budget, f, picks, scores, p)
                &&& picks.len() <= if topk < 10 {
                    10
                } else {
                    topk
                }
                &&& #[trigger] qubo::is_solution(
                    SimulatedAnnealer {
                        initial_temp: Single { bits: 0x40A0_0000 },
                        final_temp: Single { bits: 0x3C23_D70A },
                        steps: 5000,
                        seed: 0xC0DE_F00D,
                    },
                    p,
                    f.evaluate,
                    f.cool,
                    f.accept,
                    x,
                )
                &&& is_bundle(v, picks, p.relevance, x, r)
                &&& v.bm25.n_docs > 0 && text::token_hashes(query).len() > 0
                    && bm25::distinct_ids(v.chunks) && are_known(v, ids) ==> no_better_is_left_out(
                    v,
                    query,
                    ids,
                    if topk < 10 {
                        10
                    } else {
                        topk as int
                    },
                    f.weigh,
                    picks,
                    scores,
                )
            },
{
    let n = at_least(topk, MIN_CANDIDATES) as int;
    let at = places(v.chunks);
    let (scored, p, x) = lemma_steps(v, query, budget, topk, ids, f, r);
    let items = resolved(at, scored);
    let picks = Seq::new(items.len(), |i: int| items[i].0 as int);
    let scores = Seq::new(items.len(), |i: int| items[i].1);
    bm25::law_top_n_are_scored_candidates(v.bm25, query, ids, n, f.weigh, scored);
    lemma_resolved(at, scored);
    lemma_places(v.chunks);
    qubo::lemma_solution_len(annealer(), p, f.evaluate, f.cool, f.accept, x);
    assert forall|i: int| 0 <= i < items.len() implies {
        &&& (#[trigger] items[i]).1.positive()
        &&& 0 <= items[i].0 < v.chunks.len()
        &&& bm25::is_score(
            v.bm25,
            query,
            v.chunks[items[i].0 as int].id,
            f.weigh,
            items[i].1,
        )
    } by {
        assert(is_resolved(at, scored, items[i]));
        let s = choose|s: int|
            #![trigger scored[s]]
            0 <= s < scored.len() && at.contains_key(scored[s].0) && items[i] == (
                at[scored[s].0],
                scored[s].1,
            );
        assert(v.chunks[items[i].0 as int].id == scored[s].0);
    }
    lemma_highest(items);
    lemma_highest_is_held(items);
    let top = scale_base(items);
    assert(is_top_score(scores, top)) by {
        if top.bits != 0x3586_37BD {
            let i = choose|i: int| 0 <= i < items.len() && (#[trigger] items[i]).1 == highest(items);
            assert(scores[i] == top);
        }
        assert forall|i: int| 0 <= i < scores.len() && (#[trigger] scores[i]).is_number() implies {
            scores[i].key() <= top.key()
        } by {
            assert(items[i].1 == scores[i]);
        }
    }
    assert forall|i: int| #![trigger picks[i]] 0 <= i < picks.len() implies {
        &&& 0 <= picks[i] < v.chunks.len()
        &&& p.tokens[i] == cost(v.chunks[picks[i]].text)
        &&& scores[i].positive()
        &&& bm25::is_score(v.bm25, query, v.chunks[picks[i]].id, f.weigh, scores[i])
        &&& exists|top: Single|
            is_top_score(scores, top) && #[trigger] call_ensures(
                f.scale,
                (scores[i], top),
                p.relevance[i],
            )
    } by {
        let c = v.chunks[items[i].0 as int];
        assert(items[i].1.positive());
        assert(scores[i] == items[i].1);
        assert(picks[i] == items[i].0);
        assert(p.tokens[i] == item_tokens(v, items)[i]);
        assert(p.tokens[i] == chunk::tokens_in(c.text) as usize);
        assert(p.tokens[i] == cost(c.text));
        assert(call_ensures(f.scale, (scores[i], top), p.relevance[i]));
    }
    assert forall|i: int, j: int|
        #![trigger picks[i], picks[j]]
        0 <= i < picks.len() && 0 <= j < picks.len() implies is_alike(
        v,
        v.chunks[picks[i]].id,
        v.chunks[picks[j]].id,
        i == j,
        f.share,
        p.similarity[i][j],
    ) by {
        assert(is_likeness(v, items, f.share, i, j, p.similarity[i][j]));
    }
    assert(is_weighed_choice(v, query, budget, f, picks, scores, p));
    lemma_bundle(v, items, p.relevance, x, r);
    assert(qubo::is_solution(annealer(), p, f.evaluate, f.cool, f.accept, x));
    assert(is_bundle(v, picks, p.relevance, x, r)) by {
        assert(Seq::new(items.len(), |i: int| items[i].0 as int) =~= picks);
    }
    if v.bm25.n_docs > 0 && text::token_hashes(query).len() > 0 && bm25::distinct_ids(v.chunks)
        && are_known(v, ids) {
        lemma_no_better_is_left_out(v, query, ids, n, f.weigh, scored);
    }
}

/// Each of `ids` is that of a chunk.
pub open spec fn are_known(v: store::StoreView, ids: Seq<u64>) -> bool {
    forall|i: int|
        0 <= i < ids.len() ==> exists|c: int|
            0 <= c < v.chunks.len() && (#[trigger] v.chunks[c]).id == #[trigger] ids[i]
}

/// Each chunk that is looked at and scores is picked, or `n` are and none of them
/// scores less.
pub open spec fn no_better_is_left_out<W: Fn(&ScoreTerms) -> Single>(
    v: store::StoreView,
    query: Seq<char>,
    ids: Seq<u64>,
    n: int,
    weigh: W,
    picks: Seq<int>,
    scores: Seq<Single>,
) -> bool {
    forall|c: int|
        #![trigger v.chunks[c]]
        0 <= c < v.chunks.len() && ids.contains(v.chunks[c].id) ==> exists|s: Single|
            {
                &&& #[trigger] bm25::is_score(v.bm25, query, v.chunks[c].id, weigh, s)
                &&& s.positive() ==> {
                    ||| exists|i: int|
                        0 <= i < picks.len() && #[trigger] picks[i] == c && scores[i] == s
                    ||| picks.len() == n && forall|i: int|
                        0 <= i < picks.len() ==> (#[trigger] scores[i]).key() >= s.key()
                }
            }
}

/// Where all scored identifiers have places, none of them is lost.
proof fn lemma_all_resolved(at: Map<u64, usize>, scored: Seq<(u64, Single)>)
    requires
        forall|i: int| 0 <= i < scored.len() ==> at.contains_key((#[trigger] scored[i]).0),
    ensures
        resolved(at, scored).len() == scored.len(),
        forall|i: int|
            #![trigger scored[i]]
            0 <= i < scored.len() ==> resolved(at, scored)[i] == (at[scored[i].0], scored[i].1),
    decreases scored.len(),
{
    if scored.len() > 0 {
        let init = scored.drop_last();
        assert forall|i: int| 0 <= i < init.len() implies at.contains_key(
            (#[trigger] init[i]).0,
        ) by {
            assert(init[i] == scored[i]);
        }
        lemma_all_resolved(at, init);
        assert(scored[scored.len() - 1] == scored.last());
        assert forall|i: int| #![trigger scored[i]] 0 <= i < scored.len() implies resolved(
            at,
            scored,
        )[i] == (at[scored[i].0], scored[i].1) by {
            if i < init.len() {
                assert(init[i] == scored[i]);
            }
        }
    }
}

/// The best by score go into the choice.
proof fn lemma_no_better_is_left_out<W: Fn(&ScoreTerms) -> Single>(
    v: store::StoreView,
    query: Seq<char>,
    ids: Seq<u64>,
    n: int,
    weigh: W,
    scored: Seq<(u64, Single)>,
)
    requires
        v.chunks.len() <= usize::MAX,
        0 < ids.len() <= usize::MAX,
        0 < n,
        v.bm25.n_docs > 0,
        text::token_hashes(query).len() > 0,
        bm25::distinct_ids(v.chunks),
        are_known(v, ids),
        bm25::is_top_n(v.bm25, query, ids, n, weigh, scored),
    ensures
        ({
            let items = resolved(places(v.chunks), scored);
            no_better_is_left_out(
                v,
                query,
                ids,
                n,
                weigh,
                Seq::new(items.len(), |i: int| items[i].0 as int),
                Seq::new(items.len(), |i: int| items[i].1),
            )
        }),
{
    let at = places(v.chunks);
    let items = resolved(at, scored);
    let picks = Seq::new(items.len(), |i: int| items[i].0 as int);
    let scores = Seq::new(items.len(), |i: int| items[i].1);
    lemma_places(v.chunks);
    bm25::law_top_n_are_scored_candidates(v.bm25, query, ids, n, weigh, scored);
    assert forall|i: int| 0 <= i < scored.len() implies at.contains_key((#[trigger] scored[i]).0) by {
        assert(ids.contains(scored[i].0));
        let k = choose|k: int| 0 <= k < ids.len() && ids[k] == scored[i].0;
        let c = choose|c: int| 0 <= c < v.chunks.len() && (#[trigger] v.chunks[c]).id == ids[k];
        assert(at.contains_key(v.chunks[c].id));
    }
    lemma_all_resolved(at, scored);
    assert forall|c: int|
        #![trigger v.chunks[c]]
        0 <= c < v.chunks.len() && ids.contains(v.chunks[c].id) implies exists|s: Single|
        {
            &&& #[trigger] bm25::is_score(v.bm25, query, v.chunks[c].id, weigh, s)
            &&& s.positive() ==> {
                ||| exists|i: int|
                    0 <= i < picks.len() && #[trigger] picks[i] == c && scores[i] == s
                ||| picks.len() == n && forall|i: int|
                    0 <= i < picks.len() ==> (#[trigger] scores[i]).key() >= s.key()
            }
        } by {
        let id = v.chunks[c].id;
        bm25::law_no_scorer_is_left_out(v.bm25, query, ids, n, weigh, scored, id);
        let s = choose|s: Single|
            {
                &&& #[trigger] bm25::is_score(v.bm25, query, id, weigh, s)
                &&& s.positive() ==> scored.contains((id, s)) || (scored.len() == n && forall|
                    i: int,
                |
                    0 <= i < scored.len() ==> (#[trigger] scored[i]).1.key() >= s.key())
            };
        assert(at[id] == c);
        if s.positive() {
            if scored.contains((id, s)) {
                let i = choose|i: int| 0 <= i < scored.len() && scored[i] == (id, s);
                assert(picks[i] == c && scores[i] == s);
            } else {
                assert forall|i: int| 0 <= i < picks.len() implies (#[trigger] scores[i]).key()
                    >= s.key() by {
                    assert(scored[i].1.key() >= s.key());
                }
            }
        }
    }
}

/// `ids` are those of the chunks whose file passes, each as often as such a chunk
/// stands in the list, and in that order.
pub open spec fn are_ids_of(
    list: Seq<chunk::ChunkView>,
    passes: spec_fn(Seq<char>) -> bool,
    ids: Seq<u64>,
) -> bool {
    exists|at: Seq<int>|
        {
            &&& #[trigger] at.len() == ids.len()
            &&& forall|k: int|
                #![trigger at[k]]
                0 <= k < at.len() ==> 0 <= at[k] < list.len() && ids[k] == list[at[k]].id && passes(
                    list[at[k]].file,
                )
            &&& forall|k: int, l: int|
                #![trigger at[k], at[l]]
                0 <= k < l < at.len() ==> at[k] < at[l]
            &&& forall|i: int|
                #![trigger list[i]]
                0 <= i < list.len() && passes(list[i].file) ==> at.contains(i)
        }
}

/// A query over given files looks at all chunks of these files, and at no others.
pub proof fn law_all_chunks_of_the_files_are_looked_at(
    list: Seq<chunk::ChunkView>,
    files: Seq<Seq<char>>,
)
    ensures
        are_ids_of(list, |f: Seq<char>| files.contains(f), ids_in(list, files)),
    decreases list.len(),
{
    let passes = |f: Seq<char>| files.contains(f);
    let ids = ids_in(list, files);
    if list.len() == 0 {
        let at = Seq::<int>::empty();
        assert(at.len() == ids.len());
    } else {
        let init = list.drop_last();
        let n = list.len() - 1;
        law_all_chunks_of_the_files_are_looked_at(init, files);
        let before = choose|at: Seq<int>|
            {
                &&& #[trigger] at.len() == ids_in(init, files).len()
                &&& forall|k: int|
                    #![trigger at[k]]
                    0 <= k < at.len() ==> 0 <= at[k] < init.len() && ids_in(init, files)[k]
                        == init[at[k]].id && passes(init[at[k]].file)
                &&& forall|k: int, l: int|
                    #![trigger at[k], at[l]]
                    0 <= k < l < at.len() ==> at[k] < at[l]
                &&& forall|i: int|
                    #![trigger init[i]]
                    0 <= i < init.len() && passes(init[i].file) ==> at.contains(i)
            };
        let at = if files.contains(list.last().file) {
            before.push(n)
        } else {
            before
        };
        assert forall|k: int| #![trigger at[k]] 0 <= k < at.len() implies 0 <= at[k] < list.len()
            && ids[k] == list[at[k]].id && passes(list[at[k]].file) by {
            if k < before.len() {
                assert(at[k] == before[k]);
                assert(init[before[k]] == list[before[k]]);
            }
        }
        assert forall|i: int|
            #![trigger list[i]]
            0 <= i < list.len() && passes(list[i].file) implies at.contains(i) by {
            if i < n {
                assert(init[i] == list[i]);
                let k = choose|k: int| 0 <= k < before.len() && before[k] == i;
                assert(at[k] == i);
            } else {
                assert(at[before.len() as int] == n);
            }
        }
        assert(at.len() == ids.len());
    }
}

/// A search looks at all chunks of the files that its filters let through, and at
/// no others; where they let none through, at all there are.
pub proof fn law_search_looks_at_what_passes(v: store::StoreView, query: Seq<char>)
    ensures
        are_ids_of(v.chunks, let_through(v, query), search_ids(v, query)),
{
    let files = bloom::matching(v.filters, bloom::lookup_keys(query));
    let passes = let_through(v, query);
    let ids = search_ids(v, query);
    if files.len() == 0 {
        let at = Seq::new(v.chunks.len(), |i: int| i);
        assert forall|i: int|
            #![trigger v.chunks[i]]
            0 <= i < v.chunks.len() && passes(v.chunks[i].file) implies at.contains(i) by {
            assert(at[i] == i);
        }
        assert(at.len() == ids.len());
    } else {
        law_all_chunks_of_the_files_are_looked_at(v.chunks, files);
        assert(passes =~= |f: Seq<char>| files.contains(f));
    }
}

/// What is chosen and sorted is the bundle of what is taken.
proof fn lemma_bundle(
    v: store::StoreView,
    items: Seq<(usize, Single)>,
    relevance: Seq<Single>,
    x: Seq<bool>,
    r: Seq<ResultView>,
)
    requires
        items.len() == relevance.len(),
        x.len() == items.len(),
        x.len() <= usize::MAX,
        is_sorted_list(chosen_results(v, items, relevance, x), r),
    ensures
        is_bundle(v, Seq::new(items.len(), |i: int| items[i].0 as int), relevance, x, r),
        cost_of(r) == cost_of(chosen_results(v, items, relevance, x)),
{
    let picks = Seq::new(items.len(), |i: int| items[i].0 as int);
    let list = chosen_results(v, items, relevance, x);
    let values = Seq::new(
        items.len(),
        |i: int| ResultView { chunk: v.chunks[items[i].0 as int], score: relevance[i] },
    );
    let at = qubo::lemma_chosen_at(values, x);
    assert(list == qubo::chosen(values, x));
    let order = choose|order: Seq<usize>| #[trigger]
        order::is_stable_descending(result_scores(list), order) && r == Seq::new(
            list.len(),
            |i: int| list[order[i] as int],
        );
    let prior = order::descending(result_scores(list));
    lemma_chosen(values, x);
    assert forall|i: int| #![trigger x[i]] 0 <= i < x.len() && x[i] implies r.contains(
        ResultView { chunk: v.chunks[picks[i]], score: relevance[i] },
    ) by {
        assert(at.contains(i));
        let k = choose|k: int| 0 <= k < at.len() && at[k] == i;
        assert(order.contains(k as usize));
        let m = choose|m: int| 0 <= m < order.len() && order[m] == k as usize;
        assert(r[m] == list[k]);
        assert(list[k] == values[at[k]]);
    }
    assert forall|k: int| #![trigger r[k]] 0 <= k < r.len() implies exists|i: int|
        #![trigger x[i]]
        0 <= i < x.len() && x[i] && r[k] == (ResultView {
            chunk: v.chunks[picks[i]],
            score: relevance[i],
        }) by {
        let m = order[k] as int;
        assert(r[k] == list[m]);
        assert(list[m] == values[at[m]]);
        assert(x[at[m]]);
    }
    assert forall|k: int, l: int|
        #![trigger r[k], r[l]]
        0 <= k < l < r.len() implies r[k].score.key() >= r[l].score.key() by {
        assert(prior(order[k] as int, order[l] as int));
    }
    let places = order.map_values(|i: usize| i as int);
    assert forall|p: int| 0 <= p < list.len() implies #[trigger] places.contains(p) by {
        assert(order.contains(p as usize));
        let k = choose|k: int| 0 <= k < order.len() && order[k] == p as usize;
        assert(places[k] == p);
    }
    lemma_cost_in_order(list, places);
    assert(r =~= Seq::new(list.len(), |i: int| list[places[i]]));
}

/// An answer keeps to the budget that was asked for: the tokens of its chunks add
/// up to no more, if no choice beyond the budget has less energy than one within
/// it.
pub proof fn law_answer_keeps_to_budget<
    W: Fn(&ScoreTerms) -> Single,
    S: Fn(Single, Single) -> Single,
    H: Fn(Ratio) -> Single,
    E: Fn(&EnergyTerms) -> Single,
    C: Fn(SimulatedAnnealer, Single) -> Single,
    A: Fn(StdRng, Single, Single, Single) -> (StdRng, bool),
>(
    v: store::StoreView,
    query: Seq<char>,
    budget: usize,
    topk: usize,
    ids: Seq<u64>,
    f: Formulas<W, S, H, E, C, A>,
    r: Seq<ResultView>,
)
    requires
        v.chunks.len() <= usize::MAX,
        texts_countable(v),
        ids.len() <= usize::MAX,
        forall|a: EnergyTerms, b: EnergyTerms, e: Single, d: Single|
            a.overflow > 0 && b.overflow == 0 && #[trigger] call_ensures(f.evaluate, (&a,), e)
                && #[trigger] call_ensures(f.evaluate, (&b,), d) ==> !e.lt(d),
        is_ranking(v, query, budget, topk, ids, f, r),
    ensures
        cost_of(r) <= budget,
{
    if ids.len() > 0 {
        let n = at_least(topk, MIN_CANDIDATES) as int;
        let at = places(v.chunks);
        let (scored, p, x) = lemma_steps(v, query, budget, topk, ids, f, r);
        let items = resolved(at, scored);
        bm25::law_top_n_are_scored_candidates(v.bm25, query, ids, n, f.weigh, scored);
        lemma_resolved(at, scored);
        lemma_places(v.chunks);
        qubo::law_solution_keeps_to_budget(annealer(), p, f.evaluate, f.cool, f.accept, x);
        lemma_bundle(v, items, p.relevance, x, r);
        let values = Seq::new(
            items.len(),
            |i: int| ResultView { chunk: v.chunks[items[i].0 as int], score: p.relevance[i] },
        );
        assert forall|i: int| #![trigger p.tokens[i]] 0 <= i < x.len() implies p.tokens[i] == cost(
            values[i].chunk.text,
        ) by {
            assert(is_resolved(at, scored, items[i]));
            assert(items[i].0 < v.chunks.len());
            let c = v.chunks[items[i].0 as int];
            assert(p.tokens[i] == chunk::tokens_in(c.text) as usize);
        }
        lemma_cost_of_chosen(values, p.tokens, x);
    }
}

/// Every choice that an answer may come from is charged for what it takes beyond
/// the budget that was asked for, to the token.
pub proof fn law_every_token_beyond_the_budget_is_charged<
    W: Fn(&ScoreTerms) -> Single,
    S: Fn(Single, Single) -> Single,
    H: Fn(Ratio) -> Single,
    E: Fn(&EnergyTerms) -> Single,
    C: Fn(SimulatedAnnealer, Single) -> Single,
    A: Fn(StdRng, Single, Single, Single) -> (StdRng, bool),
>(
    v: store::StoreView,
    query: Seq<char>,
    budget: usize,
    f: Formulas<W, S, H, E, C, A>,
    picks: Seq<int>,
    scores: Seq<Single>,
    p: qubo::ProblemView,
    y: Seq<bool>,
)
    requires
        is_weighed_choice(v, query, budget, f, picks, scores, p),
        picks.len() <= usize::MAX,
        y.len() == picks.len(),
    ensures
        p.terms(y).overflow == ({
            let spent = cost_of(
                qubo::chosen(
                    Seq::new(
                        picks.len(),
                        |i: int| ResultView { chunk: v.chunks[picks[i]], score: p.relevance[i] },
                    ),
                    y,
                ),
            );
            if spent > budget {
                spent - budget
            } else {
                0
            }
        }),
{
    let values = Seq::new(
        picks.len(),
        |i: int| ResultView { chunk: v.chunks[picks[i]], score: p.relevance[i] },
    );
    assert forall|i: int| #![trigger p.tokens[i]] 0 <= i < y.len() implies p.tokens[i] == cost(
        values[i].chunk.text,
    ) by {
        assert(0 <= picks[i] < v.chunks.len());
    }
    lemma_cost_of_chosen(values, p.tokens, y);
    qubo::lemma_used_bound(p.tokens, y);
    assert(y.len() * usize::MAX <= u128::MAX) by (nonlinear_arith)
        requires
            y.len() <= usize::MAX,
            usize::MAX <= u64::MAX,
    ;
    qubo::law_energy_is_of_all_that_is_chosen(p, y);
}

/// Two different items whose chunks have signatures are as alike as `share` makes
/// of the estimate from these two, whatever else the chunks hold.
pub proof fn law_signatures_decide_how_alike_items_are<
    S: Fn(Single, Single) -> Single,
    H: Fn(Ratio) -> Single,
>(
    v: store::StoreView,
    items: Seq<(usize, Single)>,
    budget: usize,
    scale: S,
    share: H,
    p: qubo::ProblemView,
    i: int,
    j: int,
)
    requires
        is_problem(v, items, budget, scale, share, p),
        0 <= i < items.len(),
        0 <= j < items.len(),
        i != j,
        v.minhash.contains_key(v.chunks[items[i].0 as int].id),
        v.minhash.contains_key(v.chunks[items[j].0 as int].id),
    ensures
        exists|e: Ratio|
            {
                let a = v.minhash[v.chunks[items[i].0 as int].id];
                let b = v.minhash[v.chunks[items[j].0 as int].id];
                &&& #[trigger] call_ensures(share, (e,), p.similarity[i][j])
                &&& minhash::is_estimate(a, b, e)
                &&& a == b && !minhash::is_blank(a) ==> e.num == a.len() && e.den == a.len()
            },
{
    assert(is_likeness(v, items, share, i, j, p.similarity[i][j]));
    let a = v.minhash[v.chunks[items[i].0 as int].id];
    let b = v.minhash[v.chunks[items[j].0 as int].id];
    let e = choose|e: Ratio|
        minhash::is_estimate(a, b, e) && #[trigger] call_ensures(share, (e,), p.similarity[i][j]);
    if a == b && !minhash::is_blank(a) {
        minhash::law_same_signature_is_alike(a, e);
    }
}

/// A search keeps to the budget that it is given: the tokens of the chunks that it
/// returns add up to no more, if no choice beyond the budget has less energy than
/// one within it.
pub proof fn law_search_keeps_to_budget<
    W: Fn(&ScoreTerms) -> Single,
    S: Fn(Single, Single) -> Single,
    H: Fn(Ratio) -> Single,
    E: Fn(&EnergyTerms) -> Single,
    C: Fn(SimulatedAnnealer, Single) -> Single,
    A: Fn(StdRng, Single, Single, Single) -> (StdRng, bool),
>(
    pipeline: &SearchPipeline,
    query: &str,
    budget: usize,
    topk: usize,
    f: &Formulas<W, S, H, E, C, A>,
    r: Result<Vec<SearchResult>, RpgrepError>,
)
    requires
        call_ensures(
            SearchPipeline::search::<W, S, H, E, C, A>,
            (pipeline, query, budget, topk, f),
            r,
        ),
        pipeline.payload@.chunks.len() <= usize::MAX,
        texts_countable(pipeline.payload@),
        forall|a: EnergyTerms, b: EnergyTerms, e: Single, d: Single|
            a.overflow > 0 && b.overflow == 0 && #[trigger] call_ensures(f.evaluate, (&a,), e)
                && #[trigger] call_ensures(f.evaluate, (&b,), d) ==> !e.lt(d),
    ensures
        r is Ok,
        cost_of(result_views(r->Ok_0@)) <= budget,
{
    let v = pipeline.payload@;
    let ids = search_ids(v, query@);
    lemma_ids_in_len(v.chunks, bloom::matching(v.filters, bloom::lookup_keys(query@)));
    law_answer_keeps_to_budget(v, query@, budget, topk, ids, *f, result_views(r->Ok_0@));
}

/// Where an identifier occurs more than once, the last chunk that has it counts.
pub proof fn law_last_chunk_of_an_identifier_counts(list: Seq<chunk::ChunkView>, i: int)
    requires
        list.len() <= usize::MAX,
        0 <= i < list.len(),
    ensures
        places(list).contains_key(list[i].id),
        i <= places(list)[list[i].id] < list.len(),
        list[places(list)[list[i].id] as int].id == list[i].id,
{
    lemma_places(list);
}

/// What the filters let through for a query: the files of which one says that it
/// may hold a token, or all where there is none.
pub open spec fn let_through(v: store::StoreView, query: Seq<char>) -> spec_fn(Seq<char>) -> bool {
    |file: Seq<char>|
        {
            let files = bloom::matching(v.filters, bloom::lookup_keys(query));
            files.len() == 0 || files.contains(file)
        }
}

/// `r` answers the query from the chunks whose file passes: it is empty where there
/// are none, and otherwise the bundle that the annealer chose among the best of
/// them within the budget.
pub open spec fn is_answer<
    W: Fn(&ScoreTerms) -> Single,
    S: Fn(Single, Single) -> Single,
    H: Fn(Ratio) -> Single,
    E: Fn(&EnergyTerms) -> Single,
    C: Fn(SimulatedAnnealer, Single) -> Single,
    A: Fn(StdRng, Single, Single, Single) -> (StdRng, bool),
>(
    v: store::StoreView,
    query: Seq<char>,
    budget: usize,
    topk: usize,
    passes: spec_fn(Seq<char>) -> bool,
    f: Formulas<W, S, H, E, C, A>,
    r: Seq<ResultView>,
) -> bool {
    exists|
        ids: Seq<u64>,
        picks: Seq<int>,
        scores: Seq<Single>,
        p: qubo::ProblemView,
        x: Seq<bool>,
    |
        {
            &&& #[trigger] are_ids_of(v.chunks, passes, ids)
            &&& #[trigger] is_bundle(v, picks, p.relevance, x, r)
            &&& ids.len() == 0 ==> r.len() == 0
            &&& ids.len() > 0 ==> {
                &&& #[trigger] is_weighed_choice(v, query, budget, f, picks, scores, p)
                &&& picks.len() <= if topk < 10 {
                    10
                } else {
                    topk
                }
                &&& qubo::is_solution(
                    SimulatedAnnealer {
                        initial_temp: Single { bits: 0x40A0_0000 },
                        final_temp: Single { bits: 0x3C23_D70A },
                        steps: 5000,
                        seed: 0xC0DE_F00D,
                    },
                    p,
                    f.evaluate,
                    f.cool,
                    f.accept,
                    x,
                )
                &&& v.bm25.n_docs > 0 && text::token_hashes(query).len() > 0
                    && bm25::distinct_ids(v.chunks) ==> no_better_is_left_out(
                    v,
                    query,
                    ids,
                    if topk < 10 {
                        10
                    } else {
                        topk as int
                    },
                    f.weigh,
                    picks,
                    scores,
                )
            }
        }
}

/// A ranking of all chunks that pass is an answer from them.
proof fn lemma_answer<
    W: Fn(&ScoreTerms) -> Single,
    S: Fn(Single, Single) -> Single,
    H: Fn(Ratio) -> Single,
    E: Fn(&EnergyTerms) -> Single,
    C: Fn(SimulatedAnnealer, Single) -> Single,
    A: Fn(StdRng, Single, Single, Single) -> (StdRng, bool),
>(
    v: store::StoreView,
    query: Seq<char>,
    budget: usize,
    topk: usize,
    ids: Seq<u64>,
    passes: spec_fn(Seq<char>) -> bool,
    f: Formulas<W, S, H, E, C, A>,
    r: Seq<ResultView>,
)
    requires
        v.chunks.len() <= usize::MAX,
        texts_countable(v),
        ids.len() <= usize::MAX,
        are_ids_of(v.chunks, passes, ids),
        is_ranking(v, query, budget, topk, ids, f, r),
    ensures
        is_answer(v, query, budget, topk, passes, f, r),
{
    if ids.len() == 0 {
        let picks = Seq::<int>::empty();
        let scores = Seq::<Single>::empty();
        let x = Seq::<bool>::empty();
        let p = qubo::ProblemView {
            relevance: scores,
            similarity: Seq::empty(),
            tokens: Seq::empty(),
            budget,
            lambda: Single { bits: 0x3F00_0000 },
            mu: Single { bits: 0x3A83_126F },
        };
        assert(qubo::count_taken(x) == 0);
        assert(is_bundle(v, picks, p.relevance, x, r));
        assert(is_weighed_choice(v, query, budget, f, picks, scores, p));
    } else {
        law_answer_is_a_choice_within_the_budget(v, query, budget, topk, ids, f, r);
        let at = choose|at: Seq<int>|
            {
                &&& #[trigger] at.len() == ids.len()
                &&& forall|k: int|
                    #![trigger at[k]]
                    0 <= k < at.len() ==> 0 <= at[k] < v.chunks.len() && ids[k]
                        == v.chunks[at[k]].id && passes(v.chunks[at[k]].file)
                &&& forall|k: int, l: int|
                    #![trigger at[k], at[l]]
                    0 <= k < l < at.len() ==> at[k] < at[l]
                &&& forall|i: int|
                    #![trigger v.chunks[i]]
                    0 <= i < v.chunks.len() && passes(v.chunks[i].file) ==> at.contains(i)
            };
        assert(are_known(v, ids)) by {
            assert forall|i: int| 0 <= i < ids.len() implies exists|c: int|
                0 <= c < v.chunks.len() && (#[trigger] v.chunks[c]).id == #[trigger] ids[i] by {
                assert(v.chunks[at[i]].id == ids[i]);
            }
        }
        let (picks, scores, p, x) = choose|
            picks: Seq<int>,
            scores: Seq<Single>,
            p: qubo::ProblemView,
            x: Seq<bool>,
        |
            {
                &&& #[trigger] is_weighed_choice(v, query, budget, f, picks, scores, p)
                &&& picks.len() <= if topk < 10 {
                    10
                } else {
                    topk
                }
                &&& #[trigger] qubo::is_solution(
                    SimulatedAnnealer {
                        initial_temp: Single { bits: 0x40A0_0000 },
                        final_temp: Single { bits: 0x3C23_D70A },
                        steps: 5000,
                        seed: 0xC0DE_F00D,
                    },
                    p,
                    f.evaluate,
                    f.cool,
                    f.accept,
                    x,
                )
                &&& is_bundle(v, picks, p.relevance, x, r)
                &&& v.bm25.n_docs > 0 && text::token_hashes(query).len() > 0
                    && bm25::distinct_ids(v.chunks) && are_known(v, ids) ==> no_better_is_left_out(
                    v,
                    query,
                    ids,
                    if topk < 10 {
                        10
                    } else {
                        topk as int
                    },
                    f.weigh,
                    picks,
                    scores,
                )
            };
        assert(are_ids_of(v.chunks, passes, ids));
        assert(is_bundle(v, picks, p.relevance, x, r));
        assert(is_weighed_choice(v, query, budget, f, picks, scores, p));
    }
}

/// What ranks the chunks that a search looks at is an answer from what passes.
pub proof fn lemma_search_answer<
    W: Fn(&ScoreTerms) -> Single,
    S: Fn(Single, Single) -> Single,
    H: Fn(Ratio) -> Single,
    E: Fn(&EnergyTerms) -> Single,
    C: Fn(SimulatedAnnealer, Single) -> Single,
    A: Fn(StdRng, Single, Single, Single) -> (StdRng, bool),
>(
    v: store::StoreView,
    query: Seq<char>,
    budget: usize,
    topk: usize,
    f: Formulas<W, S, H, E, C, A>,
    r: Seq<ResultView>,
)
    requires
        v.chunks.len() <= usize::MAX,
        texts_countable(v),
        is_ranking(v, query, budget, topk, search_ids(v, query), f, r),
    ensures
        is_answer(v, query, budget, topk, let_through(v, query), f, r),
{
    lemma_ids_in_len(v.chunks, bloom::matching(v.filters, bloom::lookup_keys(query)));
    law_search_looks_at_what_passes(v, query);
    lemma_answer(v, query, budget, topk, search_ids(v, query), let_through(v, query), f, r);
}

/// A search answers from all files that the filters let through, or from all there
/// are where they let none through, within the budget and with the number of
/// candidates that it is given.
pub proof fn law_search_answers_from_what_passes<
    W: Fn(&ScoreTerms) -> Single,
    S: Fn(Single, Single) -> Single,
    H: Fn(Ratio) -> Single,
    E: Fn(&EnergyTerms) -> Single,
    C: Fn(SimulatedAnnealer, Single) -> Single,
    A: Fn(StdRng, Single, Single, Single) -> (StdRng, bool),
>(
    pipeline: &SearchPipeline,
    query: &str,
    budget: usize,
    topk: usize,
    f: &Formulas<W, S, H, E, C, A>,
    r: Result<Vec<SearchResult>, RpgrepError>,
)
    requires
        call_ensures(
            SearchPipeline::search::<W, S, H, E, C, A>,
            (pipeline, query, budget, topk, f),
            r,
        ),
        pipeline.payload@.chunks.len() <= usize::MAX,
        texts_countable(pipeline.payload@),
    ensures
        r is Ok,
        is_answer(
            pipeline.payload@,
            query@,
            budget,
            topk,
            let_through(pipeline.payload@, query@),
            *f,
            result_views(r->Ok_0@),
        ),
{
    lemma_search_answer(pipeline.payload@, query@, budget, topk, *f, result_views(r->Ok_0@));
}

/// A query over given files answers from all of these files, within the budget and
/// with the number of candidates that it is given.
pub proof fn law_select_answers_from_its_files<
    W: Fn(&ScoreTerms) -> Single,
    S: Fn(Single, Single) -> Single,
    H: Fn(Ratio) -> Single,
    E: Fn(&EnergyTerms) -> Single,
    C: Fn(SimulatedAnnealer, Single) -> Single,
    A: Fn(StdRng, Single, Single, Single) -> (StdRng, bool),
>(
    pipeline: &SearchPipeline,
    query: &str,
    budget: usize,
    topk: usize,
    files: &Vec<String>,
    f: &Formulas<W, S, H, E, C, A>,
    r: Result<Vec<SearchResult>, RpgrepError>,
)
    requires
        call_ensures(
            SearchPipeline::select::<W, S, H, E, C, A>,
            (pipeline, query, budget, topk, files, f),
            r,
        ),
        pipeline.payload@.chunks.len() <= usize::MAX,
        texts_countable(pipeline.payload@),
    ensures
        r is Ok,
        is_answer(
            pipeline.payload@,
            query@,
            budget,
            topk,
            |file: Seq<char>| text::texts(files@).contains(file),
            *f,
            result_views(r->Ok_0@),
        ),
{
    let v = pipeline.payload@;
    let list = text::texts(files@);
    lemma_ids_in_len(v.chunks, list);
    law_all_chunks_of_the_files_are_looked_at(v.chunks, list);
    lemma_answer(
        v,
        query@,
        budget,
        topk,
        ids_in(v.chunks, list),
        |file: Seq<char>| list.contains(file),
        *f,
        result_views(r->Ok_0@),
    );
}

} // verus!
