use crate::index::bm25::ScoreTerms;
use crate::index::minhash::Ratio;
use crate::path;
use crate::path::join;
use crate::search::pipeline;
use crate::search::pipeline::{Formulas, SearchPipeline, SearchResult};
use crate::search::qubo::{EnergyTerms, SimulatedAnnealer};
use crate::single::Single;
use crate::{PersistError, RpgrepError};
use rand::rngs::StdRng;
use vstd::prelude::*;

verus! {

/// Tokens that an answer may take unless the request says otherwise.
pub fn default_budget() -> (r: usize)
    ensures
        r == 4000,
{
    4000
}

/// Chunks that go into the choice unless the request says otherwise.
pub fn default_topk() -> (r: usize)
    ensures
        r == 50,
{
    50
}

/// Where the server of an index listens unless told otherwise: `rpgrep.sock`
/// beside the index file.
pub fn default_socket_path(index: &str) -> (r: String)
    ensures
        r@ == path::joined(index@, "rpgrep.sock"@),
{
    join(index, "rpgrep.sock")
}

/// A query as a client puts it.
#[derive(Debug)]
pub struct Request {
    pub query: String,
    pub budget: usize,
    pub topk: usize,
}

/// What came in on a connection.
#[derive(Debug)]
pub enum Incoming {
    /// The client closed without sending anything.
    Nothing,
    /// A line that is not a request, and what is wrong with it.
    Malformed(String),
    /// A request.
    Query(Request),
}

/// A result as it is sent.
#[derive(Debug)]
pub struct Hit {
    pub file: String,
    pub start_line: usize,
    pub end_line: usize,
    pub score: Single,
    pub text: String,
}

/// What a `Hit` holds.
#[verifier::ext_equal]
pub struct HitView {
    pub file: Seq<char>,
    pub start_line: usize,
    pub end_line: usize,
    pub score: Single,
    pub text: Seq<char>,
}

impl View for Hit {
    type V = HitView;

    open spec fn view(&self) -> HitView {
        HitView {
            file: self.file@,
            start_line: self.start_line,
            end_line: self.end_line,
            score: self.score,
            text: self.text@,
        }
    }
}

/// What is sent back.
#[derive(Debug)]
pub enum Reply {
    Results(Vec<Hit>),
    Error(String),
}

/// A result as it is sent.
pub open spec fn hit_of(r: pipeline::ResultView) -> HitView {
    HitView {
        file: r.chunk.file,
        start_line: r.chunk.start_line,
        end_line: r.chunk.end_line,
        score: r.score,
        text: r.chunk.text,
    }
}

/// What a list of hits holds.
pub open spec fn hit_views(list: Seq<Hit>) -> Seq<HitView> {
    list.map_values(|h: Hit| h@)
}

/// `list` holds `results` as they are sent, in order.
pub open spec fn are_hits(results: Seq<pipeline::ResultView>, list: Seq<HitView>) -> bool {
    list == results.map_values(|r: pipeline::ResultView| hit_of(r))
}

/// The results as they are sent.
pub fn hits(results: Vec<SearchResult>) -> (r: Vec<Hit>)
    ensures
        are_hits(pipeline::result_views(results@), hit_views(r@)),
{
    let ghost all = pipeline::result_views(results@);
    let ghost sent = all.map_values(|r: pipeline::ResultView| hit_of(r));
    let mut out: Vec<Hit> = Vec::new();
    let mut i: usize = 0;
    while i < results.len()
        invariant
            i <= results.len(),
            all == pipeline::result_views(results@),
            sent == all.map_values(|r: pipeline::ResultView| hit_of(r)),
            hit_views(out@) =~= sent.take(i as int),
        decreases results.len() - i,
    {
        let hit: &SearchResult = &results[i];
        let ghost before = out@;
        let line = Hit {
            file: hit.chunk.file.clone(),
            start_line: hit.chunk.start_line,
            end_line: hit.chunk.end_line,
            score: hit.score,
            text: hit.chunk.text.clone(),
        };
        out.push(line);
        proof {
            assert(all[i as int] == hit@);
            assert(sent[i as int] == line@);
            assert(hit_views(out@) =~= hit_views(before).push(line@));
            assert(sent.take(i + 1) =~= sent.take(i as int).push(line@));
        }
        i = i + 1;
    }
    assert(hit_views(out@) =~= sent);
    out
}

/// What a client is told of an error.
pub open spec fn told(e: RpgrepError) -> Seq<char> {
    match e {
        RpgrepError::Io(msg) => "I/O: "@ + msg@,
        RpgrepError::Index(msg) => "Index: "@ + msg@,
        RpgrepError::Persist(PersistError::Codec(msg)) => "Persist: "@ + msg@,
        RpgrepError::Persist(PersistError::Frame(_)) => "Persist: "@ + "índice inválido"@,
    }
}

/// What a client is told of an error.
fn failure_text(e: RpgrepError) -> (r: String)
    ensures
        r@ == told(e),
{
    let (kind, msg): (&str, String) = match e {
        RpgrepError::Io(msg) => ("I/O: ", msg),
        RpgrepError::Index(msg) => ("Index: ", msg),
        RpgrepError::Persist(PersistError::Codec(msg)) => ("Persist: ", msg),
        RpgrepError::Persist(PersistError::Frame(_)) => ("Persist: ", "índice inválido".to_owned()),
    };
    let mut out: String = String::new();
    out.append(kind);
    out.append(msg.as_str());
    assert(out@ =~= kind@ + msg@);
    out
}

/// Answers what came in on a connection: nothing to a client that sent
/// nothing, an error to a line that is not a request, and the results to a
/// query.
pub fn respond<
    W: Fn(&ScoreTerms) -> Single,
    S: Fn(Single, Single) -> Single,
    H: Fn(Ratio) -> Single,
    E: Fn(&EnergyTerms) -> Single,
    C: Fn(SimulatedAnnealer, Single) -> Single,
    A: Fn(StdRng, Single, Single, Single) -> (StdRng, bool),
>(pipeline: &SearchPipeline, incoming: Incoming, f: &Formulas<W, S, H, E, C, A>) -> (r: Option<Reply>)
    requires
        match incoming {
            Incoming::Query(request) => pipeline.answers(request.query@),
            _ => true,
        },
        pipeline::formulas_ready(*f),
    ensures
        match incoming {
            Incoming::Nothing => r is None,
            Incoming::Malformed(why) => r matches Some(Reply::Error(msg)) && msg@
                == "JSON inválido: "@ + why@,
            Incoming::Query(request) => {
                &&& r matches Some(Reply::Results(list))
                &&& exists|results: Seq<pipeline::ResultView>|
                    {
                        &&& #[trigger] pipeline::is_ranking(
                            pipeline.payload@,
                            request.query@,
                            request.budget,
                            request.topk,
                            pipeline::search_ids(pipeline.payload@, request.query@),
                            *f,
                            results,
                        )
                        &&& are_hits(results, hit_views(list@))
                    }
            },
        },
{
    match incoming {
        Incoming::Nothing => None,
        Incoming::Malformed(why) => {
            let mut msg: String = String::new();
            msg.append("JSON inválido: ");
            msg.append(why.as_str());
            assert(msg@ =~= "JSON inválido: "@ + why@);
            Some(Reply::Error(msg))
        },
        Incoming::Query(request) => {
            match pipeline.search(request.query.as_str(), request.budget, request.topk, f) {
                Ok(results) => {
                    let list: Vec<Hit> = hits(results);
                    Some(Reply::Results(list))
                },
                Err(e) => Some(Reply::Error(failure_text(e))),
            }
        },
    }
}

/// What is sent are the results, one for one and in order, each with its file,
/// its lines, its score and its text.
pub proof fn law_hits_are_the_results(
    results: Seq<pipeline::ResultView>,
    list: Seq<HitView>,
    i: int,
)
    requires
        are_hits(results, list),
        0 <= i < results.len(),
    ensures
        list.len() == results.len(),
        list[i].file == results[i].chunk.file,
        list[i].start_line == results[i].chunk.start_line,
        list[i].end_line == results[i].chunk.end_line,
        list[i].score == results[i].score,
        list[i].text == results[i].chunk.text,
{
}

/// A client is told of an error by its kind and then, whole, what is said of it.
pub proof fn law_errors_are_told_whole(msg: String)
    ensures
        told(RpgrepError::Io(msg)) == "I/O: "@ + msg@,
        told(RpgrepError::Index(msg)) == "Index: "@ + msg@,
        told(RpgrepError::Persist(PersistError::Codec(msg))) == "Persist: "@ + msg@,
{
}

/// A query is answered over the whole index with the budget and the number of
/// candidates of the request, and the answer is sent hit by hit; nothing gets
/// nothing, and a line that is no request an error.
pub proof fn law_requests_are_answered<
    W: Fn(&ScoreTerms) -> Single,
    S: Fn(Single, Single) -> Single,
    H: Fn(Ratio) -> Single,
    E: Fn(&EnergyTerms) -> Single,
    C: Fn(SimulatedAnnealer, Single) -> Single,
    A: Fn(StdRng, Single, Single, Single) -> (StdRng, bool),
>(
    pipeline: &SearchPipeline,
    incoming: Incoming,
    f: &Formulas<W, S, H, E, C, A>,
    r: Option<Reply>,
)
    requires
        call_ensures(respond::<W, S, H, E, C, A>, (pipeline, incoming, f), r),
        pipeline.payload@.chunks.len() <= usize::MAX,
        pipeline::texts_countable(pipeline.payload@),
    ensures
        incoming is Nothing ==> r is None,
        incoming is Malformed ==> r is Some && r->0 is Error,
        incoming is Query ==> r is Some && r->0 is Results && {
            let request = incoming->Query_0;
            let list = r->0->Results_0@;
            let v = pipeline.payload@;
            exists|results: Seq<pipeline::ResultView>|
                {
                    &&& #[trigger] pipeline::is_answer(
                        v,
                        request.query@,
                        request.budget,
                        request.topk,
                        pipeline::let_through(v, request.query@),
                        *f,
                        results,
                    )
                    &&& list.len() == results.len()
                    &&& forall|i: int|
                        #![trigger list[i]]
                        0 <= i < list.len() ==> {
                            &&& list[i].file@ == results[i].chunk.file
                            &&& list[i].start_line == results[i].chunk.start_line
                            &&& list[i].end_line == results[i].chunk.end_line
                            &&& list[i].score == results[i].score
                            &&& list[i].text@ == results[i].chunk.text
                        }
                }
        },
{
    if incoming is Query {
        let request = incoming->Query_0;
        let list = r->0->Results_0@;
        let v = pipeline.payload@;
        let query = request.query@;
        let results = choose|results: Seq<pipeline::ResultView>|
            {
                &&& #[trigger] pipeline::is_ranking(
                    v,
                    query,
                    request.budget,
                    request.topk,
                    pipeline::search_ids(v, query),
                    *f,
                    results,
                )
                &&& are_hits(results, hit_views(list))
            };
        pipeline::lemma_search_answer(v, query, request.budget, request.topk, *f, results);
        let sent = hit_views(list);
        assert(sent.len() == list.len());
        assert forall|i: int| #![trigger list[i]] 0 <= i < list.len() implies {
            &&& list[i].file@ == results[i].chunk.file
            &&& list[i].start_line == results[i].chunk.start_line
            &&& list[i].end_line == results[i].chunk.end_line
            &&& list[i].score == results[i].score
            &&& list[i].text@ == results[i].chunk.text
        } by {
            assert(sent[i] == list[i]@);
            assert(sent[i] == hit_of(results[i]));
        }
    }
}

} // verus!
