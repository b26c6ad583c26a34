use crate::index::files;
use crate::index::files::allows;
use crate::index::store::IndexStore;
use crate::path;
use crate::path::{extension, starts_with};
use crate::serve::default_socket_path;
use crate::single::Single;
use crate::text;
use vstd::prelude::*;

verus! {

/// What the user asks for.
#[derive(Debug)]
pub struct Cli {
    pub command: Commands,
}

/// The subcommands.
#[derive(Debug)]
pub enum Commands {
    /// Build the index of a directory.
    Index { path: String, out: String, lines: usize, overlap: usize, ext: Vec<String> },
    /// Answer a query from an index.
    Search { query: String, budget: usize, index: String, topk: usize },
    /// Tell what an index holds.
    Stats { index: String },
    /// Answer queries over a socket.
    Serve { index: String, socket: Option<String> },
    /// Build the index of a directory again whenever it changes.
    Watch {
        path: String,
        out: String,
        lines: usize,
        overlap: usize,
        ext: Vec<String>,
        debounce_ms: u64,
    },
    /// Tell the version.
    Version,
}

/// What it takes to build an index.
#[derive(Debug)]
pub struct IndexJob {
    pub path: String,
    pub out: String,
    pub lines: usize,
    pub overlap: usize,
    /// Extensions to index; none stand for all files.
    pub exts: Vec<String>,
}

/// What is to be done.
#[derive(Debug)]
pub enum Job {
    Index(IndexJob),
    Search { query: String, budget: usize, index: String, topk: usize },
    Stats { index: String },
    Serve { index: String, socket: String },
    Watch { job: IndexJob, debounce_ms: u64 },
    Version,
}

/// The extensions that the user means: a single empty one stands for all files.
pub open spec fn meant_extensions(ext: Seq<Seq<char>>) -> Seq<Seq<char>> {
    if ext.len() == 1 && ext[0].len() == 0 {
        Seq::empty()
    } else {
        ext
    }
}

/// The extensions that the user means: a single empty one stands for all files.
pub fn normalize_extensions(ext: Vec<String>) -> (r: Vec<String>)
    ensures
        text::texts(r@) == meant_extensions(text::texts(ext@)),
{
    assert(text::texts(ext@).len() == ext@.len());
    if ext.len() == 1 && ext[0].as_str().is_empty() {
        let none: Vec<String> = Vec::new();
        assert(text::texts(ext@)[0] == ext@[0]@);
        assert(text::texts(none@) =~= Seq::<Seq<char>>::empty());
        none
    } else {
        proof {
            if ext@.len() == 1 {
                assert(text::texts(ext@)[0] == ext@[0]@);
            }
        }
        ext
    }
}

/// `job` builds the index that the arguments ask for.
pub open spec fn is_index_job(
    job: IndexJob,
    path: String,
    out: String,
    lines: usize,
    overlap: usize,
    ext: Vec<String>,
) -> bool {
    &&& job.path == path
    &&& job.out == out
    &&& job.lines == lines
    &&& job.overlap == overlap
    &&& text::texts(job.exts@) == meant_extensions(text::texts(ext@))
}

/// What is to be done for a command line.
pub fn dispatch(cli: Cli) -> (r: Job)
    ensures
        match cli.command {
            Commands::Index { path, out, lines, overlap, ext } => {
                r matches Job::Index(job) && is_index_job(job, path, out, lines, overlap, ext)
            },
            Commands::Search { query, budget, index, topk } => r == (Job::Search {
                query,
                budget,
                index,
                topk,
            }),
            Commands::Stats { index } => r == (Job::Stats { index }),
            Commands::Serve { index, socket } => {
                &&& r matches Job::Serve { index: i, socket: s }
                &&& i == index
                &&& match socket {
                    Some(given) => s == given,
                    None => s@ == path::joined(index@, "rpgrep.sock"@),
                }
            },
            Commands::Watch { path, out, lines, overlap, ext, debounce_ms } => {
                &&& r matches Job::Watch { job, debounce_ms: ms }
                &&& ms == debounce_ms
                &&& is_index_job(job, path, out, lines, overlap, ext)
            },
            Commands::Version => r is Version,
        },
{
    match cli.command {
        Commands::Index { path, out, lines, overlap, ext } => {
            let exts: Vec<String> = normalize_extensions(ext);
            Job::Index(IndexJob { path, out, lines, overlap, exts })
        },
        Commands::Search { query, budget, index, topk } => {
            Job::Search { query, budget, index, topk }
        },
        Commands::Stats { index } => Job::Stats { index },
        Commands::Serve { index, socket } => {
            let socket: String = match socket {
                Some(given) => given,
                None => default_socket_path(index.as_str()),
            };
            Job::Serve { index, socket }
        },
        Commands::Watch { path, out, lines, overlap, ext, debounce_ms } => {
            let exts: Vec<String> = normalize_extensions(ext);
            Job::Watch { job: IndexJob { path, out, lines, overlap, exts }, debounce_ms }
        },
        Commands::Version => Job::Version,
    }
}

/// What an index holds, in numbers.
#[derive(Clone, Copy, Debug, PartialEq, Eq, Structural)]
pub struct StatsReport {
    pub files: usize,
    pub chunks: usize,
    pub n_docs: u32,
    pub avg_doc_len: Single,
    pub vocabulary: usize,
    pub signatures: usize,
}

/// Counts what an index holds.
pub fn stats(store: &IndexStore) -> (r: StatsReport)
    ensures
        r.files == store@.filters.len(),
        r.chunks == store@.chunks.len(),
        r.n_docs == store@.bm25.n_docs,
        r.avg_doc_len == store@.bm25.avg_doc_len,
        r.vocabulary == store@.bm25.doc_freq.dom().len(),
        r.signatures == store@.minhash.dom().len(),
{
    broadcast use vstd::std_specs::hash::group_hash_axioms;

    assert(store@.minhash.dom() =~= store.minhash@.dom());
    StatsReport {
        files: store.n_files(),
        chunks: store.chunks.len(),
        n_docs: store.bm25.n_docs,
        avg_doc_len: store.bm25.avg_doc_len,
        vocabulary: store.bm25.doc_freq.len(),
        signatures: store.minhash.len(),
    }
}

/// A path that changed, as it was reported and, where it could be resolved,
/// with all links resolved.
#[derive(Debug)]
pub struct Change {
    pub path: String,
    pub canonical: Option<String>,
}

/// The change is to be acted on: it is not in the directory of the index
/// itself, and the path has an indexed extension or none at all.
pub open spec fn is_relevant(c: Change, out: Option<String>, exts: Seq<Seq<char>>) -> bool {
    &&& !(c.canonical is Some && out is Some && path::is_under(c.canonical->0@, out->0@))
    &&& match path::extension_of(c.path@) {
        Some(ext) => exts.len() == 0 || files::is_allowed(ext, exts),
        None => true,
    }
}

/// Whether a change is to be acted on. Changes in the directory of the index
/// itself are not: writing the index would set off another round.
pub fn event_is_relevant(change: &Change, out: &Option<String>, exts: &Vec<String>) -> (r: bool)
    ensures
        r == is_relevant(*change, *out, text::texts(exts@)),
{
    assert(text::texts(exts@).len() == exts@.len());
    if let (Some(o), Some(p)) = (out, &change.canonical) {
        if starts_with(p.as_str(), o.as_str()) {
            return false;
        }
    }
    match extension(change.path.as_str()) {
        Some(ext) => exts.len() == 0 || allows(ext.as_str(), exts),
        None => true,
    }
}

/// How many of `list` are to be acted on.
pub open spec fn relevant_count(
    list: Seq<Change>,
    out: Option<String>,
    exts: Seq<Seq<char>>,
) -> int
    decreases list.len(),
{
    if list.len() == 0 {
        0
    } else {
        relevant_count(list.drop_last(), out, exts) + if is_relevant(list.last(), out, exts) {
            1int
        } else {
            0
        }
    }
}

/// What the watcher reported.
#[derive(Debug)]
pub enum Report {
    /// These paths changed.
    Changes(Vec<Change>),
    /// Watching failed.
    Failure,
}

/// What is to be done about a report.
#[derive(Clone, Copy, Debug, PartialEq, Eq, Structural)]
pub enum WatchAction {
    /// Nothing.
    Wait,
    /// Build the index again, after this many changes.
    Rebuild { changes: usize },
    /// Tell the user, and go on watching.
    Complain,
}

/// What is to be done about a report: build the index again if any change is to
/// be acted on.
pub fn watch_step(report: &Report, out: &Option<String>, exts: &Vec<String>) -> (r: WatchAction)
    ensures
        match *report {
            Report::Changes(list) => {
                let n = relevant_count(list@, *out, text::texts(exts@));
                if n == 0 {
                    r is Wait
                } else {
                    r matches WatchAction::Rebuild { changes } && changes == n
                }
            },
            Report::Failure => r is Complain,
        },
{
    match report {
        Report::Changes(list) => {
            let mut n: usize = 0;
            let mut i: usize = 0;
            while i < list.len()
                invariant
                    i <= list.len(),
                    n <= i,
                    n == relevant_count(list@.take(i as int), *out, text::texts(exts@)),
                decreases list.len() - i,
            {
                assert(list@.take(i + 1).drop_last() =~= list@.take(i as int));
                if event_is_relevant(&list[i], out, exts) {
                    n = n + 1;
                }
                i = i + 1;
            }
            assert(list@.take(list@.len() as int) =~= list@);
            if n == 0 {
                WatchAction::Wait
            } else {
                WatchAction::Rebuild { changes: n }
            }
        },
        Report::Failure => WatchAction::Complain,
    }
}

/// A change in the directory of the index never sets off another round.
pub proof fn law_own_writes_are_ignored(c: Change, out: Option<String>, exts: Seq<Seq<char>>)
    requires
        c.canonical is Some,
        out is Some,
        path::is_under(c.canonical->0@, out->0@),
    ensures
        !is_relevant(c, out, exts),
{
}

/// Extensions are meant as they are given, but for a single empty one, which stands
/// for all files.
pub proof fn law_extensions_are_meant_as_given(ext: Seq<Seq<char>>)
    ensures
        ext.len() != 1 || ext[0].len() > 0 ==> meant_extensions(ext) == ext,
        ext.len() == 1 && ext[0].len() == 0 ==> meant_extensions(ext).len() == 0,
{
}

/// A change outside the directory of the index is acted on where its path has no
/// extension, where no extensions are given, or where it has one of them in
/// whatever case; where it has another one it is not.
pub proof fn law_changes_of_indexed_files_are_acted_on(
    c: Change,
    out: Option<String>,
    exts: Seq<Seq<char>>,
)
    requires
        c.canonical is None || out is None || !path::is_under(c.canonical->0@, out->0@),
    ensures
        is_relevant(c, out, exts) <==> {
            ||| path::extension_of(c.path@) is None
            ||| exts.len() == 0
            ||| exists|i: int|
                0 <= i < exts.len() && files::same_letters(
                    #[trigger] exts[i],
                    path::extension_of(c.path@)->0,
                )
        },
{
    if path::extension_of(c.path@) is Some && exts.len() > 0 {
        let ext = path::extension_of(c.path@)->0;
        if files::is_allowed(ext, exts) {
            let i = choose|i: int|
                0 <= i < exts.len() && files::same_but_case(#[trigger] exts[i], ext);
            files::law_case_does_not_matter(exts[i], ext);
            assert(files::same_letters(exts[i], ext));
        }
        if exists|i: int|
            0 <= i < exts.len() && files::same_letters(#[trigger] exts[i], ext) {
            let i = choose|i: int|
                0 <= i < exts.len() && files::same_letters(#[trigger] exts[i], ext);
            files::law_case_does_not_matter(exts[i], ext);
            assert(files::same_but_case(exts[i], ext));
        }
    }
}

/// As many changes are counted as there are to be acted on.
pub proof fn law_every_relevant_change_counts(
    list: Seq<Change>,
    out: Option<String>,
    exts: Seq<Seq<char>>,
)
    ensures
        Set::new(|i: int| 0 <= i < list.len() && is_relevant(list[i], out, exts)).finite(),
        relevant_count(list, out, exts) == Set::new(
            |i: int| 0 <= i < list.len() && is_relevant(list[i], out, exts),
        ).len(),
    decreases list.len(),
{
    let all = Set::new(|i: int| 0 <= i < list.len() && is_relevant(list[i], out, exts));
    if list.len() == 0 {
        assert(all =~= Set::empty());
    } else {
        let init = list.drop_last();
        law_every_relevant_change_counts(init, out, exts);
        let before = Set::new(|i: int| 0 <= i < init.len() && is_relevant(init[i], out, exts));
        let n = list.len() - 1;
        if is_relevant(list.last(), out, exts) {
            assert(all =~= before.insert(n));
        } else {
            assert(all =~= before);
        }
    }
}

/// An index is built as asked for: over the directory, into the place and with the
/// numbers of lines that are given, for the extensions that are meant.
pub proof fn law_jobs_are_as_asked_for(
    job: IndexJob,
    path: String,
    out: String,
    lines: usize,
    overlap: usize,
    ext: Vec<String>,
)
    requires
        is_index_job(job, path, out, lines, overlap, ext),
    ensures
        job.path == path,
        job.out == out,
        job.lines == lines,
        job.overlap == overlap,
        ext@.len() != 1 || ext@[0]@.len() > 0 ==> text::texts(job.exts@) == text::texts(ext@),
        ext@.len() == 1 && ext@[0]@.len() == 0 ==> job.exts@.len() == 0,
{
    assert(text::texts(ext@).len() == ext@.len());
    assert(text::texts(job.exts@).len() == job.exts@.len());
    if ext@.len() == 1 {
        assert(text::texts(ext@)[0] == ext@[0]@);
    }
}

/// A command line is done as it says: a search with its own query, budget and
/// number of results over its own index, a server at the place that is given or
/// else beside the index.
pub proof fn law_commands_are_done_as_given(cli: Cli, job: Job)
    requires
        call_ensures(dispatch, (cli,), job),
    ensures
        cli.command is Search ==> job is Search && job->query == cli.command->query && job->budget
            == cli.command->budget && job->topk == cli.command->topk && job->Search_index
            == cli.command->Search_index,
        cli.command is Stats ==> job is Stats && job->Stats_index == cli.command->Stats_index,
        cli.command is Version <==> job is Version,
{
}

/// The index is built again where a change is to be acted on, after as many as
/// there are; otherwise there is nothing to do, and a failure is told.
pub proof fn law_relevant_changes_rebuild(
    report: &Report,
    out: &Option<String>,
    exts: &Vec<String>,
    r: WatchAction,
)
    requires
        call_ensures(watch_step, (report, out, exts), r),
    ensures
        *report is Failure ==> r is Complain,
        *report is Changes ==> {
            let list = report->Changes_0@;
            let n = Set::new(
                |i: int| 0 <= i < list.len() && is_relevant(list[i], *out, text::texts(exts@)),
            ).len();
            &&& n == 0 ==> r is Wait
            &&& n > 0 ==> r is Rebuild && r->changes == n
        },
{
    if *report is Changes {
        law_every_relevant_change_counts(report->Changes_0@, *out, text::texts(exts@));
    }
}

/// An index is built, or watched over, as the command line asks for.
pub proof fn law_index_commands_are_done_as_given(cli: Cli, job: Job)
    requires
        call_ensures(dispatch, (cli,), job),
    ensures
        cli.command matches Commands::Index { path, out, lines, overlap, ext } ==> job is Index && {
            let todo = job->Index_0;
            &&& todo.path == path && todo.out == out
            &&& todo.lines == lines && todo.overlap == overlap
            &&& ext@.len() != 1 || ext@[0]@.len() > 0 ==> text::texts(todo.exts@) == text::texts(
                ext@,
            )
            &&& ext@.len() == 1 && ext@[0]@.len() == 0 ==> todo.exts@.len() == 0
        },
        cli.command matches Commands::Watch { path, out, lines, overlap, ext, debounce_ms }
            ==> job is Watch && {
            let todo = job->job;
            &&& todo.path == path && todo.out == out
            &&& todo.lines == lines && todo.overlap == overlap
            &&& ext@.len() != 1 || ext@[0]@.len() > 0 ==> text::texts(todo.exts@) == text::texts(
                ext@,
            )
            &&& ext@.len() == 1 && ext@[0]@.len() == 0 ==> todo.exts@.len() == 0
            &&& job->debounce_ms == debounce_ms
        },
        cli.command matches Commands::Serve { index, socket } ==> {
            &&& job is Serve
            &&& job->Serve_index == index
            &&& socket is Some ==> job->socket == socket->0
            &&& socket is None && index@.len() > 0 && index@.last() != '/' ==> job->socket@
                == index@ + "/rpgrep.sock"@
        },
{
    match cli.command {
        Commands::Index { path, out, lines, overlap, ext } => {
            law_jobs_are_as_asked_for(job->Index_0, path, out, lines, overlap, ext);
        },
        Commands::Watch { path, out, lines, overlap, ext, debounce_ms } => {
            law_jobs_are_as_asked_for(job->job, path, out, lines, overlap, ext);
        },
        Commands::Serve { index, socket } => {
            reveal_strlit("rpgrep.sock");
            reveal_strlit("/rpgrep.sock");
            if socket is None && index@.len() > 0 && index@.last() != '/' {
                assert(index@.push('/') + "rpgrep.sock"@ =~= index@ + "/rpgrep.sock"@);
            }
        },
        _ => {},
    }
}

/// What is told of an index are the numbers of its files with a filter, its
/// chunks, its tokens and its signatures, and the statistics of the ranking.
pub proof fn law_stats_count_what_the_index_holds(store: &IndexStore, r: StatsReport)
    requires
        call_ensures(stats, (store,), r),
    ensures
        r.files == store@.filters.len(),
        r.chunks == store@.chunks.len(),
        r.n_docs == store@.bm25.n_docs,
        r.avg_doc_len == store@.bm25.avg_doc_len,
        r.vocabulary == store@.bm25.doc_freq.dom().len(),
        r.signatures == store@.minhash.dom().len(),
{
}

} // verus!
