use crate::chunk;
use crate::chunk::{chunk_file, Chunk};
use crate::index::archive;
use crate::index::archive::{from_file_bytes, to_file_bytes};
use crate::index::bloom;
use crate::index::bloom::{FileBloomIndex, StoredFilter};
use crate::index::bm25;
use crate::index::bm25::Bm25Index;
use crate::index::files;
use crate::index::files::{select_files, Scope};
use crate::index::frame;
use crate::index::minhash;
use crate::index::minhash::MinHash;
use crate::path;
use crate::single::Single;
use crate::text;
use crate::{PersistError, RpgrepError};
use std::collections::HashMap;
use vstd::prelude::*;

verus! {

/// A file that was found, with its content where it could be read.
#[derive(Debug)]
pub struct SourceFile {
    pub path: String,
    pub content: Option<String>,
}

/// What a `SourceFile` holds.
#[verifier::ext_equal]
pub struct SourceView {
    pub path: Seq<char>,
    pub content: Option<Seq<char>>,
}

impl View for SourceFile {
    type V = SourceView;

    open spec fn view(&self) -> SourceView {
        SourceView {
            path: self.path@,
            content: match self.content {
                Some(c) => Some(c@),
                None => None,
            },
        }
    }
}

/// What a list of files holds.
pub open spec fn source_views(list: Seq<SourceFile>) -> Seq<SourceView> {
    list.map_values(|f: SourceFile| f@)
}

/// The paths of `list`.
pub open spec fn source_paths(list: Seq<SourceView>) -> Seq<Seq<char>> {
    list.map_values(|f: SourceView| f.path)
}

/// An index: the chunks, the filter of each file, the statistics for ranking,
/// and the signature of each chunk.
pub struct IndexStore {
    pub chunks: Vec<Chunk>,
    pub bloom: FileBloomIndex,
    pub bm25: Bm25Index,
    pub minhash: HashMap<u64, MinHash>,
}

/// An index in the form in which it is stored.
pub struct Payload {
    pub chunks: Vec<Chunk>,
    pub bloom_filters: Vec<StoredFilter>,
    pub bm25: Bm25Index,
    pub minhash: HashMap<u64, MinHash>,
}

/// What an index holds.
#[verifier::ext_equal]
pub struct StoreView {
    pub chunks: Seq<chunk::ChunkView>,
    pub filters: Seq<bloom::EntryView>,
    pub bm25: bm25::Bm25View,
    pub minhash: Map<u64, Seq<u64>>,
}

impl View for IndexStore {
    type V = StoreView;

    open spec fn view(&self) -> StoreView {
        StoreView {
            chunks: chunk::views(self.chunks@),
            filters: self.bloom@,
            bm25: self.bm25@,
            minhash: self.minhash@.map_values(|m: MinHash| m@),
        }
    }
}

impl View for Payload {
    type V = StoreView;

    open spec fn view(&self) -> StoreView {
        StoreView {
            chunks: chunk::views(self.chunks@),
            filters: bloom::stored_views(self.bloom_filters@),
            bm25: self.bm25@,
            minhash: self.minhash@.map_values(|m: MinHash| m@),
        }
    }
}

/// `r` holds the chunks of a file that was found, named by the file and their
/// lines; none where it could not be read.
pub open spec fn is_cut(f: SourceView, size: int, overlap: int, r: Seq<chunk::ChunkView>) -> bool {
    match f.content {
        Some(c) => chunk::is_file_cut(f.path, c, size, overlap, r) && chunk::named_by_line(
            r,
            f.path,
        ),
        None => r.len() == 0,
    }
}

/// `cuts` holds the chunks of each of `list`.
pub open spec fn are_cuts(
    list: Seq<SourceView>,
    size: int,
    overlap: int,
    cuts: Seq<Seq<chunk::ChunkView>>,
) -> bool {
    &&& cuts.len() == list.len()
    &&& forall|i: int|
        #![trigger cuts[i]]
        0 <= i < list.len() ==> is_cut(list[i], size, overlap, cuts[i])
}

/// The chunks of all files, in order.
pub open spec fn all_chunks(cuts: Seq<Seq<chunk::ChunkView>>) -> Seq<chunk::ChunkView>
    decreases cuts.len(),
{
    if cuts.len() == 0 {
        Seq::empty()
    } else {
        all_chunks(cuts.drop_last()) + cuts.last()
    }
}

/// A file that gets a filter: it has chunks, and tokens to be looked up by.
pub open spec fn is_filtered(f: SourceView, cut: Seq<chunk::ChunkView>) -> bool {
    &&& cut.len() > 0
    &&& f.content is Some
    &&& bloom::lookup_keys(f.content->0).len() > 0
}

/// The filters of all of `list`, cut into `cuts`.
pub open spec fn all_filters(
    list: Seq<SourceView>,
    cuts: Seq<Seq<chunk::ChunkView>>,
) -> Seq<bloom::EntryView>
    decreases list.len(),
{
    if list.len() == 0 {
        Seq::empty()
    } else {
        let before = all_filters(list.drop_last(), cuts.drop_last());
        let f = list.last();
        if is_filtered(f, cuts.last()) {
            bloom::with_entry(before, f.path, bloom::xor8_over(bloom::lookup_keys(f.content->0)))
        } else {
            before
        }
    }
}

/// Each filter that is built over a file of `list` answers yes for all tokens
/// of the file.
pub open spec fn filters_hold(
    list: Seq<SourceView>,
    cuts: Seq<Seq<chunk::ChunkView>>,
) -> bool {
    forall|i: int|
        #![trigger list[i]]
        0 <= i < list.len() && is_filtered(list[i], cuts[i]) ==> bloom::xor8_over(
            bloom::lookup_keys(list[i].content->0),
        ).holds_all(bloom::lookup_keys(list[i].content->0))
}

/// The signature of each chunk by its identifier; the last one counts where an
/// identifier occurs twice.
pub open spec fn all_signatures(list: Seq<chunk::ChunkView>) -> Map<u64, Seq<u64>>
    decreases list.len(),
{
    if list.len() == 0 {
        Map::empty()
    } else {
        all_signatures(list.drop_last()).insert(
            list.last().id,
            minhash::signature(text::tokens(list.last().text), minhash::DEFAULT_K as nat),
        )
    }
}

/// `r` is the index over the files `list`, in this order.
pub open spec fn is_index_of<F: Fn(u128, u32) -> Single>(
    list: Seq<SourceView>,
    size: int,
    overlap: int,
    mean: F,
    r: StoreView,
) -> bool {
    exists|cuts: Seq<Seq<chunk::ChunkView>>|
        {
            &&& #[trigger] are_cuts(list, size, overlap, cuts)
            &&& r.chunks == all_chunks(cuts)
            &&& r.filters == all_filters(list, cuts)
            &&& filters_hold(list, cuts)
            &&& bm25::is_built(r.chunks, mean, r.bm25)
            &&& r.minhash == all_signatures(r.chunks)
        }
}

/// The files of `list` at the positions `at`.
pub open spec fn files_at(list: Seq<SourceView>, at: Seq<usize>) -> Seq<SourceView> {
    at.map_values(|i: usize| list[i as int])
}

/// What is said of a root that is no directory.
pub open spec fn no_directory(root: Seq<char>) -> Seq<char> {
    "la ruta "@ + root + " no es un directorio existente"@
}

/// Moves the members of `more` to the end of `list`.
fn extend(list: &mut Vec<Chunk>, more: Vec<Chunk>)
    ensures
        chunk::views(final(list)@) == chunk::views(old(list)@) + chunk::views(more@),
{
    let ghost before = list@;
    let mut rest: Vec<Chunk> = more;
    list.append(&mut rest);
    assert(chunk::views(list@) =~= chunk::views(before) + chunk::views(more@));
}

/// The signature of each chunk by its identifier.
fn sign_all(chunks: &Vec<Chunk>) -> (r: HashMap<u64, MinHash>)
    ensures
        r@.map_values(|m: MinHash| m@) == all_signatures(chunk::views(chunks@)),
{
    broadcast use vstd::std_specs::hash::group_hash_axioms;

    let ghost all = chunk::views(chunks@);
    let mut m: HashMap<u64, MinHash> = HashMap::new();
    let mut i: usize = 0;
    assert(m@.map_values(|m: MinHash| m@) =~= all_signatures(all.take(0)));
    while i < chunks.len()
        invariant
            i <= chunks.len(),
            all == chunk::views(chunks@),
            m@.map_values(|m: MinHash| m@) == all_signatures(all.take(i as int)),
        decreases chunks.len() - i,
    {
        let ghost before = m@;
        let sig: MinHash = MinHash::from_text(chunks[i].text.as_str());
        m.insert(chunks[i].id, sig);
        proof {
            assert(all.take(i + 1).drop_last() =~= all.take(i as int));
            assert(all.take(i + 1).last() == chunks@[i as int]@);
            assert(m@.map_values(|m: MinHash| m@) =~= before.map_values(|m: MinHash| m@).insert(
                chunks@[i as int].id,
                sig@,
            ));
        }
        i = i + 1;
    }
    assert(all.take(all.len() as int) =~= all);
    m
}

/// Every content can be looked up by its tokens: no file has more distinct ones
/// than a filter can tell apart.
pub open spec fn contents_fit(list: Seq<SourceView>) -> bool {
    forall|i: int|
        #![trigger list[i]]
        0 <= i < list.len() ==> match list[i].content {
            Some(c) => bloom::lookup_keys(c).len() <= u32::MAX,
            None => true,
        }
}

impl IndexStore {
    /// The index over `files` at the positions `at`, in this order.
    fn index_files<F: Fn(u128, u32) -> Single>(
        files: &Vec<SourceFile>,
        at: &Vec<usize>,
        lines_per_chunk: usize,
        overlap: usize,
        mean: &F,
    ) -> (r: Self)
        requires
            contents_fit(source_views(files@)),
            forall|i: int| 0 <= i < at@.len() ==> #[trigger] at@[i] < files@.len(),
            bm25::takes_any(*mean),
        ensures
            is_index_of(
                files_at(source_views(files@), at@),
                lines_per_chunk as int,
                overlap as int,
                *mean,
                r@,
            ),
            r.bloom.wf(),
            bloom::all_sound(r@.filters),
    {
        let ghost all = files_at(source_views(files@), at@);
        let ghost size = lines_per_chunk as int;
        let ghost shared = overlap as int;
        let ghost mut cuts: Seq<Seq<chunk::ChunkView>> = Seq::empty();
        let mut chunks: Vec<Chunk> = Vec::new();
        let mut bloom: FileBloomIndex = FileBloomIndex::new();
        let mut i: usize = 0;
        assert(chunk::views(chunks@) =~= all_chunks(cuts));
        while i < at.len()
            invariant
                i <= at.len(),
                all == files_at(source_views(files@), at@),
                size == lines_per_chunk,
                shared == overlap,
                contents_fit(source_views(files@)),
                forall|k: int| 0 <= k < at@.len() ==> #[trigger] at@[k] < files@.len(),
                bloom.wf(),
                bloom::all_sound(bloom@),
                are_cuts(all.take(i as int), size, shared, cuts),
                chunk::views(chunks@) == all_chunks(cuts),
                bloom@ == all_filters(all.take(i as int), cuts),
                filters_hold(all.take(i as int), cuts),
            decreases at.len() - i,
        {
            let file: &SourceFile = &files[at[i]];
            proof {
                assert(all[i as int] == file@);
                assert(source_views(files@)[at@[i as int] as int] == file@);
                assert(all.take(i + 1).drop_last() =~= all.take(i as int));
                assert(all.take(i + 1).last() == file@);
            }
            let ghost before = chunks@;
            let ghost mut cut: Seq<chunk::ChunkView> = Seq::empty();
            match &file.content {
                Some(content) => {
                    let path: &str = file.path.as_str();
                    let list: Vec<Chunk> = chunk_file(
                        path,
                        content.as_str(),
                        lines_per_chunk,
                        overlap,
                    );
                    proof {
                        cut = chunk::views(list@);
                        assert(cut.len() == list@.len());
                    }
                    if list.len() > 0 {
                        bloom.add_file(path, content.as_str());
                        extend(&mut chunks, list);
                    }
                },
                None => {},
            }
            proof {
                let earlier = cuts;
                cuts = cuts.push(cut);
                assert(cuts.drop_last() =~= earlier);
                assert(chunk::views(chunks@) =~= chunk::views(before) + cut);
                let next = all.take(i + 1);
                assert(is_cut(file@, size, shared, cut));
                assert forall|k: int| #![trigger cuts[k]] 0 <= k < next.len() implies is_cut(
                    next[k],
                    size,
                    shared,
                    cuts[k],
                ) by {
                    if k < i {
                        assert(next[k] == all.take(i as int)[k]);
                        assert(cuts[k] == earlier[k]);
                    }
                }
                assert forall|k: int|
                    #![trigger next[k]]
                    0 <= k < next.len() && is_filtered(
                        next[k],
                        cuts[k],
                    ) implies bloom::xor8_over(
                    bloom::lookup_keys(next[k].content->0),
                ).holds_all(bloom::lookup_keys(next[k].content->0)) by {
                    if k < i {
                        assert(next[k] == all.take(i as int)[k]);
                        assert(cuts[k] == earlier[k]);
                    } else {
                        assert(next[k] == file@);
                    }
                }
            }
            i = i + 1;
        }
        assert(all.take(all.len() as int) =~= all);
        let bm25: Bm25Index = Bm25Index::build(&chunks, mean);
        let minhash: HashMap<u64, MinHash> = sign_all(&chunks);
        assert(are_cuts(all, size, shared, cuts));
        IndexStore { chunks, bloom, bm25, minhash }
    }

    /// The index over the files found below `root` that have one of the
    /// extensions (all files if there are none) and match none of the patterns
    /// in `excludes`. Files that could not be read are left out; that `root` is
    /// no directory is an error.
    pub fn from_dir_with_excludes<F: Fn(u128, u32) -> Single>(
        root: &str,
        root_is_dir: bool,
        files: &Vec<SourceFile>,
        extensions: &Vec<String>,
        lines_per_chunk: usize,
        overlap: usize,
        excludes: &Vec<String>,
        mean: &F,
    ) -> (r: Result<Self, RpgrepError>)
        requires
            contents_fit(source_views(files@)),
            bm25::takes_any(*mean),
        ensures
            match r {
                Ok(store) => {
                    &&& root_is_dir
                    &&& store.bloom.wf()
                    &&& bloom::all_sound(store@.filters)
                    &&& exists|at: Seq<usize>|
                        {
                            &&& #[trigger] files::is_selection(
                                &(Scope { root, extensions, excludes }),
                                source_paths(source_views(files@)),
                                at,
                            )
                            &&& is_index_of(
                                files_at(source_views(files@), at),
                                lines_per_chunk as int,
                                overlap as int,
                                *mean,
                                store@,
                            )
                        }
                },
                Err(e) => !root_is_dir && e is Index && e->Index_0@ == no_directory(root@),
            },
    {
        if !root_is_dir {
            let mut msg: String = String::new();
            msg.append("la ruta ");
            msg.append(root);
            msg.append(" no es un directorio existente");
            assert(msg@ =~= no_directory(root@));
            return Err(RpgrepError::Index(msg));
        }
        let mut paths: Vec<String> = Vec::new();
        let mut i: usize = 0;
        while i < files.len()
            invariant
                i <= files.len(),
                text::texts(paths@) =~= source_paths(source_views(files@)).take(i as int),
            decreases files.len() - i,
        {
            let ghost before = paths@;
            let path: String = files[i].path.clone();
            paths.push(path);
            proof {
                let listed = source_paths(source_views(files@));
                assert(text::texts(paths@) =~= text::texts(before).push(path@));
                assert(listed[i as int] == path@);
                assert(listed.take(i + 1) =~= listed.take(i as int).push(path@));
            }
            i = i + 1;
        }
        assert(source_paths(source_views(files@)).take(files@.len() as int) =~= source_paths(
            source_views(files@),
        ));
        let scope = Scope { root, extensions, excludes };
        let at: Vec<usize> = select_files(&scope, &paths);
        let ghost listed = source_paths(source_views(files@));
        assert(paths@.len() == text::texts(paths@).len());
        let store = Self::index_files(files, &at, lines_per_chunk, overlap, mean);
        assert(files::is_selection(&scope, listed, at@));
        Ok(store)
    }

    /// `from_dir_with_excludes` without patterns.
    pub fn from_dir<F: Fn(u128, u32) -> Single>(
        root: &str,
        root_is_dir: bool,
        files: &Vec<SourceFile>,
        extensions: &Vec<String>,
        lines_per_chunk: usize,
        overlap: usize,
        mean: &F,
    ) -> (r: Result<Self, RpgrepError>)
        requires
            contents_fit(source_views(files@)),
            bm25::takes_any(*mean),
        ensures
            match r {
                Ok(store) => {
                    &&& root_is_dir
                    &&& store.bloom.wf()
                    &&& bloom::all_sound(store@.filters)
                    &&& exists|excludes: Vec<String>, at: Seq<usize>|
                        {
                            &&& excludes@.len() == 0
                            &&& #[trigger] files::is_selection(
                                &(Scope { root, extensions, excludes: &excludes }),
                                source_paths(source_views(files@)),
                                at,
                            )
                            &&& is_index_of(
                                files_at(source_views(files@), at),
                                lines_per_chunk as int,
                                overlap as int,
                                *mean,
                                store@,
                            )
                        }
                },
                Err(e) => !root_is_dir && e is Index && e->Index_0@ == no_directory(root@),
            },
    {
        let none: Vec<String> = Vec::new();
        Self::from_dir_with_excludes(
            root,
            root_is_dir,
            files,
            extensions,
            lines_per_chunk,
            overlap,
            &none,
            mean,
        )
    }

    /// Number of files with a filter.
    pub fn n_files(&self) -> (r: usize)
        ensures
            r == self@.filters.len(),
    {
        self.bloom.len()
    }

    /// A copy of the index in the form in which it is stored.
    pub fn to_payload(&self) -> (r: Payload)
        ensures
            r@ == self@,
    {
        let mut chunks: Vec<Chunk> = Vec::new();
        let mut i: usize = 0;
        while i < self.chunks.len()
            invariant
                i <= self.chunks.len(),
                chunk::views(chunks@) =~= chunk::views(self.chunks@).take(i as int),
            decreases self.chunks.len() - i,
        {
            let ghost before = chunks@;
            let copy: Chunk = self.chunks[i].clone();
            chunks.push(copy);
            proof {
                let all = chunk::views(self.chunks@);
                assert(chunk::views(chunks@) =~= chunk::views(before).push(copy@));
                assert(all[i as int] == copy@);
                assert(all.take(i + 1) =~= all.take(i as int).push(copy@));
            }
            i = i + 1;
        }
        assert(chunk::views(chunks@) =~= chunk::views(self.chunks@));
        let r = Payload {
            chunks,
            bloom_filters: self.bloom.to_archivable(),
            bm25: self.bm25.clone(),
            minhash: self.minhash.clone(),
        };
        assert(r@ =~= self@);
        r
    }

    /// The index whose stored form is given.
    pub fn from_payload(payload: Payload) -> (r: Self)
        requires
            bloom::all_countable(payload@.filters),
        ensures
            r@ == payload@,
            r.bloom.is_placed(),
            bloom::distinct_paths(payload@.filters) ==> r.bloom.wf(),
    {
        let bloom: FileBloomIndex = FileBloomIndex::from_archivable(payload.bloom_filters);
        IndexStore { chunks: payload.chunks, bloom, bm25: payload.bm25, minhash: payload.minhash }
    }

    /// The bytes of the file in which the index is saved. An index that no archive
    /// can hold is an error.
    pub fn to_file_bytes(&self) -> (r: Result<Vec<u8>, RpgrepError>)
        requires
            self.bloom.wf(),
        ensures
            match r {
                Ok(file) => {
                    &&& archive::is_archivable(self@)
                    &&& archive::stored_in(file@) == Some(archive::archive_of(self@))
                    &&& exists|archived: Seq<u8>| file@ == #[trigger] frame::framed(archived)
                },
                Err(e) => !archive::is_archivable(self@) && e is Persist && e->Persist_0 is Codec,
            },
    {
        match to_file_bytes(self.to_payload()) {
            Ok(file) => Ok(file),
            Err(e) => Err(RpgrepError::Persist(e)),
        }
    }

    /// The index in a file, its filters in the order of their paths. A file that is
    /// not framed as an index is an error, and so is one whose archive cannot be
    /// read, or whose filters have places that this machine cannot count.
    pub fn from_file_bytes(file: &[u8]) -> (r: Result<Self, RpgrepError>)
        ensures
            match r {
                Ok(store) => {
                    &&& archive::stored_in(file@) == Some(archive::archive_of(store@))
                    &&& archive::is_countable(archive::archive_of(store@))
                    &&& store.bloom.wf()
                    &&& archive::in_path_order(store@.filters)
                },
                Err(RpgrepError::Persist(PersistError::Frame(e))) => frame::section_of(file@)
                    == Err::<frame::Section, _>(e),
                Err(RpgrepError::Persist(PersistError::Codec(_))) => {
                    &&& frame::section_of(file@) is Ok
                    &&& archive::stored_in(file@) is None || !archive::is_countable(
                        archive::stored_in(file@)->0,
                    )
                },
                Err(_) => false,
            },
    {
        let payload: Payload = match from_file_bytes(file, "rkyv deserialize: ") {
            Ok(payload) => payload,
            Err(e) => {
                return Err(RpgrepError::Persist(e));
            },
        };
        let ghost entries = payload@.filters;
        let mut i: usize = 0;
        while i < payload.bloom_filters.len()
            invariant
                i <= payload.bloom_filters.len(),
                entries == bloom::stored_views(payload.bloom_filters@),
                bloom::distinct_paths(entries),
                archive::stored_in(file@) == Some(archive::archive_of(payload@)),
                payload@.filters == entries,
                frame::section_of(file@) is Ok,
                forall|k: int|
                    0 <= k < i ==> (#[trigger] entries[k]).1.block_length <= usize::MAX,
            decreases payload.bloom_filters.len() - i,
        {
            assert(entries[i as int] == payload.bloom_filters@[i as int]@);
            if payload.bloom_filters[i].filter.block_length > usize::MAX as u64 {
                proof {
                    archive::lemma_by_path(entries, i as int);
                    let held = archive::archive_of(payload@);
                    assert(held.filters.contains_key(entries[i as int].0));
                    assert(!archive::is_countable(held));
                }
                let msg: String = "filtro Xor malformado".to_owned();
                return Err(RpgrepError::Persist(PersistError::Codec(msg)));
            }
            i = i + 1;
        }
        proof {
            archive::lemma_countable(entries);
        }
        Ok(Self::from_payload(payload))
    }
}

/// No two of `list` have the same path.
pub open spec fn distinct_sources(list: Seq<SourceView>) -> bool {
    forall|i: int, j: int|
        #![trigger list[i], list[j]]
        0 <= i < j < list.len() ==> list[i].path != list[j].path
}

/// Filters have distinct paths, and each file that gets one has its own.
proof fn lemma_filter_of(
    list: Seq<SourceView>,
    cuts: Seq<Seq<chunk::ChunkView>>,
    i: int,
)
    requires
        distinct_sources(list),
        cuts.len() == list.len(),
    ensures
        bloom::distinct_paths(all_filters(list, cuts)),
        0 <= i < list.len() && is_filtered(list[i], cuts[i]) ==> all_filters(list, cuts).contains(
            (list[i].path, bloom::xor8_over(bloom::lookup_keys(list[i].content->0))),
        ),
    decreases list.len(),
{
    if list.len() > 0 {
        let init = list.drop_last();
        let f = list.last();
        assert(distinct_sources(init)) by {
            assert forall|a: int, b: int|
                #![trigger init[a], init[b]]
                0 <= a < b < init.len() implies init[a].path != init[b].path by {
                assert(init[a] == list[a] && init[b] == list[b]);
            }
        }
        lemma_filter_of(init, cuts.drop_last(), i);
        let before = all_filters(init, cuts.drop_last());
        let all = all_filters(list, cuts);
        if is_filtered(f, cuts.last()) {
            bloom::law_adding_changes_one_file(
                before,
                f.path,
                bloom::xor8_over(bloom::lookup_keys(f.content->0)),
            );
        }
        if 0 <= i < list.len() && is_filtered(list[i], cuts[i]) {
            let filter = bloom::xor8_over(bloom::lookup_keys(list[i].content->0));
            if i < init.len() {
                assert(init[i] == list[i]);
                let at = choose|at: int|
                    #![trigger before[at]]
                    0 <= at < before.len() && before[at] == (list[i].path, filter);
                assert(list[i].path != list[list.len() - 1].path);
                assert(all[at] == before[at]);
            } else {
                let at = choose|at: int|
                    #![trigger all[at]]
                    bloom::entry_at(all, f.path, at) && all[at].1 == filter;
                assert(all[at] == (list[i].path, filter));
            }
        }
    }
}

/// A chunk comes from the cut of one of the files.
proof fn lemma_chunk_source(cuts: Seq<Seq<chunk::ChunkView>>, c: chunk::ChunkView) -> (i: int)
    requires
        all_chunks(cuts).contains(c),
    ensures
        0 <= i < cuts.len(),
        cuts[i].contains(c),
    decreases cuts.len(),
{
    let before = all_chunks(cuts.drop_last());
    let all = all_chunks(cuts);
    let k = choose|k: int| 0 <= k < all.len() && all[k] == c;
    if k < before.len() {
        assert(before[k] == c);
        lemma_chunk_source(cuts.drop_last(), c)
    } else {
        assert(cuts.last()[k - before.len()] == c);
        cuts.len() - 1
    }
}

/// No false negatives in an index: a file that has a chunk in it is a candidate
/// for every query that shares a token with its content.
pub proof fn law_indexed_file_is_candidate<F: Fn(u128, u32) -> Single>(
    list: Seq<SourceView>,
    size: int,
    overlap: int,
    mean: F,
    v: StoreView,
    i: int,
    c: chunk::ChunkView,
    query: Seq<char>,
    token: Seq<char>,
)
    requires
        is_index_of(list, size, overlap, mean, v),
        distinct_sources(list),
        0 <= i < list.len(),
        list[i].content is Some,
        v.chunks.contains(c),
        c.file == list[i].path,
        text::tokens(list[i].content->0).contains(token),
        text::tokens(query).contains(token),
    ensures
        bloom::matching(v.filters, bloom::lookup_keys(query)).contains(list[i].path),
{
    let cuts = choose|cuts: Seq<Seq<chunk::ChunkView>>|
        {
            &&& #[trigger] are_cuts(list, size, overlap, cuts)
            &&& v.chunks == all_chunks(cuts)
            &&& v.filters == all_filters(list, cuts)
            &&& filters_hold(list, cuts)
            &&& bm25::is_built(v.chunks, mean, v.bm25)
            &&& v.minhash == all_signatures(v.chunks)
        };
    let j = lemma_chunk_source(cuts, c);
    assert(is_cut(list[j], size, overlap, cuts[j]));
    let k = choose|k: int| 0 <= k < cuts[j].len() && cuts[j][k] == c;
    assert(cuts[j][k].file == list[j].path);
    assert(j == i) by {
        if j < i {
            assert(list[j].path != list[i].path);
        }
        if i < j {
            assert(list[i].path != list[j].path);
        }
    }
    let content = list[i].content->0;
    bloom::lemma_token_is_key(content, token);
    lemma_filter_of(list, cuts, i);
    let all = v.filters;
    let at = choose|at: int|
        0 <= at < all.len() && all[at] == (
            list[i].path,
            bloom::xor8_over(bloom::lookup_keys(content)),
        );
    bloom::law_no_false_negatives(all, at, content, query, token);
}

/// Every chunk of an index has a signature.
pub proof fn law_every_chunk_is_signed(list: Seq<chunk::ChunkView>, i: int)
    requires
        0 <= i < list.len(),
    ensures
        all_signatures(list).contains_key(list[i].id),
        all_signatures(list)[list[i].id].len() == minhash::DEFAULT_K,
    decreases list.len(),
{
    let init = list.drop_last();
    if i < init.len() {
        assert(init[i] == list[i]);
        law_every_chunk_is_signed(init, i);
    }
}

/// All chunks of all files stand in the index, in the order of the files, and
/// nothing else.
proof fn lemma_chunks_of_all_cuts(cuts: Seq<Seq<chunk::ChunkView>>) -> (starts: Seq<int>)
    ensures
        starts.len() == cuts.len() + 1,
        starts[0] == 0,
        starts.last() == all_chunks(cuts).len(),
        forall|i: int|
            #![trigger cuts[i]]
            0 <= i < cuts.len() ==> 0 <= starts[i] && starts[i + 1] == starts[i] + cuts[i].len()
                && starts[i + 1] <= all_chunks(cuts).len() && all_chunks(cuts).subrange(
                starts[i],
                starts[i + 1],
            ) == cuts[i],
    decreases cuts.len(),
{
    if cuts.len() == 0 {
        seq![0int]
    } else {
        let init = cuts.drop_last();
        let n = cuts.len() - 1;
        let before = lemma_chunks_of_all_cuts(init);
        let all = all_chunks(cuts);
        let starts = before.push(all.len() as int);
        assert forall|i: int|
            #![trigger cuts[i]]
            #![trigger starts[i]]
            0 <= i < cuts.len() implies 0 <= starts[i] && starts[i + 1] == starts[i] + cuts[i].len() && starts[i + 1] <= all.len()
            && all.subrange(starts[i], starts[i + 1]) == cuts[i] by {
            if i < n {
                assert(init[i] == cuts[i]);
                assert(all.subrange(starts[i], starts[i + 1]) =~= all_chunks(init).subrange(
                    before[i],
                    before[i + 1],
                ));
            } else {
                assert(before.last() == before[n]);
                assert(all.subrange(starts[n], starts[n + 1]) =~= cuts[n]);
            }
        }
        starts
    }
}

/// The index holds every file that could be read, cut into its chunks, one file
/// after the other and nothing in between.
pub proof fn law_index_holds_the_chunks_of_every_file<F: Fn(u128, u32) -> Single>(
    list: Seq<SourceView>,
    size: int,
    overlap: int,
    mean: F,
    v: StoreView,
)
    requires
        is_index_of(list, size, overlap, mean, v),
    ensures
        exists|starts: Seq<int>|
            {
                &&& #[trigger] starts.len() == list.len() + 1
                &&& starts[0] == 0
                &&& starts[list.len() as int] == v.chunks.len()
                &&& forall|i: int|
                    #![trigger list[i]]
                    0 <= i < list.len() ==> {
                        &&& 0 <= starts[i] <= starts[i + 1] <= v.chunks.len()
                        &&& list[i].content is None ==> starts[i + 1] == starts[i]
                        &&& list[i].content is Some ==> chunk::is_file_cut(
                            list[i].path,
                            list[i].content->0,
                            size,
                            overlap,
                            v.chunks.subrange(starts[i], starts[i + 1]),
                        )
                    }
            },
{
    let cuts = choose|cuts: Seq<Seq<chunk::ChunkView>>|
        {
            &&& #[trigger] are_cuts(list, size, overlap, cuts)
            &&& v.chunks == all_chunks(cuts)
            &&& v.filters == all_filters(list, cuts)
            &&& filters_hold(list, cuts)
            &&& bm25::is_built(v.chunks, mean, v.bm25)
            &&& v.minhash == all_signatures(v.chunks)
        };
    let starts = lemma_chunks_of_all_cuts(cuts);
    assert forall|i: int| #![trigger list[i]] 0 <= i < list.len() implies {
        &&& 0 <= starts[i] <= starts[i + 1] <= v.chunks.len()
        &&& list[i].content is None ==> starts[i + 1] == starts[i]
        &&& list[i].content is Some ==> chunk::is_file_cut(
            list[i].path,
            list[i].content->0,
            size,
            overlap,
            v.chunks.subrange(starts[i], starts[i + 1]),
        )
    } by {
        assert(is_cut(list[i], size, overlap, cuts[i]));
    }
    assert(starts.len() == list.len() + 1);
}

/// The signature of a chunk is that of its own text, with as many hashes as are
/// usual, provided that identifiers are distinct.
pub proof fn law_signature_is_of_the_text(list: Seq<chunk::ChunkView>, i: int)
    requires
        bm25::distinct_ids(list),
        0 <= i < list.len(),
    ensures
        all_signatures(list).contains_key(list[i].id),
        all_signatures(list)[list[i].id] == minhash::signature(text::tokens(list[i].text), 128),
    decreases list.len(),
{
    let init = list.drop_last();
    if i < init.len() {
        assert forall|a: int, b: int|
            #![trigger init[a], init[b]]
            0 <= a < b < init.len() implies init[a].id != init[b].id by {
            assert(init[a] == list[a] && init[b] == list[b]);
        }
        assert(init[i] == list[i]);
        law_signature_is_of_the_text(init, i);
        assert(list[i].id != list[list.len() - 1].id);
    }
}

/// The statistics and signatures of an index are those of its chunks.
pub proof fn law_index_is_made_of_its_chunks<F: Fn(u128, u32) -> Single>(
    list: Seq<SourceView>,
    size: int,
    overlap: int,
    mean: F,
    v: StoreView,
)
    requires
        is_index_of(list, size, overlap, mean, v),
    ensures
        v.minhash == all_signatures(v.chunks),
        bm25::is_finalized(bm25::Bm25View::none().with_chunks(v.chunks), mean, v.bm25),
{
    let cuts = choose|cuts: Seq<Seq<chunk::ChunkView>>|
        {
            &&& #[trigger] are_cuts(list, size, overlap, cuts)
            &&& v.chunks == all_chunks(cuts)
            &&& v.filters == all_filters(list, cuts)
            &&& filters_hold(list, cuts)
            &&& bm25::is_built(v.chunks, mean, v.bm25)
            &&& v.minhash == all_signatures(v.chunks)
        };
    assert(bm25::is_built(v.chunks, mean, v.bm25));
}

/// Each filter is that of a file, over all tokens of its content.
proof fn lemma_filters_have_files(list: Seq<SourceView>, cuts: Seq<Seq<chunk::ChunkView>>, k: int)
    requires
        cuts.len() == list.len(),
        0 <= k < all_filters(list, cuts).len(),
    ensures
        exists|i: int|
            #![trigger list[i]]
            {
                &&& 0 <= i < list.len()
                &&& cuts[i].len() > 0
                &&& list[i].content is Some
                &&& text::tokens(list[i].content->0).len() > 0
                &&& all_filters(list, cuts)[k] == (
                    list[i].path,
                    bloom::xor8_over(text::unique(text::token_hashes(list[i].content->0))),
                )
            },
    decreases list.len(),
{
    let init = list.drop_last();
    let rest = cuts.drop_last();
    let f = list.last();
    let n = list.len() - 1;
    let before = all_filters(init, rest);
    let all = all_filters(list, cuts);
    if k < before.len() && all[k] == before[k] {
        lemma_filters_have_files(init, rest, k);
        let i = choose|i: int|
            #![trigger init[i]]
            {
                &&& 0 <= i < init.len()
                &&& rest[i].len() > 0
                &&& init[i].content is Some
                &&& text::tokens(init[i].content->0).len() > 0
                &&& before[k] == (
                    init[i].path,
                    bloom::xor8_over(text::unique(text::token_hashes(init[i].content->0))),
                )
            };
        assert(list[i] == init[i]);
        assert(cuts[i] == rest[i]);
    } else {
        let content = f.content->0;
        text::lemma_unique(text::token_hashes(content));
        let keys = bloom::lookup_keys(content);
        assert(keys.contains(keys[0]));
        assert(text::token_hashes(content).contains(keys[0]));
        assert(list[n] == f);
        assert(all[k].0 == f.path);
    }
}

/// `e` holds the path of one of `list` and a filter over all tokens of that file.
pub open spec fn is_over_a_file(list: Seq<SourceView>, e: bloom::EntryView) -> bool {
    exists|i: int|
        #![trigger list[i]]
        {
            &&& 0 <= i < list.len()
            &&& list[i].content is Some
            &&& text::tokens(list[i].content->0).len() > 0
            &&& e == (
                list[i].path,
                bloom::xor8_over(text::unique(text::token_hashes(list[i].content->0))),
            )
        }
}

/// Only files that have tokens have filters, each over all tokens of
/// the whole file; and of files with distinct paths each such one has its filter.
pub proof fn law_filters_are_over_whole_files<F: Fn(u128, u32) -> Single>(
    list: Seq<SourceView>,
    size: int,
    overlap: int,
    mean: F,
    v: StoreView,
)
    requires
        is_index_of(list, size, overlap, mean, v),
    ensures
        forall|k: int|
            #![trigger v.filters[k]]
            0 <= k < v.filters.len() ==> is_over_a_file(list, v.filters[k]),
        distinct_sources(list) ==> forall|c: int, i: int|
            #![trigger v.chunks[c], list[i]]
            0 <= c < v.chunks.len() && 0 <= i < list.len() && v.chunks[c].file == list[i].path
                && list[i].content is Some && text::tokens(list[i].content->0).len() > 0
                ==> v.filters.contains(
                (
                    list[i].path,
                    bloom::xor8_over(text::unique(text::token_hashes(list[i].content->0))),
                ),
            ),
{
    let cuts = choose|cuts: Seq<Seq<chunk::ChunkView>>|
        {
            &&& #[trigger] are_cuts(list, size, overlap, cuts)
            &&& v.chunks == all_chunks(cuts)
            &&& v.filters == all_filters(list, cuts)
            &&& filters_hold(list, cuts)
            &&& bm25::is_built(v.chunks, mean, v.bm25)
            &&& v.minhash == all_signatures(v.chunks)
        };
    assert forall|k: int| #![trigger v.filters[k]] 0 <= k < v.filters.len() implies is_over_a_file(
        list,
        v.filters[k],
    ) by {
        lemma_filters_have_files(list, cuts, k);
    }
    if distinct_sources(list) {
        assert forall|c: int, i: int|
            #![trigger v.chunks[c], list[i]]
            0 <= c < v.chunks.len() && 0 <= i < list.len() && v.chunks[c].file == list[i].path
                && list[i].content is Some && text::tokens(list[i].content->0).len()
                > 0 implies v.filters.contains(
            (
                list[i].path,
                bloom::xor8_over(text::unique(text::token_hashes(list[i].content->0))),
            ),
        ) by {
            let one = v.chunks[c];
            let content = list[i].content->0;
            assert(v.chunks.contains(one));
            let j = lemma_chunk_source(cuts, one);
            assert(is_cut(list[j], size, overlap, cuts[j]));
            let k = choose|k: int| 0 <= k < cuts[j].len() && cuts[j][k] == one;
            assert(cuts[j][k].file == list[j].path);
            assert(j == i) by {
                if j < i {
                    assert(list[j].path != list[i].path);
                }
                if i < j {
                    assert(list[i].path != list[j].path);
                }
            }
            text::lemma_unique(text::token_hashes(content));
            assert(text::token_hashes(content).contains(text::token_hashes(content)[0]));
            assert(bloom::lookup_keys(content).contains(text::token_hashes(content)[0]));
            lemma_filter_of(list, cuts, i);
        }
    }
}

/// `v` holds the chunks of the files that are to be indexed: `at` lists their
/// positions, each once and in path order, and the chunks of the `i`-th of them
/// stand from `starts[i]` up to `starts[i + 1]`.
pub open spec fn is_made_of<'a>(
    scope: &Scope<'a>,
    list: Seq<SourceView>,
    size: int,
    overlap: int,
    v: StoreView,
    at: Seq<usize>,
    starts: Seq<int>,
) -> bool {
    &&& forall|k: int|
        #![trigger list[k]]
        0 <= k < list.len() ==> (scope.takes(list[k].path) <==> at.contains(k as usize))
    &&& forall|i: int| #![trigger at[i]] 0 <= i < at.len() ==> at[i] < list.len()
    &&& forall|i: int, j: int, k: int|
        0 <= i < j < at.len() ==> !#[trigger] path::listed_before(
            path::components(list[at[j] as int].path),
            path::components(list[at[i] as int].path),
            k,
        )
    &&& at.no_duplicates()
    &&& starts.len() == at.len() + 1
    &&& starts[0] == 0
    &&& starts[at.len() as int] == v.chunks.len()
    &&& forall|i: int|
        #![trigger at[i]]
        0 <= i < at.len() ==> has_chunks_at(
            list[at[i] as int],
            size,
            overlap,
            v,
            starts[i],
            starts[i + 1],
        )
}

/// The chunks of `f` stand in `v` from `from` up to `to`; none where it could not
/// be read.
pub open spec fn has_chunks_at(
    f: SourceView,
    size: int,
    overlap: int,
    v: StoreView,
    from: int,
    to: int,
) -> bool {
    &&& 0 <= from <= to <= v.chunks.len()
    &&& f.content is None ==> to == from
    &&& f.content is Some ==> chunk::is_file_cut(
        f.path,
        f.content->0,
        size,
        overlap,
        v.chunks.subrange(from, to),
    )
}

/// What is an index over a selection is made of the files that are to be indexed.
proof fn lemma_made_of<'a, F: Fn(u128, u32) -> Single>(
    scope: &Scope<'a>,
    list: Seq<SourceView>,
    at: Seq<usize>,
    size: int,
    overlap: int,
    mean: F,
    v: StoreView,
)
    requires
        list.len() <= usize::MAX,
        files::is_selection(scope, source_paths(list), at),
        is_index_of(files_at(list, at), size, overlap, mean, v),
    ensures
        exists|starts: Seq<int>| #[trigger]
            is_made_of(scope, list, size, overlap, v, at, starts),
{
    let paths = source_paths(list);
    let chosen = files_at(list, at);
    assert(paths.len() == list.len());
    assert(chosen.len() == at.len());
    files::lemma_selected_are_taken(scope, paths, at);
    law_index_holds_the_chunks_of_every_file(chosen, size, overlap, mean, v);
    let starts = choose|starts: Seq<int>|
        {
            &&& #[trigger] starts.len() == chosen.len() + 1
            &&& starts[0] == 0
            &&& starts[chosen.len() as int] == v.chunks.len()
            &&& forall|i: int|
                #![trigger chosen[i]]
                0 <= i < chosen.len() ==> {
                    &&& 0 <= starts[i] <= starts[i + 1] <= v.chunks.len()
                    &&& chosen[i].content is None ==> starts[i + 1] == starts[i]
                    &&& chosen[i].content is Some ==> chunk::is_file_cut(
                        chosen[i].path,
                        chosen[i].content->0,
                        size,
                        overlap,
                        v.chunks.subrange(starts[i], starts[i + 1]),
                    )
                }
        };
    assert forall|k: int| #![trigger list[k]] 0 <= k < list.len() implies (scope.takes(
        list[k].path,
    ) <==> at.contains(k as usize)) by {
        assert(paths[k] == list[k].path);
        files::law_selection_is_exact(scope, paths, at, k);
    }
    assert(at.no_duplicates()) by {
        assert forall|i: int, j: int| 0 <= i < j < at.len() implies at[i] != at[j] by {
            files::law_selection_comes_in_path_order(scope, paths, at, i, j, 0);
        }
    }
    assert forall|i: int, j: int, k: int|
        0 <= i < j < at.len() implies !#[trigger] path::listed_before(
        path::components(list[at[j] as int].path),
        path::components(list[at[i] as int].path),
        k,
    ) by {
        assert(at[i] < paths.len() && at[j] < paths.len());
        assert(paths[at[i] as int] == list[at[i] as int].path);
        assert(paths[at[j] as int] == list[at[j] as int].path);
        files::law_selection_comes_in_path_order(scope, paths, at, i, j, k);
    }
    assert forall|i: int| #![trigger at[i]] 0 <= i < at.len() implies has_chunks_at(
        list[at[i] as int],
        size,
        overlap,
        v,
        starts[i],
        starts[i + 1],
    ) by {
        assert(chosen[i] == list[at[i] as int]);
    }
    assert(is_made_of(scope, list, size, overlap, v, at, starts));
}

/// A directory is indexed file by file: all files that are to be indexed, in path
/// order, each cut with the numbers of lines that are given, and signed chunk by
/// chunk. What is no directory is an error that names it.
pub proof fn law_directory_is_indexed_file_by_file<F: Fn(u128, u32) -> Single>(
    root: &str,
    root_is_dir: bool,
    files: &Vec<SourceFile>,
    extensions: &Vec<String>,
    lines_per_chunk: usize,
    overlap: usize,
    excludes: &Vec<String>,
    mean: &F,
    r: Result<IndexStore, RpgrepError>,
)
    requires
        call_ensures(
            IndexStore::from_dir_with_excludes::<F>,
            (root, root_is_dir, files, extensions, lines_per_chunk, overlap, excludes, mean),
            r,
        ),
        files@.len() <= usize::MAX,
    ensures
        r is Ok <==> root_is_dir,
        r is Err ==> r->Err_0 is Index && r->Err_0->Index_0@ == "la ruta "@ + root@
            + " no es un directorio existente"@,
        r is Ok ==> {
            let v = r->Ok_0@;
            &&& exists|at: Seq<usize>, starts: Seq<int>| #[trigger]
                is_made_of(
                    &(Scope { root, extensions, excludes }),
                    source_views(files@),
                    lines_per_chunk as int,
                    overlap as int,
                    v,
                    at,
                    starts,
                )
            &&& bm25::distinct_ids(v.chunks) ==> forall|i: int|
                #![trigger v.chunks[i]]
                0 <= i < v.chunks.len() ==> v.minhash.contains_key(v.chunks[i].id)
                    && v.minhash[v.chunks[i].id] == minhash::signature(
                    text::tokens(v.chunks[i].text),
                    128,
                )
        },
{
    if r is Ok {
        let v = r->Ok_0@;
        let list = source_views(files@);
        assert(list.len() == files@.len());
        let scope = Scope { root, extensions, excludes };
        let at = choose|at: Seq<usize>|
            {
                &&& #[trigger] files::is_selection(&scope, source_paths(list), at)
                &&& is_index_of(
                    files_at(list, at),
                    lines_per_chunk as int,
                    overlap as int,
                    *mean,
                    v,
                )
            };
        lemma_made_of(&scope, list, at, lines_per_chunk as int, overlap as int, *mean, v);
        law_index_is_made_of_its_chunks(
            files_at(list, at),
            lines_per_chunk as int,
            overlap as int,
            *mean,
            v,
        );
        if bm25::distinct_ids(v.chunks) {
            assert forall|i: int| #![trigger v.chunks[i]] 0 <= i < v.chunks.len() implies {
                v.minhash.contains_key(v.chunks[i].id) && v.minhash[v.chunks[i].id]
                    == minhash::signature(text::tokens(v.chunks[i].text), 128)
            } by {
                law_signature_is_of_the_text(v.chunks, i);
            }
        }
    }
}

/// Without patterns nothing is left out for its name or path.
pub proof fn law_directory_without_patterns_is_indexed<F: Fn(u128, u32) -> Single>(
    root: &str,
    root_is_dir: bool,
    files: &Vec<SourceFile>,
    extensions: &Vec<String>,
    lines_per_chunk: usize,
    overlap: usize,
    mean: &F,
    r: Result<IndexStore, RpgrepError>,
)
    requires
        call_ensures(
            IndexStore::from_dir::<F>,
            (root, root_is_dir, files, extensions, lines_per_chunk, overlap, mean),
            r,
        ),
        files@.len() <= usize::MAX,
    ensures
        r is Ok <==> root_is_dir,
        r is Ok ==> exists|excludes: Vec<String>, at: Seq<usize>, starts: Seq<int>|
            excludes@.len() == 0 && #[trigger] is_made_of(
                &(Scope { root, extensions, excludes: &excludes }),
                source_views(files@),
                lines_per_chunk as int,
                overlap as int,
                r->Ok_0@,
                at,
                starts,
            ),
{
    if r is Ok {
        let v = r->Ok_0@;
        let list = source_views(files@);
        assert(list.len() == files@.len());
        let (excludes, at) = choose|excludes: Vec<String>, at: Seq<usize>|
            {
                &&& excludes@.len() == 0
                &&& #[trigger] files::is_selection(
                    &(Scope { root, extensions, excludes: &excludes }),
                    source_paths(list),
                    at,
                )
                &&& is_index_of(
                    files_at(list, at),
                    lines_per_chunk as int,
                    overlap as int,
                    *mean,
                    v,
                )
            };
        let scope = Scope { root, extensions, excludes: &excludes };
        lemma_made_of(&scope, list, at, lines_per_chunk as int, overlap as int, *mean, v);
    }
}

} // verus!
