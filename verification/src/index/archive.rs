use crate::chunk;
use crate::chunk::Chunk;
use crate::index::bloom;
use crate::index::bloom::{ArchivableXor8, StoredFilter};
use crate::index::bm25;
use crate::index::bm25::{keys_of, Bm25Index};
use crate::index::frame;
use crate::index::frame::{find_section, Section};
use crate::index::minhash::MinHash;
use crate::index::store;
use crate::index::store::Payload;
use crate::path;
use crate::path::text_order;
use crate::single::Single;
use crate::text;
use crate::PersistError;
use std::collections::HashMap;
use vstd::prelude::*;
use vstd::slice::slice_subrange;
use vstd::utf8;

verus! {

/// What an archive holds: an index without an order among its files.
#[verifier::ext_equal]
pub struct ArchiveView {
    pub chunks: Seq<chunk::ChunkView>,
    pub filters: Map<Seq<char>, bloom::FilterView>,
    pub bm25: bm25::Bm25View,
    pub minhash: Map<u64, Seq<u64>>,
}

/// The filters by their paths.
pub open spec fn by_path(entries: Seq<bloom::EntryView>) -> Map<Seq<char>, bloom::FilterView> {
    Map::new(
        |path: Seq<char>| bloom::has_path(entries, path),
        |path: Seq<char>| entries[choose|at: int| bloom::entry_at(entries, path, at)].1,
    )
}

/// What the archive of an index holds.
pub open spec fn archive_of(v: store::StoreView) -> ArchiveView {
    ArchiveView {
        chunks: v.chunks,
        filters: by_path(v.filters),
        bm25: v.bm25,
        minhash: v.minhash,
    }
}

/// The longest string, in bytes, that an archive can hold.
pub const LONGEST_STRING: usize = 0x3FFF_FFFF;

/// The longest archive: offsets within it take 32 bits with their sign.
pub const LONGEST_ARCHIVE: u64 = 0x7FFF_FFFF;

/// How many bytes `s` takes.
pub open spec fn byte_len(s: Seq<char>) -> nat {
    utf8::encode_utf8(s).len()
}

/// The texts and lines of a chunk fit into an archive, which counts lines in 32
/// bits.
pub open spec fn chunk_fits(c: chunk::ChunkView) -> bool {
    &&& byte_len(c.file) <= LONGEST_STRING
    &&& byte_len(c.text) <= LONGEST_STRING
    &&& c.start_line <= u32::MAX
    &&& c.end_line <= u32::MAX
}

/// At most this many bytes of the archive are taken by the chunks: 32 for each,
/// and its texts.
pub open spec fn chunks_len(list: Seq<chunk::ChunkView>) -> nat
    decreases list.len(),
{
    if list.len() == 0 {
        0
    } else {
        chunks_len(list.drop_last()) + 32 + byte_len(list.last().file) + byte_len(list.last().text)
    }
}

/// At most this many bytes of the archive are taken by the filters: an entry of
/// 32, with room for one more in every seven and a control byte each, the path
/// and the fingerprints.
pub open spec fn filters_len(list: Seq<bloom::EntryView>) -> nat
    decreases list.len(),
{
    if list.len() == 0 {
        0
    } else {
        filters_len(list.drop_last()) + 40 + byte_len(list.last().0)
            + list.last().1.fingerprints.len()
    }
}

/// The sum of what `len` makes of the values.
pub open spec fn sum_of<V>(m: Map<u64, V>, len: spec_fn(V) -> nat) -> nat
    decreases m.dom().len(),
    when m.dom().finite()
{
    if m.dom().len() == 0 {
        0
    } else {
        let k = m.dom().choose();
        len(m[k]) + sum_of(m.remove(k), len)
    }
}

/// At most this many bytes of the archive are taken by the frequencies of a
/// chunk: 20 for each token, entries of 16 with the room between them, and 96 for
/// the table and its own entry.
pub open spec fn frequencies_len() -> spec_fn(Map<u64, u32>) -> nat {
    |m: Map<u64, u32>| (96 + 20 * m.dom().len()) as nat
}

/// At most this many bytes of the archive are taken by a signature.
pub open spec fn signature_len() -> spec_fn(Seq<u64>) -> nat {
    |s: Seq<u64>| (32 + 8 * s.len()) as nat
}

/// The archive of an index is no longer than this.
pub open spec fn archive_len(v: store::StoreView) -> nat {
    1024 + chunks_len(v.chunks) + filters_len(v.filters) + sum_of(
        v.bm25.term_freq,
        frequencies_len(),
    ) + 20 * v.bm25.doc_freq.dom().len() + 20 * v.bm25.doc_len.dom().len() + sum_of(
        v.minhash,
        signature_len(),
    )
}

/// An archive can hold the index.
pub open spec fn is_archivable(v: store::StoreView) -> bool {
    &&& forall|i: int| 0 <= i < v.chunks.len() ==> chunk_fits(#[trigger] v.chunks[i])
    &&& forall|i: int|
        0 <= i < v.filters.len() ==> byte_len((#[trigger] v.filters[i]).0) <= LONGEST_STRING
    &&& archive_len(v) <= LONGEST_ARCHIVE
}

/// The statistics for ranking as they are written into an archive: term
/// frequencies, document frequencies, lengths, the bits of the mean length, and
/// the number of chunks.
type Counts = (HashMap<u64, HashMap<u64, u32>>, HashMap<u64, u32>, HashMap<u64, u32>, u32, u32);

/// What is written into an archive: the chunks, the filters by path, the
/// statistics for ranking, and the signatures.
type Parts = (
    Vec<(u64, String, usize, usize, String)>,
    HashMap<String, (u64, u64, Vec<u8>)>,
    Counts,
    HashMap<u64, Vec<u64>>,
);

/// The parts of an index: the chunks, the filters, the statistics for ranking, and
/// the signatures.
type Pieces = (Vec<Chunk>, Vec<StoredFilter>, Counts, HashMap<u64, MinHash>);

/// What the parts of an index hold.
spec fn pieces_view(t: Pieces) -> store::StoreView {
    store::StoreView {
        chunks: chunk::views(t.0@),
        filters: bloom::stored_views(t.1@),
        bm25: bm25::Bm25View {
            term_freq: t.2.0@.map_values(|m: HashMap<u64, u32>| m@),
            doc_freq: t.2.1@,
            doc_len: t.2.2@,
            avg_doc_len: Single { bits: t.2.3 },
            n_docs: t.2.4,
        },
        minhash: t.3@.map_values(|m: MinHash| m@),
    }
}

/// What `rkyv::from_bytes` makes of `bytes`; nothing where they are not an
/// archive of an index.
pub uninterp spec fn decoded(bytes: Seq<u8>) -> Option<ArchiveView>;

/// `rkyv::to_bytes` on the parts of an index: writes the archive, from which
/// `rkyv::from_bytes` reads the same parts again. The order of the bytes goes by
/// the walk of the maps and is left open. An index whose archive would be too long
/// for the offsets in it, or with a text or a line that is too long, is not taken.
#[verifier::external_body]
fn encode(t: Pieces) -> (r: Result<Vec<u8>, String>)
    requires
        bloom::distinct_paths(pieces_view(t).filters),
        is_archivable(pieces_view(t)),
    ensures
        r is Ok,
        decoded(r->Ok_0@) == Some(archive_of(pieces_view(t))),
        r->Ok_0@.len() <= LONGEST_ARCHIVE,
{
    let (chunks, filters, counts, minhash) = t;
    let parts: Parts = (
        chunks.into_iter().map(|c| (c.id, c.file, c.start_line, c.end_line, c.text)).collect(),
        filters.into_iter().map(|e| (e.path, e.filter)).map(|(path, f)| {
            (path, (f.seed, f.block_length, f.fingerprints))
        }).collect(),
        counts,
        minhash.into_iter().map(|(id, m)| (id, m.sig)).collect(),
    );
    rkyv::to_bytes::<rkyv::rancor::Error>(&parts).map(|b| b.to_vec()).map_err(|e| e.to_string())
}

/// `rkyv::from_bytes` on a copy of the bytes that is aligned as it asks: checks
/// that they are an archive of the parts of an index and reads these. The filters
/// come in whatever order the map is walked; the message of an error is left open,
/// since it may name addresses.
#[verifier::external_body]
fn decode(bytes: &[u8]) -> (r: Result<Pieces, String>)
    ensures
        match r {
            Ok(t) => {
                &&& bloom::distinct_paths(pieces_view(t).filters)
                &&& decoded(bytes@) == Some(archive_of(pieces_view(t)))
            },
            Err(_) => decoded(bytes@) is None,
        },
{
    let mut aligned = rkyv::util::AlignedVec::<16>::new();
    aligned.extend_from_slice(bytes);
    let r = rkyv::from_bytes::<Parts, rkyv::rancor::Error>(&aligned).map_err(|e| e.to_string());
    r.map(|(chunks, filters, counts, minhash)| (
        chunks.into_iter().map(|(id, file, start_line, end_line, text)| {
            Chunk { id, file, start_line, end_line, text }
        }).collect(),
        filters.into_iter().map(|(path, (seed, block_length, fingerprints))| {
            StoredFilter { path, filter: ArchivableXor8 { seed, block_length, fingerprints } }
        }).collect(),
        counts,
        minhash.into_iter().map(|(id, sig)| (id, MinHash { sig })).collect(),
    ))
}

/// `n`, or one more than the longest archive where it is beyond that.
spec fn capped(n: int) -> int {
    if n <= LONGEST_ARCHIVE {
        n
    } else {
        LONGEST_ARCHIVE + 1
    }
}

/// Adds `more` bytes to a length that is capped.
fn lengthen(sum: u64, more: u128) -> (r: u64)
    requires
        sum <= LONGEST_ARCHIVE + 1,
    ensures
        r == capped(sum + more),
        r <= LONGEST_ARCHIVE + 1,
{
    if more > LONGEST_ARCHIVE as u128 {
        return LONGEST_ARCHIVE + 1;
    }
    let n: u64 = sum + more as u64;
    if n > LONGEST_ARCHIVE {
        LONGEST_ARCHIVE + 1
    } else {
        n
    }
}

/// How many bytes `s` takes.
fn bytes_in(s: &String) -> (r: usize)
    ensures
        r == byte_len(s@),
{
    s.as_str().as_bytes().len()
}

/// The length that the chunks take at most, capped; `None` where one does not fit.
fn measure_chunks(list: &Vec<Chunk>) -> (r: Option<u64>)
    ensures
        match r {
            Some(n) => {
                &&& n == capped(chunks_len(chunk::views(list@)) as int)
                &&& forall|i: int|
                    0 <= i < list@.len() ==> chunk_fits(#[trigger] chunk::views(list@)[i])
            },
            None => exists|i: int|
                0 <= i < list@.len() && !chunk_fits(#[trigger] chunk::views(list@)[i]),
        },
{
    let ghost all = chunk::views(list@);
    let mut sum: u64 = 0;
    let mut i: usize = 0;
    while i < list.len()
        invariant
            i <= list.len(),
            all == chunk::views(list@),
            sum == capped(chunks_len(all.take(i as int)) as int),
            sum <= LONGEST_ARCHIVE + 1,
            forall|k: int| 0 <= k < i ==> chunk_fits(#[trigger] all[k]),
        decreases list.len() - i,
    {
        let c: &Chunk = &list[i];
        assert(all[i as int] == c@);
        let file: usize = bytes_in(&c.file);
        let text: usize = bytes_in(&c.text);
        if file > LONGEST_STRING || text > LONGEST_STRING || c.start_line as u64 > u32::MAX as u64
            || c.end_line as u64 > u32::MAX as u64 {
            assert(!chunk_fits(all[i as int]));
            return None;
        }
        assert(all.take(i + 1).drop_last() =~= all.take(i as int));
        sum = lengthen(sum, 32 + file as u128 + text as u128);
        i = i + 1;
    }
    assert(all.take(all.len() as int) =~= all);
    Some(sum)
}

/// The length that the filters take at most, capped; `None` where the path of one
/// is too long.
fn measure_filters(list: &Vec<StoredFilter>) -> (r: Option<u64>)
    ensures
        match r {
            Some(n) => {
                &&& n == capped(filters_len(bloom::stored_views(list@)) as int)
                &&& forall|i: int|
                    0 <= i < list@.len() ==> byte_len(
                        (#[trigger] bloom::stored_views(list@)[i]).0,
                    ) <= LONGEST_STRING
            },
            None => exists|i: int|
                0 <= i < list@.len() && byte_len((#[trigger] bloom::stored_views(list@)[i]).0)
                    > LONGEST_STRING,
        },
{
    let ghost all = bloom::stored_views(list@);
    let mut sum: u64 = 0;
    let mut i: usize = 0;
    while i < list.len()
        invariant
            i <= list.len(),
            all == bloom::stored_views(list@),
            sum == capped(filters_len(all.take(i as int)) as int),
            sum <= LONGEST_ARCHIVE + 1,
            forall|k: int| 0 <= k < i ==> byte_len((#[trigger] all[k]).0) <= LONGEST_STRING,
        decreases list.len() - i,
    {
        let e: &StoredFilter = &list[i];
        assert(all[i as int] == e@);
        let path: usize = bytes_in(&e.path);
        if path > LONGEST_STRING {
            assert(byte_len(all[i as int].0) > LONGEST_STRING);
            return None;
        }
        assert(all.take(i + 1).drop_last() =~= all.take(i as int));
        sum = lengthen(sum, 40 + path as u128 + e.filter.fingerprints.len() as u128);
        i = i + 1;
    }
    assert(all.take(all.len() as int) =~= all);
    Some(sum)
}

/// Any key may be taken out of the sum first.
proof fn lemma_sum_remove<V>(m: Map<u64, V>, len: spec_fn(V) -> nat, k: u64)
    requires
        m.dom().finite(),
        m.contains_key(k),
    ensures
        sum_of(m, len) == len(m[k]) + sum_of(m.remove(k), len),
    decreases m.dom().len(),
{
    let c = m.dom().choose();
    assert(m.dom().contains(c));
    assert(m.remove(c).dom() =~= m.dom().remove(c));
    assert(m.remove(k).dom() =~= m.dom().remove(k));
    if c != k {
        lemma_sum_remove(m.remove(c), len, k);
        lemma_sum_remove(m.remove(k), len, c);
        assert(m.remove(c).remove(k) =~= m.remove(k).remove(c));
    }
}

/// The map without the first `n` of `keys`.
spec fn without<V>(m: Map<u64, V>, keys: Seq<u64>, n: int) -> Map<u64, V> {
    m.remove_keys(keys.take(n).to_set())
}

/// Taking out one more key takes its part off the sum.
proof fn lemma_without<V>(m: Map<u64, V>, len: spec_fn(V) -> nat, keys: Seq<u64>, n: int)
    requires
        m.dom().finite(),
        keys.no_duplicates(),
        keys.to_set() == m.dom(),
        0 <= n < keys.len(),
    ensures
        m.contains_key(keys[n]),
        sum_of(without(m, keys, n), len) == len(m[keys[n]]) + sum_of(
            without(m, keys, n + 1),
            len,
        ),
{
    let k = keys[n];
    let rest = without(m, keys, n);
    assert(keys.to_set().contains(k));
    assert(!keys.take(n).contains(k));
    assert(rest.dom().subset_of(m.dom()));
    vstd::set_lib::lemma_len_subset(rest.dom(), m.dom());
    assert(keys.take(n + 1) =~= keys.take(n).push(k));
    assert(rest.remove(k) =~= without(m, keys, n + 1)) by {
        assert forall|t: u64| rest.remove(k).contains_key(t) <==> without(
            m,
            keys,
            n + 1,
        ).contains_key(t) by {
            vstd::seq_lib::lemma_seq_contains_after_push(keys.take(n), k, t);
        }
    }
    lemma_sum_remove(rest, len, k);
}

/// All keys taken out leave nothing, and none leave everything.
proof fn lemma_without_ends<V>(m: Map<u64, V>, len: spec_fn(V) -> nat, keys: Seq<u64>)
    requires
        m.dom().finite(),
        keys.to_set() == m.dom(),
    ensures
        without(m, keys, 0) == m,
        sum_of(without(m, keys, keys.len() as int), len) == 0,
{
    assert(keys.take(0).to_set() =~= Set::empty());
    assert(without(m, keys, 0) =~= m);
    assert(keys.take(keys.len() as int) =~= keys);
    assert(without(m, keys, keys.len() as int).dom() =~= Set::empty());
}

/// The length that the frequencies of all chunks take at most, capped.
fn measure_frequencies(m: &HashMap<u64, HashMap<u64, u32>>) -> (r: u64)
    ensures
        r == capped(
            sum_of(m@.map_values(|t: HashMap<u64, u32>| t@), frequencies_len()) as int,
        ),
        r <= LONGEST_ARCHIVE + 1,
{
    broadcast use vstd::std_specs::hash::group_hash_axioms;

    let ghost all = m@.map_values(|t: HashMap<u64, u32>| t@);
    let ghost len = frequencies_len();
    let keys: Vec<u64> = keys_of(m);
    let mut sum: u64 = 0;
    let mut i: usize = 0;
    proof {
        assert(all.dom() =~= m@.dom());
        assert(all.dom().finite());
        lemma_without_ends(all, len, keys@);
    }
    while i < keys.len()
        invariant
            i <= keys.len(),
            all == m@.map_values(|t: HashMap<u64, u32>| t@),
            all.dom() == m@.dom(),
            all.dom().finite(),
            len == frequencies_len(),
            keys@.no_duplicates(),
            keys@.to_set() == all.dom(),
            sum <= LONGEST_ARCHIVE + 1,
            capped(sum + sum_of(without(all, keys@, i as int), len)) == capped(
                sum_of(all, len) as int,
            ),
        decreases keys.len() - i,
    {
        let k: u64 = keys[i];
        proof {
            lemma_without(all, len, keys@, i as int);
        }
        let n: usize = match m.get(&k) {
            Some(t) => t.len(),
            None => 0,
        };
        assert(n == all[k].dom().len());
        sum = lengthen(sum, 96 + 20 * (n as u128));
        i = i + 1;
    }
    proof {
        lemma_without_ends(all, len, keys@);
    }
    sum
}

/// The length that all signatures take at most, capped.
fn measure_signatures(m: &HashMap<u64, MinHash>) -> (r: u64)
    ensures
        r == capped(sum_of(m@.map_values(|s: MinHash| s@), signature_len()) as int),
        r <= LONGEST_ARCHIVE + 1,
{
    broadcast use vstd::std_specs::hash::group_hash_axioms;

    let ghost all = m@.map_values(|s: MinHash| s@);
    let ghost len = signature_len();
    let keys: Vec<u64> = keys_of(m);
    let mut sum: u64 = 0;
    let mut i: usize = 0;
    proof {
        assert(all.dom() =~= m@.dom());
        assert(all.dom().finite());
        lemma_without_ends(all, len, keys@);
    }
    while i < keys.len()
        invariant
            i <= keys.len(),
            all == m@.map_values(|s: MinHash| s@),
            all.dom() == m@.dom(),
            all.dom().finite(),
            len == signature_len(),
            keys@.no_duplicates(),
            keys@.to_set() == all.dom(),
            sum <= LONGEST_ARCHIVE + 1,
            capped(sum + sum_of(without(all, keys@, i as int), len)) == capped(
                sum_of(all, len) as int,
            ),
        decreases keys.len() - i,
    {
        let k: u64 = keys[i];
        proof {
            lemma_without(all, len, keys@, i as int);
        }
        let n: usize = match m.get(&k) {
            Some(s) => s.sig.len(),
            None => 0,
        };
        assert(n == all[k].len());
        sum = lengthen(sum, 32 + 8 * (n as u128));
        i = i + 1;
    }
    proof {
        lemma_without_ends(all, len, keys@);
    }
    sum
}

/// Whether an archive can hold the index.
pub fn can_archive(p: &Payload) -> (r: bool)
    ensures
        r == is_archivable(p@),
{
    broadcast use vstd::std_specs::hash::group_hash_axioms;

    let chunks: u64 = match measure_chunks(&p.chunks) {
        Some(n) => n,
        None => {
            return false;
        },
    };
    let filters: u64 = match measure_filters(&p.bloom_filters) {
        Some(n) => n,
        None => {
            return false;
        },
    };
    let frequencies: u64 = measure_frequencies(&p.bm25.term_freq);
    let signatures: u64 = measure_signatures(&p.minhash);
    let counts: u128 = 20 * (p.bm25.doc_freq.len() as u128) + 20 * (p.bm25.doc_len.len() as u128);
    let mut sum: u64 = lengthen(1024, counts);
    sum = lengthen(sum, chunks as u128);
    sum = lengthen(sum, filters as u128);
    sum = lengthen(sum, frequencies as u128);
    sum = lengthen(sum, signatures as u128);
    sum <= LONGEST_ARCHIVE
}

/// The entries stand in the dictionary order of their paths, each path once.
pub open spec fn in_path_order(entries: Seq<bloom::EntryView>) -> bool {
    forall|i: int, j: int|
        #![trigger entries[i], entries[j]]
        0 <= i < j < entries.len() ==> path::smaller(
            path::codes(entries[i].0),
            path::codes(entries[j].0),
        )
}

/// A copy of a stored filter.
fn copy_filter(e: &StoredFilter) -> (r: StoredFilter)
    ensures
        r@ == e@,
{
    let mut fingerprints: Vec<u8> = Vec::new();
    let mut i: usize = 0;
    while i < e.filter.fingerprints.len()
        invariant
            i <= e.filter.fingerprints.len(),
            fingerprints@ == e.filter.fingerprints@.take(i as int),
        decreases e.filter.fingerprints.len() - i,
    {
        fingerprints.push(e.filter.fingerprints[i]);
        i = i + 1;
        assert(fingerprints@ =~= e.filter.fingerprints@.take(i as int));
    }
    assert(fingerprints@ =~= e.filter.fingerprints@);
    StoredFilter {
        path: e.path.clone(),
        filter: ArchivableXor8 {
            seed: e.filter.seed,
            block_length: e.filter.block_length,
            fingerprints,
        },
    }
}

/// A character is known by its code.
proof fn lemma_code(c: char, d: char)
    requires
        c as u32 == d as u32,
    ensures
        c == d,
{
}

/// Different texts have different codes.
proof fn lemma_codes_differ(a: Seq<char>, b: Seq<char>)
    requires
        a != b,
    ensures
        path::codes(a) != path::codes(b),
{
    if path::codes(a) == path::codes(b) {
        assert(a.len() == path::codes(a).len());
        assert(b.len() == path::codes(b).len());
        assert forall|i: int| 0 <= i < a.len() implies a[i] == b[i] by {
            assert(path::codes(a)[i] == a[i] as u32);
            assert(path::codes(b)[i] == b[i] as u32);
            lemma_code(a[i], b[i]);
        }
        assert(a =~= b);
    }
}

/// By the path of an entry its filter is found.
pub proof fn lemma_by_path(entries: Seq<bloom::EntryView>, at: int)
    requires
        bloom::distinct_paths(entries),
        0 <= at < entries.len(),
    ensures
        by_path(entries).contains_key(entries[at].0),
        by_path(entries)[entries[at].0] == entries[at].1,
{
    let p = entries[at].0;
    assert(bloom::entry_at(entries, p, at));
    let k = choose|k: int| bloom::entry_at(entries, p, k);
    assert(entries[k].0 == entries[at].0);
    assert(k == at);
}

/// The filters in the dictionary order of their paths.
fn sorted(list: &Vec<StoredFilter>) -> (r: Vec<StoredFilter>)
    requires
        bloom::distinct_paths(bloom::stored_views(list@)),
    ensures
        in_path_order(bloom::stored_views(r@)),
        bloom::distinct_paths(bloom::stored_views(r@)),
        by_path(bloom::stored_views(r@)) == by_path(bloom::stored_views(list@)),
{
    let ghost all = bloom::stored_views(list@);
    let mut paths: Vec<String> = Vec::new();
    let mut i: usize = 0;
    while i < list.len()
        invariant
            i <= list.len(),
            paths.len() == i,
            forall|k: int| 0 <= k < i ==> #[trigger] paths@[k]@ == list@[k].path@,
        decreases list.len() - i,
    {
        paths.push(list[i].path.clone());
        i = i + 1;
    }
    let order: Vec<usize> = text_order(&paths);
    let ghost keys = path::all_codes(text::texts(paths@));
    let mut out: Vec<StoredFilter> = Vec::new();
    let mut k: usize = 0;
    while k < order.len()
        invariant
            k <= order.len(),
            out.len() == k,
            all == bloom::stored_views(list@),
            forall|j: int| 0 <= j < order@.len() ==> #[trigger] order@[j] < list@.len(),
            forall|j: int| 0 <= j < k ==> #[trigger] out@[j]@ == all[order@[j] as int],
        decreases order.len() - k,
    {
        let at: usize = order[k];
        assert(order@[k as int] < list@.len());
        out.push(copy_filter(&list[at]));
        k = k + 1;
    }
    proof {
        let r = bloom::stored_views(out@);
        assert forall|j: int| 0 <= j < r.len() implies #[trigger] r[j] == all[order@[j] as int] by {
            assert(r[j] == out@[j]@);
        }
        assert forall|j: int| 0 <= j < all.len() implies #[trigger] keys[j] == path::codes(
            all[j].0,
        ) by {
            assert(text::texts(paths@)[j] == paths@[j]@);
        }
        assert forall|a: int, b: int|
            #![trigger r[a], r[b]]
            0 <= a < b < r.len() implies r[a].0 != r[b].0 && path::smaller(
            path::codes(r[a].0),
            path::codes(r[b].0),
        ) by {
            let x = order@[a] as int;
            let y = order@[b] as int;
            assert(path::by_key(keys)(x, y));
            assert(x != y) by {
                if x == y {
                    path::lemma_smaller_irreflexive(keys[x]);
                }
            }
            assert(all[x].0 != all[y].0) by {
                if x < y {
                    assert(all[x].0 != all[y].0);
                } else {
                    assert(all[y].0 != all[x].0);
                }
            }
            lemma_codes_differ(all[x].0, all[y].0);
            assert(keys[x] == path::codes(all[x].0));
            assert(keys[y] == path::codes(all[y].0));
        }
        assert forall|p: Seq<char>| by_path(r).contains_key(p) <==> by_path(all).contains_key(p) by {
            if bloom::has_path(r, p) {
                let j = choose|j: int| bloom::entry_at(r, p, j);
                assert(r[j] == all[order@[j] as int]);
                assert(bloom::entry_at(all, p, order@[j] as int));
            }
            if bloom::has_path(all, p) {
                let x = choose|x: int| bloom::entry_at(all, p, x);
                assert(order@.contains(x as usize));
                let j = choose|j: int| 0 <= j < order@.len() && order@[j] == x as usize;
                assert(r[j] == all[order@[j] as int]);
                assert(bloom::entry_at(r, p, j));
            }
        }
        assert forall|p: Seq<char>| #[trigger]
            by_path(r).contains_key(p) implies by_path(r)[p] == by_path(all)[p] by {
            let j = choose|j: int| bloom::entry_at(r, p, j);
            assert(r[j] == all[order@[j] as int]);
            lemma_by_path(r, j);
            lemma_by_path(all, order@[j] as int);
        }
        assert(by_path(r) =~= by_path(all));
    }
    out
}

/// This machine can count the places of every filter.
pub open spec fn is_countable(a: ArchiveView) -> bool {
    forall|path: Seq<char>| #[trigger]
        a.filters.contains_key(path) ==> a.filters[path].block_length <= usize::MAX
}

/// Filters by path can be counted where the entries can.
pub proof fn lemma_countable(entries: Seq<bloom::EntryView>)
    requires
        bloom::distinct_paths(entries),
        bloom::all_countable(entries),
    ensures
        forall|path: Seq<char>| #[trigger]
            by_path(entries).contains_key(path) ==> by_path(entries)[path].block_length
                <= usize::MAX,
{
    assert forall|path: Seq<char>| #[trigger] by_path(entries).contains_key(path) implies by_path(
        entries,
    )[path].block_length <= usize::MAX by {
        let at = choose|at: int| bloom::entry_at(entries, path, at);
        lemma_by_path(entries, at);
    }
}

/// The part of an index file that holds the archive.
pub open spec fn archive_part(file: Seq<u8>, s: Section) -> Seq<u8> {
    file.subrange(s.offset as int, s.offset + s.len)
}

/// What the index in a file holds; nothing where the file is no index.
pub open spec fn stored_in(file: Seq<u8>) -> Option<ArchiveView> {
    match frame::section_of(file) {
        Ok(s) => decoded(archive_part(file, s)),
        Err(_) => None,
    }
}

/// `stage` and what went wrong there.
fn message(stage: &str, why: String) -> (r: String)
    ensures
        r@ == stage@ + why@,
{
    let mut msg: String = String::new();
    msg.append(stage);
    msg.append(why.as_str());
    assert(msg@ =~= stage@ + why@);
    msg
}

/// The bytes of an index file with the given index. An index that no archive can
/// hold is an error.
pub fn to_file_bytes(p: Payload) -> (r: Result<Vec<u8>, PersistError>)
    requires
        bloom::distinct_paths(p@.filters),
    ensures
        match r {
            Ok(file) => {
                &&& is_archivable(p@)
                &&& stored_in(file@) == Some(archive_of(p@))
                &&& exists|archive: Seq<u8>| file@ == #[trigger] frame::framed(archive)
            },
            Err(e) => !is_archivable(p@) && e is Codec,
        },
{
    if !can_archive(&p) {
        return Err(PersistError::Codec("rkyv serialize: índice demasiado grande".to_owned()));
    }
    let b: Bm25Index = p.bm25;
    let counts: Counts = (b.term_freq, b.doc_freq, b.doc_len, b.avg_doc_len.bits, b.n_docs);
    let t: Pieces = (p.chunks, p.bloom_filters, counts, p.minhash);
    assert(pieces_view(t) =~= p@);
    match encode(t) {
        Ok(archive) => {
            let file: Vec<u8> = frame::frame(archive.as_slice());
            proof {
                frame::law_frame_round_trip(archive@, Seq::empty());
                assert(frame::framed(archive@) + Seq::<u8>::empty() =~= frame::framed(archive@));
            }
            Ok(file)
        },
        Err(why) => Err(PersistError::Codec(message("rkyv serialize: ", why))),
    }
}

/// The index in a file, its filters in the order of their paths. A file that is
/// not framed as an index, or whose archive cannot be read, is an error; the
/// message of the latter starts with `stage`.
pub fn from_file_bytes(file: &[u8], stage: &str) -> (r: Result<Payload, PersistError>)
    ensures
        match r {
            Ok(p) => {
                &&& stored_in(file@) == Some(archive_of(p@))
                &&& bloom::distinct_paths(p@.filters)
                &&& in_path_order(p@.filters)
            },
            Err(PersistError::Frame(e)) => frame::section_of(file@) == Err::<Section, _>(e),
            Err(PersistError::Codec(msg)) => {
                &&& frame::section_of(file@) is Ok
                &&& stored_in(file@) is None
                &&& stage@.is_prefix_of(msg@)
            },
        },
{
    let s: Section = match find_section(file) {
        Ok(s) => s,
        Err(e) => {
            return Err(PersistError::Frame(e));
        },
    };
    let len: usize = file.len();
    assert(s.offset + s.len <= len);
    match decode(slice_subrange(file, s.offset, s.offset + s.len)) {
        Ok(t) => {
            let ghost held = archive_of(pieces_view(t));
            let (chunks, filters, (term_freq, doc_freq, doc_len, bits, n_docs), minhash) = t;
            let avg_doc_len = Single { bits };
            let r = Payload {
                chunks,
                bloom_filters: sorted(&filters),
                bm25: Bm25Index { term_freq, doc_freq, doc_len, avg_doc_len, n_docs },
                minhash,
            };
            assert(archive_of(r@) =~= held);
            Ok(r)
        },
        Err(why) => Err(PersistError::Codec(message(stage, why))),
    }
}

/// Entries with the same filters by path are the same entries.
pub proof fn lemma_same_entries(
    a: Seq<bloom::EntryView>,
    b: Seq<bloom::EntryView>,
    e: bloom::EntryView,
)
    requires
        bloom::distinct_paths(a),
        bloom::distinct_paths(b),
        by_path(a) == by_path(b),
        a.contains(e),
    ensures
        b.contains(e),
{
    let i = choose|i: int| 0 <= i < a.len() && a[i] == e;
    lemma_by_path(a, i);
    assert(by_path(b).contains_key(e.0));
    let j = choose|j: int| bloom::entry_at(b, e.0, j);
    lemma_by_path(b, j);
    assert(b[j] == e);
}

/// What was written is read back: whatever is read from the file of an index has
/// its chunks in order, its statistics, its signatures, and the same filters.
pub proof fn law_written_index_is_read_back(
    file: Seq<u8>,
    written: store::StoreView,
    read: store::StoreView,
)
    requires
        bloom::distinct_paths(written.filters),
        bloom::distinct_paths(read.filters),
        stored_in(file) == Some(archive_of(written)),
        stored_in(file) == Some(archive_of(read)),
    ensures
        read.chunks == written.chunks,
        read.bm25 == written.bm25,
        read.minhash == written.minhash,
        forall|e: bloom::EntryView| #[trigger]
            read.filters.contains(e) <==> written.filters.contains(e),
{
    assert forall|e: bloom::EntryView| #[trigger]
        read.filters.contains(e) <==> written.filters.contains(e) by {
        if read.filters.contains(e) {
            lemma_same_entries(read.filters, written.filters, e);
        }
        if written.filters.contains(e) {
            lemma_same_entries(written.filters, read.filters, e);
        }
    }
}

/// Sorted lists with the same filters by path begin alike.
proof fn lemma_sorted_agree(a: Seq<bloom::EntryView>, b: Seq<bloom::EntryView>, k: int)
    requires
        bloom::distinct_paths(a),
        bloom::distinct_paths(b),
        in_path_order(a),
        in_path_order(b),
        by_path(a) == by_path(b),
        0 <= k <= a.len(),
    ensures
        k <= b.len(),
        a.take(k) == b.take(k),
    decreases k,
{
    if k > 0 {
        lemma_sorted_agree(a, b, k - 1);
        let n = k - 1;
        assert(a.contains(a[n]));
        lemma_same_entries(a, b, a[n]);
        let j = choose|j: int| 0 <= j < b.len() && b[j] == a[n];
        assert(j >= n) by {
            if j < n {
                assert(a.take(n)[j] == b.take(n)[j]);
                assert(a[j].0 != a[n].0);
            }
        }
        if j > n {
            assert(b.contains(b[n]));
            lemma_same_entries(b, a, b[n]);
            let i = choose|i: int| 0 <= i < a.len() && a[i] == b[n];
            assert(i > n) by {
                if i < n {
                    assert(a.take(n)[i] == b.take(n)[i]);
                    assert(b[i].0 != b[n].0);
                }
                if i == n {
                    assert(b[n].0 != b[j].0);
                }
            }
            assert(path::smaller(path::codes(a[n].0), path::codes(a[i].0)));
            assert(path::smaller(path::codes(b[n].0), path::codes(b[j].0)));
            path::lemma_smaller_transitive(
                path::codes(a[n].0),
                path::codes(a[i].0),
                path::codes(a[n].0),
            );
            path::lemma_smaller_irreflexive(path::codes(a[n].0));
        }
        assert(a.take(k) =~= b.take(k)) by {
            assert(a.take(k) =~= a.take(n).push(a[n]));
            assert(b.take(k) =~= b.take(n).push(b[n]));
        }
    }
}

/// A file holds one index: reading it again gives the same, filters in the same
/// order included.
pub proof fn law_one_file_one_index(file: Seq<u8>, a: store::StoreView, b: store::StoreView)
    requires
        bloom::distinct_paths(a.filters),
        bloom::distinct_paths(b.filters),
        in_path_order(a.filters),
        in_path_order(b.filters),
        stored_in(file) == Some(archive_of(a)),
        stored_in(file) == Some(archive_of(b)),
    ensures
        a == b,
{
    let m = a.filters.len() as int;
    let n = b.filters.len() as int;
    lemma_sorted_agree(a.filters, b.filters, m);
    lemma_sorted_agree(b.filters, a.filters, n);
    assert(a.filters =~= a.filters.take(m));
    assert(b.filters =~= b.filters.take(n));
    assert(a =~= b);
}

/// Filters that are read come in the dictionary order of their paths.
pub proof fn law_filters_come_in_dictionary_order(entries: Seq<bloom::EntryView>, i: int, j: int)
    requires
        in_path_order(entries),
        0 <= i < j < entries.len(),
    ensures
        exists|m: int| path::spelled_before(entries[i].0, entries[j].0, m),
{
    let a = entries[i].0;
    let b = entries[j].0;
    let x = path::codes(a);
    let y = path::codes(b);
    assert(path::smaller(x, y));
    let m = choose|m: int| path::smaller_at(x, y, m);
    assert forall|k: int| 0 <= k < m implies #[trigger] a[k] == b[k] by {
        assert(x.take(m)[k] == y.take(m)[k]);
        assert(x[k] == a[k] as u32);
        assert(y[k] == b[k] as u32);
        lemma_code(a[k], b[k]);
    }
    if m < a.len() {
        lemma_code_order(a[m], b[m]);
        assert(x[m] == a[m] as u32);
        assert(y[m] == b[m] as u32);
    }
    assert(path::spelled_before(a, b, m));
}

/// Codes in 32 bits are ordered as characters are.
proof fn lemma_code_order(c: char, d: char)
    ensures
        (c as u32) < (d as u32) <==> (c as int) < (d as int),
{
}

/// What a file holds is what its archive does, whatever stands behind it; a file
/// that is no whole frame holds nothing.
pub proof fn law_file_holds_its_archive(archive: Seq<u8>, rest: Seq<u8>, file: Seq<u8>)
    requires
        archive.len() <= usize::MAX - frame::HEADER_LEN,
    ensures
        stored_in(frame::framed(archive) + rest) == decoded(archive),
        frame::section_of(file) is Err ==> stored_in(file) is None,
{
    frame::law_frame_round_trip(archive, rest);
}

/// What an archive can hold: files and texts of less than a gigabyte, lines that
/// 32 bits count, and what takes no more than two gigabytes together.
pub proof fn law_what_an_archive_can_hold(v: store::StoreView)
    ensures
        is_archivable(v) <==> {
            &&& forall|i: int|
                #![trigger v.chunks[i]]
                0 <= i < v.chunks.len() ==> utf8::encode_utf8(v.chunks[i].file).len() < 0x4000_0000
                    && utf8::encode_utf8(v.chunks[i].text).len() < 0x4000_0000
                    && v.chunks[i].start_line < 0x1_0000_0000 && v.chunks[i].end_line
                    < 0x1_0000_0000
            &&& forall|i: int|
                #![trigger v.filters[i]]
                0 <= i < v.filters.len() ==> utf8::encode_utf8(v.filters[i].0).len() < 0x4000_0000
            &&& archive_len(v) < 0x8000_0000
        },
{
    if is_archivable(v) {
        assert forall|i: int| #![trigger v.chunks[i]] 0 <= i < v.chunks.len() implies chunk_fits(
            v.chunks[i],
        ) by {}
    }
}

/// What an archive takes adds up: a chunk more takes 32 bytes and those of its
/// texts, a filter more 40 and those of its path and its fingerprints.
pub proof fn law_parts_of_an_archive_add_up(
    v: store::StoreView,
    c: chunk::ChunkView,
    e: bloom::EntryView,
)
    ensures
        archive_len(store::StoreView { chunks: v.chunks.push(c), ..v }) == archive_len(v) + 32
            + utf8::encode_utf8(c.file).len() + utf8::encode_utf8(c.text).len(),
        archive_len(store::StoreView { filters: v.filters.push(e), ..v }) == archive_len(v) + 40
            + utf8::encode_utf8(e.0).len() + e.1.fingerprints.len(),
{
    assert(v.chunks.push(c).drop_last() =~= v.chunks);
    assert(v.filters.push(e).drop_last() =~= v.filters);
}

/// What is written is read back: of the file of an index the reader gives the
/// chunks in order, the statistics, the signatures and the same filters, and no
/// error.
pub proof fn law_written_file_is_read_back(
    p: Payload,
    file: Vec<u8>,
    bytes: &[u8],
    stage: &str,
    r: Result<Payload, PersistError>,
)
    requires
        call_ensures(to_file_bytes, (p,), Ok(file)),
        call_ensures(from_file_bytes, (bytes, stage), r),
        bytes@ == file@,
        bloom::distinct_paths(p@.filters),
    ensures
        r is Ok,
        r->Ok_0@.chunks == p@.chunks,
        r->Ok_0@.bm25 == p@.bm25,
        r->Ok_0@.minhash == p@.minhash,
        forall|e: bloom::EntryView| #[trigger]
            r->Ok_0@.filters.contains(e) <==> p@.filters.contains(e),
{
    if r is Ok {
        law_written_index_is_read_back(file@, p@, r->Ok_0@);
    }
}

} // verus!
