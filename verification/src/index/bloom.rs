use crate::text;
use crate::text::unique_token_hashes;
use vstd::hash_map::StringHashMap;
use vstd::prelude::*;
use xorf::Filter;

verus! {

/// What a membership filter holds.
#[verifier::ext_equal]
pub struct FilterView {
    pub seed: u64,
    pub block_length: u64,
    pub fingerprints: Seq<u8>,
}

/// Finalization mix of the hash: spreads every bit of the key.
#[verifier::opaque]
pub open spec fn mixed(k: u64) -> u64 {
    let a = k ^ (k >> 33);
    let b = a.wrapping_mul(0xff51_afd7_ed55_8ccd);
    let c = b ^ (b >> 33);
    let d = c.wrapping_mul(0xc4ce_b9fe_1a85_ec53);
    d ^ (d >> 33)
}

/// `h` turned left by `n` bits, for `n` between 1 and 63.
#[verifier::opaque]
pub open spec fn turned(h: u64, n: u64) -> u64 {
    (h << n) | (h >> ((64 - n) as u64))
}

/// Maps the low half of `hash` to a number below `n`.
#[verifier::opaque]
pub open spec fn reduced(hash: u64, n: int) -> int {
    ((hash as u32) as int * n) / 0x1_0000_0000
}

impl FilterView {
    /// The hash of `key` in this filter.
    pub open spec fn hash(self, key: u64) -> u64 {
        mixed(key.wrapping_add(self.seed))
    }

    /// The place of `key` in block `b`, one of three.
    pub open spec fn place(self, key: u64, b: int) -> int {
        let h = self.hash(key);
        let n = self.block_length as int;
        if b == 0 {
            reduced(h, n)
        } else if b == 1 {
            reduced(turned(h, 21), n) + n
        } else {
            reduced(turned(h, 42), n) + 2 * n
        }
    }

    /// All places of `key` are within the fingerprints.
    pub open spec fn reaches(self, key: u64) -> bool {
        &&& self.block_length <= 0x1_0000_0001
        &&& self.place(key, 0) < self.fingerprints.len()
        &&& self.place(key, 1) < self.fingerprints.len()
        &&& self.place(key, 2) < self.fingerprints.len()
    }

    /// The filter answers that it holds `key`: the fingerprint of the key is
    /// the exclusive or of the three at its places.
    pub open spec fn member(self, key: u64) -> bool {
        let h = self.hash(key);
        (h ^ (h >> 32)) as u8 == self.fingerprints[self.place(key, 0)]
            ^ self.fingerprints[self.place(key, 1)] ^ self.fingerprints[self.place(key, 2)]
    }

    /// The furthest place that a key can have: that of the greatest hash in the
    /// last block.
    pub open spec fn furthest(self) -> int {
        reduced(u64::MAX, self.block_length as int) + 2 * self.block_length
    }

    /// Every key can be looked up: the furthest place is within the
    /// fingerprints.
    pub open spec fn sound(self) -> bool {
        &&& self.block_length <= 0x1_0000_0001
        &&& self.furthest() < self.fingerprints.len()
    }

    /// The filter answers yes for all of `keys`.
    pub open spec fn holds_all(self, keys: Seq<u64>) -> bool {
        forall|i: int| 0 <= i < keys.len() ==> self.member(#[trigger] keys[i])
    }
}

/// A reduced hash is below the length it was reduced to.
proof fn lemma_reduced(hash: u64, n: int)
    requires
        0 <= n,
    ensures
        0 <= reduced(hash, n),
        0 < n ==> reduced(hash, n) < n,
{
    reveal(reduced);
    let h = (hash as u32) as int;
    assert(0 <= h * n && (0 < n ==> h * n < 0x1_0000_0000 * n)) by (nonlinear_arith)
        requires
            0 <= h < 0x1_0000_0000,
            0 <= n,
    ;
    assert(0 < n ==> h * n / 0x1_0000_0000 < n) by (nonlinear_arith)
        requires
            0 <= h * n,
            0 < n ==> h * n < 0x1_0000_0000 * n,
    ;
}

/// No hash is reduced to more than the greatest one is.
proof fn lemma_reduced_most(hash: u64, n: int)
    requires
        0 <= n,
    ensures
        reduced(hash, n) <= reduced(u64::MAX, n),
{
    reveal(reduced);
    let h = (hash as u32) as int;
    let top = (u64::MAX as u32) as int;
    assert(u64::MAX as u32 == u32::MAX) by (bit_vector);
    assert(h * n <= top * n) by (nonlinear_arith)
        requires
            h <= top,
            0 <= n,
    ;
}

/// A sound filter can look up every key.
pub proof fn lemma_sound_reaches(f: FilterView, key: u64)
    requires
        f.sound(),
    ensures
        f.reaches(key),
{
    let n = f.block_length as int;
    let h = f.hash(key);
    lemma_reduced_most(h, n);
    lemma_reduced_most(turned(h, 21), n);
    lemma_reduced_most(turned(h, 42), n);
}

/// Finalization mix of the hash.
pub fn mix64(k: u64) -> (r: u64)
    ensures
        r == mixed(k),
{
    reveal(mixed);
    let a: u64 = k ^ (k >> 33);
    let b: u64 = a.wrapping_mul(0xff51_afd7_ed55_8ccd);
    let c: u64 = b ^ (b >> 33);
    let d: u64 = c.wrapping_mul(0xc4ce_b9fe_1a85_ec53);
    d ^ (d >> 33)
}

/// Maps the low half of `hash` to a number below `n`, without a division.
pub fn reduce_lemire(hash: u64, n: usize) -> (r: usize)
    requires
        n <= 0x1_0000_0001,
    ensures
        r == reduced(hash, n as int),
{
    reveal(reduced);
    let low: u64 = (hash as u32) as u64;
    let wide: u64 = n as u64;
    assert(low * wide <= 0xffff_ffff * 0x1_0000_0001) by (nonlinear_arith)
        requires
            low <= 0xffff_ffff,
            wide <= 0x1_0000_0001,
    ;
    let product: u64 = low * wide;
    let r: u64 = product >> 32;
    assert(r == product / 0x1_0000_0000) by (bit_vector)
        requires
            r == product >> 32,
    ;
    proof {
        lemma_reduced(hash, n as int);
        if n == 0 {
            assert(low * wide == 0) by (nonlinear_arith)
                requires
                    wide == 0,
            ;
        }
    }
    r as usize
}

/// `h` turned left by `n` bits.
fn rotate(h: u64, n: u64) -> (r: u64)
    requires
        0 < n < 64,
    ensures
        r == turned(h, n),
{
    reveal(turned);
    (h << n) | (h >> (64 - n))
}

/// A membership filter in plain values, the form in which it is stored.
#[derive(Debug)]
pub struct ArchivableXor8 {
    pub seed: u64,
    pub block_length: u64,
    pub fingerprints: Vec<u8>,
}

impl View for ArchivableXor8 {
    type V = FilterView;

    open spec fn view(&self) -> FilterView {
        FilterView {
            seed: self.seed,
            block_length: self.block_length,
            fingerprints: self.fingerprints@,
        }
    }
}

/// Whether the stored filter holds `key`: never no for a key it was built
/// from, and hardly ever yes for another.
pub fn xor_contains_archived(arch: &ArchivableXor8, key: u64) -> (r: bool)
    requires
        arch@.reaches(key),
    ensures
        r == arch@.member(key),
{
    proof {
        let n = arch.block_length as int;
        let h = arch@.hash(key);
        lemma_reduced(h, n);
        lemma_reduced(turned(h, 21), n);
        lemma_reduced(turned(h, 42), n);
    }
    let fps: &Vec<u8> = &arch.fingerprints;
    let len: usize = fps.len();
    assert(2 * arch.block_length <= arch@.place(key, 2) < len);
    let n: usize = arch.block_length as usize;
    let h: u64 = mix64(key.wrapping_add(arch.seed));
    let fp: u8 = (h ^ (h >> 32)) as u8;
    let h0: usize = reduce_lemire(h, n);
    let h1: usize = reduce_lemire(rotate(h, 21), n);
    let h2: usize = reduce_lemire(rotate(h, 42), n);
    fp == fps[h0] ^ fps[h1 + n] ^ fps[h2 + 2 * n]
}

/// `xorf::Xor8`.
#[verifier::external_type_specification]
#[verifier::external_body]
pub struct ExXor8(xorf::Xor8);

/// The seed of a filter.
pub uninterp spec fn xor8_seed(f: xorf::Xor8) -> u64;

/// The length of a block of a filter.
pub uninterp spec fn xor8_block_length(f: xorf::Xor8) -> usize;

/// The fingerprints of a filter.
pub uninterp spec fn xor8_fingerprints(f: xorf::Xor8) -> Seq<u8>;

/// What the filter is that `Xor8::from` builds over `keys`.
pub uninterp spec fn xor8_over(keys: Seq<u64>) -> FilterView;

/// What a filter holds.
pub open spec fn filter_view(f: xorf::Xor8) -> FilterView {
    FilterView {
        seed: xor8_seed(f),
        block_length: xor8_block_length(f) as u64,
        fingerprints: xor8_fingerprints(f),
    }
}

/// `Xor8::from` on distinct keys: the filter depends on the keys alone, is made
/// of exactly three blocks in which every key can be looked up, and answers yes
/// for each of the keys it was built from. The
/// construction tries one seed after the other until one works.
#[verifier::external_body]
fn build_filter(keys: &Vec<u64>) -> (r: xorf::Xor8)
    requires
        keys@.no_duplicates(),
        keys@.len() <= u32::MAX,
    ensures
        filter_view(r) == xor8_over(keys@),
        filter_view(r).sound(),
        xor8_fingerprints(r).len() == 3 * xor8_block_length(r),
        filter_view(r).holds_all(keys@),
{
    xorf::Xor8::from(keys)
}

/// `Xor8::contains`: compares the fingerprint of the key with the exclusive or
/// of the three at its places, which have to be within the filter.
#[verifier::external_body]
fn filter_contains(f: &xorf::Xor8, key: u64) -> (r: bool)
    requires
        filter_view(*f).reaches(key),
    ensures
        r == filter_view(*f).member(key),
{
    f.contains(&key)
}

/// The public fields `seed`, `block_length` and `fingerprints` of an `Xor8`.
#[verifier::external_body]
fn filter_parts(f: &xorf::Xor8) -> (r: (u64, usize, Vec<u8>))
    ensures
        r.0 == xor8_seed(*f),
        r.1 == xor8_block_length(*f),
        r.2@ == xor8_fingerprints(*f),
{
    (f.seed, f.block_length, f.fingerprints.to_vec())
}

/// An `Xor8` with the given public fields.
#[verifier::external_body]
fn filter_of(seed: u64, block_length: usize, fingerprints: Vec<u8>) -> (r: xorf::Xor8)
    ensures
        xor8_seed(r) == seed,
        xor8_block_length(r) == block_length,
        xor8_fingerprints(r) == fingerprints@,
{
    xorf::Xor8 { seed, block_length, fingerprints: fingerprints.into_boxed_slice() }
}

impl ArchivableXor8 {
    /// The plain values of a filter.
    pub fn from_xor8(x: xorf::Xor8) -> (r: Self)
        ensures
            r@ == filter_view(x),
    {
        Self::copy_of(&x)
    }

    /// The plain values of a filter that is kept.
    fn copy_of(x: &xorf::Xor8) -> (r: Self)
        ensures
            r@ == filter_view(*x),
    {
        let parts: (u64, usize, Vec<u8>) = filter_parts(x);
        ArchivableXor8 {
            seed: parts.0,
            block_length: parts.1 as u64,
            fingerprints: parts.2,
        }
    }

    /// The filter with these plain values; the block length has to be one that
    /// this machine can count.
    pub fn into_xor8(self) -> (r: xorf::Xor8)
        requires
            self.block_length <= usize::MAX,
        ensures
            filter_view(r) == self@,
    {
        filter_of(self.seed, self.block_length as usize, self.fingerprints)
    }

    /// Whether `key` can be looked up in the filter.
    pub fn can_look_up(&self, key: u64) -> (r: bool)
        ensures
            r == self@.reaches(key),
    {
        let len: u64 = self.fingerprints.len() as u64;
        let h: u64 = mix64(key.wrapping_add(self.seed));
        proof {
            let n = self.block_length as int;
            lemma_reduced(h, n);
            lemma_reduced(turned(h, 21), n);
            lemma_reduced(turned(h, 42), n);
        }
        if self.block_length > 0x1_0000_0001 || 2 * self.block_length >= len {
            return false;
        }
        let n: usize = self.block_length as usize;
        let h0: u64 = reduce_lemire(h, n) as u64;
        let h1: u64 = reduce_lemire(rotate(h, 21), n) as u64;
        let h2: u64 = reduce_lemire(rotate(h, 42), n) as u64;
        h0 < len && h1 + self.block_length < len && h2 + 2 * self.block_length < len
    }
}

/// A file and the filter over its tokens.
pub struct FileFilter {
    pub path: String,
    pub filter: xorf::Xor8,
}

/// A file and the stored filter over its tokens.
#[derive(Debug)]
pub struct StoredFilter {
    pub path: String,
    pub filter: ArchivableXor8,
}

/// What a file filter holds: the path and the filter.
pub type EntryView = (Seq<char>, FilterView);

impl View for FileFilter {
    type V = EntryView;

    open spec fn view(&self) -> EntryView {
        (self.path@, filter_view(self.filter))
    }
}

impl View for StoredFilter {
    type V = EntryView;

    open spec fn view(&self) -> EntryView {
        (self.path@, self.filter@)
    }
}

/// What a list of stored filters holds.
pub open spec fn stored_views(list: Seq<StoredFilter>) -> Seq<EntryView> {
    list.map_values(|e: StoredFilter| e@)
}

/// One filter per file: tells in constant time which files cannot hold a token.
pub struct FileBloomIndex {
    /// At most one entry per path.
    pub filters: Vec<FileFilter>,
    /// Where each path has its entry.
    pub places: StringHashMap<usize>,
}

impl View for FileBloomIndex {
    type V = Seq<EntryView>;

    open spec fn view(&self) -> Seq<EntryView> {
        self.filters@.map_values(|e: FileFilter| e@)
    }
}

/// No path has two entries.
pub open spec fn distinct_paths(entries: Seq<EntryView>) -> bool {
    forall|i: int, j: int|
        #![trigger entries[i], entries[j]]
        0 <= i < j < entries.len() ==> entries[i].0 != entries[j].0
}

/// Every key can be looked up in every filter.
pub open spec fn all_sound(entries: Seq<EntryView>) -> bool {
    forall|i: int| 0 <= i < entries.len() ==> (#[trigger] entries[i]).1.sound()
}

/// None of the first `k` keys is in the filter.
pub open spec fn holds_none(filter: FilterView, keys: Seq<u64>, k: int) -> bool {
    forall|j: int| 0 <= j < k ==> !filter.member(#[trigger] keys[j])
}

/// One of `keys` after the other can be looked up in the filter, up to the first
/// that it holds.
pub open spec fn reaches_hit(filter: FilterView, keys: Seq<u64>) -> bool {
    forall|k: int|
        0 <= k < keys.len() && holds_none(filter, keys, k) ==> filter.reaches(#[trigger] keys[k])
}

/// `keys` can be looked up in every filter, up to the first that it holds.
pub open spec fn all_reach(entries: Seq<EntryView>, keys: Seq<u64>) -> bool {
    forall|i: int| 0 <= i < entries.len() ==> reaches_hit((#[trigger] entries[i]).1, keys)
}

/// This machine can count the places of every filter.
pub open spec fn all_countable(entries: Seq<EntryView>) -> bool {
    forall|i: int|
        0 <= i < entries.len() ==> (#[trigger] entries[i]).1.block_length <= usize::MAX
}

/// `at` is where `path` has its entry.
pub open spec fn entry_at(entries: Seq<EntryView>, path: Seq<char>, at: int) -> bool {
    0 <= at < entries.len() && entries[at].0 == path
}

/// `path` has an entry.
pub open spec fn has_path(entries: Seq<EntryView>, path: Seq<char>) -> bool {
    exists|at: int| entry_at(entries, path, at)
}

/// The entries with that of `path` set to `filter`: in its place where it has
/// one, at the end otherwise.
pub open spec fn with_entry(
    entries: Seq<EntryView>,
    path: Seq<char>,
    filter: FilterView,
) -> Seq<EntryView> {
    if has_path(entries, path) {
        let at = choose|at: int| entry_at(entries, path, at);
        entries.update(at, (path, filter))
    } else {
        entries.push((path, filter))
    }
}

/// One of `keys` is in the filter.
pub open spec fn holds_any(filter: FilterView, keys: Seq<u64>) -> bool {
    exists|i: int| 0 <= i < keys.len() && filter.member(#[trigger] keys[i])
}

/// The paths whose filter holds one of `keys`; all of them if there are no keys.
pub open spec fn matching(entries: Seq<EntryView>, keys: Seq<u64>) -> Seq<Seq<char>>
    decreases entries.len(),
{
    if entries.len() == 0 {
        Seq::empty()
    } else {
        let before = matching(entries.drop_last(), keys);
        if keys.len() == 0 || holds_any(entries.last().1, keys) {
            before.push(entries.last().0)
        } else {
            before
        }
    }
}

/// The token hashes a query or a file is looked up by.
pub open spec fn lookup_keys(s: Seq<char>) -> Seq<u64> {
    text::unique(text::token_hashes(s))
}

/// Whether the filter holds one of `keys`.
fn any_member(filter: &xorf::Xor8, keys: &Vec<u64>) -> (r: bool)
    requires
        reaches_hit(filter_view(*filter), keys@),
    ensures
        r == holds_any(filter_view(*filter), keys@),
{
    let mut i: usize = 0;
    while i < keys.len()
        invariant
            i <= keys.len(),
            reaches_hit(filter_view(*filter), keys@),
            holds_none(filter_view(*filter), keys@, i as int),
        decreases keys.len() - i,
    {
        if filter_contains(filter, keys[i]) {
            return true;
        }
        i = i + 1;
    }
    false
}

/// Whether the stored filter holds one of `keys`.
fn any_stored_member(filter: &ArchivableXor8, keys: &Vec<u64>) -> (r: bool)
    requires
        reaches_hit(filter@, keys@),
    ensures
        r == holds_any(filter@, keys@),
{
    let mut i: usize = 0;
    while i < keys.len()
        invariant
            i <= keys.len(),
            reaches_hit(filter@, keys@),
            holds_none(filter@, keys@, i as int),
        decreases keys.len() - i,
    {
        if xor_contains_archived(filter, keys[i]) {
            return true;
        }
        i = i + 1;
    }
    false
}

impl FileBloomIndex {
    /// Each path with an entry is known by the place of it, and no other path is.
    pub open spec fn is_placed(&self) -> bool {
        &&& forall|path: Seq<char>| #[trigger]
            self.places@.contains_key(path) ==> entry_at(
                self@,
                path,
                self.places@[path] as int,
            )
        &&& forall|i: int|
            #![trigger self@[i]]
            0 <= i < self@.len() ==> self.places@.contains_key(self@[i].0)
    }

    /// Paths are distinct and known by their places.
    pub open spec fn wf(&self) -> bool {
        distinct_paths(self@) && self.is_placed()
    }

    /// No files yet.
    pub fn new() -> (r: Self)
        ensures
            r@ == Seq::<EntryView>::empty(),
            r.wf(),
            all_sound(r@),
    {
        let r = FileBloomIndex { filters: Vec::new(), places: StringHashMap::new() };
        assert(r@ =~= Seq::<EntryView>::empty());
        r
    }

    /// Where `path` has its entry.
    fn position(&self, path: &str) -> (r: Option<usize>)
        requires
            self.is_placed(),
        ensures
            match r {
                Some(at) => entry_at(self@, path@, at as int),
                None => !has_path(self@, path@) && !self.places@.contains_key(path@),
            },
    {
        match self.places.get(path) {
            Some(at) => Some(*at),
            None => {
                proof {
                    if has_path(self@, path@) {
                        let at = choose|at: int| entry_at(self@, path@, at);
                        assert(self.places@.contains_key(self@[at].0));
                    }
                }
                None
            },
        }
    }

    /// Adds the filter over the tokens of a file, in place of an earlier one.
    /// A file without tokens changes nothing.
    pub fn add_file(&mut self, path: &str, content: &str)
        requires
            old(self).wf(),
            lookup_keys(content@).len() <= u32::MAX,
        ensures
            final(self).wf(),
            all_sound(old(self)@) ==> all_sound(final(self)@),
            final(self)@ == if lookup_keys(content@).len() == 0 {
                old(self)@
            } else {
                with_entry(old(self)@, path@, xor8_over(lookup_keys(content@)))
            },
            lookup_keys(content@).len() > 0 ==> xor8_over(lookup_keys(content@)).holds_all(
                lookup_keys(content@),
            ),
    {
        let keys: Vec<u64> = unique_token_hashes(content);
        if keys.len() == 0 {
            return;
        }
        proof {
            text::lemma_unique(text::token_hashes(content@));
        }
        let filter = build_filter(&keys);
        let entry = FileFilter { path: path.to_owned(), filter };
        let ghost before = self@;
        let ghost added = (path@, xor8_over(keys@));
        match self.position(path) {
            Some(at) => {
                self.filters.set(at, entry);
                proof {
                    assert(entry_at(before, path@, at as int));
                    let k = choose|k: int| entry_at(before, path@, k);
                    assert(before[k].0 == before[at as int].0);
                    assert(k == at);
                    assert(self@ =~= before.update(at as int, added));
                    assert forall|i: int| #![trigger self@[i]] 0 <= i < self@.len() implies {
                        self.places@.contains_key(self@[i].0)
                    } by {
                        assert(self@[i].0 == before[i].0);
                    }
                }
            },
            None => {
                let at: usize = self.filters.len();
                self.filters.push(entry);
                self.places.insert(path.to_owned(), at);
                proof {
                    assert(self@ =~= before.push(added));
                    assert forall|i: int| 0 <= i < before.len() implies #[trigger] before[i].0
                        != path@ by {
                        assert(!entry_at(before, path@, i));
                    }
                    assert forall|i: int| #![trigger self@[i]] 0 <= i < self@.len() implies {
                        self.places@.contains_key(self@[i].0)
                    } by {
                        if i < before.len() {
                            assert(self@[i] == before[i]);
                        }
                    }
                }
            },
        }
    }

    /// The files that may hold a token of the query, and all files if the query
    /// has none. A file that is missing here does not hold any of its tokens.
    pub fn candidates(&self, query: &str) -> (r: Vec<String>)
        requires
            all_reach(self@, lookup_keys(query@)),
        ensures
            text::texts(r@) == matching(self@, lookup_keys(query@)),
    {
        let keys: Vec<u64> = unique_token_hashes(query);
        let mut out: Vec<String> = Vec::new();
        let mut i: usize = 0;
        assert(text::texts(out@) =~= matching(self@.take(0), keys@));
        while i < self.filters.len()
            invariant
                i <= self.filters.len(),
                self@.len() == self.filters@.len(),
                all_reach(self@, keys@),
                keys@ == lookup_keys(query@),
                text::texts(out@) == matching(self@.take(i as int), keys@),
            decreases self.filters.len() - i,
        {
            let entry: &FileFilter = &self.filters[i];
            proof {
                assert(self@[i as int] == entry@);
                assert(self@.take(i + 1).drop_last() =~= self@.take(i as int));
            }
            if keys.len() == 0 || any_member(&entry.filter, &keys) {
                let ghost before = out@;
                out.push(entry.path.clone());
                assert(text::texts(out@) =~= text::texts(before).push(entry.path@));
            }
            i = i + 1;
        }
        assert(self@.take(self@.len() as int) =~= self@);
        out
    }

    /// The filters in the form in which they are stored.
    pub fn into_archivable(self) -> (r: Vec<StoredFilter>)
        ensures
            stored_views(r@) == self@,
    {
        self.to_archivable()
    }

    /// A copy of the filters in the form in which they are stored.
    pub fn to_archivable(&self) -> (r: Vec<StoredFilter>)
        ensures
            stored_views(r@) == self@,
    {
        let mut out: Vec<StoredFilter> = Vec::new();
        let mut i: usize = 0;
        while i < self.filters.len()
            invariant
                i <= self.filters.len(),
                stored_views(out@) =~= self@.take(i as int),
            decreases self.filters.len() - i,
        {
            let entry: &FileFilter = &self.filters[i];
            let ghost before = out@;
            let stored = StoredFilter {
                path: entry.path.clone(),
                filter: ArchivableXor8::copy_of(&entry.filter),
            };
            out.push(stored);
            proof {
                assert(self@[i as int] == stored@);
                assert(stored_views(out@) =~= stored_views(before).push(stored@));
            }
            i = i + 1;
        }
        assert(self@.len() == self.filters@.len());
        assert(self@.take(self@.len() as int) =~= self@);
        out
    }

    /// The index whose filters were stored.
    pub fn from_archivable(list: Vec<StoredFilter>) -> (r: Self)
        requires
            all_countable(stored_views(list@)),
        ensures
            r@ == stored_views(list@),
            r.is_placed(),
    {
        let ghost all = stored_views(list@);
        let mut rest: Vec<StoredFilter> = list;
        let mut back: Vec<FileFilter> = Vec::new();
        while rest.len() > 0
            invariant
                all_countable(all),
                stored_views(rest@).len() == rest@.len(),
                back.len() + rest.len() == all.len(),
                stored_views(rest@) == all.take(rest@.len() as int),
                forall|i: int|
                    0 <= i < back.len() ==> #[trigger] back@[i]@ == all[all.len() - 1 - i],
            decreases rest.len(),
        {
            let ghost n = rest@.len() as int;
            assert(stored_views(rest@)[n - 1] == rest@[n - 1]@);
            assert(all[n - 1].1.block_length <= usize::MAX);
            match rest.pop() {
                Some(entry) => {
                    let filter = entry.filter.into_xor8();
                    back.push(FileFilter { path: entry.path, filter });
                },
                None => {},
            }
            assert(stored_views(rest@) =~= all.take(n - 1));
        }
        let mut r = FileBloomIndex { filters: Vec::new(), places: StringHashMap::new() };
        while back.len() > 0
            invariant
                r.filters.len() + back.len() == all.len(),
                r.is_placed(),
                forall|i: int|
                    0 <= i < back.len() ==> #[trigger] back@[i]@ == all[all.len() - 1 - i],
                forall|i: int| 0 <= i < r.filters.len() ==> #[trigger] r.filters@[i]@ == all[i],
            decreases back.len(),
        {
            let ghost before = r@;
            match back.pop() {
                Some(entry) => {
                    let at: usize = r.filters.len();
                    r.places.insert(entry.path.clone(), at);
                    r.filters.push(entry);
                    proof {
                        assert(r@ =~= before.push(entry@));
                        assert forall|path: Seq<char>| #[trigger]
                            r.places@.contains_key(path) implies entry_at(
                            r@,
                            path,
                            r.places@[path] as int,
                        ) by {
                            if path != entry.path@ {
                                assert(entry_at(before, path, r.places@[path] as int));
                            }
                        }
                        assert forall|i: int| #![trigger r@[i]] 0 <= i < r@.len() implies {
                            r.places@.contains_key(r@[i].0)
                        } by {
                            if i < before.len() {
                                assert(r@[i] == before[i]);
                            }
                        }
                    }
                },
                None => {},
            }
        }
        assert(r@ =~= all);
        r
    }

    /// Number of files.
    pub fn len(&self) -> (r: usize)
        ensures
            r == self@.len(),
    {
        self.filters.len()
    }

    /// Whether there are no files.
    pub fn is_empty(&self) -> (r: bool)
        ensures
            r == (self@.len() == 0),
    {
        self.filters.len() == 0
    }
}

/// `candidates` on filters as they are stored.
pub fn candidates_archived(filters: &Vec<StoredFilter>, query: &str) -> (r: Vec<String>)
    requires
        all_reach(stored_views(filters@), lookup_keys(query@)),
    ensures
        text::texts(r@) == matching(stored_views(filters@), lookup_keys(query@)),
{
    let keys: Vec<u64> = unique_token_hashes(query);
    let ghost all = stored_views(filters@);
    let mut out: Vec<String> = Vec::new();
    let mut i: usize = 0;
    assert(text::texts(out@) =~= matching(all.take(0), keys@));
    while i < filters.len()
        invariant
            i <= filters.len(),
            all == stored_views(filters@),
            all_reach(all, keys@),
            keys@ == lookup_keys(query@),
            text::texts(out@) == matching(all.take(i as int), keys@),
        decreases filters.len() - i,
    {
        let entry: &StoredFilter = &filters[i];
        proof {
            assert(all[i as int] == entry@);
            assert(all.take(i + 1).drop_last() =~= all.take(i as int));
        }
        if keys.len() == 0 || any_stored_member(&entry.filter, &keys) {
            let ghost before = out@;
            out.push(entry.path.clone());
            assert(text::texts(out@) =~= text::texts(before).push(entry.path@));
        }
        i = i + 1;
    }
    assert(all.take(all.len() as int) =~= all);
    out
}

/// Whether one of `keys` after the other can be looked up in the filter, up to the
/// first that it holds.
fn can_ask(filter: &ArchivableXor8, keys: &Vec<u64>) -> (r: bool)
    ensures
        r == reaches_hit(filter@, keys@),
{
    let mut k: usize = 0;
    while k < keys.len()
        invariant
            k <= keys.len(),
            holds_none(filter@, keys@, k as int),
            forall|j: int| 0 <= j < k ==> filter@.reaches(#[trigger] keys@[j]),
        decreases keys.len() - k,
    {
        if !filter.can_look_up(keys[k]) {
            return false;
        }
        if xor_contains_archived(filter, keys[k]) {
            assert forall|j: int|
                0 <= j < keys@.len() && holds_none(filter@, keys@, j) implies filter@.reaches(
                #[trigger] keys@[j],
            ) by {
                if j > k {
                    assert(!filter@.member(keys@[k as int]));
                }
            }
            return true;
        }
        k = k + 1;
    }
    true
}

/// Whether the tokens of the query can be looked up in each of the filters, up to
/// the first that it holds.
pub fn can_screen(filters: &Vec<StoredFilter>, query: &str) -> (r: bool)
    ensures
        r == all_reach(stored_views(filters@), lookup_keys(query@)),
{
    let keys: Vec<u64> = unique_token_hashes(query);
    let ghost all = stored_views(filters@);
    let mut i: usize = 0;
    while i < filters.len()
        invariant
            i <= filters.len(),
            all == stored_views(filters@),
            keys@ == lookup_keys(query@),
            forall|j: int| 0 <= j < i ==> reaches_hit((#[trigger] all[j]).1, keys@),
        decreases filters.len() - i,
    {
        let filter: &ArchivableXor8 = &filters[i].filter;
        assert(all[i as int].1 == filter@);
        if !can_ask(filter, &keys) {
            return false;
        }
        i = i + 1;
    }
    true
}

/// In filters in which every key can be looked up, so can all tokens of a query.
pub proof fn law_sound_filters_take_every_query(entries: Seq<EntryView>, query: Seq<char>)
    requires
        all_sound(entries),
    ensures
        all_reach(entries, lookup_keys(query)),
{
    let keys = lookup_keys(query);
    assert forall|i: int| 0 <= i < entries.len() implies reaches_hit(
        (#[trigger] entries[i]).1,
        keys,
    ) by {
        assert forall|k: int| 0 <= k < keys.len() implies entries[i].1.reaches(
            #[trigger] keys[k],
        ) by {
            lemma_sound_reaches(entries[i].1, keys[k]);
        }
    }
}

/// A path whose filter holds one of the keys is among the matching ones.
pub proof fn lemma_matching_contains(entries: Seq<EntryView>, keys: Seq<u64>, at: int)
    requires
        0 <= at < entries.len(),
        keys.len() == 0 || holds_any(entries[at].1, keys),
    ensures
        matching(entries, keys).contains(entries[at].0),
    decreases entries.len(),
{
    let init = entries.drop_last();
    let before = matching(init, keys);
    if at < init.len() {
        assert(init[at] == entries[at]);
        lemma_matching_contains(init, keys, at);
        let k = choose|k: int| 0 <= k < before.len() && before[k] == entries[at].0;
        assert(matching(entries, keys)[k] == entries[at].0);
    } else {
        assert(matching(entries, keys)[before.len() as int] == entries[at].0);
    }
}

/// Only files of the index are candidates, and where the query has tokens only
/// those whose filter holds one of them.
pub proof fn law_candidates_are_indexed(entries: Seq<EntryView>, keys: Seq<u64>, path: Seq<char>)
    requires
        matching(entries, keys).contains(path),
    ensures
        exists|at: int|
            #![trigger entries[at]]
            entry_at(entries, path, at) && (keys.len() == 0 || holds_any(entries[at].1, keys)),
    decreases entries.len(),
{
    let all = matching(entries, keys);
    let k = choose|k: int| 0 <= k < all.len() && all[k] == path;
    let init = entries.drop_last();
    let before = matching(init, keys);
    if k < before.len() {
        assert(before[k] == path);
        law_candidates_are_indexed(init, keys, path);
        let at = choose|at: int|
            #![trigger init[at]]
            entry_at(init, path, at) && (keys.len() == 0 || holds_any(init[at].1, keys));
        assert(entries[at] == init[at]);
    } else {
        assert(entry_at(entries, path, entries.len() - 1));
        assert(entries[entries.len() - 1] == entries.last());
    }
}

/// A token of a text is among its lookup keys.
pub proof fn lemma_token_is_key(s: Seq<char>, token: Seq<char>)
    requires
        text::tokens(s).contains(token),
    ensures
        lookup_keys(s).contains(text::token_hash(token)),
{
    let list = text::tokens(s);
    let i = choose|i: int| 0 <= i < list.len() && list[i] == token;
    assert(text::token_hashes(s)[i] == text::token_hash(token));
    assert(text::token_hashes(s).contains(text::token_hash(token)));
    text::lemma_unique(text::token_hashes(s));
}

/// No false negatives: a file whose filter was built over its content is a
/// candidate for every query that shares a token with the content.
pub proof fn law_no_false_negatives(
    entries: Seq<EntryView>,
    at: int,
    content: Seq<char>,
    query: Seq<char>,
    token: Seq<char>,
)
    requires
        0 <= at < entries.len(),
        entries[at].1.holds_all(lookup_keys(content)),
        text::tokens(content).contains(token),
        text::tokens(query).contains(token),
    ensures
        matching(entries, lookup_keys(query)).contains(entries[at].0),
{
    let key = text::token_hash(token);
    lemma_token_is_key(content, token);
    lemma_token_is_key(query, token);
    let held = lookup_keys(content);
    let asked = lookup_keys(query);
    let i = choose|i: int| 0 <= i < held.len() && held[i] == key;
    let j = choose|j: int| 0 <= j < asked.len() && asked[j] == key;
    assert(entries[at].1.member(held[i]));
    assert(entries[at].1.member(asked[j]));
    lemma_matching_contains(entries, asked, at);
}

/// The entries after one file after the other was added.
pub open spec fn with_entries(entries: Seq<EntryView>, later: Seq<EntryView>) -> Seq<EntryView>
    decreases later.len(),
{
    if later.len() == 0 {
        entries
    } else {
        with_entry(with_entries(entries, later.drop_last()), later.last().0, later.last().1)
    }
}

/// Adding other files leaves the entry of a file.
proof fn lemma_entry_stays(
    entries: Seq<EntryView>,
    entry: EntryView,
    later: Seq<EntryView>,
)
    requires
        distinct_paths(entries),
        entries.contains(entry),
        forall|i: int| 0 <= i < later.len() ==> (#[trigger] later[i]).0 != entry.0,
    ensures
        distinct_paths(with_entries(entries, later)),
        with_entries(entries, later).contains(entry),
    decreases later.len(),
{
    if later.len() > 0 {
        let init = later.drop_last();
        assert forall|i: int| 0 <= i < init.len() implies (#[trigger] init[i]).0 != entry.0 by {
            assert(init[i] == later[i]);
        }
        lemma_entry_stays(entries, entry, init);
        let before = with_entries(entries, init);
        assert(later.last() == later[later.len() - 1]);
        law_adding_changes_one_file(before, later.last().0, later.last().1);
        let at = choose|at: int| 0 <= at < before.len() && before[at] == entry;
        assert(with_entries(entries, later)[at] == entry);
    }
}

/// No false negatives, whatever is added later: a file that was added with its
/// content is a candidate for every query that shares a token with it, as long
/// as it is not added again.
pub proof fn law_added_file_stays_a_candidate(
    entries: Seq<EntryView>,
    path: Seq<char>,
    content: Seq<char>,
    filter: FilterView,
    later: Seq<EntryView>,
    query: Seq<char>,
    token: Seq<char>,
)
    requires
        distinct_paths(entries),
        filter.holds_all(lookup_keys(content)),
        forall|i: int| 0 <= i < later.len() ==> (#[trigger] later[i]).0 != path,
        text::tokens(content).contains(token),
        text::tokens(query).contains(token),
    ensures
        matching(
            with_entries(with_entry(entries, path, filter), later),
            lookup_keys(query),
        ).contains(path),
{
    law_adding_changes_one_file(entries, path, filter);
    let added = with_entry(entries, path, filter);
    let at = choose|at: int|
        #![trigger added[at]]
        entry_at(added, path, at) && added[at].1 == filter;
    assert(added[at] == (path, filter));
    lemma_entry_stays(added, (path, filter), later);
    let all = with_entries(added, later);
    let i = choose|i: int| 0 <= i < all.len() && all[i] == (path, filter);
    law_no_false_negatives(all, i, content, query, token);
}

/// A stored filter answers for every key what the filter it was made from does,
/// and so yes for all keys that one was built from.
pub proof fn law_stored_filter_answers_alike(
    x: xorf::Xor8,
    stored: ArchivableXor8,
    keys: Seq<u64>,
    key: u64,
)
    requires
        stored@ == filter_view(x),
        filter_view(x).holds_all(keys),
    ensures
        stored@.reaches(key) == filter_view(x).reaches(key),
        stored@.member(key) == filter_view(x).member(key),
        keys.contains(key) ==> stored@.member(key),
{
}

/// A query without tokens rules nothing out: all files are candidates, in order.
pub proof fn law_no_tokens_rule_nothing_out(entries: Seq<EntryView>, query: Seq<char>)
    requires
        lookup_keys(query).len() == 0,
    ensures
        matching(entries, lookup_keys(query)) == entries.map_values(|e: EntryView| e.0),
    decreases entries.len(),
{
    let paths = entries.map_values(|e: EntryView| e.0);
    if entries.len() > 0 {
        law_no_tokens_rule_nothing_out(entries.drop_last(), query);
        assert(paths =~= entries.drop_last().map_values(|e: EntryView| e.0).push(
            entries.last().0,
        ));
    } else {
        assert(paths =~= Seq::<Seq<char>>::empty());
    }
}

/// Adding a file gives it the new filter and leaves those of all others.
pub proof fn law_adding_changes_one_file(
    entries: Seq<EntryView>,
    path: Seq<char>,
    filter: FilterView,
)
    requires
        distinct_paths(entries),
    ensures
        distinct_paths(with_entry(entries, path, filter)),
        exists|at: int|
            #![trigger with_entry(entries, path, filter)[at]]
            entry_at(with_entry(entries, path, filter), path, at) && with_entry(
                entries,
                path,
                filter,
            )[at].1 == filter,
        forall|at: int|
            0 <= at < entries.len() && (#[trigger] entries[at]).0 != path ==> with_entry(
                entries,
                path,
                filter,
            )[at] == entries[at],
{
    let all = with_entry(entries, path, filter);
    if has_path(entries, path) {
        let at = choose|at: int| entry_at(entries, path, at);
        assert(all[at] == (path, filter));
    } else {
        assert(all[entries.len() as int] == (path, filter));
        assert forall|i: int| 0 <= i < entries.len() implies #[trigger] entries[i].0 != path by {
            assert(!entry_at(entries, path, i));
        }
    }
}

/// A file is a candidate only where its filter answers yes for a token of the
/// query, or where the query has none.
pub proof fn law_candidates_answer_yes_for_a_token(
    entries: Seq<EntryView>,
    query: Seq<char>,
    path: Seq<char>,
)
    requires
        matching(entries, lookup_keys(query)).contains(path),
        text::tokens(query).len() > 0,
    ensures
        exists|at: int, t: int|
            #![trigger entries[at], text::token_hashes(query)[t]]
            {
                &&& 0 <= at < entries.len()
                &&& entries[at].0 == path
                &&& 0 <= t < text::token_hashes(query).len()
                &&& entries[at].1.member(text::token_hashes(query)[t])
            },
{
    let all = text::token_hashes(query);
    let keys = lookup_keys(query);
    text::lemma_unique(all);
    law_candidates_are_indexed(entries, keys, path);
    let at = choose|at: int|
        #![trigger entries[at]]
        entry_at(entries, path, at) && (keys.len() == 0 || holds_any(entries[at].1, keys));
    assert(all.len() == text::tokens(query).len());
    assert(all.contains(all[0]));
    assert(keys.contains(all[0]));
    let k = choose|k: int| 0 <= k < keys.len() && entries[at].1.member(#[trigger] keys[k]);
    assert(keys.contains(keys[k]));
    assert(all.contains(keys[k]));
    let t = choose|t: int| 0 <= t < all.len() && all[t] == keys[k];
    assert(entries[at].1.member(all[t]));
}

/// Candidates come in the order of the files, each as often as it is listed.
pub proof fn law_candidates_come_in_order(entries: Seq<EntryView>, keys: Seq<u64>)
    ensures
        exists|at: Seq<int>|
            {
                &&& #[trigger] at.len() == matching(entries, keys).len()
                &&& forall|k: int|
                    #![trigger at[k]]
                    0 <= k < at.len() ==> 0 <= at[k] < entries.len() && matching(entries, keys)[k]
                        == entries[at[k]].0
                &&& forall|k: int, l: int|
                    #![trigger at[k], at[l]]
                    0 <= k < l < at.len() ==> at[k] < at[l]
            },
    decreases entries.len(),
{
    if entries.len() == 0 {
        let at = Seq::<int>::empty();
        assert(at.len() == matching(entries, keys).len());
    } else {
        let init = entries.drop_last();
        law_candidates_come_in_order(init, keys);
        let before = choose|at: Seq<int>|
            {
                &&& #[trigger] at.len() == matching(init, keys).len()
                &&& forall|k: int|
                    #![trigger at[k]]
                    0 <= k < at.len() ==> 0 <= at[k] < init.len() && matching(init, keys)[k]
                        == init[at[k]].0
                &&& forall|k: int, l: int|
                    #![trigger at[k], at[l]]
                    0 <= k < l < at.len() ==> at[k] < at[l]
            };
        let at = if keys.len() == 0 || holds_any(entries.last().1, keys) {
            before.push(entries.len() - 1)
        } else {
            before
        };
        assert forall|k: int| #![trigger at[k]] 0 <= k < at.len() implies 0 <= at[k]
            < entries.len() && matching(entries, keys)[k] == entries[at[k]].0 by {
            if k < before.len() {
                assert(at[k] == before[k]);
                assert(init[before[k]] == entries[before[k]]);
            }
        }
        assert(at.len() == matching(entries, keys).len());
    }
}

/// What a filter answers: the key is spread over 64 bits, a fingerprint of 8 bits
/// is made of both halves, and the answer is yes where it is the exclusive or of
/// three, one of each third of the filter.
pub proof fn law_answer_of_a_filter(f: FilterView, key: u64)
    ensures
        ({
            let k = key.wrapping_add(f.seed);
            let a = (k ^ (k >> 33)).wrapping_mul(0xff51_afd7_ed55_8ccd);
            let b = (a ^ (a >> 33)).wrapping_mul(0xc4ce_b9fe_1a85_ec53);
            let h = b ^ (b >> 33);
            let n = f.block_length as int;
            let first = (h as u32) as int * n / 0x1_0000_0000;
            let second = (((h << 21) | (h >> 43)) as u32) as int * n / 0x1_0000_0000;
            let third = (((h << 42) | (h >> 22)) as u32) as int * n / 0x1_0000_0000;
            f.member(key) <==> (h ^ (h >> 32)) as u8 == f.fingerprints[first] ^ f.fingerprints[n
                + second] ^ f.fingerprints[2 * n + third]
        }),
{
    reveal(mixed);
    reveal(turned);
    reveal(reduced);
}

/// The candidates for a query are the files whose filter answers yes for one of its
/// tokens, and all of them where it has none.
pub proof fn law_candidates_are_told_by_their_filters(
    index: &FileBloomIndex,
    query: &str,
    r: Vec<String>,
    path: Seq<char>,
)
    requires
        call_ensures(FileBloomIndex::candidates, (index, query), r),
    ensures
        text::texts(r@).contains(path) <==> exists|at: int|
            #![trigger index@[at]]
            {
                &&& 0 <= at < index@.len()
                &&& index@[at].0 == path
                &&& text::tokens(query@).len() == 0 || exists|t: int|
                    0 <= t < text::tokens(query@).len() && index@[at].1.member(
                        #[trigger] text::token_hashes(query@)[t],
                    )
            },
{
    let entries = index@;
    let all = text::token_hashes(query@);
    let keys = lookup_keys(query@);
    text::lemma_unique(all);
    assert(all.len() == text::tokens(query@).len());
    if text::texts(r@).contains(path) {
        law_candidates_are_indexed(entries, keys, path);
        if text::tokens(query@).len() > 0 {
            law_candidates_answer_yes_for_a_token(entries, query@, path);
        }
    }
    if exists|at: int|
        #![trigger index@[at]]
        {
            &&& 0 <= at < index@.len()
            &&& index@[at].0 == path
            &&& text::tokens(query@).len() == 0 || exists|t: int|
                0 <= t < text::tokens(query@).len() && index@[at].1.member(
                    #[trigger] text::token_hashes(query@)[t],
                )
        } {
        let at = choose|at: int|
            #![trigger index@[at]]
            {
                &&& 0 <= at < index@.len()
                &&& index@[at].0 == path
                &&& text::tokens(query@).len() == 0 || exists|t: int|
                    0 <= t < text::tokens(query@).len() && index@[at].1.member(
                        #[trigger] text::token_hashes(query@)[t],
                    )
            };
        if keys.len() > 0 {
            assert(keys.contains(keys[0]));
            assert(all.contains(keys[0]));
            let t = choose|t: int|
                0 <= t < text::tokens(query@).len() && index@[at].1.member(#[trigger] all[t]);
            assert(all.contains(all[t]));
            assert(keys.contains(all[t]));
            let k = choose|k: int| 0 <= k < keys.len() && keys[k] == all[t];
            assert(entries[at].1.member(keys[k]));
        }
        lemma_matching_contains(entries, keys, at);
    }
}

} // verus!
