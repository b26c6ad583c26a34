use crate::text;
use crate::text::words;
use std::collections::hash_map::DefaultHasher;
use std::hash::Hasher;
use vstd::bytes;
use vstd::prelude::*;
use vstd::std_specs::hash::DefaultHasherAdditionalSpecFns;

verus! {

/// Number of hashes in a signature unless told otherwise.
pub const DEFAULT_K: usize = 128;

/// Signature of a text by which the overlap of two vocabularies is estimated:
/// the share of equal hashes in two signatures is an unbiased estimate of the
/// Jaccard similarity of the two sets of tokens.
#[derive(Debug)]
pub struct MinHash {
    /// `sig[i]` is the least hash of a token with seed `i`.
    pub sig: Vec<u64>,
}

impl View for MinHash {
    type V = Seq<u64>;

    open spec fn view(&self) -> Seq<u64> {
        self.sig@
    }
}

impl Clone for MinHash {
    fn clone(&self) -> (r: Self)
        ensures
            r@ == self@,
    {
        let mut sig: Vec<u64> = Vec::new();
        let mut i: usize = 0;
        while i < self.sig.len()
            invariant
                i <= self.sig.len(),
                sig@ == self.sig@.take(i as int),
            decreases self.sig.len() - i,
        {
            sig.push(self.sig[i]);
            i = i + 1;
            assert(sig@ =~= self.sig@.take(i as int));
        }
        assert(sig@ =~= self.sig@);
        MinHash { sig }
    }
}

/// A share `num / den`.
#[derive(Clone, Copy, Debug, PartialEq, Eq, Structural)]
pub struct Ratio {
    pub num: usize,
    pub den: usize,
}

impl Ratio {
    /// The share lies between 0 and 1.
    pub open spec fn is_share(self) -> bool {
        self.num <= self.den && self.den > 0
    }

    /// Nothing.
    pub fn zero() -> (r: Self)
        ensures
            r == (Ratio { num: 0, den: 1 }),
    {
        Ratio { num: 0, den: 1 }
    }
}

/// The hash of `token` with seed `slot`.
pub open spec fn slot_hash(slot: int, token: Seq<char>) -> u64 {
    DefaultHasher::spec_finish(
        seq![bytes::spec_u64_to_le_bytes(slot as u64)] + text::str_writes(token),
    )
}

/// The least hash of the tokens with seed `slot`; the greatest number if there
/// are none.
pub open spec fn slot_min(slot: int, tokens: Seq<Seq<char>>) -> u64
    decreases tokens.len(),
{
    if tokens.len() == 0 {
        u64::MAX
    } else {
        let before = slot_min(slot, tokens.drop_last());
        let last = slot_hash(slot, tokens.last());
        if last < before {
            last
        } else {
            before
        }
    }
}

/// The signature of `k` hashes of a list of tokens.
pub open spec fn signature(tokens: Seq<Seq<char>>, k: nat) -> Seq<u64> {
    Seq::new(k, |i: int| slot_min(i, tokens))
}

/// How many of the first `k` hashes are equal.
pub open spec fn agreements(a: Seq<u64>, b: Seq<u64>, k: int) -> int
    decreases k,
{
    if k <= 0 {
        0
    } else {
        agreements(a, b, k - 1) + if a[k - 1] == b[k - 1] {
            1int
        } else {
            0
        }
    }
}

/// A signature in which no token left a trace.
pub open spec fn is_blank(sig: Seq<u64>) -> bool {
    forall|i: int| 0 <= i < sig.len() ==> sig[i] == u64::MAX
}

/// The length of the shorter signature.
pub open spec fn common_len(a: Seq<u64>, b: Seq<u64>) -> int {
    if a.len() <= b.len() {
        a.len() as int
    } else {
        b.len() as int
    }
}

/// The estimate `r` for two signatures: the share of equal hashes over the
/// shorter length. Nothing where one has no hashes or both are blank, so that
/// texts without tokens do not count as alike.
pub open spec fn is_estimate(a: Seq<u64>, b: Seq<u64>, r: Ratio) -> bool {
    let k = common_len(a, b);
    if k == 0 || (is_blank(a) && is_blank(b)) {
        r == (Ratio { num: 0, den: 1 })
    } else {
        r.num == agreements(a, b, k) && r.den == k
    }
}

/// Whether no token left a trace in `sig`.
fn blank(sig: &Vec<u64>) -> (r: bool)
    ensures
        r == is_blank(sig@),
{
    let mut i: usize = 0;
    while i < sig.len()
        invariant
            i <= sig.len(),
            forall|j: int| 0 <= j < i ==> sig@[j] == u64::MAX,
        decreases sig.len() - i,
    {
        if sig[i] != u64::MAX {
            return false;
        }
        i = i + 1;
    }
    true
}

/// The hash of `token` with seed `slot`.
fn hash_slot(slot: usize, token: &str) -> (r: u64)
    ensures
        r == slot_hash(slot as int, token@),
{
    let mut h: DefaultHasher = DefaultHasher::new();
    let seed: Vec<u8> = bytes::u64_to_le_bytes(slot as u64);
    h.write(seed.as_slice());
    h.write(token.as_bytes());
    let end: [u8; 1] = [0xff];
    h.write(&end);
    assert(end@ =~= seq![0xffu8]);
    assert(h@ =~= seq![bytes::spec_u64_to_le_bytes(slot as u64)] + text::str_writes(token@));
    h.finish()
}

/// Lowers each hash of `sig` to that of `token` where this is less.
fn absorb(sig: &mut Vec<u64>, token: &str, Ghost(before): Ghost<Seq<Seq<char>>>)
    requires
        old(sig)@ == signature(before, old(sig)@.len()),
    ensures
        final(sig)@ == signature(before.push(token@), old(sig)@.len()),
{
    let k: usize = sig.len();
    let mut i: usize = 0;
    while i < k
        invariant
            i <= k,
            sig@.len() == k,
            k == old(sig)@.len(),
            forall|j: int| 0 <= j < i ==> #[trigger] sig@[j] == slot_min(j, before.push(token@)),
            forall|j: int| i <= j < k ==> #[trigger] sig@[j] == slot_min(j, before),
        decreases k - i,
    {
        assert(before.push(token@).drop_last() =~= before);
        let v: u64 = hash_slot(i, token);
        if v < sig[i] {
            sig.set(i, v);
        }
        i = i + 1;
    }
    assert(sig@ =~= signature(before.push(token@), k as nat));
}

impl MinHash {
    /// Signature of `DEFAULT_K` hashes.
    pub fn from_text(text: &str) -> (r: Self)
        ensures
            r@ == signature(text::tokens(text@), DEFAULT_K as nat),
    {
        Self::from_text_with_k(text, DEFAULT_K)
    }

    /// Signature of `k` hashes: for each seed below `k`, the least hash of a
    /// token of the text.
    pub fn from_text_with_k(text: &str, k: usize) -> (r: Self)
        requires
            k > 0,
        ensures
            r@ == signature(text::tokens(text@), k as nat),
    {
        let list: Vec<String> = words(text);
        let ghost all = text::tokens(text@);
        let mut sig: Vec<u64> = Vec::new();
        let mut n: usize = 0;
        while n < k
            invariant
                n <= k,
                sig@.len() == n,
                forall|j: int| 0 <= j < n ==> sig@[j] == u64::MAX,
            decreases k - n,
        {
            sig.push(u64::MAX);
            n = n + 1;
        }
        let mut i: usize = 0;
        assert(sig@ =~= signature(all.take(0), k as nat));
        while i < list.len()
            invariant
                i <= list.len(),
                all == text::texts(list@),
                sig@.len() == k,
                sig@ == signature(all.take(i as int), k as nat),
            decreases list.len() - i,
        {
            absorb(&mut sig, list[i].as_str(), Ghost(all.take(i as int)));
            assert(all.take(i as int).push(list@[i as int]@) =~= all.take(i + 1));
            i = i + 1;
        }
        assert(all.take(all.len() as int) =~= all);
        MinHash { sig }
    }

    /// Estimate of the Jaccard similarity of the two texts, between 0 and 1.
    pub fn jaccard(&self, other: &Self) -> (r: Ratio)
        ensures
            is_estimate(self@, other@, r),
            r.is_share(),
    {
        archived_jaccard(self, other)
    }

    /// Number of hashes.
    pub fn k(&self) -> (r: usize)
        ensures
            r == self@.len(),
    {
        self.sig.len()
    }
}

/// Estimate of the Jaccard similarity of the texts behind two signatures.
pub fn archived_jaccard(a: &MinHash, b: &MinHash) -> (r: Ratio)
    ensures
        is_estimate(a@, b@, r),
        r.is_share(),
{
    let k: usize = if a.sig.len() <= b.sig.len() {
        a.sig.len()
    } else {
        b.sig.len()
    };
    if k == 0 || (blank(&a.sig) && blank(&b.sig)) {
        return Ratio::zero();
    }
    let mut num: usize = 0;
    let mut i: usize = 0;
    while i < k
        invariant
            i <= k,
            k <= a.sig.len(),
            k <= b.sig.len(),
            num <= i,
            num == agreements(a@, b@, i as int),
        decreases k - i,
    {
        if a.sig[i] == b.sig[i] {
            num = num + 1;
        }
        i = i + 1;
    }
    Ratio { num, den: k }
}

/// `slot_min` is a lower bound that a token attains, if there is one.
proof fn lemma_slot_min(slot: int, tokens: Seq<Seq<char>>)
    ensures
        forall|i: int|
            0 <= i < tokens.len() ==> slot_min(slot, tokens) <= slot_hash(slot, #[trigger] tokens[i]),
        slot_min(slot, tokens) == u64::MAX || exists|i: int|
            0 <= i < tokens.len() && slot_min(slot, tokens) == slot_hash(slot, #[trigger] tokens[i]),
    decreases tokens.len(),
{
    if tokens.len() > 0 {
        let init = tokens.drop_last();
        lemma_slot_min(slot, init);
        assert forall|i: int| 0 <= i < tokens.len() implies slot_min(slot, tokens) <= slot_hash(
            slot,
            #[trigger] tokens[i],
        ) by {
            if i < init.len() {
                assert(init[i] == tokens[i]);
            }
        }
        if slot_min(slot, tokens) == slot_hash(slot, tokens.last()) {
            assert(slot_min(slot, tokens) == slot_hash(slot, tokens[tokens.len() - 1]));
        } else if slot_min(slot, init) != u64::MAX {
            let i = choose|i: int|
                0 <= i < init.len() && slot_min(slot, init) == slot_hash(slot, #[trigger] init[i]);
            assert(tokens[i] == init[i]);
        }
    }
}

/// Every token of `a` is one of `b`.
pub open spec fn within(a: Seq<Seq<char>>, b: Seq<Seq<char>>) -> bool {
    forall|i: int| 0 <= i < a.len() ==> b.contains(#[trigger] a[i])
}

/// More tokens can only lower a hash.
proof fn lemma_slot_min_within(slot: int, a: Seq<Seq<char>>, b: Seq<Seq<char>>)
    requires
        within(a, b),
    ensures
        slot_min(slot, b) <= slot_min(slot, a),
{
    lemma_slot_min(slot, a);
    lemma_slot_min(slot, b);
    if slot_min(slot, a) != u64::MAX {
        let i = choose|i: int|
            0 <= i < a.len() && slot_min(slot, a) == slot_hash(slot, #[trigger] a[i]);
        assert(b.contains(a[i]));
        let j = choose|j: int| 0 <= j < b.len() && b[j] == a[i];
        assert(slot_min(slot, b) <= slot_hash(slot, b[j]));
    }
}

/// A signature depends on the set of tokens alone: neither their order nor
/// their repetitions matter.
pub proof fn law_signature_of_token_set(a: Seq<Seq<char>>, b: Seq<Seq<char>>, k: nat)
    requires
        within(a, b),
        within(b, a),
    ensures
        signature(a, k) == signature(b, k),
{
    assert forall|i: int| 0 <= i < k implies signature(a, k)[i] == signature(b, k)[i] by {
        lemma_slot_min_within(i, a, b);
        lemma_slot_min_within(i, b, a);
    }
    assert(signature(a, k) =~= signature(b, k));
}

/// The estimate does not depend on which text comes first.
pub proof fn law_estimate_symmetric(a: Seq<u64>, b: Seq<u64>, r: Ratio)
    ensures
        is_estimate(a, b, r) == is_estimate(b, a, r),
{
    lemma_agreements_symmetric(a, b, common_len(a, b));
}

proof fn lemma_agreements_symmetric(a: Seq<u64>, b: Seq<u64>, k: int)
    ensures
        agreements(a, b, k) == agreements(b, a, k),
    decreases k,
{
    if k > 0 {
        lemma_agreements_symmetric(a, b, k - 1);
    }
}

proof fn lemma_agreements_self(a: Seq<u64>, k: int)
    requires
        0 <= k,
    ensures
        agreements(a, a, k) == k,
    decreases k,
{
    if k > 0 {
        lemma_agreements_self(a, k - 1);
    }
}

/// A text is fully similar to itself, unless it left no trace in its signature.
pub proof fn law_same_signature_is_alike(a: Seq<u64>, r: Ratio)
    requires
        !is_blank(a),
        is_estimate(a, a, r),
    ensures
        r.num == r.den,
{
    lemma_agreements_self(a, a.len() as int);
}

/// Texts without tokens are not alike at all.
pub proof fn law_no_tokens_are_not_alike(k: nat, r: Ratio)
    requires
        is_estimate(
            signature(Seq::<Seq<char>>::empty(), k),
            signature(Seq::<Seq<char>>::empty(), k),
            r,
        ),
    ensures
        r.num == 0,
{
}

/// Tokens added to one of two texts, the vocabulary of the other being among
/// its own already, do not make them more alike.
pub proof fn law_added_tokens_do_not_add_agreements(
    base: Seq<Seq<char>>,
    fewer: Seq<Seq<char>>,
    more: Seq<Seq<char>>,
    k: nat,
)
    requires
        within(base, fewer),
        within(fewer, more),
    ensures
        agreements(signature(base, k), signature(more, k), k as int) <= agreements(
            signature(base, k),
            signature(fewer, k),
            k as int,
        ),
{
    lemma_fewer_agreements(base, fewer, more, k, k as int);
}

proof fn lemma_fewer_agreements(
    base: Seq<Seq<char>>,
    fewer: Seq<Seq<char>>,
    more: Seq<Seq<char>>,
    k: nat,
    n: int,
)
    requires
        within(base, fewer),
        within(fewer, more),
        0 <= n <= k,
    ensures
        agreements(signature(base, k), signature(more, k), n) <= agreements(
            signature(base, k),
            signature(fewer, k),
            n,
        ),
    decreases n,
{
    if n > 0 {
        lemma_fewer_agreements(base, fewer, more, k, n - 1);
        lemma_slot_min_within(n - 1, base, fewer);
        lemma_slot_min_within(n - 1, fewer, more);
    }
}

/// Agreements are counted place by place.
proof fn lemma_agreements_are_counted(a: Seq<u64>, b: Seq<u64>, k: int)
    requires
        0 <= k,
    ensures
        Set::new(|i: int| 0 <= i < k && a[i] == b[i]).finite(),
        agreements(a, b, k) == Set::new(|i: int| 0 <= i < k && a[i] == b[i]).len(),
    decreases k,
{
    let all = Set::new(|i: int| 0 <= i < k && a[i] == b[i]);
    if k == 0 {
        assert(all =~= Set::empty());
    } else {
        lemma_agreements_are_counted(a, b, k - 1);
        let before = Set::new(|i: int| 0 <= i < k - 1 && a[i] == b[i]);
        if a[k - 1] == b[k - 1] {
            assert(all =~= before.insert(k - 1));
        } else {
            assert(all =~= before);
        }
    }
}

/// How alike two texts are is the share of the places, over the length of the
/// shorter signature, in which the two have the same hash. Two signatures without
/// a trace of a token, or one without hashes, share nothing.
pub proof fn law_estimate_is_the_share_of_equal_hashes(a: Seq<u64>, b: Seq<u64>, r: Ratio)
    requires
        is_estimate(a, b, r),
    ensures
        ({
            let k = if a.len() < b.len() {
                a.len() as int
            } else {
                b.len() as int
            };
            let traced = (exists|i: int| 0 <= i < a.len() && #[trigger] a[i] != u64::MAX) || (exists|
                i: int,
            | 0 <= i < b.len() && #[trigger] b[i] != u64::MAX);
            &&& k > 0 && traced ==> r.den == k && r.num == Set::new(
                |i: int| 0 <= i < k && a[i] == b[i],
            ).len()
            &&& k == 0 || !traced ==> r.num == 0
        }),
{
    let k = common_len(a, b);
    lemma_agreements_are_counted(a, b, k);
}

/// Each hash of a signature is that of a token with the seed of its place, and no
/// token has a lesser one; without tokens it is the greatest number there is.
pub proof fn law_signature_holds_the_least_hashes(tokens: Seq<Seq<char>>, k: nat, i: int)
    requires
        0 <= i < k,
    ensures
        signature(tokens, k).len() == k,
        tokens.len() == 0 ==> signature(tokens, k)[i] == u64::MAX,
        forall|t: int|
            0 <= t < tokens.len() ==> signature(tokens, k)[i] <= slot_hash(i, #[trigger] tokens[t]),
        signature(tokens, k)[i] != u64::MAX ==> exists|t: int|
            0 <= t < tokens.len() && signature(tokens, k)[i] == slot_hash(i, #[trigger] tokens[t]),
{
    lemma_slot_min(i, tokens);
}

/// The hash of a token with a seed is that of the seed, all bytes of the token and
/// the byte that ends a string.
pub proof fn law_slot_hash_is_of_seed_and_token(slot: u64, token: Seq<char>)
    ensures
        slot_hash(slot as int, token) == DefaultHasher::spec_finish(
            seq![
                bytes::spec_u64_to_le_bytes(slot),
                vstd::utf8::encode_utf8(token),
                seq![0xffu8],
            ],
        ),
{
    assert(seq![bytes::spec_u64_to_le_bytes(slot)] + text::str_writes(token) =~= seq![
        bytes::spec_u64_to_le_bytes(slot),
        vstd::utf8::encode_utf8(token),
        seq![0xffu8],
    ]);
}

/// Two texts with the same vocabulary are fully alike unless no token left a
/// trace, and however alike two texts are, it is counted out of the 128 places of
/// their signatures.
pub proof fn law_texts_are_alike_by_vocabulary(
    a: &str,
    b: &str,
    x: MinHash,
    y: MinHash,
    r: Ratio,
)
    requires
        call_ensures(MinHash::from_text, (a,), x),
        call_ensures(MinHash::from_text, (b,), y),
        call_ensures(MinHash::jaccard, (&x, &y), r),
    ensures
        x@.len() == 128,
        y@.len() == 128,
        forall|i: int, t: int|
            0 <= i < 128 && 0 <= t < text::tokens(a@).len() ==> x@[i] <= #[trigger] slot_hash(
                i,
                text::tokens(a@)[t],
            ),
        text::tokens(a@).len() == 0 && text::tokens(b@).len() == 0 ==> r.num == 0,
        text::tokens(a@).to_set() == text::tokens(b@).to_set() ==> r.num == 0 || (r.num == 128
            && r.den == 128),
        r.num > 0 ==> r.den == 128 && r.num == Set::new(|i: int| 0 <= i < 128 && x@[i] == y@[i]).len(),
{
    law_estimate_is_the_share_of_equal_hashes(x@, y@, r);
    assert forall|i: int, t: int|
        0 <= i < 128 && 0 <= t < text::tokens(a@).len() implies x@[i] <= #[trigger] slot_hash(
        i,
        text::tokens(a@)[t],
    ) by {
        law_signature_holds_the_least_hashes(text::tokens(a@), 128, i);
    }
    if text::tokens(a@).len() == 0 && text::tokens(b@).len() == 0 {
        assert forall|i: int| 0 <= i < 128 implies x@[i] == u64::MAX && y@[i] == u64::MAX by {
            law_signature_holds_the_least_hashes(text::tokens(a@), 128, i);
            law_signature_holds_the_least_hashes(text::tokens(b@), 128, i);
        }
    }
    if text::tokens(a@).to_set() == text::tokens(b@).to_set() {
        assert forall|i: int|
            #![trigger text::tokens(a@)[i]]
            0 <= i < text::tokens(a@).len() implies text::tokens(b@).contains(text::tokens(a@)[i]) by {
            assert(text::tokens(a@).to_set().contains(text::tokens(a@)[i]));
        }
        assert forall|i: int|
            #![trigger text::tokens(b@)[i]]
            0 <= i < text::tokens(b@).len() implies text::tokens(a@).contains(text::tokens(b@)[i]) by {
            assert(text::tokens(b@).to_set().contains(text::tokens(b@)[i]));
        }
        law_signature_of_token_set(text::tokens(a@), text::tokens(b@), 128);
        if !is_blank(x@) {
            law_same_signature_is_alike(x@, r);
        }
    }
}

} // verus!
