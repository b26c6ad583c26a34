use std::collections::hash_map::DefaultHasher;
use std::collections::HashSet;
use std::hash::Hasher;
use vstd::prelude::*;
use vstd::std_specs::hash::DefaultHasherAdditionalSpecFns;
use vstd::utf8;

verus! {

/// Shortest token, in characters, that takes part in the index.
pub const MIN_TOKEN_LEN: usize = 3;

/// `String::push`: appends one character.
pub assume_specification[ String::push ](s: &mut String, c: char)
    ensures
        final(s)@ == old(s)@.push(c),
;

/// A character that belongs to a word, `[A-Za-z0-9_]`; every other one separates
/// words.
pub open spec fn is_word(c: char) -> bool {
    ('a' <= c && c <= 'z') || ('A' <= c && c <= 'Z') || ('0' <= c && c <= '9') || c == '_'
}

/// The small form of an ASCII letter; any other character stays.
pub open spec fn small(c: char) -> char {
    if 'A' <= c && c <= 'Z' {
        ((c as u8) + 32) as u8 as char
    } else {
        c
    }
}

/// `s` in small letters.
pub open spec fn in_small(s: Seq<char>) -> Seq<char> {
    s.map_values(|c: char| small(c))
}

/// All characters of `s` are ASCII.
pub open spec fn is_ascii(s: Seq<char>) -> bool {
    forall|i: int| 0 <= i < s.len() ==> (#[trigger] s[i] as int) < 0x80
}

/// What `str::to_lowercase` makes of the characters `s`.
pub uninterp spec fn lowercase(s: Seq<char>) -> Seq<char>;

/// `str::to_lowercase`: the result depends on the characters of the string
/// alone; of ASCII text it is the text in small letters.
pub assume_specification[ str::to_lowercase ](s: &str) -> (r: String)
    ensures
        r@ == lowercase(s@),
        is_ascii(s@) ==> r@ == in_small(s@),
;

/// The pieces of `text` between separators, empty pieces included.
pub open spec fn pieces(text: Seq<char>) -> Seq<Seq<char>>
    decreases text.len(),
{
    if text.len() == 0 {
        seq![Seq::<char>::empty()]
    } else {
        let before = pieces(text.drop_last());
        if is_word(text.last()) {
            before.drop_last().push(before.last().push(text.last()))
        } else {
            before.push(Seq::<char>::empty())
        }
    }
}

/// The pieces long enough to be tokens, in small letters and in order.
pub open spec fn kept(parts: Seq<Seq<char>>) -> Seq<Seq<char>>
    decreases parts.len(),
{
    if parts.len() == 0 {
        Seq::empty()
    } else {
        let before = kept(parts.drop_last());
        if parts.last().len() >= MIN_TOKEN_LEN {
            before.push(in_small(parts.last()))
        } else {
            before
        }
    }
}

/// The tokens of `text` in order, repetitions included.
pub open spec fn tokens(text: Seq<char>) -> Seq<Seq<char>> {
    kept(pieces(text))
}

/// The bytes a hasher is fed for one string: its UTF-8 form and a terminator.
pub open spec fn str_writes(s: Seq<char>) -> Seq<Seq<u8>> {
    seq![utf8::encode_utf8(s), seq![0xffu8]]
}

/// The 64-bit hash of one token.
pub open spec fn token_hash(s: Seq<char>) -> u64 {
    DefaultHasher::spec_finish(str_writes(s))
}

/// The token hashes of `text` in order, repetitions included.
pub open spec fn token_hashes(text: Seq<char>) -> Seq<u64> {
    tokens(text).map_values(|t: Seq<char>| token_hash(t))
}

/// The distinct values of `s`, each at the place of its first occurrence.
pub open spec fn unique(s: Seq<u64>) -> Seq<u64>
    decreases s.len(),
{
    if s.len() == 0 {
        Seq::empty()
    } else {
        let before = unique(s.drop_last());
        if s.drop_last().contains(s.last()) {
            before
        } else {
            before.push(s.last())
        }
    }
}

/// There is always a piece under construction.
pub proof fn lemma_pieces_nonempty(text: Seq<char>)
    ensures
        pieces(text).len() >= 1,
    decreases text.len(),
{
    if text.len() > 0 {
        lemma_pieces_nonempty(text.drop_last());
    }
}

/// `unique` keeps exactly the values of `s`, each once.
pub proof fn lemma_unique(s: Seq<u64>)
    ensures
        unique(s).no_duplicates(),
        forall|v: u64| #![auto] unique(s).contains(v) <==> s.contains(v),
        unique(s).len() <= s.len(),
    decreases s.len(),
{
    if s.len() > 0 {
        let init = s.drop_last();
        lemma_unique(init);
        assert(s =~= init.push(s.last()));
        assert forall|v: u64| #![auto] unique(s).contains(v) <==> s.contains(v) by {
            vstd::seq_lib::lemma_seq_contains_after_push(init, s.last(), v);
            vstd::seq_lib::lemma_seq_contains_after_push(unique(init), s.last(), v);
        }
    }
}

/// The pieces of a text in small letters are its pieces in small letters.
proof fn lemma_small_pieces(text: Seq<char>)
    ensures
        pieces(in_small(text)) == pieces(text).map_values(|p: Seq<char>| in_small(p)),
    decreases text.len(),
{
    let all = pieces(text).map_values(|p: Seq<char>| in_small(p));
    if text.len() == 0 {
        assert(in_small(text) =~= text);
        assert(in_small(Seq::<char>::empty()) =~= Seq::<char>::empty());
        assert(all =~= pieces(text));
    } else {
        let init = text.drop_last();
        lemma_small_pieces(init);
        lemma_pieces_nonempty(init);
        assert(in_small(text).drop_last() =~= in_small(init));
        let before = pieces(init);
        if is_word(text.last()) {
            assert(in_small(before.last().push(text.last())) =~= in_small(before.last()).push(
                small(text.last()),
            ));
        } else {
            assert(in_small(Seq::<char>::empty()) =~= Seq::<char>::empty());
        }
        assert(pieces(in_small(text)) =~= all);
    }
}

/// Small letters stay small.
proof fn lemma_small_kept(parts: Seq<Seq<char>>)
    ensures
        kept(parts.map_values(|p: Seq<char>| in_small(p))) == kept(parts),
    decreases parts.len(),
{
    if parts.len() > 0 {
        let init = parts.drop_last();
        lemma_small_kept(init);
        assert(parts.map_values(|p: Seq<char>| in_small(p)).drop_last() =~= init.map_values(
            |p: Seq<char>| in_small(p),
        ));
        assert(in_small(in_small(parts.last())) =~= in_small(parts.last()));
    } else {
        assert(parts.map_values(|p: Seq<char>| in_small(p)) =~= parts);
    }
}

/// The case of letters does not matter: a text in small letters has the tokens
/// of the text.
pub proof fn law_tokens_ignore_case(text: Seq<char>)
    ensures
        tokens(in_small(text)) == tokens(text),
{
    lemma_small_pieces(text);
    lemma_small_kept(pieces(text));
}

/// The characters of `s`.
pub fn chars_of(s: &str) -> (r: Vec<char>)
    ensures
        r@ == s@,
{
    let mut out: Vec<char> = Vec::new();
    for c in it: s.chars()
        invariant
            out@ == s@.take(it.index()),
            it.seq() == s@,
    {
        out.push(c);
        assert(s@.take(it.index() + 1) =~= s@.take(it.index()).push(c));
    }
    assert(s@.take(s@.len() as int) =~= s@);
    out
}

/// The characters from `from` up to `to` as a string.
pub fn string_of(chars: &Vec<char>, from: usize, to: usize) -> (r: String)
    requires
        from <= to <= chars.len(),
    ensures
        r@ == chars@.subrange(from as int, to as int),
{
    let mut out: String = String::new();
    let mut i: usize = from;
    while i < to
        invariant
            from <= i <= to <= chars.len(),
            out@ == chars@.subrange(from as int, i as int),
        decreases to - i,
    {
        out.push(chars[i]);
        i = i + 1;
        assert(chars@.subrange(from as int, i as int) =~= chars@.subrange(
            from as int,
            i - 1,
        ).push(chars@[i - 1]));
    }
    out
}

/// Whether two strings hold the same characters.
pub fn same_text(a: &str, b: &str) -> (r: bool)
    ensures
        r == (a@ == b@),
{
    let x: &[u8] = a.as_bytes();
    let y: &[u8] = b.as_bytes();
    if x.len() != y.len() {
        return false;
    }
    let mut i: usize = 0;
    while i < x.len()
        invariant
            i <= x.len(),
            x.len() == y.len(),
            x@ == utf8::encode_utf8(a@),
            y@ == utf8::encode_utf8(b@),
            forall|k: int| 0 <= k < i ==> x@[k] == y@[k],
        decreases x.len() - i,
    {
        if x[i] != y[i] {
            return false;
        }
        i = i + 1;
    }
    proof {
        assert(x@ =~= y@);
        utf8::encode_utf8_decode_utf8(a@);
        utf8::encode_utf8_decode_utf8(b@);
    }
    true
}

/// `kept` of one more piece.
proof fn lemma_kept_push(parts: Seq<Seq<char>>, p: Seq<char>)
    ensures
        kept(parts.push(p)) == if p.len() >= MIN_TOKEN_LEN {
            kept(parts).push(in_small(p))
        } else {
            kept(parts)
        },
{
    assert(parts.push(p).drop_last() =~= parts);
}

/// Whether `c` belongs to a word.
fn in_word(c: char) -> (r: bool)
    ensures
        r == is_word(c),
{
    ('a' <= c && c <= 'z') || ('A' <= c && c <= 'Z') || ('0' <= c && c <= '9') || c == '_'
}

/// The small form of an ASCII letter.
fn to_small(c: char) -> (r: char)
    ensures
        r == small(c),
{
    if 'A' <= c && c <= 'Z' {
        ((c as u8) + 32) as char
    } else {
        c
    }
}

/// The string of `chars` in small letters.
fn small_string(chars: &Vec<char>) -> (r: String)
    ensures
        r@ == in_small(chars@),
{
    let mut out: String = String::new();
    let mut i: usize = 0;
    while i < chars.len()
        invariant
            i <= chars.len(),
            out@ == in_small(chars@.take(i as int)),
        decreases chars.len() - i,
    {
        out.push(to_small(chars[i]));
        i = i + 1;
        assert(out@ =~= in_small(chars@.take(i as int)));
    }
    assert(chars@.take(chars@.len() as int) =~= chars@);
    out
}

/// Appends the token that `piece` makes, if it is long enough to make one.
fn keep_piece(out: &mut Vec<String>, piece: &Vec<char>, Ghost(parts): Ghost<Seq<Seq<char>>>)
    requires
        old(out)@.map_values(|t: String| t@) == kept(parts),
    ensures
        final(out)@.map_values(|t: String| t@) == kept(parts.push(piece@)),
{
    proof {
        lemma_kept_push(parts, piece@);
    }
    if piece.len() >= MIN_TOKEN_LEN {
        let ghost before = out@;
        out.push(small_string(piece));
        assert(out@.map_values(|t: String| t@) =~= before.map_values(|t: String| t@).push(
            in_small(piece@),
        ));
    }
}

/// The tokens of `text`: maximal runs of word characters of at least
/// `MIN_TOKEN_LEN` characters, in small letters, in order and with repetitions.
pub fn words(text: &str) -> (r: Vec<String>)
    ensures
        r@.map_values(|t: String| t@) == tokens(text@),
{
    let mut out: Vec<String> = Vec::new();
    let mut piece: Vec<char> = Vec::new();
    let chars: Vec<char> = chars_of(text);
    let mut i: usize = 0;
    assert(kept(Seq::<Seq<char>>::empty()) =~= Seq::<Seq<char>>::empty());
    assert(pieces(chars@.take(0)).drop_last() =~= Seq::<Seq<char>>::empty());
    assert(out@.map_values(|t: String| t@) =~= Seq::<Seq<char>>::empty());
    while i < chars.len()
        invariant
            i <= chars.len(),
            chars@ == text@,
            out@.map_values(|t: String| t@) == kept(pieces(chars@.take(i as int)).drop_last()),
            pieces(chars@.take(i as int)).len() >= 1,
            piece@ == pieces(chars@.take(i as int)).last(),
        decreases chars.len() - i,
    {
        let c: char = chars[i];
        let ghost before = pieces(chars@.take(i as int));
        proof {
            assert(chars@.take(i + 1).drop_last() =~= chars@.take(i as int));
            lemma_pieces_nonempty(chars@.take(i + 1));
        }
        let ghost after = pieces(chars@.take(i + 1));
        if in_word(c) {
            piece.push(c);
            assert(after.drop_last() =~= before.drop_last());
        } else {
            keep_piece(&mut out, &piece, Ghost(before.drop_last()));
            assert(before.drop_last().push(before.last()) =~= before);
            assert(after.drop_last() =~= before);
            piece = Vec::new();
        }
        i = i + 1;
    }
    let ghost all = pieces(text@);
    assert(chars@.take(chars@.len() as int) =~= text@);
    keep_piece(&mut out, &piece, Ghost(all.drop_last()));
    assert(all.drop_last().push(all.last()) =~= all);
    out
}

/// Hash of one string, its bytes followed by the terminator.
pub fn hash_token(s: &str) -> (r: u64)
    ensures
        r == token_hash(s@),
{
    let mut h: DefaultHasher = DefaultHasher::new();
    h.write(s.as_bytes());
    let end: [u8; 1] = [0xff];
    h.write(&end);
    assert(h@ =~= str_writes(s@)) by {
        assert(end@ =~= seq![0xffu8]);
    }
    h.finish()
}

/// The token hashes of `text`, in order and with repetitions: term
/// frequencies need the repetitions.
pub fn tokenize(text: &str) -> (r: Vec<u64>)
    ensures
        r@ == token_hashes(text@),
{
    let list: Vec<String> = words(text);
    let ghost all = tokens(text@);
    let mut out: Vec<u64> = Vec::new();
    let mut i: usize = 0;
    while i < list.len()
        invariant
            i <= list.len(),
            all == list@.map_values(|t: String| t@),
            out@ == all.take(i as int).map_values(|t: Seq<char>| token_hash(t)),
        decreases list.len() - i,
    {
        assert(all[i as int] == list@[i as int]@);
        out.push(hash_token(list[i].as_str()));
        i = i + 1;
        assert(out@ =~= all.take(i as int).map_values(|t: Seq<char>| token_hash(t)));
    }
    assert(all.take(all.len() as int) =~= all);
    out
}

/// The distinct values of `values`, in order of first occurrence.
pub fn distinct(values: &Vec<u64>) -> (r: Vec<u64>)
    ensures
        r@ == unique(values@),
{
    broadcast use vstd::std_specs::hash::group_hash_axioms;

    let mut seen: HashSet<u64> = HashSet::new();
    let mut out: Vec<u64> = Vec::new();
    let mut i: usize = 0;
    while i < values.len()
        invariant
            i <= values.len(),
            out@ == unique(values@.take(i as int)),
            forall|v: u64| #![auto] seen@.contains(v) <==> values@.take(i as int).contains(v),
        decreases values.len() - i,
    {
        let v: u64 = values[i];
        let ghost before = values@.take(i as int);
        assert(values@.take(i + 1).drop_last() =~= before);
        if seen.insert(v) {
            out.push(v);
        }
        proof {
            assert(values@.take(i + 1) =~= before.push(v));
            assert forall|w: u64| #![auto] seen@.contains(w) <==> values@.take(i + 1).contains(
                w,
            ) by {
                vstd::seq_lib::lemma_seq_contains_after_push(before, v, w);
            }
        }
        i = i + 1;
    }
    assert(values@.take(values@.len() as int) =~= values@);
    out
}

/// The distinct token hashes of `text`, in order of first occurrence.
pub fn unique_token_hashes(text: &str) -> (r: Vec<u64>)
    ensures
        r@ == unique(token_hashes(text@)),
{
    let all: Vec<u64> = tokenize(text);
    distinct(&all)
}

/// The stretches of `text` between line feeds, the last one included even
/// when it is empty.
pub open spec fn rows(text: Seq<char>) -> Seq<Seq<char>>
    decreases text.len(),
{
    if text.len() == 0 {
        seq![Seq::<char>::empty()]
    } else {
        let before = rows(text.drop_last());
        if text.last() == '\n' {
            before.push(Seq::<char>::empty())
        } else {
            before.drop_last().push(before.last().push(text.last()))
        }
    }
}

/// A row without the carriage return that belonged to its line feed.
pub open spec fn without_return(row: Seq<char>) -> Seq<char> {
    if row.len() > 0 && row.last() == '\r' {
        row.drop_last()
    } else {
        row
    }
}

/// The lines of `text`: every row ended by a line feed, without its ending,
/// and what follows the last line feed unless it is empty.
pub open spec fn lines(text: Seq<char>) -> Seq<Seq<char>> {
    let all = rows(text);
    let ended = all.drop_last().map_values(|r: Seq<char>| without_return(r));
    if all.last().len() > 0 {
        ended.push(all.last())
    } else {
        ended
    }
}

/// The texts of `list`, one per line.
pub open spec fn joined_lines(list: Seq<Seq<char>>) -> Seq<char>
    decreases list.len(),
{
    if list.len() == 0 {
        Seq::empty()
    } else if list.len() == 1 {
        list[0]
    } else {
        joined_lines(list.drop_last()).push('\n') + list.last()
    }
}

/// The texts of `list`.
pub open spec fn texts(list: Seq<String>) -> Seq<Seq<char>> {
    list.map_values(|s: String| s@)
}

/// The lines of `text`.
pub fn split_lines(text: &str) -> (r: Vec<String>)
    ensures
        texts(r@) == lines(text@),
{
    let chars: Vec<char> = chars_of(text);
    let mut out: Vec<String> = Vec::new();
    let mut start: usize = 0;
    let mut i: usize = 0;
    assert(texts(out@) =~= rows(chars@.take(0)).drop_last().map_values(
        |r: Seq<char>| without_return(r),
    ));
    while i < chars.len()
        invariant
            start <= i <= chars.len(),
            chars@ == text@,
            rows(chars@.take(i as int)).len() >= 1,
            rows(chars@.take(i as int)).last() == chars@.subrange(start as int, i as int),
            texts(out@) == rows(chars@.take(i as int)).drop_last().map_values(
                |r: Seq<char>| without_return(r),
            ),
        decreases chars.len() - i,
    {
        let ghost before = rows(chars@.take(i as int));
        assert(chars@.take(i + 1).drop_last() =~= chars@.take(i as int));
        let ghost after = rows(chars@.take(i + 1));
        if chars[i] == '\n' {
            let end: usize = if start < i && chars[i - 1] == '\r' {
                i - 1
            } else {
                i
            };
            let line: String = string_of(&chars, start, end);
            let ghost prior = out@;
            out.push(line);
            proof {
                let row = chars@.subrange(start as int, i as int);
                if start < i {
                    assert(row.last() == chars@[i - 1]);
                }
                assert(line@ =~= without_return(row));
                assert(after.drop_last() =~= before);
                assert(before =~= before.drop_last().push(before.last()));
                assert(texts(out@) =~= texts(prior).push(line@));
                assert(texts(out@) =~= after.drop_last().map_values(
                    |r: Seq<char>| without_return(r),
                ));
            }
            start = i + 1;
            assert(chars@.subrange(start as int, i + 1) =~= Seq::<char>::empty());
        } else {
            assert(after.drop_last() =~= before.drop_last());
            assert(chars@.subrange(start as int, i + 1) =~= chars@.subrange(
                start as int,
                i as int,
            ).push(chars@[i as int]));
        }
        i = i + 1;
    }
    assert(chars@.take(chars@.len() as int) =~= text@);
    if start < chars.len() {
        let ghost prior = out@;
        out.push(string_of(&chars, start, chars.len()));
        assert(texts(out@) =~= texts(prior).push(rows(text@).last()));
    }
    out
}

/// The texts of `list[from..to]`, one per line.
pub fn join_lines(list: &Vec<String>, from: usize, to: usize) -> (r: String)
    requires
        from <= to <= list.len(),
    ensures
        r@ == joined_lines(texts(list@).subrange(from as int, to as int)),
{
    let mut out: String = String::new();
    let mut i: usize = from;
    while i < to
        invariant
            from <= i <= to <= list.len(),
            out@ == joined_lines(texts(list@).subrange(from as int, i as int)),
        decreases to - i,
    {
        let ghost part = texts(list@).subrange(from as int, i + 1);
        assert(part.drop_last() =~= texts(list@).subrange(from as int, i as int));
        assert(part.last() == list@[i as int]@);
        if i > from {
            out.push('\n');
        }
        out.append(list[i].as_str());
        proof {
            if i == from {
                assert(out@ =~= part[0]);
            }
        }
        i = i + 1;
    }
    out
}

/// Among the distinct values of a list, one that stands earlier occurs earlier in
/// the list.
pub proof fn lemma_unique_order(s: Seq<u64>, i: int, j: int)
    requires
        0 <= i < j < unique(s).len(),
    ensures
        exists|k: int|
            #![trigger s[k]]
            0 <= k < s.len() && s[k] == unique(s)[i] && forall|m: int|
                0 <= m <= k ==> s[m] != unique(s)[j],
    decreases s.len(),
{
    let init = s.drop_last();
    let before = unique(init);
    if j < before.len() {
        lemma_unique_order(init, i, j);
        let k = choose|k: int|
            #![trigger init[k]]
            0 <= k < init.len() && init[k] == before[i] && forall|m: int|
                0 <= m <= k ==> init[m] != before[j];
        assert(s[k] == init[k]);
        assert forall|m: int| 0 <= m <= k implies s[m] != unique(s)[j] by {
            assert(s[m] == init[m]);
        }
    } else {
        lemma_unique(init);
        assert(before.contains(before[i]));
        assert(init.contains(before[i]));
        let k = choose|k: int| 0 <= k < init.len() && init[k] == before[i];
        assert(s[k] == unique(s)[i]);
        assert forall|m: int| 0 <= m <= k implies s[m] != unique(s)[j] by {
            if s[m] == s.last() {
                assert(init[m] == s.last());
            }
        }
    }
}

/// A text without line feeds is one row.
proof fn lemma_one_row(a: Seq<char>)
    requires
        forall|i: int| 0 <= i < a.len() ==> a[i] != '\n',
    ensures
        rows(a) == seq![a],
    decreases a.len(),
{
    if a.len() > 0 {
        let init = a.drop_last();
        assert forall|i: int| 0 <= i < init.len() implies init[i] != '\n' by {
            assert(init[i] == a[i]);
        }
        lemma_one_row(init);
        assert(a[a.len() - 1] != '\n');
        assert(init.push(a.last()) =~= a);
        assert(rows(a) =~= seq![a]);
    } else {
        assert(a =~= Seq::<char>::empty());
    }
}

/// A line feed ends a row.
proof fn lemma_row_ends(a: Seq<char>, b: Seq<char>)
    requires
        forall|i: int| 0 <= i < a.len() ==> a[i] != '\n',
    ensures
        rows(a.push('\n') + b) == seq![a] + rows(b),
        rows(b).len() >= 1,
    decreases b.len(),
{
    let all = a.push('\n') + b;
    if b.len() == 0 {
        lemma_one_row(a);
        assert(all =~= a.push('\n'));
        assert(all.drop_last() =~= a);
        assert(rows(all) =~= seq![a] + rows(b));
    } else {
        let init = b.drop_last();
        lemma_row_ends(a, init);
        assert(all.drop_last() =~= a.push('\n') + init);
        assert(all.last() == b.last());
        let before = rows(init);
        assert((seq![a] + before).drop_last() =~= seq![a] + before.drop_last());
        assert((seq![a] + before).last() == before.last());
        assert(rows(all) =~= seq![a] + rows(b));
    }
}

/// A line goes up to its line feed, and loses the carriage return before it; what
/// follows is made of lines in the same way.
pub proof fn law_a_line_feed_ends_a_line(a: Seq<char>, b: Seq<char>)
    requires
        forall|i: int| 0 <= i < a.len() ==> a[i] != '\n',
    ensures
        lines(a.push('\n') + b) == seq![
            if a.len() > 0 && a[a.len() - 1] == '\r' {
                a.take(a.len() - 1)
            } else {
                a
            },
        ] + lines(b),
{
    lemma_row_ends(a, b);
    let all = rows(a.push('\n') + b);
    let rest = rows(b);
    assert(all.last() == rest.last());
    assert(all.drop_last() =~= seq![a] + rest.drop_last());
    if a.len() > 0 {
        assert(a.take(a.len() - 1) =~= a.drop_last());
    }
    assert(lines(a.push('\n') + b) =~= seq![without_return(a)] + lines(b));
}

/// What follows the last line feed is a line unless there is nothing.
pub proof fn law_the_last_line_may_lack_a_line_feed(a: Seq<char>)
    requires
        forall|i: int| 0 <= i < a.len() ==> a[i] != '\n',
    ensures
        a.len() == 0 ==> lines(a).len() == 0,
        a.len() > 0 ==> lines(a) == seq![a],
{
    lemma_one_row(a);
    let none = rows(a).drop_last().map_values(|r: Seq<char>| without_return(r));
    assert(none =~= Seq::<Seq<char>>::empty());
    assert(a.len() > 0 ==> lines(a) =~= seq![a]);
}

/// Lines are joined by line feeds, without one at the end.
pub proof fn law_lines_are_joined_by_line_feeds(list: Seq<Seq<char>>, x: Seq<char>)
    ensures
        joined_lines(Seq::empty()) == Seq::<char>::empty(),
        joined_lines(seq![x]) == x,
        list.len() > 0 ==> joined_lines(list.push(x)) == joined_lines(list) + seq!['\n'] + x,
{
    let all = list.push(x);
    if list.len() > 0 {
        assert(all.drop_last() =~= list);
        assert(joined_lines(list).push('\n') =~= joined_lines(list) + seq!['\n']);
    }
}

/// A stretch of letters, digits and underscores of the ASCII alphabet that no
/// further such character adjoins.
pub open spec fn is_whole_word(s: Seq<char>, from: int, to: int) -> bool {
    &&& 0 <= from < to <= s.len()
    &&& forall|i: int| from <= i < to ==> in_alphabet(#[trigger] s[i])
    &&& from > 0 ==> !in_alphabet(s[from - 1])
    &&& to < s.len() ==> !in_alphabet(s[to])
}

/// One of `a` to `z`, `A` to `Z`, `0` to `9`, and `_`.
pub open spec fn in_alphabet(c: char) -> bool {
    ||| 0x61 <= c as int <= 0x7a
    ||| 0x41 <= c as int <= 0x5a
    ||| 0x30 <= c as int <= 0x39
    ||| c as int == 0x5f
}

/// `t` is the stretch of `s` from `from` to `to`, with small letters in place of
/// capital ones.
pub open spec fn is_small_stretch(s: Seq<char>, from: int, to: int, t: Seq<char>) -> bool {
    &&& t.len() == to - from
    &&& forall|i: int|
        #![trigger t[i]]
        0 <= i < t.len() ==> t[i] as int == s[from + i] as int + if 0x41 <= s[from + i] as int
            <= 0x5a {
            32int
        } else {
            0
        }
}

/// The stretches that the pieces of a text are.
proof fn lemma_piece_spans(s: Seq<char>) -> (at: Seq<(int, int)>)
    ensures
        at.len() == pieces(s).len(),
        at.len() >= 1,
        at[0].0 == 0,
        at.last().1 == s.len(),
        forall|k: int|
            #![trigger at[k]]
            0 <= k < at.len() ==> {
                &&& 0 <= at[k].0 <= at[k].1 <= s.len()
                &&& pieces(s)[k] == s.subrange(at[k].0, at[k].1)
                &&& forall|i: int| at[k].0 <= i < at[k].1 ==> is_word(#[trigger] s[i])
                &&& at[k].0 > 0 ==> !is_word(s[at[k].0 - 1])
                &&& at[k].1 < s.len() ==> !is_word(s[at[k].1])
            },
        forall|k: int, l: int|
            #![trigger at[k], at[l]]
            0 <= k < l < at.len() ==> at[k].1 < at[l].0,
        forall|i: int|
            #![trigger s[i]]
            0 <= i < s.len() && is_word(s[i]) ==> exists|k: int|
                #![trigger at[k]]
                0 <= k < at.len() && at[k].0 <= i < at[k].1,
    decreases s.len(),
{
    if s.len() == 0 {
        let at = seq![(0int, 0int)];
        assert(s.subrange(0, 0) =~= Seq::<char>::empty());
        at
    } else {
        let init = s.drop_last();
        let n = s.len() as int;
        let before = lemma_piece_spans(init);
        let m = before.len() as int;
        let at = if is_word(s.last()) {
            before.drop_last().push((before.last().0, n))
        } else {
            before.push((n, n))
        };
        assert forall|k: int| #![trigger at[k]] 0 <= k < at.len() implies {
            &&& 0 <= at[k].0 <= at[k].1 <= s.len()
            &&& pieces(s)[k] == s.subrange(at[k].0, at[k].1)
            &&& forall|i: int| at[k].0 <= i < at[k].1 ==> is_word(#[trigger] s[i])
            &&& at[k].0 > 0 ==> !is_word(s[at[k].0 - 1])
            &&& at[k].1 < s.len() ==> !is_word(s[at[k].1])
        } by {
            if k < m {
                let b = before[k];
                assert(init.subrange(b.0, b.1) =~= s.subrange(b.0, b.1));
                assert forall|i: int| b.0 <= i < b.1 implies is_word(#[trigger] s[i]) by {
                    assert(init[i] == s[i]);
                }
                if b.0 > 0 {
                    assert(init[b.0 - 1] == s[b.0 - 1]);
                }
                if b.1 < init.len() {
                    assert(init[b.1] == s[b.1]);
                }
                if k < m - 1 {
                    assert(before[k].1 < before[m - 1].0);
                } else if is_word(s.last()) {
                    assert(s.subrange(b.0, n) =~= init.subrange(b.0, n - 1).push(s.last()));
                }
            } else {
                assert(s.subrange(n, n) =~= Seq::<char>::empty());
            }
        }
        assert forall|k: int, l: int|
            #![trigger at[k], at[l]]
            0 <= k < l < at.len() implies at[k].1 < at[l].0 by {
            if l < m {
                assert(before[k].1 < before[l].0);
            }
        }
        assert forall|i: int| #![trigger s[i]] 0 <= i < s.len() && is_word(s[i]) implies exists|
            k: int,
        |
            #![trigger at[k]]
            0 <= k < at.len() && at[k].0 <= i < at[k].1 by {
            if i < n - 1 {
                assert(init[i] == s[i]);
                let k = choose|k: int|
                    #![trigger before[k]]
                    0 <= k < before.len() && before[k].0 <= i < before[k].1;
                assert(at[k].0 <= i < at[k].1);
            } else {
                assert(at[m - 1].0 <= i < at[m - 1].1);
            }
        }
        at
    }
}

/// Which pieces are kept.
proof fn lemma_kept_at(parts: Seq<Seq<char>>) -> (at: Seq<int>)
    ensures
        at.len() == kept(parts).len(),
        forall|k: int|
            #![trigger at[k]]
            0 <= k < at.len() ==> {
                &&& 0 <= at[k] < parts.len()
                &&& parts[at[k]].len() >= 3
                &&& kept(parts)[k] == in_small(parts[at[k]])
            },
        forall|k: int, l: int|
            #![trigger at[k], at[l]]
            0 <= k < l < at.len() ==> at[k] < at[l],
        forall|i: int|
            #![trigger parts[i]]
            0 <= i < parts.len() && parts[i].len() >= 3 ==> at.contains(i),
    decreases parts.len(),
{
    if parts.len() == 0 {
        Seq::empty()
    } else {
        let init = parts.drop_last();
        let before = lemma_kept_at(init);
        let n = parts.len() - 1;
        let at = if parts.last().len() >= 3 {
            before.push(n)
        } else {
            before
        };
        assert forall|k: int| #![trigger at[k]] 0 <= k < at.len() implies {
            &&& 0 <= at[k] < parts.len()
            &&& parts[at[k]].len() >= 3
            &&& kept(parts)[k] == in_small(parts[at[k]])
        } by {
            if k < before.len() {
                assert(at[k] == before[k]);
                assert(init[before[k]] == parts[before[k]]);
            }
        }
        assert forall|i: int|
            #![trigger parts[i]]
            0 <= i < parts.len() && parts[i].len() >= 3 implies at.contains(i) by {
            if i < n {
                assert(init[i] == parts[i]);
                assert(before.contains(i));
                let k = choose|k: int| 0 <= k < before.len() && before[k] == i;
                assert(at[k] == i);
            } else {
                assert(at[before.len() as int] == i);
            }
        }
        at
    }
}

/// The words of a character are those of the alphabet.
proof fn lemma_alphabet(c: char)
    ensures
        is_word(c) <==> in_alphabet(c),
        small(c) as int == c as int + if 0x41 <= c as int <= 0x5a {
            32int
        } else {
            0
        },
{
    if 'A' <= c && c <= 'Z' {
        assert(c as u8 as int == c as int);
    }
}

/// The tokens of a text are its whole words of three characters or more, in small
/// letters and as they stand, each as often as it occurs.
pub proof fn law_tokens_are_the_words(s: Seq<char>)
    ensures
        exists|at: Seq<(int, int)>|
            {
                &&& #[trigger] at.len() == tokens(s).len()
                &&& forall|k: int|
                    #![trigger at[k]]
                    0 <= k < at.len() ==> {
                        &&& is_whole_word(s, at[k].0, at[k].1)
                        &&& at[k].1 - at[k].0 >= 3
                        &&& is_small_stretch(s, at[k].0, at[k].1, tokens(s)[k])
                    }
                &&& forall|k: int, l: int|
                    #![trigger at[k], at[l]]
                    0 <= k < l < at.len() ==> at[k].1 < at[l].0
                &&& forall|i: int, j: int| #[trigger]
                    is_whole_word(s, i, j) && j - i >= 3 ==> at.contains((i, j))
            },
{
    let parts = pieces(s);
    let spans = lemma_piece_spans(s);
    let kept_at = lemma_kept_at(parts);
    let at = kept_at.map_values(|i: int| spans[i]);
    assert forall|c: char| #![trigger is_word(c)] is_word(c) <==> in_alphabet(c) by {
        lemma_alphabet(c);
    }
    assert forall|k: int| #![trigger at[k]] 0 <= k < at.len() implies {
        &&& is_whole_word(s, at[k].0, at[k].1)
        &&& at[k].1 - at[k].0 >= 3
        &&& is_small_stretch(s, at[k].0, at[k].1, tokens(s)[k])
    } by {
        let i = kept_at[k];
        let b = spans[i];
        assert(at[k] == b);
        assert(parts[i] == s.subrange(b.0, b.1));
        assert forall|j: int| b.0 <= j < b.1 implies in_alphabet(#[trigger] s[j]) by {
            assert(is_word(s[j]));
        }
        if b.0 > 0 {
            assert(!is_word(s[b.0 - 1]));
        }
        if b.1 < s.len() {
            assert(!is_word(s[b.1]));
        }
        let t = tokens(s)[k];
        assert forall|j: int| #![trigger t[j]] 0 <= j < t.len() implies t[j] as int == s[b.0
            + j] as int + if 0x41 <= s[b.0 + j] as int <= 0x5a {
            32int
        } else {
            0
        } by {
            lemma_alphabet(s[b.0 + j]);
            assert(t[j] == small(parts[i][j]));
        }
    }
    assert forall|k: int, l: int|
        #![trigger at[k], at[l]]
        0 <= k < l < at.len() implies at[k].1 < at[l].0 by {
        assert(kept_at[k] < kept_at[l]);
        assert(spans[kept_at[k]].1 < spans[kept_at[l]].0);
    }
    assert forall|i: int, j: int| #[trigger]
        is_whole_word(s, i, j) && j - i >= 3 implies at.contains((i, j)) by {
        assert(in_alphabet(s[i]));
        assert(is_word(s[i]));
        let k = choose|k: int|
            #![trigger spans[k]]
            0 <= k < spans.len() && spans[k].0 <= i < spans[k].1;
        let b = spans[k];
        assert(b.0 == i) by {
            if b.0 < i {
                assert(is_word(s[i - 1]));
            }
        }
        assert(b.1 == j) by {
            if b.1 < j {
                assert(in_alphabet(s[b.1]));
                assert(is_word(s[b.1]));
            }
            if j < b.1 {
                assert(is_word(s[j]));
            }
        }
        assert(parts[k].len() >= 3);
        assert(kept_at.contains(k));
        let m = choose|m: int| 0 <= m < kept_at.len() && kept_at[m] == k;
        assert(at[m] == (i, j));
    }
    assert(at.len() == tokens(s).len());
}

/// A token is looked up by the hash of all its bytes and of the byte that ends a
/// string, and a text by those of its tokens, one by one.
pub proof fn law_token_hashes_are_of_all_bytes(s: Seq<char>, i: int)
    requires
        0 <= i < tokens(s).len(),
    ensures
        token_hashes(s).len() == tokens(s).len(),
        token_hashes(s)[i] == DefaultHasher::spec_finish(
            seq![utf8::encode_utf8(tokens(s)[i]), seq![0xffu8]],
        ),
{
}

/// The words of a text are its whole words of three characters or more, in small
/// letters and as they stand, and the text is looked up by the hashes of their
/// bytes, one by one.
pub proof fn law_words_and_hashes(s: &str, r: Vec<String>, h: Vec<u64>)
    requires
        call_ensures(words, (s,), r),
        call_ensures(tokenize, (s,), h),
    ensures
        exists|at: Seq<(int, int)>|
            {
                &&& #[trigger] at.len() == r@.len()
                &&& forall|k: int|
                    #![trigger at[k]]
                    0 <= k < at.len() ==> {
                        &&& is_whole_word(s@, at[k].0, at[k].1)
                        &&& at[k].1 - at[k].0 >= 3
                        &&& is_small_stretch(s@, at[k].0, at[k].1, r@[k]@)
                    }
                &&& forall|k: int, l: int|
                    #![trigger at[k], at[l]]
                    0 <= k < l < at.len() ==> at[k].1 < at[l].0
                &&& forall|i: int, j: int| #[trigger]
                    is_whole_word(s@, i, j) && j - i >= 3 ==> at.contains((i, j))
            },
        h@.len() == r@.len(),
        forall|k: int|
            0 <= k < r@.len() ==> #[trigger] h@[k] == DefaultHasher::spec_finish(
                seq![utf8::encode_utf8(r@[k]@), seq![0xffu8]],
            ),
{
    law_tokens_are_the_words(s@);
    let all = r@.map_values(|t: String| t@);
    assert(all.len() == r@.len());
    let at = choose|at: Seq<(int, int)>|
        {
            &&& #[trigger] at.len() == tokens(s@).len()
            &&& forall|k: int|
                #![trigger at[k]]
                0 <= k < at.len() ==> {
                    &&& is_whole_word(s@, at[k].0, at[k].1)
                    &&& at[k].1 - at[k].0 >= 3
                    &&& is_small_stretch(s@, at[k].0, at[k].1, tokens(s@)[k])
                }
            &&& forall|k: int, l: int|
                #![trigger at[k], at[l]]
                0 <= k < l < at.len() ==> at[k].1 < at[l].0
            &&& forall|i: int, j: int| #[trigger]
                is_whole_word(s@, i, j) && j - i >= 3 ==> at.contains((i, j))
        };
    assert forall|k: int| #![trigger at[k]] 0 <= k < at.len() implies {
        &&& is_whole_word(s@, at[k].0, at[k].1)
        &&& at[k].1 - at[k].0 >= 3
        &&& is_small_stretch(s@, at[k].0, at[k].1, r@[k]@)
    } by {
        assert(all[k] == r@[k]@);
    }
    assert(at.len() == r@.len());
    assert forall|k: int| 0 <= k < r@.len() implies #[trigger] h@[k]
        == DefaultHasher::spec_finish(seq![utf8::encode_utf8(r@[k]@), seq![0xffu8]]) by {
        law_token_hashes_are_of_all_bytes(s@, k);
        assert(all[k] == r@[k]@);
    }
}

/// What is looked up holds every hash of the text once, and no others.
pub proof fn law_lookup_hashes_are_those_of_the_text(s: &str, h: Vec<u64>, u: Vec<u64>)
    requires
        call_ensures(tokenize, (s,), h),
        call_ensures(unique_token_hashes, (s,), u),
    ensures
        u@.no_duplicates(),
        forall|x: u64| #[trigger] u@.contains(x) <==> h@.contains(x),
{
    lemma_unique(h@);
}

/// A line goes up to its line feed, and what follows is split in the same way.
pub proof fn law_text_is_split_at_line_feeds(
    whole: &str,
    rest: &str,
    all: Vec<String>,
    later: Vec<String>,
    a: Seq<char>,
)
    requires
        call_ensures(split_lines, (whole,), all),
        call_ensures(split_lines, (rest,), later),
        whole@ == a.push('\n') + rest@,
        forall|i: int| 0 <= i < a.len() ==> a[i] != '\n',
    ensures
        texts(all@) == seq![
            if a.len() > 0 && a[a.len() - 1] == '\r' {
                a.take(a.len() - 1)
            } else {
                a
            },
        ] + texts(later@),
{
    law_a_line_feed_ends_a_line(a, rest@);
}

} // verus!
