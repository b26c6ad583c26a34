use crate::text::chars_of;
use vstd::prelude::*;

verus! {

/// Whether `pattern` matches the whole of `text`: `*` stands for any run of
/// characters, the empty one included, and every other character for itself.
pub open spec fn matches(text: Seq<char>, pattern: Seq<char>) -> bool
    decreases pattern.len(),
{
    if pattern.len() == 0 {
        text.len() == 0
    } else if pattern[0] == '*' {
        exists|n: int| 0 <= n <= text.len() && matches(#[trigger] text.skip(n), pattern.skip(1))
    } else {
        &&& text.len() > 0
        &&& text[0] == pattern[0]
        &&& matches(text.skip(1), pattern.skip(1))
    }
}

/// `part` stands in `text` at `at`.
pub open spec fn occurs_at(text: Seq<char>, part: Seq<char>, at: int) -> bool {
    &&& 0 <= at
    &&& at + part.len() <= text.len()
    &&& text.subrange(at, at + part.len()) == part
}

/// No character of `part` is a wildcard.
pub open spec fn literal(part: Seq<char>) -> bool {
    forall|i: int| 0 <= i < part.len() ==> part[i] != '*'
}

/// A literal prefix of the pattern has to stand at the start of the text.
proof fn lemma_literal_prefix(text: Seq<char>, pattern: Seq<char>, n: int)
    requires
        0 <= n <= pattern.len(),
        literal(pattern.take(n)),
    ensures
        matches(text, pattern) <==> {
            &&& occurs_at(text, pattern.take(n), 0)
            &&& matches(text.skip(n), pattern.skip(n))
        },
    decreases n,
{
    if n == 0 {
        assert(text.skip(0) =~= text);
        assert(pattern.skip(0) =~= pattern);
        assert(text.subrange(0, 0) =~= pattern.take(0));
    } else {
        assert(pattern.take(n)[0] == pattern[0]);
        if text.len() > 0 {
            let t = text.skip(1);
            let p = pattern.skip(1);
            assert(p.take(n - 1) =~= pattern.take(n).skip(1));
            assert(literal(p.take(n - 1))) by {
                assert forall|i: int| 0 <= i < n - 1 implies #[trigger] p.take(n - 1)[i] != '*' by {
                    assert(p.take(n - 1)[i] == pattern.take(n)[i + 1]);
                }
            }
            lemma_literal_prefix(t, p, n - 1);
            assert(p.skip(n - 1) =~= pattern.skip(n));
            if n <= text.len() {
                assert(t.skip(n - 1) =~= text.skip(n));
            }
            if occurs_at(text, pattern.take(n), 0) {
                assert(text.subrange(0, n)[0] == pattern[0]);
                assert(t.subrange(0, n - 1) =~= text.subrange(0, n).skip(1));
            }
            if text[0] == pattern[0] && occurs_at(t, p.take(n - 1), 0) {
                assert forall|i: int| 0 <= i < n implies #[trigger] text.subrange(
                    0,
                    n,
                )[i] == pattern.take(n)[i] by {
                    if i > 0 {
                        assert(t.subrange(0, n - 1)[i - 1] == p.take(n - 1)[i - 1]);
                    }
                }
                assert(text.subrange(0, n) =~= pattern.take(n));
            }
        }
    }
}

/// A pattern without wildcards matches itself alone.
proof fn lemma_literal_whole(text: Seq<char>, pattern: Seq<char>)
    requires
        literal(pattern),
    ensures
        matches(text, pattern) <==> text == pattern,
{
    let n = pattern.len() as int;
    assert(pattern.take(n) =~= pattern);
    lemma_literal_prefix(text, pattern, n);
    assert(pattern.skip(n).len() == 0);
    if matches(text, pattern) {
        assert(text.subrange(0, n) =~= text);
    }
    if text == pattern {
        assert(text.subrange(0, n) =~= text);
        assert(text.skip(n).len() == 0);
    }
}

/// A pattern that starts with a wildcard still matches when more text stands in front.
proof fn lemma_star_grows(text: Seq<char>, pattern: Seq<char>, a: int, b: int)
    requires
        0 <= a <= b <= text.len(),
        pattern.len() > 0,
        pattern[0] == '*',
        matches(text.skip(b), pattern),
    ensures
        matches(text.skip(a), pattern),
{
    let n = choose|n: int|
        0 <= n <= text.skip(b).len() && matches(#[trigger] text.skip(b).skip(n), pattern.skip(1));
    assert(text.skip(b).skip(n) =~= text.skip(a).skip(n + b - a));
    assert(matches(text.skip(a).skip(n + b - a), pattern.skip(1)));
}

/// Two wildcards in a row are as good as one.
proof fn lemma_star_star(text: Seq<char>, pattern: Seq<char>)
    requires
        pattern.len() > 1,
        pattern[0] == '*',
        pattern[1] == '*',
    ensures
        matches(text, pattern) <==> matches(text, pattern.skip(1)),
{
    let p = pattern.skip(1);
    if matches(text, pattern) {
        let n = choose|n: int| 0 <= n <= text.len() && matches(#[trigger] text.skip(n), p);
        lemma_star_grows(text, p, 0, n);
        assert(text.skip(0) =~= text);
    }
    if matches(text, p) {
        assert(text.skip(0) =~= text);
        assert(matches(text.skip(0), p));
    }
}

/// `*part` at the end of a pattern: the text has to end in `part`.
proof fn lemma_star_last(text: Seq<char>, pattern: Seq<char>)
    requires
        pattern.len() > 0,
        pattern[0] == '*',
        literal(pattern.skip(1)),
    ensures
        matches(text, pattern) <==> occurs_at(
            text,
            pattern.skip(1),
            text.len() - pattern.skip(1).len(),
        ),
{
    let part = pattern.skip(1);
    let at = text.len() - part.len();
    if matches(text, pattern) {
        let n = choose|n: int| 0 <= n <= text.len() && matches(#[trigger] text.skip(n), part);
        lemma_literal_whole(text.skip(n), part);
        assert(text.subrange(at, text.len() as int) =~= text.skip(n));
    }
    if occurs_at(text, part, at) {
        assert(text.skip(at) =~= text.subrange(at, text.len() as int));
        lemma_literal_whole(text.skip(at), part);
        assert(matches(text.skip(at), part));
    }
}

/// `*part*..`: taking the first place where `part` stands loses no match.
proof fn lemma_star_first(text: Seq<char>, pattern: Seq<char>, part: Seq<char>, at: int)
    requires
        0 < part.len() < pattern.len() - 1,
        pattern[0] == '*',
        part == pattern.subrange(1, part.len() as int + 1),
        literal(part),
        pattern[part.len() as int + 1] == '*',
        occurs_at(text, part, at),
        forall|k: int| 0 <= k < at ==> !occurs_at(text, part, k),
    ensures
        matches(text, pattern) <==> matches(
            text.skip(at + part.len()),
            pattern.skip(part.len() as int + 1),
        ),
{
    let n = part.len() as int;
    let rest = pattern.skip(n + 1);
    let tail = pattern.skip(1);
    assert(tail.take(n) =~= part);
    assert(tail.skip(n) =~= rest);
    assert(rest[0] == '*');
    if matches(text, pattern) {
        let k = choose|k: int| 0 <= k <= text.len() && matches(#[trigger] text.skip(k), tail);
        lemma_literal_prefix(text.skip(k), tail, n);
        assert(text.skip(k).subrange(0, n) =~= text.subrange(k, k + n));
        assert(occurs_at(text, part, k));
        assert(text.skip(k).skip(n) =~= text.skip(k + n));
        lemma_star_grows(text, rest, at + n, k + n);
    }
    if matches(text.skip(at + n), rest) {
        assert(text.skip(at).skip(n) =~= text.skip(at + n));
        assert(text.skip(at).subrange(0, n) =~= text.subrange(at, at + n));
        lemma_literal_prefix(text.skip(at), tail, n);
        assert(matches(text.skip(at), tail));
    }
}

/// `*part*..`: without a place for `part` there is no match.
proof fn lemma_star_none(text: Seq<char>, pattern: Seq<char>, part: Seq<char>)
    requires
        0 < part.len() < pattern.len(),
        pattern[0] == '*',
        part == pattern.subrange(1, part.len() as int + 1),
        literal(part),
        forall|k: int| 0 <= k ==> !occurs_at(text, part, k),
    ensures
        !matches(text, pattern),
{
    let n = part.len() as int;
    let tail = pattern.skip(1);
    assert(tail.take(n) =~= part);
    if matches(text, pattern) {
        let k = choose|k: int| 0 <= k <= text.len() && matches(#[trigger] text.skip(k), tail);
        lemma_literal_prefix(text.skip(k), tail, n);
        assert(text.skip(k).subrange(0, n) =~= text.subrange(k, k + n));
        assert(occurs_at(text, part, k));
    }
}

/// Whether `part[from..to]` stands in `text` at `at`.
fn stands_at(text: &Vec<char>, at: usize, pattern: &Vec<char>, from: usize, to: usize) -> (r: bool)
    requires
        from <= to <= pattern.len(),
        at <= text.len(),
    ensures
        r == occurs_at(text@, pattern@.subrange(from as int, to as int), at as int),
{
    let n: usize = to - from;
    if text.len() - at < n {
        return false;
    }
    let ghost part = pattern@.subrange(from as int, to as int);
    let mut i: usize = 0;
    while i < n
        invariant
            i <= n,
            n == to - from,
            from <= to <= pattern.len(),
            at + n <= text.len(),
            part == pattern@.subrange(from as int, to as int),
            forall|k: int| 0 <= k < i ==> text@[at + k] == #[trigger] part[k],
        decreases n - i,
    {
        if text[at + i] != pattern[from + i] {
            assert(text@.subrange(at as int, at + n)[i as int] != part[i as int]);
            return false;
        }
        i = i + 1;
    }
    assert(text@.subrange(at as int, at + n) =~= part);
    true
}

/// The first place at or after `start` where `pattern[from..to]` stands in `text`.
fn find_part(text: &Vec<char>, start: usize, pattern: &Vec<char>, from: usize, to: usize) -> (r:
    Option<usize>)
    requires
        from <= to <= pattern.len(),
        start <= text.len(),
    ensures
        ({
            let part = pattern@.subrange(from as int, to as int);
            match r {
                Some(at) => {
                    &&& start <= at
                    &&& occurs_at(text@, part, at as int)
                    &&& forall|k: int| start <= k < at ==> !occurs_at(text@, part, k)
                },
                None => forall|k: int| start <= k ==> !occurs_at(text@, part, k),
            }
        }),
{
    let ghost part = pattern@.subrange(from as int, to as int);
    let mut at: usize = start;
    while at < text.len()
        invariant
            start <= at <= text.len(),
            from <= to <= pattern.len(),
            part == pattern@.subrange(from as int, to as int),
            forall|k: int| start <= k < at ==> !occurs_at(text@, part, k),
        decreases text.len() - at,
    {
        if stands_at(text, at, pattern, from, to) {
            return Some(at);
        }
        at = at + 1;
    }
    if stands_at(text, at, pattern, from, to) {
        return Some(at);
    }
    None
}

/// The first wildcard at or after `from`, or the length of the pattern.
fn next_star(pattern: &Vec<char>, from: usize) -> (r: usize)
    requires
        from <= pattern.len(),
    ensures
        from <= r <= pattern.len(),
        literal(pattern@.subrange(from as int, r as int)),
        r < pattern.len() ==> pattern@[r as int] == '*',
{
    let mut i: usize = from;
    while i < pattern.len()
        invariant
            from <= i <= pattern.len(),
            literal(pattern@.subrange(from as int, i as int)),
        decreases pattern.len() - i,
    {
        if pattern[i] == '*' {
            return i;
        }
        assert(pattern@.subrange(from as int, i + 1) =~= pattern@.subrange(
            from as int,
            i as int,
        ).push(pattern@[i as int]));
        i = i + 1;
    }
    i
}

/// Minimal glob: `*` matches any run of characters, everything else stands
/// for itself. Greedy: each literal part is taken at its first place.
pub fn glob_match(haystack: &str, pattern: &str) -> (r: bool)
    ensures
        r == matches(haystack@, pattern@),
{
    let text: Vec<char> = chars_of(haystack);
    let pat: Vec<char> = chars_of(pattern);
    let head: usize = next_star(&pat, 0);
    proof {
        assert(pat@.take(head as int) =~= pat@.subrange(0, head as int));
        lemma_literal_prefix(text@, pat@, head as int);
    }
    if !stands_at(&text, 0, &pat, 0, head) {
        return false;
    }
    if head == pat.len() {
        assert(pat@.skip(head as int).len() == 0);
        return text.len() == head;
    }
    let mut pos: usize = head;
    let mut star: usize = head;
    loop
        invariant
            head <= star < pat.len(),
            pos <= text.len(),
            pat@[star as int] == '*',
            text@ == haystack@,
            pat@ == pattern@,
            matches(haystack@, pattern@) <==> matches(
                text@.skip(pos as int),
                pat@.skip(star as int),
            ),
        decreases pat.len() - star,
    {
        let ghost t = text@.skip(pos as int);
        let ghost p = pat@.skip(star as int);
        let from: usize = star + 1;
        let to: usize = next_star(&pat, from);
        let ghost part = pat@.subrange(from as int, to as int);
        let ghost n = part.len() as int;
        if to == pat.len() {
            assert(p.skip(1) =~= part);
            proof {
                lemma_star_last(t, p);
            }
            let len: usize = to - from;
            if text.len() - pos < len {
                return false;
            }
            let at: usize = text.len() - len;
            let r: bool = stands_at(&text, at, &pat, from, to);
            assert(t.subrange(t.len() - n, t.len() as int) =~= text@.subrange(
                at as int,
                at + n,
            ));
            return r;
        }
        assert(p.skip(n + 1) =~= pat@.skip(to as int));
        if to == from {
            proof {
                lemma_star_star(t, p);
            }
        } else {
            assert(p.subrange(1, n + 1) =~= part);
            proof {
                assert forall|k: int| 0 <= k implies #[trigger] occurs_at(t, part, k) == occurs_at(
                    text@,
                    part,
                    pos + k,
                ) by {
                    if k + n <= t.len() {
                        assert(t.subrange(k, k + n) =~= text@.subrange(pos + k, pos + k + n));
                    }
                }
            }
            match find_part(&text, pos, &pat, from, to) {
                Some(at) => {
                    proof {
                        assert(occurs_at(t, part, at - pos));
                        assert forall|k: int| 0 <= k < at - pos implies !occurs_at(t, part, k) by {
                            assert(!occurs_at(text@, part, pos + k));
                        }
                        lemma_star_first(t, p, part, at - pos);
                        assert(t.skip(at - pos + n) =~= text@.skip(at + n));
                    }
                    pos = at + (to - from);
                },
                None => {
                    proof {
                        assert forall|k: int| 0 <= k implies !occurs_at(t, part, k) by {
                            assert(!occurs_at(text@, part, pos + k));
                        }
                        lemma_star_none(t, p, part);
                    }
                    return false;
                },
            }
        }
        star = to;
    }
}

/// A pattern without wildcards matches itself and nothing else.
pub proof fn law_literal_matches_itself_alone(text: Seq<char>, pattern: Seq<char>)
    requires
        forall|i: int| 0 <= i < pattern.len() ==> pattern[i] != '*',
    ensures
        matches(text, pattern) <==> text == pattern,
{
    lemma_literal_whole(text, pattern);
}

/// A lone wildcard matches everything, nothing included.
pub proof fn law_wildcard_matches_anything(text: Seq<char>)
    ensures
        matches(text, seq!['*']),
{
    let p = seq!['*'];
    assert(p.skip(1).len() == 0);
    assert(text.skip(text.len() as int).len() == 0);
    assert(matches(text.skip(text.len() as int), p.skip(1)));
}

/// What two patterns match one after the other, they match together.
pub proof fn law_matches_join(a: Seq<char>, p: Seq<char>, b: Seq<char>, q: Seq<char>)
    requires
        matches(a, p),
        matches(b, q),
    ensures
        matches(a + b, p + q),
    decreases p.len(),
{
    let t = a + b;
    let pq = p + q;
    if p.len() == 0 {
        assert(t =~= b);
        assert(pq =~= q);
    } else {
        assert(pq[0] == p[0]);
        assert(pq.skip(1) =~= p.skip(1) + q);
        if p[0] == '*' {
            let n = choose|n: int|
                0 <= n <= a.len() && matches(#[trigger] a.skip(n), p.skip(1));
            law_matches_join(a.skip(n), p.skip(1), b, q);
            assert(t.skip(n) =~= a.skip(n) + b);
        } else {
            law_matches_join(a.skip(1), p.skip(1), b, q);
            assert(t.skip(1) =~= a.skip(1) + b);
        }
    }
}

/// What two patterns match together falls into a part for each.
pub proof fn law_matches_fall_apart(text: Seq<char>, p: Seq<char>, q: Seq<char>)
    requires
        matches(text, p + q),
    ensures
        exists|n: int|
            0 <= n <= text.len() && matches(#[trigger] text.take(n), p) && matches(
                text.skip(n),
                q,
            ),
    decreases p.len(),
{
    let pq = p + q;
    if p.len() == 0 {
        assert(pq =~= q);
        assert(text.skip(0) =~= text);
        assert(text.take(0).len() == 0);
        assert(matches(text.take(0), p));
    } else {
        assert(pq[0] == p[0]);
        assert(pq.skip(1) =~= p.skip(1) + q);
        if p[0] == '*' {
            let k = choose|k: int|
                0 <= k <= text.len() && matches(#[trigger] text.skip(k), pq.skip(1));
            let rest = text.skip(k);
            law_matches_fall_apart(rest, p.skip(1), q);
            let n = choose|n: int|
                0 <= n <= rest.len() && matches(#[trigger] rest.take(n), p.skip(1)) && matches(
                    rest.skip(n),
                    q,
                );
            assert(rest.skip(n) =~= text.skip(k + n));
            assert(text.take(k + n).skip(k) =~= rest.take(n));
            assert(matches(text.take(k + n), p));
        } else {
            let rest = text.skip(1);
            law_matches_fall_apart(rest, p.skip(1), q);
            let n = choose|n: int|
                0 <= n <= rest.len() && matches(#[trigger] rest.take(n), p.skip(1)) && matches(
                    rest.skip(n),
                    q,
                );
            assert(rest.skip(n) =~= text.skip(n + 1));
            assert(text.take(n + 1).skip(1) =~= rest.take(n));
            assert(text.take(n + 1)[0] == text[0]);
            assert(matches(text.take(n + 1), p));
        }
    }
}

/// A pattern without wildcards matches itself alone, and a lone wildcard anything.
pub proof fn law_pattern_is_matched(haystack: &str, pattern: &str, r: bool)
    requires
        call_ensures(glob_match, (haystack, pattern), r),
    ensures
        (forall|i: int| 0 <= i < pattern@.len() ==> pattern@[i] != '*') ==> (r <==> haystack@
            == pattern@),
        pattern@ == seq!['*'] ==> r,
{
    if forall|i: int| 0 <= i < pattern@.len() ==> pattern@[i] != '*' {
        law_literal_matches_itself_alone(haystack@, pattern@);
    }
    law_wildcard_matches_anything(haystack@);
}

} // verus!
