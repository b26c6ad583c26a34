use crate::order;
use crate::order::{sort_positions, Ranking};
use crate::text;
use crate::text::{chars_of, string_of};
use vstd::prelude::*;

verus! {

/// The stretches of `p` between slashes, as start and end offsets, empty ones
/// included.
pub open spec fn segments(p: Seq<char>) -> Seq<(int, int)>
    decreases p.len(),
{
    if p.len() == 0 {
        seq![(0, 0)]
    } else {
        let before = segments(p.drop_last());
        if p.last() == '/' {
            before.push((p.len() as int, p.len() as int))
        } else {
            before.drop_last().push((before.last().0, p.len() as int))
        }
    }
}

/// A stretch that is a component: it is not empty, and it is not a `.` unless
/// it opens the path.
pub open spec fn is_component(p: Seq<char>, s: (int, int)) -> bool {
    s.0 < s.1 && (s.0 == 0 || p.subrange(s.0, s.1) != seq!['.'])
}

/// The stretches among `all` that are components.
pub open spec fn components_among(p: Seq<char>, all: Seq<(int, int)>) -> Seq<(int, int)>
    decreases all.len(),
{
    if all.len() == 0 {
        Seq::empty()
    } else {
        let before = components_among(p, all.drop_last());
        if is_component(p, all.last()) {
            before.push(all.last())
        } else {
            before
        }
    }
}

/// Offsets of the components of `p`, the root not counted.
pub open spec fn spans(p: Seq<char>) -> Seq<(int, int)> {
    components_among(p, segments(p))
}

/// The components of `p`, the root not counted.
pub open spec fn names(p: Seq<char>) -> Seq<Seq<char>> {
    spans(p).map_values(|s: (int, int)| p.subrange(s.0, s.1))
}

/// The path starts at the root.
pub open spec fn is_absolute(p: Seq<char>) -> bool {
    p.len() > 0 && p[0] == '/'
}

/// The components of `p`; a root counts as the component `/`.
pub open spec fn components(p: Seq<char>) -> Seq<Seq<char>> {
    if is_absolute(p) {
        seq![seq!['/']] + names(p)
    } else {
        names(p)
    }
}

/// A component that names an entry, as opposed to `.` and `..`.
pub open spec fn is_name(c: Seq<char>) -> bool {
    c != seq!['.'] && c != seq!['.', '.']
}

/// The last component, where it names an entry.
pub open spec fn file_name_of(p: Seq<char>) -> Option<Seq<char>> {
    if names(p).len() > 0 && is_name(names(p).last()) {
        Some(names(p).last())
    } else {
        None
    }
}

/// `at` is the last dot of `name`.
pub open spec fn is_last_dot(name: Seq<char>, at: int) -> bool {
    &&& 0 <= at < name.len()
    &&& name[at] == '.'
    &&& forall|i: int| at < i < name.len() ==> name[i] != '.'
}

/// `name` has a dot beyond its first character.
pub open spec fn has_dot(name: Seq<char>) -> bool {
    exists|at: int| at > 0 && is_last_dot(name, at)
}

/// The last dot of `name`, where it has one beyond its first character.
pub open spec fn last_dot(name: Seq<char>) -> int {
    choose|at: int| at > 0 && is_last_dot(name, at)
}

/// What follows the last dot of the file name, unless that dot opens the name.
pub open spec fn extension_of(p: Seq<char>) -> Option<Seq<char>> {
    match file_name_of(p) {
        Some(name) => {
            if has_dot(name) {
                Some(name.skip(last_dot(name) + 1))
            } else {
                None
            }
        },
        None => None,
    }
}

/// The components of `base` are the first components of `p`.
pub open spec fn is_under(p: Seq<char>, base: Seq<char>) -> bool {
    components(base).is_prefix_of(components(p))
}

/// The part of `p` below `base`: from the first component that `base` does
/// not have to the end of the last one; `p` itself where it is not under `base`.
pub open spec fn below(p: Seq<char>, base: Seq<char>) -> Seq<char> {
    let k = components(base).len() as int;
    let all = spans(p);
    let end = if all.len() > 0 {
        all.last().1
    } else if is_absolute(p) {
        1
    } else {
        0
    };
    if !is_under(p, base) {
        p
    } else if k == 0 {
        p.take(end)
    } else {
        let skipped = if is_absolute(p) {
            k - 1
        } else {
            k
        };
        if skipped < all.len() {
            p.subrange(all[skipped].0, end)
        } else {
            Seq::empty()
        }
    }
}

/// `name` inside the directory `dir`.
pub open spec fn joined(dir: Seq<char>, name: Seq<char>) -> Seq<char> {
    if is_absolute(name) || dir.len() == 0 {
        name
    } else if dir.last() == '/' {
        dir + name
    } else {
        dir.push('/') + name
    }
}

/// Stretches of a text of `len` characters, one after the other.
pub open spec fn in_sequence(all: Seq<(int, int)>, len: nat) -> bool {
    &&& forall|i: int| #![trigger all[i]] 0 <= i < all.len() ==> 0 <= all[i].0 <= all[i].1 <= len
    &&& forall|i: int, j: int|
        #![trigger all[i], all[j]]
        0 <= i < j < all.len() ==> all[i].1 <= all[j].0
}

/// Segments follow each other and the last one ends the path.
proof fn lemma_segments(p: Seq<char>)
    ensures
        segments(p).len() >= 1,
        segments(p).last().1 == p.len(),
        in_sequence(segments(p), p.len()),
    decreases p.len(),
{
    if p.len() > 0 {
        lemma_segments(p.drop_last());
    }
}

/// So do the components among them.
proof fn lemma_components_among(p: Seq<char>, all: Seq<(int, int)>, len: nat)
    requires
        in_sequence(all, len),
    ensures
        in_sequence(components_among(p, all), len),
        forall|i: int|
            #![trigger components_among(p, all)[i]]
            0 <= i < components_among(p, all).len() ==> components_among(p, all)[i].0
                < components_among(p, all)[i].1,
        components_among(p, all).len() > 0 ==> components_among(p, all).last().1 <= all.last().1,
    decreases all.len(),
{
    if all.len() > 0 {
        let init = all.drop_last();
        assert(in_sequence(init, len)) by {
            assert forall|i: int| #![trigger init[i]] 0 <= i < init.len() implies 0 <= init[i].0
                <= init[i].1 <= len by {
                assert(init[i] == all[i]);
            }
            assert forall|i: int, j: int|
                #![trigger init[i], init[j]]
                0 <= i < j < init.len() implies init[i].1 <= init[j].0 by {
                assert(init[i] == all[i] && init[j] == all[j]);
            }
        }
        lemma_components_among(p, init, len);
        let before = components_among(p, init);
        if before.len() > 0 {
            assert(init.last() == all[all.len() - 2]);
            assert(before.last().1 <= all.last().0);
            assert forall|i: int| #![trigger before[i]] 0 <= i < before.len() implies before[i].1
                <= all.last().0 by {
                assert(before.last() == before[before.len() - 1]);
            }
        }
        assert(all.last() == all[all.len() - 1]);
    }
}

/// Components lie inside the path, one after the other, and none is empty.
proof fn lemma_spans(p: Seq<char>)
    ensures
        names(p).len() == spans(p).len(),
        in_sequence(spans(p), p.len()),
        forall|i: int|
            #![trigger spans(p)[i]]
            0 <= i < spans(p).len() ==> spans(p)[i].0 < spans(p)[i].1,
{
    lemma_segments(p);
    lemma_components_among(p, segments(p), p.len());
}

/// Offsets as numbers of the specification.
pub open spec fn offsets(v: Seq<(usize, usize)>) -> Seq<(int, int)> {
    v.map_values(|s: (usize, usize)| (s.0 as int, s.1 as int))
}

/// The offsets of the components of `p`.
fn find_spans(p: &Vec<char>) -> (r: Vec<(usize, usize)>)
    ensures
        offsets(r@) == spans(p@),
        forall|i: int| #![trigger r@[i]] 0 <= i < r.len() ==> r@[i].0 < r@[i].1 <= p.len(),
{
    let mut out: Vec<(usize, usize)> = Vec::new();
    let mut start: usize = 0;
    let mut i: usize = 0;
    assert(offsets(out@) =~= components_among(p@, segments(p@.take(0)).drop_last()));
    while i < p.len()
        invariant
            start <= i <= p.len(),
            segments(p@.take(i as int)).len() >= 1,
            segments(p@.take(i as int)).last() == (start as int, i as int),
            offsets(out@) == components_among(p@, segments(p@.take(i as int)).drop_last()),
        decreases p.len() - i,
    {
        let ghost before = segments(p@.take(i as int));
        assert(p@.take(i + 1).drop_last() =~= p@.take(i as int));
        let ghost after = segments(p@.take(i + 1));
        if p[i] == '/' {
            assert(after.drop_last() =~= before);
            close_span(p, &mut out, start, i);
            start = i + 1;
        } else {
            assert(after.drop_last() =~= before.drop_last());
        }
        i = i + 1;
    }
    assert(p@.take(p@.len() as int) =~= p@);
    close_span(p, &mut out, start, i);
    proof {
        lemma_spans(p@);
        assert forall|k: int| #![trigger out@[k]] 0 <= k < out.len() implies out@[k].0 < out@[k].1
            <= p.len() by {
            assert(offsets(out@)[k] == spans(p@)[k]);
        }
    }
    out
}

/// Appends the stretch from `start` to `end` if it is a component.
fn close_span(p: &Vec<char>, out: &mut Vec<(usize, usize)>, start: usize, end: usize)
    requires
        start <= end <= p.len(),
    ensures
        offsets(final(out)@) == if is_component(p@, (start as int, end as int)) {
            offsets(old(out)@).push((start as int, end as int))
        } else {
            offsets(old(out)@)
        },
{
    let ghost text = p@.subrange(start as int, end as int);
    if start < end {
        let dot: bool = end - start == 1 && p[start] == '.';
        proof {
            if dot {
                assert(text =~= seq!['.']);
            } else if text == seq!['.'] {
                assert(text.len() == 1);
                assert(text[0] == p@[start as int]);
            }
            assert(dot == (text == seq!['.']));
        }
        if start == 0 || !dot {
            let ghost before = out@;
            out.push((start, end));
            assert(offsets(out@) =~= offsets(before).push((start as int, end as int)));
        }
    }
}

/// The components of `path`, the root not counted.
pub fn component_names(path: &str) -> (r: Vec<String>)
    ensures
        text::texts(r@) == names(path@),
{
    let p: Vec<char> = chars_of(path);
    let all: Vec<(usize, usize)> = find_spans(&p);
    let mut out: Vec<String> = Vec::new();
    let mut i: usize = 0;
    while i < all.len()
        invariant
            i <= all.len(),
            p@ == path@,
            offsets(all@) == spans(p@),
            forall|k: int|
                #![trigger all@[k]]
                0 <= k < all.len() ==> all@[k].0 < all@[k].1 <= p.len(),
            out.len() == i,
            forall|k: int| 0 <= k < i ==> #[trigger] out@[k]@ == names(p@)[k],
        decreases all.len() - i,
    {
        let s: (usize, usize) = all[i];
        let part: String = string_of(&p, s.0, s.1);
        assert(offsets(all@)[i as int] == spans(p@)[i as int]);
        assert(part@ == names(p@)[i as int]);
        out.push(part);
        i = i + 1;
    }
    assert(offsets(all@).len() == all@.len());
    assert(text::texts(out@) =~= names(path@));
    out
}

/// The components of `path`; a root counts as the component `/`.
pub fn component_list(path: &str) -> (r: Vec<String>)
    ensures
        text::texts(r@) == components(path@),
{
    let p: Vec<char> = chars_of(path);
    let mut list: Vec<String> = component_names(path);
    if p.len() > 0 && p[0] == '/' {
        let mut root: String = String::new();
        root.push('/');
        let ghost before = list@;
        list.insert(0, root);
        proof {
            assert(root@ =~= seq!['/']);
            assert(text::texts(list@) =~= seq![seq!['/']] + text::texts(before));
        }
    }
    list
}

/// The last component of `path`, where it names an entry.
pub fn file_name(path: &str) -> (r: Option<String>)
    ensures
        match r {
            Some(name) => file_name_of(path@) == Some(name@),
            None => file_name_of(path@) is None,
        },
{
    let list: Vec<String> = component_names(path);
    if list.len() == 0 {
        assert(text::texts(list@).len() == 0);
        return None;
    }
    let last: &String = &list[list.len() - 1];
    assert(text::texts(list@).last() == last@);
    let c: Vec<char> = chars_of(last.as_str());
    let dot: bool = c.len() == 1 && c[0] == '.';
    let dots: bool = c.len() == 2 && c[0] == '.' && c[1] == '.';
    proof {
        if dot {
            assert(c@ =~= seq!['.']);
        }
        if dots {
            assert(c@ =~= seq!['.', '.']);
        }
        if c@ == seq!['.'] {
            assert(c@.len() == 1 && c@[0] == '.');
        }
        if c@ == seq!['.', '.'] {
            assert(c@.len() == 2 && c@[0] == '.' && c@[1] == '.');
        }
    }
    if dot || dots {
        None
    } else {
        Some(last.clone())
    }
}

/// What follows the last dot of the file name, unless that dot opens the name.
pub fn extension(path: &str) -> (r: Option<String>)
    ensures
        match r {
            Some(ext) => extension_of(path@) == Some(ext@),
            None => extension_of(path@) is None,
        },
{
    let name: String = match file_name(path) {
        Some(name) => name,
        None => {
            return None;
        },
    };
    let c: Vec<char> = chars_of(name.as_str());
    let mut i: usize = c.len();
    while i > 1
        invariant
            i <= c.len(),
            c@ == name@,
            file_name_of(path@) == Some(name@),
            forall|k: int| i <= k < c.len() ==> c@[k] != '.',
        decreases i,
    {
        i = i - 1;
        if c[i] == '.' {
            assert(is_last_dot(name@, i as int));
            let r: String = string_of(&c, i + 1, c.len());
            proof {
                assert(last_dot(name@) == i);
                assert(r@ =~= name@.skip(i + 1));
                assert(has_dot(name@));
            }
            return Some(r);
        }
    }
    assert forall|at: int| at > 0 implies !is_last_dot(name@, at) by {}
    None
}

/// Whether the components of `base` are the first components of `path`.
pub fn starts_with(path: &str, base: &str) -> (r: bool)
    ensures
        r == is_under(path@, base@),
{
    let p: Vec<String> = component_list(path);
    let b: Vec<String> = component_list(base);
    proof {
        assert(text::texts(p@).len() == p@.len());
        assert(text::texts(b@).len() == b@.len());
    }
    if b.len() > p.len() {
        return false;
    }
    let mut i: usize = 0;
    while i < b.len()
        invariant
            i <= b.len() <= p.len(),
            text::texts(p@) == components(path@),
            text::texts(b@) == components(base@),
            text::texts(p@).len() == p@.len(),
            text::texts(b@).len() == b@.len(),
            forall|k: int| 0 <= k < i ==> #[trigger] text::texts(b@)[k] == text::texts(p@)[k],
        decreases b.len() - i,
    {
        assert(text::texts(b@)[i as int] == b@[i as int]@);
        assert(text::texts(p@)[i as int] == p@[i as int]@);
        if b[i] != p[i] {
            proof {
                if is_under(path@, base@) {
                    assert(components(path@).subrange(0, b@.len() as int)[i as int] == components(
                        path@,
                    )[i as int]);
                }
            }
            return false;
        }
        i = i + 1;
    }
    assert(components(base@) =~= components(path@).subrange(0, b@.len() as int));
    true
}

/// The part of `path` below `base`, or all of it where it is not under `base`.
pub fn strip_prefix(path: &str, base: &str) -> (r: String)
    ensures
        r@ == below(path@, base@),
{
    let p: Vec<char> = chars_of(path);
    if !starts_with(path, base) {
        let r: String = string_of(&p, 0, p.len());
        assert(r@ =~= path@);
        return r;
    }
    let all: Vec<(usize, usize)> = find_spans(&p);
    let base_list: Vec<String> = component_list(base);
    let k: usize = base_list.len();
    proof {
        assert(text::texts(base_list@).len() == base_list@.len());
        assert(offsets(all@).len() == all@.len());
        lemma_spans(p@);
    }
    let absolute: bool = p.len() > 0 && p[0] == '/';
    let end: usize = if all.len() > 0 {
        assert(offsets(all@).last() == spans(p@).last());
        all[all.len() - 1].1
    } else if absolute {
        1
    } else {
        0
    };
    if k == 0 {
        let r: String = string_of(&p, 0, end);
        assert(r@ =~= path@.take(end as int));
        return r;
    }
    let skipped: usize = if absolute {
        k - 1
    } else {
        k
    };
    if skipped < all.len() {
        proof {
            assert(offsets(all@)[skipped as int] == spans(p@)[skipped as int]);
            assert(spans(p@).last() == spans(p@)[spans(p@).len() - 1]);
        }
        string_of(&p, all[skipped].0, end)
    } else {
        String::new()
    }
}

/// `name` inside the directory `dir`.
pub fn join(dir: &str, name: &str) -> (r: String)
    ensures
        r@ == joined(dir@, name@),
{
    let d: Vec<char> = chars_of(dir);
    let n: Vec<char> = chars_of(name);
    let mut out: String = String::new();
    if !((n.len() > 0 && n[0] == '/') || d.len() == 0) {
        out.append(dir);
        if d[d.len() - 1] != '/' {
            out.push('/');
        }
    }
    out.append(name);
    assert(out@ =~= joined(dir@, name@));
    out
}

/// Weight of one component: the root, `.` and `..` come first, in this order,
/// and then the names by their characters.
pub open spec fn weight(c: Seq<char>) -> Seq<u32> {
    if c == seq!['/'] {
        seq![0u32]
    } else if c == seq!['.'] {
        seq![1u32]
    } else if c == seq!['.', '.'] {
        seq![2u32]
    } else {
        seq![3u32] + c.map_values(|x: char| (x as u32 + 4) as u32)
    }
}

/// The weights of the components in a row. A component ends where a number
/// below 4 or the end of the row comes, so rows compare as component lists do.
pub open spec fn weights(list: Seq<Seq<char>>) -> Seq<u32>
    decreases list.len(),
{
    if list.len() == 0 {
        Seq::empty()
    } else {
        weights(list.drop_last()) + weight(list.last())
    }
}

/// What a path is sorted by.
pub open spec fn sort_key(p: Seq<char>) -> Seq<u32> {
    weights(components(p))
}

/// `a` and `b` agree up to `i`, and there `a` ends or has the smaller number.
pub open spec fn smaller_at(a: Seq<u32>, b: Seq<u32>, i: int) -> bool {
    &&& 0 <= i <= a.len()
    &&& i < b.len()
    &&& a.take(i) == b.take(i)
    &&& i == a.len() || a[i] < b[i]
}

/// `a` comes before `b` in dictionary order.
pub open spec fn smaller(a: Seq<u32>, b: Seq<u32>) -> bool {
    exists|i: int| smaller_at(a, b, i)
}

/// Positions by sort key; equal keys keep their order.
pub open spec fn by_key(keys: Seq<Seq<u32>>) -> spec_fn(int, int) -> bool {
    |a: int, b: int| smaller(keys[a], keys[b]) || (keys[a] == keys[b] && a < b)
}

/// The sort keys of `paths`.
pub open spec fn sort_keys(paths: Seq<Seq<char>>) -> Seq<Seq<u32>> {
    paths.map_values(|p: Seq<char>| sort_key(p))
}

/// `order` lists the positions of `paths` component by component in
/// dictionary order.
pub open spec fn is_path_order(paths: Seq<Seq<char>>, order: Seq<usize>) -> bool {
    order::is_order(by_key(sort_keys(paths)), 0, paths.len() as int, order)
}

/// Two sequences that share a prefix of length `n` share all shorter ones.
proof fn lemma_shared_prefix(a: Seq<u32>, b: Seq<u32>, n: int, m: int)
    requires
        0 <= m <= n <= a.len(),
        n <= b.len(),
        a.take(n) == b.take(n),
    ensures
        a.take(m) == b.take(m),
        forall|k: int| 0 <= k < n ==> a[k] == b[k],
{
    assert forall|k: int| 0 <= k < n implies a[k] == b[k] by {
        assert(a.take(n)[k] == a[k]);
        assert(b.take(n)[k] == b[k]);
    }
    assert(a.take(m) =~= b.take(m));
}

/// Dictionary order is irreflexive.
pub proof fn lemma_smaller_irreflexive(a: Seq<u32>)
    ensures
        !smaller(a, a),
{
}

/// Dictionary order is transitive.
pub proof fn lemma_smaller_transitive(a: Seq<u32>, b: Seq<u32>, c: Seq<u32>)
    requires
        smaller(a, b),
        smaller(b, c),
    ensures
        smaller(a, c),
{
    let i = choose|i: int| smaller_at(a, b, i);
    let j = choose|j: int| smaller_at(b, c, j);
    let k = if i < j {
        i
    } else {
        j
    };
    lemma_shared_prefix(a, b, i, k);
    lemma_shared_prefix(b, c, j, k);
    assert(smaller_at(a, c, k));
}

/// Two different sequences are in order one way or the other.
proof fn lemma_smaller_total(a: Seq<u32>, b: Seq<u32>, n: int)
    requires
        0 <= n <= a.len(),
        n <= b.len(),
        a.take(n) == b.take(n),
        a != b,
    ensures
        smaller(a, b) || smaller(b, a),
    decreases a.len() - n,
{
    if n == a.len() {
        if n == b.len() {
            assert(a =~= a.take(n));
            assert(b =~= b.take(n));
        }
        assert(smaller_at(a, b, n));
    } else if n == b.len() {
        assert(smaller_at(b, a, n));
    } else if a[n] < b[n] {
        assert(smaller_at(a, b, n));
    } else if b[n] < a[n] {
        assert(smaller_at(b, a, n));
    } else {
        assert(a.take(n + 1) =~= a.take(n).push(a[n]));
        assert(b.take(n + 1) =~= b.take(n).push(b[n]));
        lemma_smaller_total(a, b, n + 1);
    }
}

/// Sort keys whose positions are to be put in order.
struct Keyed {
    keys: Vec<Vec<u32>>,
}

impl Keyed {
    spec fn rows(&self) -> Seq<Seq<u32>> {
        self.keys@.map_values(|k: Vec<u32>| k@)
    }
}

impl Ranking for Keyed {
    closed spec fn size(&self) -> nat {
        self.keys@.len()
    }

    closed spec fn prior(&self) -> spec_fn(int, int) -> bool {
        by_key(self.rows())
    }

    proof fn is_total(&self) {
        let keys = self.rows();
        let prior = by_key(keys);
        assert forall|a: int| 0 <= a < self.size() implies !#[trigger] prior(a, a) by {
            lemma_smaller_irreflexive(keys[a]);
        }
        assert forall|a: int, b: int|
            0 <= a < self.size() && 0 <= b < self.size() && a != b implies #[trigger] prior(a, b)
            || prior(b, a) by {
            if keys[a] != keys[b] {
                assert(keys[a].take(0) =~= keys[b].take(0));
                lemma_smaller_total(keys[a], keys[b], 0);
            }
        }
        assert forall|a: int, b: int, c: int|
            #![trigger prior(a, b), prior(b, c)]
            0 <= a < self.size() && 0 <= b < self.size() && 0 <= c < self.size() && prior(a, b)
                && prior(b, c) implies prior(a, c) by {
            if smaller(keys[a], keys[b]) && smaller(keys[b], keys[c]) {
                lemma_smaller_transitive(keys[a], keys[b], keys[c]);
            }
        }
    }

    fn precedes(&self, a: usize, b: usize) -> (r: bool) {
        let x: &Vec<u32> = &self.keys[a];
        let y: &Vec<u32> = &self.keys[b];
        let mut i: usize = 0;
        assert(x@.take(0) =~= y@.take(0));
        while i < x.len() && i < y.len() && x[i] == y[i]
            invariant
                i <= x.len(),
                i <= y.len(),
                x@.take(i as int) == y@.take(i as int),
            decreases x.len() - i,
        {
            assert(x@.take(i + 1) =~= x@.take(i as int).push(x@[i as int]));
            assert(y@.take(i + 1) =~= y@.take(i as int).push(y@[i as int]));
            i = i + 1;
        }
        proof {
            assert(self.rows()[a as int] == x@ && self.rows()[b as int] == y@);
            assert forall|k: int| smaller_at(x@, y@, k) implies k == i by {
                if k < i {
                    lemma_shared_prefix(x@, y@, i as int, k);
                } else if k > i {
                    lemma_shared_prefix(x@, y@, k, k);
                }
            }
            if i == x.len() && i == y.len() {
                assert(x@ =~= x@.take(i as int));
                assert(y@ =~= y@.take(i as int));
            }
        }
        if i == y.len() {
            assert(!smaller(x@, y@));
            i == x.len() && a < b
        } else {
            let less: bool = i == x.len() || x[i] < y[i];
            assert(less == smaller_at(x@, y@, i as int));
            assert(x@ != y@);
            less
        }
    }
}

/// The weight of one component.
fn push_weight(out: &mut Vec<u32>, c: &str)
    ensures
        final(out)@ == old(out)@ + weight(c@),
{
    let ghost before = out@;
    let text: Vec<char> = chars_of(c);
    let root: bool = text.len() == 1 && text[0] == '/';
    let dot: bool = text.len() == 1 && text[0] == '.';
    let dots: bool = text.len() == 2 && text[0] == '.' && text[1] == '.';
    proof {
        assert(root == (text@ =~= seq!['/']));
        assert(dot == (text@ =~= seq!['.']));
        assert(dots == (text@ =~= seq!['.', '.']));
    }
    if root {
        out.push(0);
        assert(out@ =~= before + weight(c@));
    } else if dot {
        out.push(1);
        assert(out@ =~= before + weight(c@));
    } else if dots {
        out.push(2);
        assert(out@ =~= before + weight(c@));
    } else {
        out.push(3);
        let mut i: usize = 0;
        while i < text.len()
            invariant
                i <= text.len(),
                out@ == before.push(3u32) + text@.take(i as int).map_values(
                    |x: char| (x as u32 + 4) as u32,
                ),
            decreases text.len() - i,
        {
            let c: char = text[i];
            proof {
                vstd::utf8::char_is_scalar(c);
            }
            out.push(c as u32 + 4);
            assert(text@.take(i + 1).map_values(|x: char| (x as u32 + 4) as u32)
                =~= text@.take(i as int).map_values(|x: char| (x as u32 + 4) as u32).push(
                (text@[i as int] as u32 + 4) as u32,
            ));
            i = i + 1;
            assert(out@ =~= before.push(3u32) + text@.take(i as int).map_values(
                |x: char| (x as u32 + 4) as u32,
            ));
        }
        assert(text@.take(text@.len() as int) =~= text@);
        assert(out@ =~= before + weight(c@));
    }
}

/// What `path` is sorted by.
fn key_of(path: &str) -> (r: Vec<u32>)
    ensures
        r@ == sort_key(path@),
{
    let list: Vec<String> = component_list(path);
    let mut out: Vec<u32> = Vec::new();
    let mut i: usize = 0;
    while i < list.len()
        invariant
            i <= list.len(),
            out@ == weights(text::texts(list@).take(i as int)),
        decreases list.len() - i,
    {
        push_weight(&mut out, list[i].as_str());
        i = i + 1;
        assert(text::texts(list@).take(i as int).drop_last() =~= text::texts(list@).take(i - 1));
        assert(text::texts(list@).take(i as int).last() == list@[i - 1]@);
    }
    assert(text::texts(list@).take(list@.len() as int) =~= text::texts(list@));
    out
}

/// The positions of `paths` in path order: component by component, and equal
/// paths as they stand.
pub fn path_order(paths: &Vec<String>) -> (order: Vec<usize>)
    ensures
        is_path_order(text::texts(paths@), order@),
{
    let mut keys: Vec<Vec<u32>> = Vec::new();
    let mut i: usize = 0;
    while i < paths.len()
        invariant
            i <= paths.len(),
            keys.len() == i,
            forall|k: int| 0 <= k < i ==> #[trigger] keys@[k]@ == sort_key(paths@[k]@),
        decreases paths.len() - i,
    {
        keys.push(key_of(paths[i].as_str()));
        i = i + 1;
    }
    let ranking = Keyed { keys };
    assert(ranking.rows() =~= sort_keys(text::texts(paths@)));
    sort_positions(&ranking, paths.len())
}

/// The characters of `s` by their codes.
pub open spec fn codes(s: Seq<char>) -> Seq<u32> {
    s.map_values(|c: char| c as u32)
}

/// The codes of each of `list`.
pub open spec fn all_codes(list: Seq<Seq<char>>) -> Seq<Seq<u32>> {
    list.map_values(|s: Seq<char>| codes(s))
}

/// The positions of `list` in dictionary order, character by character, and equal
/// texts as they stand.
pub fn text_order(list: &Vec<String>) -> (order: Vec<usize>)
    ensures
        order::is_order(
            by_key(all_codes(text::texts(list@))),
            0,
            list@.len() as int,
            order@,
        ),
{
    let mut keys: Vec<Vec<u32>> = Vec::new();
    let mut i: usize = 0;
    while i < list.len()
        invariant
            i <= list.len(),
            keys.len() == i,
            forall|k: int| 0 <= k < i ==> #[trigger] keys@[k]@ == codes(list@[k]@),
        decreases list.len() - i,
    {
        let chars: Vec<char> = chars_of(list[i].as_str());
        let mut key: Vec<u32> = Vec::new();
        let mut j: usize = 0;
        while j < chars.len()
            invariant
                j <= chars.len(),
                key@ == codes(chars@).take(j as int),
            decreases chars.len() - j,
        {
            key.push(chars[j] as u32);
            j = j + 1;
            assert(key@ =~= codes(chars@).take(j as int));
        }
        assert(key@ =~= codes(list@[i as int]@));
        keys.push(key);
        i = i + 1;
    }
    let ranking = Keyed { keys };
    assert(ranking.rows() =~= all_codes(text::texts(list@)));
    sort_positions(&ranking, list.len())
}

/// The last stretch of a path is what follows its last slash.
proof fn lemma_last_segment(p: Seq<char>, s: int)
    requires
        0 <= s <= p.len(),
        s == 0 || p[s - 1] == '/',
        forall|i: int| s <= i < p.len() ==> p[i] != '/',
    ensures
        segments(p).len() >= 1,
        segments(p).last() == (s, p.len() as int),
    decreases p.len(),
{
    lemma_segments(p);
    if p.len() > 0 {
        let init = p.drop_last();
        if p.last() == '/' {
            assert(p[p.len() - 1] == '/');
            assert(s == p.len());
        } else {
            assert(s < p.len()) by {
                if s == p.len() {
                    assert(p[s - 1] == '/');
                }
            }
            assert forall|i: int| s <= i < init.len() implies init[i] != '/' by {
                assert(init[i] == p[i]);
            }
            if s > 0 {
                assert(init[s - 1] == p[s - 1]);
            }
            lemma_last_segment(init, s);
        }
    }
}

/// The name of a file is what follows the last slash of its path.
pub proof fn law_file_name_follows_the_last_slash(p: Seq<char>, s: int)
    requires
        0 <= s < p.len(),
        s == 0 || p[s - 1] == '/',
        forall|i: int| s <= i < p.len() ==> p[i] != '/',
        p.skip(s) != seq!['.'],
        p.skip(s) != seq!['.', '.'],
    ensures
        file_name_of(p) == Some(p.skip(s)),
{
    lemma_last_segment(p, s);
    let all = segments(p);
    assert(p.subrange(s, p.len() as int) =~= p.skip(s));
    assert(is_component(p, all.last()));
    assert(spans(p).last() == (s, p.len() as int));
    assert(names(p).last() == p.skip(s));
}

/// The extension of a file is what follows the last dot of its path, where that
/// dot stands within a name, and neither opens nor ends it.
pub proof fn law_extension_follows_the_last_dot(p: Seq<char>, s: int, d: int)
    requires
        0 <= s < d < p.len() - 1,
        s == 0 || p[s - 1] == '/',
        forall|i: int| s <= i < p.len() ==> p[i] != '/',
        p[d] == '.',
        forall|i: int| d < i < p.len() ==> p[i] != '.',
    ensures
        extension_of(p) == Some(p.skip(d + 1)),
{
    let name = p.skip(s);
    assert(name[name.len() - 1] == p[p.len() - 1]);
    law_file_name_follows_the_last_slash(p, s);
    let at = d - s;
    assert(is_last_dot(name, at)) by {
        assert(name[at] == p[d]);
        assert forall|i: int| at < i < name.len() implies name[i] != '.' by {
            assert(name[i] == p[s + i]);
        }
    }
    let k = last_dot(name);
    assert(k > 0 && is_last_dot(name, k));
    if k < at {
        assert(name[at] != '.');
    }
    if at < k {
        assert(name[k] != '.');
    }
    assert(name.skip(at + 1) =~= p.skip(d + 1));
}

/// A name without a dot beyond its first character has no extension.
pub proof fn law_no_dot_no_extension(p: Seq<char>, s: int)
    requires
        0 <= s < p.len(),
        s == 0 || p[s - 1] == '/',
        forall|i: int| s <= i < p.len() ==> p[i] != '/',
        forall|i: int| s < i < p.len() ==> p[i] != '.',
        p.skip(s) != seq!['.'],
    ensures
        extension_of(p) is None,
{
    let name = p.skip(s);
    if name == seq!['.', '.'] {
        assert(name.len() == 2);
        assert(p.skip(s)[1] == p[s + 1]);
    }
    law_file_name_follows_the_last_slash(p, s);
    if has_dot(name) {
        let at = choose|at: int| at > 0 && is_last_dot(name, at);
        assert(name[at] == p[s + at]);
    }
}

/// Stretches moved `n` characters further.
spec fn moved(all: Seq<(int, int)>, n: int) -> Seq<(int, int)> {
    all.map_values(|s: (int, int)| (s.0 + n, s.1 + n))
}

/// The stretches of two parts around a slash are those of the one and of the other.
proof fn lemma_segments_join(p: Seq<char>, rest: Seq<char>)
    ensures
        segments(p.push('/') + rest) == segments(p) + moved(segments(rest), p.len() as int + 1),
    decreases rest.len(),
{
    let all = p.push('/') + rest;
    let n = p.len() as int + 1;
    lemma_segments(p);
    lemma_segments(rest);
    if rest.len() == 0 {
        assert(all =~= p.push('/'));
        assert(all.drop_last() =~= p);
        assert(segments(all) =~= segments(p) + moved(segments(rest), n));
    } else {
        let init = rest.drop_last();
        lemma_segments_join(p, init);
        lemma_segments(init);
        assert(all.drop_last() =~= p.push('/') + init);
        assert(all.last() == rest.last());
        let before = segments(p.push('/') + init);
        assert(before.last() == moved(segments(init), n).last());
        assert(segments(all) =~= segments(p) + moved(segments(rest), n));
    }
}

/// Components among stretches of a first part are the same in the whole.
proof fn lemma_components_of_first(p: Seq<char>, rest: Seq<char>, all: Seq<(int, int)>)
    requires
        in_sequence(all, p.len()),
    ensures
        components_among(p + rest, all) == components_among(p, all),
    decreases all.len(),
{
    if all.len() > 0 {
        let init = all.drop_last();
        assert forall|i: int| #![trigger init[i]] 0 <= i < init.len() implies 0 <= init[i].0
            <= init[i].1 <= p.len() by {
            assert(init[i] == all[i]);
        }
        assert forall|i: int, j: int|
            #![trigger init[i], init[j]]
            0 <= i < j < init.len() implies init[i].1 <= init[j].0 by {
            assert(init[i] == all[i] && init[j] == all[j]);
        }
        lemma_components_of_first(p, rest, init);
        let s = all[all.len() - 1];
        assert((p + rest).subrange(s.0, s.1) =~= p.subrange(s.0, s.1));
    }
}

/// Components among stretches of a second part are the same in the whole, as long
/// as that part does not open with a dot of its own.
proof fn lemma_components_of_second(head: Seq<char>, rest: Seq<char>, all: Seq<(int, int)>)
    requires
        head.len() > 0,
        in_sequence(all, rest.len()),
        forall|i: int|
            #![trigger all[i]]
            0 <= i < all.len() && all[i].0 == 0 ==> rest.subrange(all[i].0, all[i].1) != seq!['.'],
    ensures
        components_among(head + rest, moved(all, head.len() as int)) == moved(
            components_among(rest, all),
            head.len() as int,
        ),
    decreases all.len(),
{
    let n = head.len() as int;
    if all.len() > 0 {
        let init = all.drop_last();
        assert forall|i: int| #![trigger init[i]] 0 <= i < init.len() implies 0 <= init[i].0
            <= init[i].1 <= rest.len() && (init[i].0 == 0 ==> rest.subrange(init[i].0, init[i].1)
            != seq!['.']) by {
            assert(init[i] == all[i]);
        }
        assert forall|i: int, j: int|
            #![trigger init[i], init[j]]
            0 <= i < j < init.len() implies init[i].1 <= init[j].0 by {
            assert(init[i] == all[i] && init[j] == all[j]);
        }
        lemma_components_of_second(head, rest, init);
        let s = all[all.len() - 1];
        assert(moved(all, n).drop_last() =~= moved(init, n));
        assert(moved(all, n).last() == (s.0 + n, s.1 + n));
        assert((head + rest).subrange(s.0 + n, s.1 + n) =~= rest.subrange(s.0, s.1));
        assert(components_among(head + rest, moved(all, n)) =~= moved(
            components_among(rest, all),
            n,
        ));
    } else {
        assert(components_among(head + rest, moved(all, n)) =~= moved(
            components_among(rest, all),
            n,
        ));
    }
}

/// The first stretch of a path goes from its start up to the first slash.
proof fn lemma_first_segment(p: Seq<char>, e: int)
    requires
        0 <= e <= p.len(),
        e == p.len() || p[e] == '/',
        forall|i: int| 0 <= i < e ==> p[i] != '/',
    ensures
        segments(p).len() >= 1,
        segments(p)[0] == (0int, e),
        forall|i: int| 0 < i < segments(p).len() ==> (#[trigger] segments(p)[i]).0 > e,
    decreases p.len(),
{
    lemma_segments(p);
    if p.len() > 0 {
        let init = p.drop_last();
        lemma_segments(init);
        if e == p.len() {
            assert forall|i: int| 0 <= i < init.len() implies init[i] != '/' by {
                assert(init[i] == p[i]);
            }
            assert(p[p.len() - 1] != '/');
            lemma_first_segment(init, e - 1);
            let before = segments(init);
            if before.len() > 1 {
                assert(before[before.len() - 1].0 > e - 1);
                assert(before.last().0 <= init.len());
            }
        } else if e < init.len() {
            assert(init[e] == p[e]);
            assert forall|i: int| 0 <= i < e implies init[i] != '/' by {
                assert(init[i] == p[i]);
            }
            lemma_first_segment(init, e);
            let before = segments(init);
            if p.last() != '/' && before.len() == 1 {
                assert(before.last().1 == init.len());
            }
            assert forall|i: int| 0 < i < segments(p).len() implies (#[trigger] segments(p)[i]).0
                > e by {
                if i < before.len() - 1 {
                    assert(segments(p)[i] == before[i]);
                } else if i < before.len() {
                    assert(before[i].0 > e);
                }
            }
        } else {
            assert forall|i: int| 0 <= i < e implies init[i] != '/' by {
                assert(init[i] == p[i]);
            }
            lemma_first_segment(init, e);
            let before = segments(init);
            if before.len() > 1 {
                assert(before[before.len() - 1].0 > e);
            }
        }
    }
}

/// A path opens with a dot of its own: it is one, or one comes before the first
/// slash.
pub open spec fn opens_with_dot(p: Seq<char>) -> bool {
    p.len() > 0 && p[0] == '.' && (p.len() == 1 || p[1] == '/')
}

/// Where the first slash of a path stands, or its end.
proof fn lemma_first_slash(p: Seq<char>, from: int) -> (e: int)
    requires
        0 <= from <= p.len(),
        forall|i: int| 0 <= i < from ==> p[i] != '/',
    ensures
        from <= e <= p.len(),
        e == p.len() || p[e] == '/',
        forall|i: int| 0 <= i < e ==> p[i] != '/',
    decreases p.len() - from,
{
    if from == p.len() || p[from] == '/' {
        from
    } else {
        lemma_first_slash(p, from + 1)
    }
}

/// The components of what stands below a directory come behind those of the
/// directory.
proof fn lemma_spans_join(dir: Seq<char>, rest: Seq<char>)
    requires
        !opens_with_dot(rest),
    ensures
        spans(dir.push('/') + rest) == spans(dir) + moved(spans(rest), dir.len() as int + 1),
{
    let head = dir.push('/');
    let a = segments(dir);
    let b = segments(rest);
    lemma_segments(dir);
    lemma_segments(rest);
    lemma_segments_join(dir, rest);
    assert(head + rest =~= dir + (seq!['/'] + rest));
    lemma_components_of_first(dir, seq!['/'] + rest, a);
    let e = lemma_first_slash(rest, 0);
    lemma_first_segment(rest, e);
    assert forall|i: int|
        #![trigger b[i]]
        0 <= i < b.len() && b[i].0 == 0 implies rest.subrange(b[i].0, b[i].1) != seq!['.'] by {
        if rest.subrange(0, e) == seq!['.'] {
            assert(seq!['.'].len() == 1);
            assert(rest.subrange(0, e)[0] == rest[0]);
        }
    }
    lemma_components_of_second(head, rest, b);
    lemma_components_apart(head + rest, a, moved(b, head.len() as int));
}

/// Components are told stretch by stretch.
proof fn lemma_components_apart(p: Seq<char>, a: Seq<(int, int)>, b: Seq<(int, int)>)
    ensures
        components_among(p, a + b) == components_among(p, a) + components_among(p, b),
    decreases b.len(),
{
    if b.len() == 0 {
        assert(a + b =~= a);
        assert(components_among(p, a + b) =~= components_among(p, a) + components_among(p, b));
    } else {
        assert((a + b).drop_last() =~= a + b.drop_last());
        lemma_components_apart(p, a, b.drop_last());
        assert(components_among(p, a + b) =~= components_among(p, a) + components_among(p, b));
    }
}

/// A path is made of its parts: behind a slash the components of what follows are
/// added, unless it opens with a dot of its own. An empty path has none, a path
/// without a slash is its own only one, and a last dot behind a slash is none.
pub proof fn law_components_are_the_parts_between_slashes(dir: Seq<char>, rest: Seq<char>)
    ensures
        names(Seq::empty()) == Seq::<Seq<char>>::empty(),
        !opens_with_dot(rest) ==> names(dir.push('/') + rest) == names(dir) + names(rest),
        rest.len() > 0 && (forall|i: int| 0 <= i < rest.len() ==> rest[i] != '/') ==> names(rest)
            == seq![rest],
        names(dir + seq!['/', '.']) == names(dir),
        !is_absolute(rest) ==> components(rest) == names(rest),
        is_absolute(rest) ==> components(rest) == seq![seq!['/']] + names(rest),
{
    let empty = Seq::<char>::empty();
    assert(components_among(empty, seq![(0int, 0int)].drop_last()).len() == 0);
    assert(spans(empty) =~= Seq::empty());
    assert(names(empty) =~= Seq::empty());
    if !opens_with_dot(rest) {
        let n = dir.len() as int + 1;
        let whole = dir.push('/') + rest;
        lemma_spans_join(dir, rest);
        lemma_spans(dir);
        lemma_spans(rest);
        assert forall|i: int| 0 <= i < names(whole).len() implies names(whole)[i] == (names(dir)
            + names(rest))[i] by {
            let a = spans(dir);
            let b = spans(rest);
            if i < a.len() {
                assert(whole.subrange(a[i].0, a[i].1) =~= dir.subrange(a[i].0, a[i].1));
            } else {
                let s = b[i - a.len()];
                assert(whole.subrange(s.0 + n, s.1 + n) =~= rest.subrange(s.0, s.1));
            }
        }
        assert(names(whole) =~= names(dir) + names(rest));
    }
    if rest.len() > 0 && (forall|i: int| 0 <= i < rest.len() ==> rest[i] != '/') {
        lemma_first_segment(rest, rest.len() as int);
        lemma_segments(rest);
        let all = segments(rest);
        if all.len() > 1 {
            assert(all[1].0 > rest.len());
        }
        assert(all =~= seq![(0int, rest.len() as int)]);
        assert(components_among(rest, all.drop_last()).len() == 0);
        assert(spans(rest) =~= all);
        assert(rest.subrange(0, rest.len() as int) =~= rest);
        assert(names(rest) =~= seq![rest]);
    }
    let dotted = dir + seq!['/', '.'];
    let dot = seq!['.'];
    assert(dotted =~= dir.push('/') + dot);
    lemma_segments_join(dir, dot);
    lemma_segments(dir);
    lemma_first_segment(dot, 1);
    lemma_segments(dot);
    if segments(dot).len() > 1 {
        assert(segments(dot)[1].0 > 1);
    }
    let last = (dir.len() as int + 1, dir.len() as int + 2);
    assert(segments(dotted) =~= segments(dir).push(last));
    assert(segments(dotted).drop_last() =~= segments(dir));
    assert(dotted.subrange(last.0, last.1) =~= dot);
    lemma_components_of_first(dir, seq!['/', '.'], segments(dir));
    assert(spans(dotted) == spans(dir));
    lemma_spans(dir);
    assert forall|i: int| 0 <= i < names(dir).len() implies names(dotted)[i] == names(dir)[i] by {
        let s = spans(dir)[i];
        assert(dotted.subrange(s.0, s.1) =~= dir.subrange(s.0, s.1));
    }
    assert(names(dotted) =~= names(dir));
}

/// What a directory holds is under it, and its part below the directory is what
/// follows the slash. Nothing is under a directory that has a component which the
/// path does not have at that place.
pub proof fn law_below_is_what_follows(dir: Seq<char>, rest: Seq<char>, p: Seq<char>)
    ensures
        dir.len() > 0 && !opens_with_dot(rest) ==> is_under(dir.push('/') + rest, dir),
        components(dir).len() > 0 && rest.len() > 0 && rest[0] != '/' && rest.last() != '/'
            && !opens_with_dot(rest) && !(rest.len() >= 2 && rest.last() == '.' && rest[rest.len()
            - 2] == '/') ==> below(dir.push('/') + rest, dir) == rest,
        is_under(p, dir) <==> components(dir).len() <= components(p).len() && forall|i: int|
            0 <= i < components(dir).len() ==> #[trigger] components(dir)[i] == components(p)[i],
        !is_under(p, dir) ==> below(p, dir) == p,
{
    let whole = dir.push('/') + rest;
    if dir.len() > 0 && !opens_with_dot(rest) {
        assert(whole[0] == dir[0]);
        law_components_are_the_parts_between_slashes(dir, rest);
        assert(components(whole) =~= components(dir) + names(rest));
        assert(components(dir) =~= components(whole).take(components(dir).len() as int));
    }
    if components(dir).len() > 0 && rest.len() > 0 && rest[0] != '/' && rest.last() != '/'
        && !opens_with_dot(rest) && !(rest.len() >= 2 && rest.last() == '.' && rest[rest.len() - 2]
        == '/') {
        law_components_are_the_parts_between_slashes(dir, rest);
        assert(dir.len() > 0) by {
            if dir.len() == 0 {
                assert(dir =~= Seq::empty());
            }
        }
        let n = dir.len() as int + 1;
        lemma_spans_join(dir, rest);
        lemma_spans(dir);
        lemma_spans(rest);
        let e = lemma_first_slash(rest, 0);
        lemma_first_segment(rest, e);
        let s = lemma_last_slash(rest, rest.len() as int);
        lemma_last_segment(rest, s);
        let b = segments(rest);
        if rest.subrange(s, rest.len() as int) == seq!['.'] {
            assert(rest.subrange(s, rest.len() as int).len() == 1);
            assert(rest.subrange(s, rest.len() as int)[0] == rest[s]);
        }
        if rest.subrange(0, e) == seq!['.'] {
            assert(rest.subrange(0, e).len() == 1);
            assert(rest.subrange(0, e)[0] == rest[0]);
        }
        assert(is_component(rest, b.last()));
        assert(is_component(rest, b[0]));
        assert(spans(rest).last().1 == rest.len());
        lemma_first_component(rest, b);
        assert(spans(rest)[0].0 == 0);
        let all = spans(whole);
        assert(all[spans(dir).len() as int] == (spans(rest)[0].0 + n, spans(rest)[0].1 + n));
        assert(all.last() == moved(spans(rest), n).last());
        assert(whole.subrange(n, whole.len() as int) =~= rest);
    }
    if forall|i: int|
        0 <= i < components(dir).len() ==> #[trigger] components(dir)[i] == components(p)[i] {
        if components(dir).len() <= components(p).len() {
            assert(components(dir) =~= components(p).take(components(dir).len() as int));
        }
    }
    if is_under(p, dir) {
        assert forall|i: int| 0 <= i < components(dir).len() implies #[trigger] components(dir)[i]
            == components(p)[i] by {}
    }
}

/// The first stretch is the first component where it is one.
proof fn lemma_first_component(p: Seq<char>, all: Seq<(int, int)>)
    requires
        all.len() > 0,
        is_component(p, all[0]),
    ensures
        components_among(p, all).len() > 0,
        components_among(p, all)[0] == all[0],
    decreases all.len(),
{
    if all.len() > 1 {
        lemma_first_component(p, all.drop_last());
    } else {
        assert(components_among(p, all.drop_last()).len() == 0);
    }
}

/// What follows the last slash of a path.
proof fn lemma_last_slash(p: Seq<char>, upto: int) -> (s: int)
    requires
        0 <= upto <= p.len(),
        forall|i: int| upto <= i < p.len() ==> p[i] != '/',
    ensures
        0 <= s <= upto,
        s == 0 || p[s - 1] == '/',
        forall|i: int| s <= i < p.len() ==> p[i] != '/',
    decreases upto,
{
    if upto == 0 || p[upto - 1] == '/' {
        upto
    } else {
        lemma_last_slash(p, upto - 1)
    }
}

/// A name inside a directory has the components of both; one that starts at the
/// root stands for itself.
pub proof fn law_joined_has_the_components_of_both(dir: Seq<char>, name: Seq<char>)
    ensures
        is_absolute(name) ==> joined(dir, name) == name,
        !is_absolute(name) && !opens_with_dot(name) ==> names(joined(dir, name)) == names(dir)
            + names(name),
        !is_absolute(name) && dir.len() > 0 ==> is_absolute(joined(dir, name)) == is_absolute(dir),
{
    if !is_absolute(name) && !opens_with_dot(name) {
        let none = Seq::<char>::empty();
        law_components_are_the_parts_between_slashes(dir, name);
        if dir.len() == 0 {
            assert(dir =~= none);
            assert(names(dir) + names(name) =~= names(name));
        } else if dir.last() == '/' {
            let init = dir.drop_last();
            assert(dir =~= init.push('/'));
            law_components_are_the_parts_between_slashes(init, name);
            law_components_are_the_parts_between_slashes(init, none);
            assert(init.push('/') + none =~= dir);
            assert(names(init) + names(none) =~= names(init));
        }
    }
    if !is_absolute(name) && dir.len() > 0 {
        assert(joined(dir, name)[0] == dir[0]);
    }
}

/// Where a component stands among all: the root, then `.`, then `..`, then names.
pub open spec fn rank_of(c: Seq<char>) -> int {
    if c == seq!['/'] {
        0
    } else if c == seq!['.'] {
        1
    } else if c == seq!['.', '.'] {
        2
    } else {
        3
    }
}

/// `a` comes before `b` in the dictionary: up to `m` they are the same, and there
/// `a` ends or has the smaller character.
pub open spec fn spelled_before(a: Seq<char>, b: Seq<char>, m: int) -> bool {
    &&& 0 <= m <= a.len()
    &&& m < b.len()
    &&& forall|i: int| 0 <= i < m ==> #[trigger] a[i] == b[i]
    &&& m == a.len() || (a[m] as int) < (b[m] as int)
}

/// The component list `a` comes before `b`: up to `k` they are the same, and there
/// `a` ends or has the component that comes first.
pub open spec fn listed_before(a: Seq<Seq<char>>, b: Seq<Seq<char>>, k: int) -> bool {
    &&& 0 <= k <= a.len()
    &&& k < b.len()
    &&& forall|i: int| 0 <= i < k ==> #[trigger] a[i] == b[i]
    &&& {
        ||| k == a.len()
        ||| rank_of(a[k]) < rank_of(b[k])
        ||| rank_of(a[k]) == 3 && rank_of(b[k]) == 3 && exists|m: int|
            spelled_before(a[k], b[k], m)
    }
}

/// The weights of a list are those of its parts in a row.
proof fn lemma_weights_apart(a: Seq<Seq<char>>, b: Seq<Seq<char>>)
    ensures
        weights(a + b) == weights(a) + weights(b),
    decreases b.len(),
{
    if b.len() == 0 {
        assert(a + b =~= a);
        assert(weights(a) + weights(b) =~= weights(a));
    } else {
        assert((a + b).drop_last() =~= a + b.drop_last());
        lemma_weights_apart(a, b.drop_last());
        assert(weights(a + b) =~= weights(a) + weights(b));
    }
}

/// The weights of a list from its component `k` on.
proof fn lemma_weights_at(a: Seq<Seq<char>>, k: int)
    requires
        0 <= k < a.len(),
    ensures
        weights(a) == weights(a.take(k)) + weight(a[k]) + weights(a.skip(k + 1)),
        weights(a.skip(k + 1)).len() > 0 ==> weights(a.skip(k + 1))[0] <= 3,
        weights(a).len() > 0,
{
    let one = seq![a[k]];
    lemma_weights_apart(a.take(k), one);
    lemma_weights_apart(a.take(k) + one, a.skip(k + 1));
    assert(a =~= a.take(k) + one + a.skip(k + 1));
    assert(weights(one.drop_last()).len() == 0);
    assert(weights(one) =~= weight(a[k]));
    let rest = a.skip(k + 1);
    if rest.len() > 0 {
        let first = seq![rest[0]];
        lemma_weights_apart(first, rest.skip(1));
        assert(rest =~= first + rest.skip(1));
        assert(weights(first.drop_last()).len() == 0);
        assert(weights(first) =~= weight(rest[0]));
    }
}

/// The code of a character can be counted on.
proof fn lemma_code(c: char)
    ensures
        (c as u32 + 4) as u32 == c as int + 4,
        c as int >= 0,
{
}

/// Lists of components compare as their weights do.
proof fn lemma_listed_before(a: Seq<Seq<char>>, b: Seq<Seq<char>>, k: int)
    requires
        listed_before(a, b, k),
    ensures
        smaller(weights(a), weights(b)),
{
    let head = weights(a.take(k));
    let n = head.len() as int;
    let x = weights(a);
    let y = weights(b);
    assert(a.take(k) =~= b.take(k));
    lemma_weights_at(b, k);
    if k == a.len() {
        assert(a.take(k) =~= a);
        assert(x.take(n) =~= y.take(n));
        assert(smaller_at(x, y, n));
    } else {
        lemma_weights_at(a, k);
        let wa = weight(a[k]);
        let wb = weight(b[k]);
        assert(x[n] == wa[0]);
        assert(y[n] == wb[0]);
        if rank_of(a[k]) < rank_of(b[k]) {
            assert(x.take(n) =~= y.take(n));
            assert(smaller_at(x, y, n));
        } else {
            let m = choose|m: int| spelled_before(a[k], b[k], m);
            let at = n + 1 + m;
            assert forall|i: int| 0 <= i < at implies x[i] == y[i] by {
                if i > n {
                    assert(a[k][i - n - 1] == b[k][i - n - 1]);
                    assert(x[i] == wa[i - n]);
                    assert(y[i] == wb[i - n]);
                }
            }
            assert(y[at] == wb[m + 1]);
            lemma_code(b[k][m]);
            assert(wb[m + 1] == b[k][m] as int + 4);
            assert(x.take(at) =~= y.take(at));
            if m < a[k].len() {
                assert(x[at] == wa[m + 1]);
                lemma_code(a[k][m]);
                assert(wa[m + 1] == a[k][m] as int + 4);
            } else if at < x.len() {
                let later = weights(a.skip(k + 1));
                assert(wa.len() == m + 1);
                assert(x.len() == n + wa.len() + later.len());
                assert(x[at] == later[0]);
            }
            assert(smaller_at(x, y, at));
        }
    }
}

/// Paths are listed component by component: none comes behind one that it should
/// come before, and paths with the same components stay as they stand.
pub proof fn law_paths_are_listed_component_by_component(
    paths: Seq<Seq<char>>,
    order: Seq<usize>,
    i: int,
    j: int,
    k: int,
)
    requires
        is_path_order(paths, order),
        0 <= i < j < order.len(),
    ensures
        order.len() == paths.len(),
        order[i] < paths.len(),
        order[j] < paths.len(),
        order[i] != order[j],
        !listed_before(components(paths[order[j] as int]), components(paths[order[i] as int]), k),
        components(paths[order[i] as int]) == components(paths[order[j] as int]) ==> order[i]
            < order[j],
{
    let keys = sort_keys(paths);
    let prior = by_key(keys);
    assert(prior(order[i] as int, order[j] as int));
    let a = order[i] as int;
    let b = order[j] as int;
    lemma_smaller_irreflexive(keys[a]);
    if listed_before(components(paths[b]), components(paths[a]), k) {
        lemma_listed_before(components(paths[b]), components(paths[a]), k);
        if smaller(keys[a], keys[b]) {
            lemma_smaller_transitive(keys[a], keys[b], keys[a]);
        }
    }
}

/// The name and the extension of a file are what follows its last slash and the
/// last dot behind that.
pub proof fn law_name_and_extension(
    p: &str,
    name: Option<String>,
    ext: Option<String>,
    s: int,
    d: int,
)
    requires
        call_ensures(file_name, (p,), name),
        call_ensures(extension, (p,), ext),
        0 <= s < d < p@.len() - 1,
        s == 0 || p@[s - 1] == '/',
        forall|i: int| s <= i < p@.len() ==> p@[i] != '/',
        p@[d] == '.',
        forall|i: int| d < i < p@.len() ==> p@[i] != '.',
    ensures
        name is Some && name->0@ == p@.skip(s),
        ext is Some && ext->0@ == p@.skip(d + 1),
{
    law_extension_follows_the_last_dot(p@, s, d);
    let tail = p@.skip(s);
    assert(tail[tail.len() - 1] == p@[p@.len() - 1]);
    law_file_name_follows_the_last_slash(p@, s);
}

/// What is joined to a directory is under it, and stripping the directory gives it
/// back, for a name that neither starts nor ends with a slash or a dot of its own.
pub proof fn law_joined_is_stripped_again(
    dir: &str,
    name: &str,
    made: String,
    whole: &str,
    under: bool,
    back: String,
)
    requires
        call_ensures(join, (dir, name), made),
        whole@ == made@,
        call_ensures(starts_with, (whole, dir), under),
        call_ensures(strip_prefix, (whole, dir), back),
        components(dir@).len() > 0,
        dir@.last() != '/',
        name@.len() > 0,
        name@[0] != '/',
        name@.last() != '/',
        !opens_with_dot(name@),
        !(name@.len() >= 2 && name@.last() == '.' && name@[name@.len() - 2] == '/'),
    ensures
        under,
        back@ == name@,
{
    law_below_is_what_follows(dir@, name@, whole@);
    if dir@.len() == 0 {
        law_components_are_the_parts_between_slashes(dir@, name@);
        assert(dir@ =~= Seq::<char>::empty());
    }
}

} // verus!
