use crate::single::Single;
use vstd::prelude::*;

verus! {

/// `order` lists the positions from `lo` up to `hi`, each once, and each
/// stands before all that `prior` puts after it.
pub open spec fn is_order(
    prior: spec_fn(int, int) -> bool,
    lo: int,
    hi: int,
    order: Seq<usize>,
) -> bool {
    &&& order.len() == hi - lo
    &&& forall|i: int| 0 <= i < order.len() ==> lo <= #[trigger] order[i] < hi
    &&& forall|p: usize| lo <= p < hi ==> #[trigger] order.contains(p)
    &&& forall|i: int, j: int|
        #![trigger order[i], order[j]]
        0 <= i < j < order.len() ==> prior(order[i] as int, order[j] as int)
}

/// `prior` is a strict total order on the positions below `size`.
pub open spec fn is_strict_total(prior: spec_fn(int, int) -> bool, size: nat) -> bool {
    &&& forall|a: int| 0 <= a < size ==> !#[trigger] prior(a, a)
    &&& forall|a: int, b: int|
        0 <= a < size && 0 <= b < size && a != b ==> #[trigger] prior(a, b) || prior(b, a)
    &&& forall|a: int, b: int, c: int|
        #![trigger prior(a, b), prior(b, c)]
        0 <= a < size && 0 <= b < size && 0 <= c < size && prior(a, b) && prior(b, c) ==> prior(
            a,
            c,
        )
}

/// A strict total order has one listing only.
pub proof fn lemma_order_unique(
    prior: spec_fn(int, int) -> bool,
    size: nat,
    a: Seq<usize>,
    b: Seq<usize>,
)
    requires
        is_strict_total(prior, size),
        is_order(prior, 0, size as int, a),
        is_order(prior, 0, size as int, b),
    ensures
        a == b,
{
    lemma_orders_agree(prior, size, a, b, size as int);
    assert(a =~= a.take(size as int));
    assert(b =~= b.take(size as int));
}

proof fn lemma_orders_agree(
    prior: spec_fn(int, int) -> bool,
    size: nat,
    a: Seq<usize>,
    b: Seq<usize>,
    n: int,
)
    requires
        is_strict_total(prior, size),
        is_order(prior, 0, size as int, a),
        is_order(prior, 0, size as int, b),
        0 <= n <= size,
    ensures
        a.take(n) == b.take(n),
    decreases n,
{
    if n > 0 {
        lemma_orders_agree(prior, size, a, b, n - 1);
        let x = a[n - 1];
        let y = b[n - 1];
        assert(b.contains(x));
        assert(a.contains(y));
        let i = choose|i: int| 0 <= i < b.len() && b[i] == x;
        let j = choose|j: int| 0 <= j < a.len() && a[j] == y;
        if i < n - 1 {
            assert(a.take(n - 1)[i] == b.take(n - 1)[i]);
            assert(prior(a[i] as int, x as int));
        }
        if j < n - 1 {
            assert(a.take(n - 1)[j] == b.take(n - 1)[j]);
            assert(prior(b[j] as int, y as int));
        }
        if i > n - 1 && j > n - 1 {
            assert(prior(y as int, x as int));
            assert(prior(x as int, y as int));
        }
        assert(a.take(n) =~= a.take(n - 1).push(x));
        assert(b.take(n) =~= b.take(n - 1).push(y));
    } else {
        assert(a.take(0) =~= b.take(0));
    }
}

/// Something whose positions can be put in order.
pub trait Ranking {
    /// How many positions there are.
    spec fn size(&self) -> nat;

    /// Whether one position comes before another.
    spec fn prior(&self) -> spec_fn(int, int) -> bool;

    /// The order is strict and total.
    proof fn is_total(&self)
        ensures
            is_strict_total(self.prior(), self.size()),
    ;

    /// Whether position `a` comes before position `b`.
    fn precedes(&self, a: usize, b: usize) -> (r: bool)
        requires
            a < self.size(),
            b < self.size(),
        ensures
            r == self.prior()(a as int, b as int),
    ;
}

/// Merges two ordered runs of neighbouring positions.
fn merge<R: Ranking>(
    ranking: &R,
    left: &Vec<usize>,
    right: &Vec<usize>,
    Ghost(lo): Ghost<int>,
    Ghost(mid): Ghost<int>,
    Ghost(hi): Ghost<int>,
) -> (out: Vec<usize>)
    requires
        0 <= lo <= mid <= hi <= ranking.size(),
        is_order(ranking.prior(), lo, mid, left@),
        is_order(ranking.prior(), mid, hi, right@),
    ensures
        is_order(ranking.prior(), lo, hi, out@),
{
    let ghost prior = ranking.prior();
    proof {
        ranking.is_total();
    }
    let mut out: Vec<usize> = Vec::new();
    let mut i: usize = 0;
    let mut j: usize = 0;
    while i < left.len() || j < right.len()
        invariant
            0 <= lo <= mid <= hi <= ranking.size(),
            prior == ranking.prior(),
            is_strict_total(prior, ranking.size()),
            is_order(prior, lo, mid, left@),
            is_order(prior, mid, hi, right@),
            i <= left.len(),
            j <= right.len(),
            out.len() == i + j,
            forall|k: int| 0 <= k < out.len() ==> lo <= #[trigger] out@[k] < hi,
            forall|k: int| 0 <= k < i ==> out@.contains(#[trigger] left@[k]),
            forall|k: int| 0 <= k < j ==> out@.contains(#[trigger] right@[k]),
            forall|a: int, b: int|
                #![trigger out@[a], out@[b]]
                0 <= a < b < out.len() ==> prior(out@[a] as int, out@[b] as int),
            forall|a: int, k: int|
                #![trigger out@[a], left@[k]]
                0 <= a < out.len() && i <= k < left.len() ==> prior(
                    out@[a] as int,
                    left@[k] as int,
                ),
            forall|a: int, k: int|
                #![trigger out@[a], right@[k]]
                0 <= a < out.len() && j <= k < right.len() ==> prior(
                    out@[a] as int,
                    right@[k] as int,
                ),
        decreases left.len() - i + right.len() - j,
    {
        let ghost sofar = out@;
        let take_left: bool = if i == left.len() {
            false
        } else if j == right.len() {
            true
        } else {
            ranking.precedes(left[i], right[j])
        };
        let ghost i0 = i as int;
        let ghost j0 = j as int;
        if take_left {
            let x: usize = left[i];
            out.push(x);
            i = i + 1;
            assert forall|k: int| j <= k < right.len() implies prior(
                x as int,
                #[trigger] right@[k] as int,
            ) by {
                if k > j0 {
                    assert(prior(right@[j0] as int, right@[k] as int));
                }
            }
        } else {
            let x: usize = right[j];
            out.push(x);
            j = j + 1;
            assert forall|k: int| i <= k < left.len() implies prior(
                x as int,
                #[trigger] left@[k] as int,
            ) by {
                assert(prior(left@[i0] as int, right@[j0] as int) || prior(
                    right@[j0] as int,
                    left@[i0] as int,
                ));
                if k > i0 {
                    assert(prior(left@[i0] as int, left@[k] as int));
                }
            }
        }
        proof {
            assert forall|v: usize| sofar.contains(v) implies out@.contains(v) by {
                let k = choose|k: int| 0 <= k < sofar.len() && sofar[k] == v;
                assert(out@[k] == v);
            }
            assert(out@[sofar.len() as int] == out@.last());
            assert(out@.contains(out@.last()));
        }
    }
    proof {
        assert forall|p: usize| lo <= p < hi implies #[trigger] out@.contains(p) by {
            if p < mid {
                assert(left@.contains(p));
            } else {
                assert(right@.contains(p));
            }
        }
    }
    out
}

/// The positions from `lo` up to `hi` in order.
fn sort_range<R: Ranking>(ranking: &R, lo: usize, hi: usize) -> (order: Vec<usize>)
    requires
        lo <= hi <= ranking.size(),
    ensures
        is_order(ranking.prior(), lo as int, hi as int, order@),
    decreases hi - lo,
{
    if hi - lo == 0 {
        Vec::new()
    } else if hi - lo == 1 {
        let mut order: Vec<usize> = Vec::new();
        order.push(lo);
        assert(order@[0] == lo);
        order
    } else {
        let mid: usize = lo + (hi - lo) / 2;
        let left: Vec<usize> = sort_range(ranking, lo, mid);
        let right: Vec<usize> = sort_range(ranking, mid, hi);
        merge(ranking, &left, &right, Ghost(lo as int), Ghost(mid as int), Ghost(hi as int))
    }
}

/// All positions of `ranking`, `size` of them, in order.
pub fn sort_positions<R: Ranking>(ranking: &R, size: usize) -> (order: Vec<usize>)
    requires
        size == ranking.size(),
    ensures
        is_order(ranking.prior(), 0, size as int, order@),
{
    sort_range(ranking, 0, size)
}

/// A stable descending order puts greater keys first and leaves equal ones as
/// they stand.
pub open spec fn descending(keys: Seq<Single>) -> spec_fn(int, int) -> bool {
    |a: int, b: int|
        keys[a].key() > keys[b].key() || (keys[a].key() == keys[b].key() && a < b)
}

/// `order` lists the positions of `keys` by descending key; equal keys keep
/// their order.
pub open spec fn is_stable_descending(keys: Seq<Single>, order: Seq<usize>) -> bool {
    is_order(descending(keys), 0, keys.len() as int, order)
}

/// There is only one stable descending order.
pub proof fn lemma_stable_order_unique(keys: Seq<Single>, a: Seq<usize>, b: Seq<usize>)
    requires
        is_stable_descending(keys, a),
        is_stable_descending(keys, b),
    ensures
        a == b,
{
    lemma_order_unique(descending(keys), keys.len(), a, b);
}

/// Quantities to be put in stable descending order.
struct Descending<'a> {
    keys: &'a Vec<Single>,
}

impl<'a> Ranking for Descending<'a> {
    closed spec fn size(&self) -> nat {
        self.keys@.len()
    }

    closed spec fn prior(&self) -> spec_fn(int, int) -> bool {
        descending(self.keys@)
    }

    proof fn is_total(&self) {
    }

    fn precedes(&self, a: usize, b: usize) -> (r: bool) {
        let ka: i64 = self.keys[a].order_key();
        let kb: i64 = self.keys[b].order_key();
        ka > kb || (ka == kb && a < b)
    }
}

/// The positions of `keys` by descending key; equal keys keep their order.
pub fn descending_order(keys: &Vec<Single>) -> (order: Vec<usize>)
    ensures
        is_stable_descending(keys@, order@),
{
    let ranking = Descending { keys };
    sort_positions(&ranking, keys.len())
}

/// A stable descending order lists every position once, greater quantities first,
/// and equal ones as they stand.
pub proof fn law_stable_order(keys: Seq<Single>, order: Seq<usize>, i: int, j: int)
    requires
        is_stable_descending(keys, order),
        0 <= i < j < order.len(),
    ensures
        order.len() == keys.len(),
        order[i] < keys.len(),
        order[j] < keys.len(),
        order[i] != order[j],
        keys[order[i] as int].key() >= keys[order[j] as int].key(),
        keys[order[i] as int].key() == keys[order[j] as int].key() ==> order[i] < order[j],
{
    let prior = descending(keys);
    assert(prior(order[i] as int, order[j] as int));
}

} // verus!
