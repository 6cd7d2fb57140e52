//! Stable sorting of sequences of ranked items.
use vstd::prelude::*;

verus! {

/// Items with a strict weak order: `ahead` says that one item sorts in front of another.
pub trait Ranked: Sized {
    spec fn ahead(&self, other: &Self) -> bool;

    proof fn ahead_asymmetric(a: &Self, b: &Self)
        ensures
            !(a.ahead(b) && b.ahead(a)),
    ;

    proof fn ahead_transitive(a: &Self, b: &Self, c: &Self)
        requires
            a.ahead(b),
            b.ahead(c),
        ensures
            a.ahead(c),
    ;

    /// Being neither ahead nor behind is transitive too.
    proof fn tie_transitive(a: &Self, b: &Self, c: &Self)
        requires
            !a.ahead(b),
            !b.ahead(c),
        ensures
            !a.ahead(c),
    ;

    fn is_ahead(&self, other: &Self) -> (r: bool)
        ensures
            r == self.ahead(other),
    ;
}

impl Ranked for i64 {
    open spec fn ahead(&self, other: &Self) -> bool {
        *self < *other
    }

    proof fn ahead_asymmetric(a: &Self, b: &Self) {
    }

    proof fn ahead_transitive(a: &Self, b: &Self, c: &Self) {
    }

    proof fn tie_transitive(a: &Self, b: &Self, c: &Self) {
    }

    fn is_ahead(&self, other: &Self) -> (r: bool) {
        *self < *other
    }
}

/// An id and a time, ordered by time and then by id.
#[derive(Clone, Copy, Debug)]
pub struct Dated {
    pub at_ms: i64,
    pub id: u64,
}

impl Ranked for Dated {
    open spec fn ahead(&self, other: &Self) -> bool {
        self.at_ms < other.at_ms || (self.at_ms == other.at_ms && self.id < other.id)
    }

    proof fn ahead_asymmetric(a: &Self, b: &Self) {
    }

    proof fn ahead_transitive(a: &Self, b: &Self, c: &Self) {
    }

    proof fn tie_transitive(a: &Self, b: &Self, c: &Self) {
    }

    fn is_ahead(&self, other: &Self) -> (r: bool) {
        self.at_ms < other.at_ms || (self.at_ms == other.at_ms && self.id < other.id)
    }
}

/// Position `i` of `v` sorts in front of position `j`: by rank, and by position among ties.
pub open spec fn sorts_before<T: Ranked>(v: Seq<T>, i: int, j: int) -> bool {
    v[i].ahead(&v[j]) || (!v[j].ahead(&v[i]) && i < j)
}

/// `p` lists the positions `lo..hi` of `v`, each once, in stable sorted order.
pub open spec fn sorts_range<T: Ranked>(p: Seq<usize>, v: Seq<T>, lo: int, hi: int) -> bool {
    &&& p.len() == hi - lo
    &&& forall|i: int| 0 <= i < p.len() ==> lo <= #[trigger] p[i] < hi
    &&& forall|k: int| lo <= k < hi ==> #[trigger] lists(p, k)
    &&& forall|i: int, j: int|
        #![trigger p[i], p[j]]
        0 <= i < j < p.len() ==> sorts_before(v, p[i] as int, p[j] as int)
}

pub open spec fn lists(p: Seq<usize>, k: int) -> bool {
    exists|i: int| 0 <= i < p.len() && #[trigger] p[i] == k
}

/// `out` is `v` in stable sorted order, `p` being the positions of its items in `v`.
pub open spec fn sorted_by<T: Ranked>(out: Seq<T>, v: Seq<T>, p: Seq<usize>) -> bool {
    &&& sorts_range(p, v, 0, v.len() as int)
    &&& out.len() == v.len()
    &&& forall|i: int| 0 <= i < out.len() ==> #[trigger] out[i] == v[p[i] as int]
}

/// `out` is `v` in stable sorted order.
pub open spec fn stable_sort_of<T: Ranked>(out: Seq<T>, v: Seq<T>) -> bool {
    exists|p: Seq<usize>| #[trigger] sorted_by(out, v, p)
}

proof fn sorts_before_transitive<T: Ranked>(v: Seq<T>, i: int, j: int, k: int)
    requires
        sorts_before(v, i, j),
        sorts_before(v, j, k),
    ensures
        sorts_before(v, i, k),
{
    T::ahead_asymmetric(&v[i], &v[j]);
    T::ahead_asymmetric(&v[j], &v[k]);
    T::ahead_asymmetric(&v[i], &v[k]);
    if v[i].ahead(&v[j]) && v[j].ahead(&v[k]) {
        T::ahead_transitive(&v[i], &v[j], &v[k]);
    } else if v[i].ahead(&v[j]) {
        // j ties with k
        if !v[i].ahead(&v[k]) {
            T::tie_transitive(&v[i], &v[k], &v[j]);
        }
    } else if v[j].ahead(&v[k]) {
        if !v[i].ahead(&v[k]) {
            T::tie_transitive(&v[j], &v[i], &v[k]);
        }
    } else {
        T::tie_transitive(&v[k], &v[j], &v[i]);
    }
}

fn merge<T: Ranked>(v: &Vec<T>, a: &Vec<usize>, b: &Vec<usize>, Ghost(lo): Ghost<int>, Ghost(mid): Ghost<
    int,
>, Ghost(hi): Ghost<int>) -> (p: Vec<usize>)
    requires
        0 <= lo <= mid <= hi <= v.len(),
        sorts_range(a@, v@, lo, mid),
        sorts_range(b@, v@, mid, hi),
    ensures
        sorts_range(p@, v@, lo, hi),
{
    let mut p: Vec<usize> = Vec::new();
    let mut i: usize = 0;
    let mut j: usize = 0;
    while i < a.len() || j < b.len()
        invariant
            0 <= lo <= mid <= hi <= v.len(),
            sorts_range(a@, v@, lo, mid),
            sorts_range(b@, v@, mid, hi),
            i <= a.len(),
            j <= b.len(),
            p.len() == i + j,
            forall|x: int| 0 <= x < p.len() ==> lo <= #[trigger] p@[x] < hi,
            forall|x: int, y: int|
                #![trigger p@[x], p@[y]]
                0 <= x < y < p.len() ==> sorts_before(v@, p@[x] as int, p@[y] as int),
            forall|x: int, y: int|
                #![trigger p@[x], a@[y]]
                0 <= x < p.len() && i <= y < a.len() ==> sorts_before(v@, p@[x] as int, a@[y] as int),
            forall|x: int, y: int|
                #![trigger p@[x], b@[y]]
                0 <= x < p.len() && j <= y < b.len() ==> sorts_before(v@, p@[x] as int, b@[y] as int),
            forall|x: int| 0 <= x < i ==> lists(p@, #[trigger] a@[x] as int),
            forall|x: int| 0 <= x < j ==> lists(p@, #[trigger] b@[x] as int),
        decreases a.len() + b.len() - i - j,
    {
        let take_b: bool = if i == a.len() {
            true
        } else if j == b.len() {
            false
        } else {
            v[b[j]].is_ahead(&v[a[i]])
        };
        let ghost was = p@;
        let next: usize = if take_b {
            b[j]
        } else {
            a[i]
        };
        p.push(next);
        proof {
            assert forall|k: int| lists(was, k) implies #[trigger] lists(p@, k) by {
                let x = choose|x: int| 0 <= x < was.len() && #[trigger] was[x] == k;
                assert(p@[x] == k);
            }
            assert(p@[was.len() as int] == next);
            assert(lists(p@, next as int));
            if take_b {
                assert forall|y: int| i <= y < a.len() implies sorts_before(
                    v@,
                    next as int,
                    #[trigger] a@[y] as int,
                ) by {
                    assert(sorts_before(v@, b@[j as int] as int, a@[i as int] as int));
                    if y > i {
                        sorts_before_transitive(v@, next as int, a@[i as int] as int, a@[y] as int);
                    }
                }
            } else {
                assert forall|y: int| j <= y < b.len() implies sorts_before(
                    v@,
                    next as int,
                    #[trigger] b@[y] as int,
                ) by {
                    assert(sorts_before(v@, a@[i as int] as int, b@[j as int] as int));
                    if y > j {
                        sorts_before_transitive(v@, next as int, b@[j as int] as int, b@[y] as int);
                    }
                }
            }
        }
        if take_b {
            j = j + 1;
        } else {
            i = i + 1;
        }
    }
    proof {
        assert forall|k: int| lo <= k < hi implies #[trigger] lists(p@, k) by {
            if k < mid {
                assert(lists(a@, k));
                let x = choose|x: int| 0 <= x < a.len() && #[trigger] a@[x] == k;
                assert(lists(p@, a@[x] as int));
            } else {
                assert(lists(b@, k));
                let x = choose|x: int| 0 <= x < b.len() && #[trigger] b@[x] == k;
                assert(lists(p@, b@[x] as int));
            }
        }
    }
    p
}

fn order_range<T: Ranked>(v: &Vec<T>, lo: usize, hi: usize) -> (p: Vec<usize>)
    requires
        lo <= hi <= v.len(),
    ensures
        sorts_range(p@, v@, lo as int, hi as int),
    decreases hi - lo,
{
    if hi - lo <= 1 {
        let mut p: Vec<usize> = Vec::new();
        if lo < hi {
            p.push(lo);
            assert(p@[0] == lo);
            assert(lists(p@, lo as int));
        }
        p
    } else {
        let mid: usize = lo + (hi - lo) / 2;
        let a = order_range(v, lo, mid);
        let b = order_range(v, mid, hi);
        merge(v, &a, &b, Ghost(lo as int), Ghost(mid as int), Ghost(hi as int))
    }
}

/// The positions of `v` in stable sorted order.
pub fn sort_order<T: Ranked>(v: &Vec<T>) -> (p: Vec<usize>)
    ensures
        sorts_range(p@, v@, 0, v.len() as int),
{
    order_range(v, 0, v.len())
}

/// The items of `v` in the order in which `p` lists their positions.
pub fn rearrange<T>(v: Vec<T>, p: &Vec<usize>) -> (out: Vec<T>)
    requires
        p.len() == v.len(),
        forall|i: int| 0 <= i < p.len() ==> #[trigger] p[i] < v.len(),
        forall|i: int, j: int| 0 <= i < j < p.len() ==> p[i] != p[j],
    ensures
        out.len() == v.len(),
        forall|i: int| 0 <= i < out.len() ==> #[trigger] out[i] == v[p[i] as int],
{
    let ghost all = v@;
    let n: usize = v.len();
    let mut slots: Vec<Option<T>> = Vec::new();
    let mut rest: Vec<T> = v;
    let mut k: usize = n;
    // Reverse the items into `back`, then fill the slots front to back.
    let mut back: Vec<T> = Vec::new();
    while k > 0
        invariant
            k <= n,
            n == all.len(),
            rest@ == all.take(k as int),
            back.len() == n - k,
            forall|i: int| 0 <= i < back.len() ==> #[trigger] back@[i] == all[n - 1 - i],
        decreases k,
    {
        assert(rest.len() > 0);
        let item = rest.pop();
        match item {
            Some(x) => {
                back.push(x);
            },
            None => {},
        }
        k = k - 1;
        assert(rest@ =~= all.take(k as int));
    }
    let mut m: usize = 0;
    while m < n
        invariant
            m <= n,
            n == all.len(),
            back.len() == n - m,
            slots.len() == m,
            forall|i: int| 0 <= i < back.len() ==> #[trigger] back@[i] == all[n - 1 - i],
            forall|i: int| 0 <= i < m ==> #[trigger] slots@[i] == Some(all[i]),
        decreases n - m,
    {
        let item = back.pop();
        slots.push(item);
        m = m + 1;
    }
    let mut out: Vec<T> = Vec::new();
    let mut i: usize = 0;
    while i < n
        invariant
            n == all.len(),
            i <= n,
            p.len() == n,
            slots.len() == n,
            out.len() == i,
            forall|x: int| 0 <= x < p.len() ==> #[trigger] p[x] < n,
            forall|x: int, y: int| 0 <= x < y < p.len() ==> p[x] != p[y],
            forall|x: int| i <= x < n ==> slots@[#[trigger] p[x] as int] == Some(all[p[x] as int]),
            forall|x: int| 0 <= x < i ==> #[trigger] out@[x] == all[p[x] as int],
        decreases n - i,
    {
        let q: usize = p[i];
        let mut taken: Option<T> = None;
        assert(slots@[p[i as int] as int] == Some(all[q as int]));
        let ghost was = slots@;
        core::mem::swap(&mut slots[q], &mut taken);
        match taken {
            Some(x) => {
                out.push(x);
            },
            None => {
                assert(false);
            },
        }
        proof {
            assert forall|x: int| i + 1 <= x < n implies slots@[#[trigger] p[x] as int] == Some(
                all[p[x] as int],
            ) by {
                assert(p[i as int] != p[x]);
                assert(was[p[x] as int] == Some(all[p[x] as int]));
            }
        }
        i = i + 1;
    }
    out
}

/// `v` in stable sorted order.
pub fn stable_sort<T: Ranked>(v: Vec<T>) -> (out: Vec<T>)
    ensures
        stable_sort_of(out@, v@),
{
    let p = sort_order(&v);
    proof {
        order_lists_once(p@, v@);
    }
    let ghost all = v@;
    let out = rearrange(v, &p);
    proof {
        assert(sorted_by(out@, all, p@));
    }
    out
}

/// A sorting order lists no position twice.
pub proof fn order_lists_once<T: Ranked>(p: Seq<usize>, v: Seq<T>)
    requires
        sorts_range(p, v, 0, v.len() as int),
    ensures
        forall|i: int, j: int| 0 <= i < j < p.len() ==> p[i] != p[j],
{
    assert forall|i: int, j: int| 0 <= i < j < p.len() implies p[i] != p[j] by {
        assert(sorts_before(v, p[i] as int, p[j] as int));
        T::ahead_asymmetric(&v[p[i] as int], &v[p[j] as int]);
    }
}

/// There is only one stable sorted order.
pub proof fn order_is_unique<T: Ranked>(p: Seq<usize>, q: Seq<usize>, v: Seq<T>)
    requires
        sorts_range(p, v, 0, v.len() as int),
        sorts_range(q, v, 0, v.len() as int),
    ensures
        p == q,
{
    orders_agree(p, q, v, v.len() as int);
    assert(p =~= q);
}

proof fn orders_agree<T: Ranked>(p: Seq<usize>, q: Seq<usize>, v: Seq<T>, n: int)
    requires
        sorts_range(p, v, 0, v.len() as int),
        sorts_range(q, v, 0, v.len() as int),
        0 <= n <= v.len(),
    ensures
        forall|i: int| 0 <= i < n ==> p[i] == q[i],
    decreases n,
{
    if n > 0 {
        let k = n - 1;
        orders_agree(p, q, v, k);
        order_lists_once(p, v);
        order_lists_once(q, v);
        if p[k] != q[k] {
            assert(lists(q, p[k] as int));
            let a = choose|a: int| 0 <= a < q.len() && #[trigger] q[a] == p[k];
            assert(lists(p, q[k] as int));
            let b = choose|b: int| 0 <= b < p.len() && #[trigger] p[b] == q[k];
            assert(a > k) by {
                if a < k {
                    assert(p[a] == q[a]);
                }
            }
            assert(b > k) by {
                if b < k {
                    assert(p[b] == q[b]);
                }
            }
            assert(sorts_before(v, q[k] as int, q[a] as int));
            assert(sorts_before(v, p[k] as int, p[b] as int));
            T::ahead_asymmetric(&v[p[k] as int], &v[q[k] as int]);
        }
    }
}

/// There is a stable sorted order.
pub proof fn order_exists<T: Ranked>(v: Seq<T>) -> (p: Seq<usize>)
    requires
        v.len() <= usize::MAX,
    ensures
        sorts_range(p, v, 0, v.len() as int),
{
    broadcast use vstd::seq_lib::group_to_multiset_ensures;

    let leq = |i: usize, j: usize| i == j || sorts_before(v, i as int, j as int);
    let places = Seq::new(v.len(), |i: int| i as usize);
    assert(vstd::relations::total_ordering(leq)) by {
        assert forall|i: usize, j: usize| #[trigger] leq(i, j) && #[trigger] leq(j, i) implies i == j by {
            T::ahead_asymmetric(&v[i as int], &v[j as int]);
        }
        assert forall|i: usize, j: usize, k: usize| #[trigger]
            leq(i, j) && #[trigger] leq(j, k) implies leq(i, k) by {
            if i != j && j != k {
                sorts_before_transitive(v, i as int, j as int, k as int);
            }
        }
    }
    places.lemma_sort_by_ensures(leq);
    let p = places.sort_by(leq);
    assert(places.no_duplicates());
    assert(p.len() == p.to_multiset().len());
    assert(places.len() == places.to_multiset().len());
    assert forall|i: int| 0 <= i < p.len() implies 0 <= #[trigger] p[i] < v.len() by {
        assert(p.contains(p[i]));
        assert(places.contains(p[i]));
    }
    assert forall|k: int| 0 <= k < v.len() implies #[trigger] lists(p, k) by {
        assert(places[k] == k);
        assert(places.to_multiset().count(k as usize) > 0);
        assert(p.contains(k as usize));
        let i = choose|i: int| 0 <= i < p.len() && p[i] == k as usize;
        assert(p[i] == k);
    }
    places.lemma_multiset_has_no_duplicates();
    p.lemma_multiset_has_no_duplicates_conv();
    assert forall|i: int, j: int| 0 <= i < j < p.len() implies sorts_before(
        v,
        (#[trigger] p[i]) as int,
        (#[trigger] p[j]) as int,
    ) by {
        assert(leq(p[i], p[j]));
    }
    p
}

/// Sorting keeps exactly the items it was given.
pub proof fn sort_keeps_items<T: Ranked>(out: Seq<T>, v: Seq<T>)
    requires
        stable_sort_of(out, v),
    ensures
        out.len() == v.len(),
        out.to_multiset() == v.to_multiset(),
{
    let p = choose|p: Seq<usize>| #[trigger] sorted_by(out, v, p);
    order_lists_once(p, v);
    let q = p.map_values(|x: usize| x as int);
    permutation_keeps_multiset(out, v, q);
}

/// Reading `v` through a permutation of its positions keeps the multiset of items.
proof fn permutation_keeps_multiset<T>(out: Seq<T>, v: Seq<T>, q: Seq<int>)
    requires
        q.len() == v.len(),
        out.len() == v.len(),
        forall|i: int| 0 <= i < q.len() ==> 0 <= #[trigger] q[i] < v.len(),
        forall|i: int, j: int| 0 <= i < j < q.len() ==> q[i] != q[j],
        forall|i: int| 0 <= i < out.len() ==> #[trigger] out[i] == v[q[i]],
    ensures
        out.to_multiset() == v.to_multiset(),
    decreases v.len(),
{
    broadcast use vstd::seq_lib::group_to_multiset_ensures;

    if v.len() == 0 {
        assert(out =~= v);
    } else {
        let last = q.last();
        let v2 = v.remove(last);
        let q2 = q.drop_last().map_values(|x: int| if x > last { x - 1 } else { x });
        let out2 = out.drop_last();
        assert forall|i: int| 0 <= i < q2.len() implies 0 <= #[trigger] q2[i] < v2.len() by {
            assert(q[i] != q[q.len() - 1]);
        }
        assert forall|i: int, j: int| 0 <= i < j < q2.len() implies q2[i] != q2[j] by {
            assert(q[i] != q[j]);
            assert(q[i] != q[q.len() - 1]);
            assert(q[j] != q[q.len() - 1]);
        }
        assert forall|i: int| 0 <= i < out2.len() implies #[trigger] out2[i] == v2[q2[i]] by {
            assert(out[i] == v[q[i]]);
            assert(q[i] != q[q.len() - 1]);
        }
        permutation_keeps_multiset(out2, v2, q2);
        assert(out =~= out2.push(v[last]));
        assert(v2.insert(last, v[last]) =~= v);
    }
}

} // verus!
