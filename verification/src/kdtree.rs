//! A k-d tree: a spatial index over a fixed number of caller-defined
//! projection axes, built once by recursive median partitioning and then
//! queried for the k nearest neighbors under a caller-defined metric.

use vstd::prelude::*;
use vstd::multiset::Multiset;
use vstd::seq_lib::group_to_multiset_ensures;
use vstd::seq_lib::lemma_multiset_commutative;

verus! {

broadcast use group_to_multiset_ensures;

/// The interface a point type must offer to be indexed.
///
/// The axis projections, the inter-point distance and the per-axis
/// separation ("radius") are all supplied by the implementor; each
/// executable method is tied to a spec-level counterpart so that the
/// tree's contracts can speak about them exactly.
///
/// `radius_lower_bound` is the consistency law that makes pruning sound:
/// whenever a splitting value `s` lies between the axis projections of
/// two points, the radius at `s` must lower-bound their distance.
pub trait KdPoint: Sized {
    /// How many projection axes there are (at least one).
    spec fn num_axes_spec() -> int;

    /// The projection of this point onto axis `i`.
    spec fn axis_spec(self, i: int) -> int;

    /// The distance from this point to `other`.
    spec fn dist_spec(self, other: Self) -> int;

    /// A lower bound on the distance between two points whose
    /// projections on some axis are `a` and `b`.
    spec fn radius_spec(a: int, b: int) -> int;

    fn num_axes() -> (n: usize)
        ensures
            n as int == Self::num_axes_spec(),
            n >= 1,
    ;

    /// An independent deep copy of this point.
    fn dup(&self) -> (c: Self)
        ensures
            c == *self,
    ;

    fn axis(&self, i: usize) -> (a: i128)
        requires
            (i as int) < Self::num_axes_spec(),
        ensures
            a as int == self.axis_spec(i as int),
    ;

    fn distance(&self, other: &Self) -> (d: i128)
        ensures
            d as int == self.dist_spec(*other),
    ;

    fn radius(&self, other: &Self, i: usize) -> (r: i128)
        requires
            (i as int) < Self::num_axes_spec(),
        ensures
            r as int == Self::radius_spec(
                self.axis_spec(i as int),
                other.axis_spec(i as int),
            ),
    ;

    /// If `s` separates the axis-`i` projections of `t` and `p`, then the
    /// radius of `t`'s projection against `s` is at most their distance.
    proof fn radius_lower_bound(t: Self, p: Self, s: int, i: int)
        requires
            0 <= i < Self::num_axes_spec(),
            t.axis_spec(i) <= s <= p.axis_spec(i) || p.axis_spec(i) <= s <= t.axis_spec(i),
        ensures
            Self::radius_spec(t.axis_spec(i), s) <= t.dist_spec(p),
    ;
}

#[derive(PartialEq)]
struct Node<T: KdPoint> {
    value: T,
    left: Option<Box<Node<T>>>,
    right: Option<Box<Node<T>>>,
}

/// The tree itself: an optional root node. It is immutable once built.
#[derive(PartialEq)]
pub struct KDTree<T: KdPoint> {
    root: Option<Box<Node<T>>>,
}

/// The multiset of point values stored in a subtree.
spec fn opt_values<T: KdPoint>(node: Option<Box<Node<T>>>) -> Multiset<T>
    decreases node,
{
    match node {
        None => Multiset::empty(),
        Some(n) => opt_values(n.left).add(opt_values(n.right)).insert(n.value),
    }
}

/// The k-d ordering invariant: at a node split on axis `axis_i`, the left
/// subtree projects at or below the node's value on that axis and the
/// right subtree at or above it, with the axis cycling at each level.
spec fn opt_wf<T: KdPoint>(node: Option<Box<Node<T>>>, axis_i: int) -> bool
    decreases node,
{
    match node {
        None => true,
        Some(n) => {
            let next = (axis_i + 1) % T::num_axes_spec();
            &&& forall|q: T|
                opt_values(n.left).contains(q) ==> q.axis_spec(axis_i) <= n.value.axis_spec(
                    axis_i,
                )
            &&& forall|q: T|
                opt_values(n.right).contains(q) ==> n.value.axis_spec(axis_i) <= q.axis_spec(
                    axis_i,
                )
            &&& opt_wf(n.left, next)
            &&& opt_wf(n.right, next)
        },
    }
}

/// The median-split shape: at every node holding `n` points in total,
/// the left subtree holds `floor(n/2)` of them and the right subtree the
/// remaining `n - floor(n/2) - 1`.
spec fn opt_balanced<T: KdPoint>(node: Option<Box<Node<T>>>) -> bool
    decreases node,
{
    match node {
        None => true,
        Some(n) => {
            let l = opt_values(n.left).len();
            let r = opt_values(n.right).len();
            &&& l == (l + r + 1) / 2
            &&& opt_balanced(n.left)
            &&& opt_balanced(n.right)
        },
    }
}

/// One candidate kept during a query: a point and its distance to the target.
struct Pair<T: KdPoint> {
    value: T,
    dist: i128,
}

/// The point values of a candidate sequence, as a multiset.
spec fn pair_vals<T: KdPoint>(s: Seq<Pair<T>>) -> Multiset<T> {
    s.map_values(|p: Pair<T>| p.value).to_multiset()
}

/// Candidates in order of non-decreasing distance.
spec fn pairs_sorted<T: KdPoint>(s: Seq<Pair<T>>) -> bool {
    forall|i: int, j: int| 0 <= i <= j < s.len() ==> s[i].dist <= s[j].dist
}

/// Every candidate's recorded distance is its true distance to `target`.
spec fn pairs_ok<T: KdPoint>(s: Seq<Pair<T>>, target: T) -> bool {
    forall|i: int|
        0 <= i < s.len() ==> (#[trigger] s[i]).dist as int == target.dist_spec(s[i].value)
}

/// The smaller of two integers.
pub open spec fn int_min(a: int, b: int) -> int {
    if a <= b {
        a
    } else {
        b
    }
}

/// A sequence of points in order of non-decreasing distance to `target`.
pub open spec fn sorted_by_dist_to<T: KdPoint>(target: T, s: Seq<T>) -> bool {
    forall|i: int, j: int|
        0 <= i <= j < s.len() ==> target.dist_spec(s[i]) <= target.dist_spec(s[j])
}

/// Exchanges the elements at positions `a` and `b`.
fn swap_elems<T: KdPoint>(data: &mut Vec<T>, a: usize, b: usize)
    requires
        (a as int) < old(data)@.len(),
        (b as int) < old(data)@.len(),
    ensures
        final(data)@ == old(data)@.update(a as int, old(data)@[b as int]).update(
            b as int,
            old(data)@[a as int],
        ),
        final(data)@.len() == old(data)@.len(),
{
    let va = data[a].dup();
    let vb = data[b].dup();
    data[a] = vb;
    data[b] = va;
}

/// Swapping two elements of a sequence leaves its multiset unchanged.
proof fn lemma_seq_swap_multiset<T>(s: Seq<T>, a: int, b: int)
    requires
        0 <= a < s.len(),
        0 <= b < s.len(),
    ensures
        s.update(a, s[b]).update(b, s[a]).to_multiset() == s.to_multiset(),
{
    if a == b {
        assert(s.update(a, s[b]).update(b, s[a]) =~= s);
    } else {
        let s1 = s.update(a, s[b]);
        let s2 = s1.update(b, s[a]);
        assert(s.contains(s[a]));
        assert(s1[b] == s[b]);
        assert(s1.contains(s1[b]));
        assert(s1.to_multiset() == s.to_multiset().insert(s[b]).remove(s[a]));
        assert(s2.to_multiset() == s1.to_multiset().insert(s[a]).remove(s[b]));
        assert(s2.to_multiset() =~= s.to_multiset());
    }
}

/// Swapping two elements inside a range leaves the range's multiset
/// unchanged.
proof fn lemma_swap_subrange_multiset<T>(s: Seq<T>, lo: int, hi: int, a: int, b: int)
    requires
        0 <= lo <= a < hi <= s.len(),
        lo <= b < hi,
    ensures
        s.update(a, s[b]).update(b, s[a]).subrange(lo, hi).to_multiset() == s.subrange(
            lo,
            hi,
        ).to_multiset(),
{
    let m = s.subrange(lo, hi);
    let s2 = s.update(a, s[b]).update(b, s[a]);
    assert(s2.subrange(lo, hi) =~= m.update(a - lo, m[b - lo]).update(b - lo, m[a - lo]));
    lemma_seq_swap_multiset(m, a - lo, b - lo);
}

/// The value at an in-range index is a member of the range's multiset.
proof fn lemma_subrange_member<T>(s: Seq<T>, lo: int, hi: int, t: int)
    requires
        0 <= lo <= t < hi <= s.len(),
    ensures
        s.subrange(lo, hi).to_multiset().contains(s[t]),
{
    assert(s.subrange(lo, hi)[t - lo] == s[t]);
    assert(s.subrange(lo, hi).contains(s[t]));
}

/// Hoare partition of `data[lo..hi]` around the last element of the range,
/// comparing by the projection onto axis `axis_i`. Returns the pivot's
/// final position: everything before it projects at or below the pivot,
/// everything after it strictly above.
#[verifier::rlimit(50)]
fn partition<T: KdPoint>(data: &mut Vec<T>, lo: usize, hi: usize, axis_i: usize) -> (p: usize)
    requires
        lo < hi,
        (hi as int) <= old(data)@.len(),
        (axis_i as int) < T::num_axes_spec(),
    ensures
        final(data)@.len() == old(data)@.len(),
        lo <= p < hi,
        forall|t: int|
            0 <= t < old(data)@.len() && !(lo <= t < hi) ==> final(data)@[t] == old(data)@[t],
        final(data)@.subrange(lo as int, hi as int).to_multiset() == old(data)@.subrange(
            lo as int,
            hi as int,
        ).to_multiset(),
        forall|t: int|
            lo <= t < p ==> (#[trigger] final(data)@[t]).axis_spec(axis_i as int)
                <= final(data)@[p as int].axis_spec(axis_i as int),
        forall|t: int|
            p < t < hi ==> final(data)@[p as int].axis_spec(axis_i as int)
                < (#[trigger] final(data)@[t]).axis_spec(axis_i as int),
{
    let ghost orig = data@;
    let pivot = data[hi - 1].axis(axis_i);
    let mut i = lo;
    let mut j = lo;
    while j < hi - 1
        invariant
            lo <= i <= j <= hi - 1,
            (hi as int) <= data@.len(),
            data@.len() == orig.len(),
            lo < hi,
            (axis_i as int) < T::num_axes_spec(),
            pivot as int == data@[hi - 1].axis_spec(axis_i as int),
            forall|t: int| 0 <= t < orig.len() && !(lo <= t < j) ==> data@[t] == orig[t],
            data@.subrange(lo as int, hi as int).to_multiset() == orig.subrange(
                lo as int,
                hi as int,
            ).to_multiset(),
            forall|t: int|
                lo <= t < i ==> (#[trigger] data@[t]).axis_spec(axis_i as int) <= pivot as int,
            forall|t: int|
                i <= t < j ==> (pivot as int) < (#[trigger] data@[t]).axis_spec(axis_i as int),
        decreases hi - 1 - j,
    {
        let aj = data[j].axis(axis_i);
        if aj <= pivot {
            proof {
                lemma_swap_subrange_multiset(data@, lo as int, hi as int, i as int, j as int);
            }
            swap_elems(data, i, j);
            i = i + 1;
        }
        j = j + 1;
    }
    proof {
        lemma_swap_subrange_multiset(data@, lo as int, hi as int, i as int, hi - 1);
    }
    swap_elems(data, i, hi - 1);
    i
}

/// Quickselect: rearranges `data[lo..hi]` so that the element of rank
/// `rank` under axis `axis_i` stands at position `rank`, everything before
/// it projecting at or below it and everything after at or above it.
#[verifier::rlimit(50)]
fn quick_selection<T: KdPoint>(data: &mut Vec<T>, lo: usize, hi: usize, rank: usize, axis_i: usize)
    requires
        lo <= rank < hi,
        (hi as int) <= old(data)@.len(),
        (axis_i as int) < T::num_axes_spec(),
    ensures
        final(data)@.len() == old(data)@.len(),
        forall|t: int|
            0 <= t < old(data)@.len() && !(lo <= t < hi) ==> final(data)@[t] == old(data)@[t],
        final(data)@.subrange(lo as int, hi as int).to_multiset() == old(data)@.subrange(
            lo as int,
            hi as int,
        ).to_multiset(),
        forall|t: int|
            lo <= t < rank ==> (#[trigger] final(data)@[t]).axis_spec(axis_i as int)
                <= final(data)@[rank as int].axis_spec(axis_i as int),
        forall|t: int|
            rank < t < hi ==> final(data)@[rank as int].axis_spec(axis_i as int)
                <= (#[trigger] final(data)@[t]).axis_spec(axis_i as int),
    decreases hi - lo,
{
    if hi - lo == 1 {
        return ;
    }
    let p = partition(data, lo, hi, axis_i);
    let ghost mid = data@;
    if rank == p {
    } else if rank < p {
        quick_selection(data, lo, p, rank, axis_i);
        proof {
            lemma_subrange_multiset_frame(mid, data@, lo as int, lo as int, p as int, hi as int);
            lemma_range_bounds_kept(
                mid,
                data@,
                lo as int,
                p as int,
                axis_i as int,
                mid[p as int].axis_spec(axis_i as int),
            );
            assert forall|t: int|
                rank < t < hi implies data@[rank as int].axis_spec(axis_i as int) <= (
            #[trigger] data@[t]).axis_spec(axis_i as int) by {
                assert(data@[rank as int].axis_spec(axis_i as int) <= mid[p as int].axis_spec(
                    axis_i as int,
                ));
                if t >= p {
                    assert(data@[t] == mid[t]);
                }
            }
        }
    } else {
        quick_selection(data, p + 1, hi, rank, axis_i);
        proof {
            lemma_subrange_multiset_frame(mid, data@, lo as int, p as int + 1, hi as int, hi as int);
            lemma_range_bounds_kept_lower(
                mid,
                data@,
                p as int + 1,
                hi as int,
                axis_i as int,
                mid[p as int].axis_spec(axis_i as int),
            );
            assert forall|t: int|
                lo <= t < rank implies (#[trigger] data@[t]).axis_spec(axis_i as int)
                <= data@[rank as int].axis_spec(axis_i as int) by {
                assert(mid[p as int].axis_spec(axis_i as int) <= data@[rank as int].axis_spec(
                    axis_i as int,
                ));
                if t <= p {
                    assert(data@[t] == mid[t]);
                }
            }
        }
    }
}

/// If two equally long sequences agree outside `[a, b)` and their
/// `[a, b)` ranges hold the same multiset, then any enclosing range
/// `[lo, hi)` holds the same multiset in both.
proof fn lemma_subrange_multiset_frame<T>(s1: Seq<T>, s2: Seq<T>, lo: int, a: int, b: int, hi: int)
    requires
        0 <= lo <= a <= b <= hi <= s1.len(),
        s1.len() == s2.len(),
        forall|t: int| lo <= t < hi && !(a <= t < b) ==> s1[t] == s2[t],
        s1.subrange(a, b).to_multiset() == s2.subrange(a, b).to_multiset(),
    ensures
        s1.subrange(lo, hi).to_multiset() == s2.subrange(lo, hi).to_multiset(),
{
    assert(s1.subrange(lo, hi) =~= s1.subrange(lo, a) + s1.subrange(a, b) + s1.subrange(b, hi));
    assert(s2.subrange(lo, hi) =~= s2.subrange(lo, a) + s2.subrange(a, b) + s2.subrange(b, hi));
    assert(s1.subrange(lo, a) =~= s2.subrange(lo, a));
    assert(s1.subrange(b, hi) =~= s2.subrange(b, hi));
    lemma_multiset_commutative(s1.subrange(lo, a) + s1.subrange(a, b), s1.subrange(b, hi));
    lemma_multiset_commutative(s1.subrange(lo, a), s1.subrange(a, b));
    lemma_multiset_commutative(s2.subrange(lo, a) + s2.subrange(a, b), s2.subrange(b, hi));
    lemma_multiset_commutative(s2.subrange(lo, a), s2.subrange(a, b));
}

/// If every element of a range projects at or below `bound`, the same
/// holds after the range is rearranged without changing its multiset.
proof fn lemma_range_bounds_kept<T: KdPoint>(
    s1: Seq<T>,
    s2: Seq<T>,
    lo: int,
    hi: int,
    ai: int,
    bound: int,
)
    requires
        0 <= lo <= hi <= s1.len(),
        hi <= s2.len(),
        s1.subrange(lo, hi).to_multiset() == s2.subrange(lo, hi).to_multiset(),
        forall|t: int| lo <= t < hi ==> (#[trigger] s1[t]).axis_spec(ai) <= bound,
    ensures
        forall|t: int| lo <= t < hi ==> (#[trigger] s2[t]).axis_spec(ai) <= bound,
{
    assert forall|t: int| lo <= t < hi implies (#[trigger] s2[t]).axis_spec(ai) <= bound by {
        lemma_subrange_member(s2, lo, hi, t);
        lemma_multiset_member_index(s1.subrange(lo, hi), s2[t]);
        let w = choose|w: int| 0 <= w < s1.subrange(lo, hi).len() && s1.subrange(lo, hi)[w] == s2[t];
        assert(s1[lo + w] == s2[t]);
    }
}

/// If every element of a range projects at or above `bound`, the same
/// holds after the range is rearranged without changing its multiset.
proof fn lemma_range_bounds_kept_lower<T: KdPoint>(
    s1: Seq<T>,
    s2: Seq<T>,
    lo: int,
    hi: int,
    ai: int,
    bound: int,
)
    requires
        0 <= lo <= hi <= s1.len(),
        hi <= s2.len(),
        s1.subrange(lo, hi).to_multiset() == s2.subrange(lo, hi).to_multiset(),
        forall|t: int| lo <= t < hi ==> bound <= (#[trigger] s1[t]).axis_spec(ai),
    ensures
        forall|t: int| lo <= t < hi ==> bound <= (#[trigger] s2[t]).axis_spec(ai),
{
    assert forall|t: int| lo <= t < hi implies bound <= (#[trigger] s2[t]).axis_spec(ai) by {
        lemma_subrange_member(s2, lo, hi, t);
        lemma_multiset_member_index(s1.subrange(lo, hi), s2[t]);
        let w = choose|w: int| 0 <= w < s1.subrange(lo, hi).len() && s1.subrange(lo, hi)[w] == s2[t];
        assert(s1[lo + w] == s2[t]);
    }
}

/// Builds the subtree for `data[lo..hi]`, splitting on axis `axis_i`: the
/// lower median under the axis becomes the node's value, the points before
/// it the left subtree and the points after it the right subtree, with the
/// axis cycling at each level.
#[verifier::rlimit(50)]
fn build_node<T: KdPoint>(data: &mut Vec<T>, lo: usize, hi: usize, axis_i: usize) -> (node: Option<
    Box<Node<T>>,
>)
    requires
        lo <= hi,
        (hi as int) <= old(data)@.len(),
        (axis_i as int) < T::num_axes_spec(),
    ensures
        final(data)@.len() == old(data)@.len(),
        forall|t: int|
            0 <= t < old(data)@.len() && !(lo <= t < hi) ==> final(data)@[t] == old(data)@[t],
        final(data)@.subrange(lo as int, hi as int).to_multiset() == old(data)@.subrange(
            lo as int,
            hi as int,
        ).to_multiset(),
        opt_values(node) == old(data)@.subrange(lo as int, hi as int).to_multiset(),
        opt_wf(node, axis_i as int),
        opt_balanced(node),
    decreases hi - lo,
{
    if lo == hi {
        proof {
            assert(old(data)@.subrange(lo as int, hi as int) =~= Seq::<T>::empty());
            lemma_empty_multiset(old(data)@.subrange(lo as int, hi as int));
        }
        return None;
    }
    let ghost orig = data@;
    let mid = lo + (hi - lo) / 2;
    quick_selection(data, lo, hi, mid, axis_i);
    let value = data[mid].dup();
    let m = T::num_axes();
    let next = (axis_i + 1) % m;
    let ghost after_qs = data@;
    let left = build_node(data, lo, mid, next);
    let ghost after_left = data@;
    let right = build_node(data, mid + 1, hi, next);
    proof {
        lemma_subrange_multiset_frame(
            after_qs,
            after_left,
            lo as int,
            lo as int,
            mid as int,
            hi as int,
        );
        lemma_subrange_multiset_frame(
            after_left,
            data@,
            lo as int,
            mid as int + 1,
            hi as int,
            hi as int,
        );
        assert(after_left.subrange(mid as int + 1, hi as int) =~= after_qs.subrange(
            mid as int + 1,
            hi as int,
        ));
        lemma_split_range_multiset(after_qs, lo as int, mid as int, hi as int);
        assert(opt_values(left).add(opt_values(right)).insert(value) =~= after_qs.subrange(
            lo as int,
            hi as int,
        ).to_multiset());
        assert forall|q: T| opt_values(left).contains(q) implies q.axis_spec(axis_i as int)
            <= value.axis_spec(axis_i as int) by {
            lemma_multiset_member_index(after_qs.subrange(lo as int, mid as int), q);
            let w = choose|w: int|
                0 <= w < after_qs.subrange(lo as int, mid as int).len() && (
                #[trigger] after_qs.subrange(lo as int, mid as int)[w]) == q;
            assert(after_qs[lo + w] == q);
        }
        assert forall|q: T| opt_values(right).contains(q) implies value.axis_spec(axis_i as int)
            <= q.axis_spec(axis_i as int) by {
            lemma_multiset_member_index(after_qs.subrange(mid as int + 1, hi as int), q);
            let w = choose|w: int|
                0 <= w < after_qs.subrange(mid as int + 1, hi as int).len() && (
                #[trigger] after_qs.subrange(mid as int + 1, hi as int)[w]) == q;
            assert(after_qs[mid + 1 + w] == q);
        }
    }
    Some(Box::new(Node { value, left, right }))
}

impl<T: KdPoint> KDTree<T> {
    /// The multiset of points held by the tree.
    pub closed spec fn values(self) -> Multiset<T> {
        opt_values(self.root)
    }

    /// How many points the tree holds.
    pub open spec fn size(self) -> nat {
        self.values().len()
    }

    #[verifier::type_invariant]
    spec fn inv(self) -> bool {
        opt_wf(self.root, 0) && opt_balanced(self.root)
    }

    /// Builds a tree holding exactly the given points. The input
    /// collection is consumed; its internal order is not preserved.
    pub fn new(data: Vec<T>) -> (tree: Self)
        ensures
            tree.values() == data@.to_multiset(),
            tree.size() == data@.len(),
    {
        let mut d = data;
        let n = d.len();
        let m = T::num_axes();
        let root = build_node(&mut d, 0, n, 0);
        proof {
            assert(data@.subrange(0, n as int) =~= data@);
        }
        KDTree { root }
    }

    /// Returns up to `k` points of the tree in order of non-decreasing
    /// distance to `target`: fewer than `k` only when the tree holds fewer,
    /// all of them tree members, and no point left out of a full result is
    /// closer to `target` than any point returned.
    pub fn find_k_nearest_neighbors(&self, target: &T, k: usize) -> (res: Vec<T>)
        ensures
            res@.len() == int_min(k as int, self.size() as int),
            res@.to_multiset().subset_of(self.values()),
            sorted_by_dist_to(*target, res@),
            k >= self.size() ==> res@.to_multiset() == self.values(),
            forall|q: T|
                self.values().count(q) > res@.to_multiset().count(q) ==> res@.len() == k && (k
                    == 0 || target.dist_spec(q) >= target.dist_spec(res@.last())),
    {
        proof {
            use_type_invariant(&*self);
        }
        let m = T::num_axes();
        let mut cands: Vec<Pair<T>> = Vec::new();
        proof {
            lemma_empty_multiset(Seq::<Pair<T>>::empty().map_values(|p: Pair<T>| p.value));
            assert(pair_vals(cands@) =~= Multiset::<T>::empty());
            assert(pair_vals(cands@).add(opt_values(self.root)) =~= opt_values(self.root));
        }
        knn(target, k, &self.root, 0, &mut cands);
        let mut res: Vec<T> = Vec::new();
        let mut i: usize = 0;
        while i < cands.len()
            invariant
                0 <= i <= cands@.len(),
                res@.len() == i,
                forall|t: int| 0 <= t < i ==> res@[t] == cands@[t].value,
            decreases cands@.len() - i,
        {
            let c = cands[i].value.dup();
            res.push(c);
            i = i + 1;
        }
        proof {
            assert(res@ =~= cands@.map_values(|p: Pair<T>| p.value));
            assert(res@.to_multiset() == pair_vals(cands@));
            assert forall|a: int, b: int| 0 <= a <= b < res@.len() implies target.dist_spec(
                res@[a],
            ) <= target.dist_spec(res@[b]) by {
                assert(cands@[a].dist <= cands@[b].dist);
            }
            if res@.len() > 0 {
                assert(res@.last() == cands@.last().value);
                assert(target.dist_spec(res@.last()) == cands@.last().dist as int);
            }
        }
        res
    }
}

/// Inserts a candidate into a distance-sorted sequence, keeping it sorted;
/// among equal distances the newcomer goes last.
#[verifier::rlimit(50)]
fn insert_pair<T: KdPoint>(cands: &mut Vec<Pair<T>>, p: Pair<T>)
    requires
        pairs_sorted(old(cands)@),
    ensures
        final(cands)@.len() == old(cands)@.len() + 1,
        pairs_sorted(final(cands)@),
        pair_vals(final(cands)@) == pair_vals(old(cands)@).insert(p.value),
        forall|t: int|
            0 <= t < final(cands)@.len() ==> (#[trigger] final(cands)@[t]) == p || exists|u: int|
                0 <= u < old(cands)@.len() && final(cands)@[t] == old(cands)@[u],
        final(cands)@.last().dist == if old(cands)@.len() == 0 {
            p.dist
        } else if p.dist >= old(cands)@.last().dist {
            p.dist
        } else {
            old(cands)@.last().dist
        },
        forall|tgt: T|
            pairs_ok(old(cands)@, tgt) && (p.dist as int) == tgt.dist_spec(p.value) ==> pairs_ok(
                final(cands)@,
                tgt,
            ),
{
    let ghost s0 = cands@;
    let mut idx = cands.len();
    while idx > 0 && cands[idx - 1].dist > p.dist
        invariant
            0 <= idx <= cands@.len(),
            cands@ == s0,
            forall|t: int| idx <= t < cands@.len() ==> p.dist < (#[trigger] cands@[t]).dist,
        decreases idx,
    {
        idx = idx - 1;
    }
    let ghost gp = p;
    cands.insert(idx, p);
    proof {
        s0.insert_ensures(idx as int, gp);
        assert forall|i: int, j: int| 0 <= i <= j < cands@.len() implies cands@[i].dist
            <= cands@[j].dist by {
            if i < idx && j > idx {
                assert(cands@[i] == s0[i]);
                assert(cands@[j] == s0[j - 1]);
            }
        }
        assert(cands@.map_values(|q: Pair<T>| q.value) =~= s0.map_values(
            |q: Pair<T>| q.value,
        ).insert(idx as int, p.value));
        assert forall|t: int|
            0 <= t < cands@.len() implies (#[trigger] cands@[t]) == p || exists|u: int|
            0 <= u < s0.len() && cands@[t] == s0[u] by {
            if t < idx {
                assert(cands@[t] == s0[t]);
            } else if t > idx {
                assert(cands@[t] == s0[t - 1]);
            }
        }
        assert forall|tgt: T|
            pairs_ok(s0, tgt) && (gp.dist as int) == tgt.dist_spec(gp.value) implies pairs_ok(
            cands@,
            tgt,
        ) by {
            assert forall|t: int| 0 <= t < cands@.len() implies (#[trigger] cands@[t]).dist as int
                == tgt.dist_spec(cands@[t].value) by {
                if t < idx {
                    assert(cands@[t] == s0[t]);
                } else if t > idx {
                    assert(cands@[t] == s0[t - 1]);
                }
            }
        }
        if s0.len() > 0 {
            if gp.dist >= s0.last().dist {
                assert(cands@.last() == gp);
            } else {
                assert(cands@.last() == s0[cands@.len() - 2]);
            }
        }
    }
}

/// Depth-first bounded k-nearest-neighbor traversal. `cands` holds the
/// best candidates seen so far, at most `k` of them, sorted by distance;
/// each node updates the candidate set, the subtree on the target's side
/// of the splitting plane is searched first, and the far subtree is
/// searched only if the candidate set is not yet full or the axis
/// separation could still admit a closer point.
#[verifier::rlimit(100)]
fn knn<T: KdPoint>(
    target: &T,
    k: usize,
    node: &Option<Box<Node<T>>>,
    axis_i: usize,
    cands: &mut Vec<Pair<T>>,
)
    requires
        (axis_i as int) < T::num_axes_spec(),
        opt_wf(*node, axis_i as int),
        pairs_sorted(old(cands)@),
        pairs_ok(old(cands)@, *target),
        old(cands)@.len() <= k,
    ensures
        pairs_sorted(final(cands)@),
        pairs_ok(final(cands)@, *target),
        final(cands)@.len() == int_min(k as int, old(cands)@.len() + opt_values(*node).len() as int),
        pair_vals(final(cands)@).subset_of(pair_vals(old(cands)@).add(opt_values(*node))),
        old(cands)@.len() + opt_values(*node).len() <= k ==> pair_vals(final(cands)@)
            == pair_vals(old(cands)@).add(opt_values(*node)),
        old(cands)@.len() == k && k > 0 ==> final(cands)@.last().dist <= old(cands)@.last().dist,
        forall|q: T|
            pair_vals(old(cands)@).add(opt_values(*node)).count(q) > pair_vals(
                final(cands)@,
            ).count(q) ==> final(cands)@.len() == k && (k == 0 || target.dist_spec(q)
                >= final(cands)@.last().dist as int),
    decreases node,
{
    match node {
        None => {
            proof {
                assert(pair_vals(cands@).add(opt_values(*node)) =~= pair_vals(cands@));
            }
        },
        Some(n) => {
            let ghost s0 = cands@;
            let ghost v = n.value;
            let ghost lvals = opt_values(n.left);
            let ghost rvals = opt_values(n.right);
            let ghost nvals = opt_values(*node);
            let value = &n.value;
            let dist = target.distance(value);
            let clen = cands.len();
            if clen < k {
                insert_pair(cands, Pair { value: value.dup(), dist });
            } else if clen > 0 && dist < cands[clen - 1].dist {
                cands.pop();
                proof {
                    assert(cands@ =~= s0.remove(s0.len() - 1));
                    s0.remove_ensures(s0.len() - 1);
                    assert(cands@.map_values(|q: Pair<T>| q.value) =~= s0.map_values(
                        |q: Pair<T>| q.value,
                    ).remove(s0.len() - 1));
                    assert(s0.map_values(|q: Pair<T>| q.value)[s0.len() - 1]
                        == s0.last().value);
                    assert(pair_vals(cands@) == pair_vals(s0).remove(s0.last().value));
                }
                insert_pair(cands, Pair { value: value.dup(), dist });
            }
            let ghost s1 = cands@;
            proof {
                assert(s1.len() == int_min(k as int, s0.len() as int + 1));
                assert forall|q: T|
                    pair_vals(s1).count(q) <= pair_vals(s0).insert(v).count(q) by {}
                if s0.len() + 1 <= k {
                    assert(pair_vals(s1) =~= pair_vals(s0).insert(v));
                }
                assert forall|q: T|
                    pair_vals(s0).insert(v).count(q) > pair_vals(s1).count(q) implies s1.len()
                    == k && (k == 0 || target.dist_spec(q) >= s1.last().dist as int) by {
                    if s0.len() < k {
                        assert(pair_vals(s1) == pair_vals(s0).insert(v));
                    } else if k > 0 && (dist as int) < s0.last().dist as int {
                        assert(q == s0.last().value);
                        assert(s0.map_values(|qq: Pair<T>| qq.value)[s0.len() - 1]
                            == s0.last().value);
                        assert(target.dist_spec(q) == s0.last().dist as int);
                    } else {
                        assert(s1 == s0);
                        assert(q == v);
                    }
                }
            }
            let m = T::num_axes();
            let next = (axis_i + 1) % m;
            let t_ax = target.axis(axis_i);
            let v_ax = value.axis(axis_i);
            let near: &Option<Box<Node<T>>>;
            let far: &Option<Box<Node<T>>>;
            if t_ax < v_ax {
                near = &n.left;
                far = &n.right;
            } else {
                near = &n.right;
                far = &n.left;
            }
            let ghost near_vals = opt_values(*near);
            let ghost far_vals = opt_values(*far);
            proof {
                assert(nvals == lvals.add(rvals).insert(v));
                assert(nvals.len() == near_vals.len() + far_vals.len() + 1);
                assert((next as int) == (axis_i as int + 1) % T::num_axes_spec());
            }
            knn(target, k, near, next, cands);
            let ghost s2 = cands@;
            let mut visit_far = false;
            if cands.len() < k {
                visit_far = true;
            } else if cands.len() > 0 {
                let r = target.radius(value, axis_i);
                let worst = cands[cands.len() - 1].dist;
                if r < worst {
                    visit_far = true;
                }
            }
            if visit_far {
                knn(target, k, far, next, cands);
            } else {
                proof {
                    assert(s2.len() == k);
                    assert forall|q: T| far_vals.contains(q) implies (k == 0
                        || target.dist_spec(q) >= s2.last().dist as int) by {
                        if k > 0 {
                            assert(T::radius_spec(
                                target.axis_spec(axis_i as int),
                                v.axis_spec(axis_i as int),
                            ) >= s2.last().dist as int);
                            if t_ax < v_ax {
                                assert(v.axis_spec(axis_i as int) <= q.axis_spec(axis_i as int));
                                T::radius_lower_bound(
                                    *target,
                                    q,
                                    v.axis_spec(axis_i as int),
                                    axis_i as int,
                                );
                            } else {
                                assert(q.axis_spec(axis_i as int) <= v.axis_spec(axis_i as int));
                                T::radius_lower_bound(
                                    *target,
                                    q,
                                    v.axis_spec(axis_i as int),
                                    axis_i as int,
                                );
                            }
                        }
                    }
                }
            }
            proof {
                let s3 = cands@;
                assert(s3.len() == int_min(k as int, s0.len() as int + nvals.len() as int));
                assert(nvals =~= near_vals.add(far_vals).insert(v));
                assert forall|q: T|
                    pair_vals(s3).count(q) <= pair_vals(s0).add(nvals).count(q) by {
                    assert(pair_vals(s1).count(q) <= pair_vals(s0).insert(v).count(q));
                    assert(pair_vals(s2).count(q) <= pair_vals(s1).add(near_vals).count(q));
                    if visit_far {
                        assert(pair_vals(s3).count(q) <= pair_vals(s2).add(far_vals).count(q));
                    }
                }
                if s0.len() + nvals.len() <= k {
                    assert(pair_vals(s1) == pair_vals(s0).insert(v));
                    assert(pair_vals(s2) == pair_vals(s1).add(near_vals));
                    if visit_far {
                        assert(pair_vals(s3) == pair_vals(s2).add(far_vals));
                    } else {
                        assert(s2.len() == k);
                        assert forall|q: T| far_vals.count(q) == 0 by {
                            assert(far_vals.count(q) <= far_vals.len());
                        }
                        assert(pair_vals(s3) =~= pair_vals(s2).add(far_vals));
                    }
                    assert(pair_vals(s3) =~= pair_vals(s0).add(nvals));
                }
                assert forall|q: T|
                    pair_vals(s0).add(nvals).count(q) > pair_vals(s3).count(q) implies s3.len()
                    == k && (k == 0 || target.dist_spec(q) >= s3.last().dist as int) by {
                    assert(pair_vals(s0).add(nvals).count(q) == pair_vals(s0).insert(v).count(
                        q,
                    ) + near_vals.count(q) + far_vals.count(q));
                    let d1 = pair_vals(s0).insert(v).count(q) - pair_vals(s1).count(q);
                    let d2 = pair_vals(s1).add(near_vals).count(q) - pair_vals(s2).count(q);
                    let d3 = if visit_far {
                        pair_vals(s2).add(far_vals).count(q) - pair_vals(s3).count(q)
                    } else {
                        far_vals.count(q) as int
                    };
                    assert(d1 >= 0 && d2 >= 0 && d3 >= 0);
                    assert(d1 + d2 + d3 > 0);
                    if d3 > 0 {
                        if visit_far {
                            assert(s3.len() == k);
                        } else {
                            assert(s3 == s2);
                            assert(s2.len() == k);
                            assert(far_vals.contains(q));
                        }
                    } else if d2 > 0 {
                        assert(s2.len() == k);
                        assert(s3.len() == k);
                        if k > 0 {
                            assert(target.dist_spec(q) >= s2.last().dist as int);
                            assert(s3.last().dist <= s2.last().dist);
                        }
                    } else {
                        assert(d1 > 0);
                        assert(s1.len() == k);
                        assert(s2.len() == k);
                        assert(s3.len() == k);
                        if k > 0 {
                            assert(target.dist_spec(q) >= s1.last().dist as int);
                            assert(s2.last().dist <= s1.last().dist);
                            assert(s3.last().dist <= s2.last().dist);
                        }
                    }
                }
            }
        },
    }
}

/// An empty sequence converts to the empty multiset.
proof fn lemma_empty_multiset<T>(s: Seq<T>)
    requires
        s.len() == 0,
    ensures
        s.to_multiset() =~= Multiset::<T>::empty(),
{
    assert forall|x: T| s.to_multiset().count(x) == 0 by {
        assert(s.to_multiset().len() == 0);
    }
}

/// A range's multiset splits at an interior index into the part before it,
/// the element there, and the part after it.
proof fn lemma_split_range_multiset<T>(s: Seq<T>, lo: int, mid: int, hi: int)
    requires
        0 <= lo <= mid < hi <= s.len(),
    ensures
        s.subrange(lo, hi).to_multiset() == s.subrange(lo, mid).to_multiset().add(
            s.subrange(mid + 1, hi).to_multiset(),
        ).insert(s[mid]),
{
    assert(s.subrange(lo, hi) =~= s.subrange(lo, mid) + s.subrange(mid, mid + 1) + s.subrange(
        mid + 1,
        hi,
    ));
    lemma_multiset_commutative(s.subrange(lo, mid) + s.subrange(mid, mid + 1), s.subrange(mid + 1, hi));
    lemma_multiset_commutative(s.subrange(lo, mid), s.subrange(mid, mid + 1));
    assert(s.subrange(mid, mid + 1) =~= Seq::<T>::empty().push(s[mid]));
    lemma_empty_multiset(Seq::<T>::empty());
    assert(Seq::<T>::empty().push(s[mid]).to_multiset() =~= Multiset::<T>::empty().insert(s[mid]));
    assert(s.subrange(lo, hi).to_multiset() =~= s.subrange(lo, mid).to_multiset().add(
        s.subrange(mid + 1, hi).to_multiset(),
    ).insert(s[mid]));
}

/// A member of a sequence's multiset occurs at some index.
proof fn lemma_multiset_member_index<T>(s: Seq<T>, x: T)
    requires
        s.to_multiset().contains(x),
    ensures
        exists|i: int| 0 <= i < s.len() && s[i] == x,
{
    assert(s.contains(x));
}

} // verus!
