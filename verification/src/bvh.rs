use vstd::prelude::*;
use vstd::multiset::Multiset;
use crate::aabb::AABB;
use crate::utility::range_int_unseeded;
use crate::hittable::HittableList;

verus! {

broadcast use vstd::seq_lib::group_to_multiset_ensures, vstd::multiset::group_multiset_axioms;

/// An object handed to the hierarchy: a label chosen by the caller and the
/// object's bounding box.
#[derive(Clone, Copy, Debug, PartialEq, Eq, Structural)]
pub struct BvhObject {
    pub id: usize,
    pub bbox: AABB,
}

/// A child of a hierarchy node: an object or a further node.
pub enum BvhChild {
    Object(BvhObject),
    Node(Box<BvhNode>),
}

/// A node of a bounding-volume hierarchy: two children and a box that holds
/// both of them.
pub struct BvhNode {
    pub left: BvhChild,
    pub right: BvhChild,
    pub bbox: AABB,
}

/// The box of a child.
pub open spec fn child_bbox(c: BvhChild) -> AABB {
    match c {
        BvhChild::Object(o) => o.bbox,
        BvhChild::Node(n) => n.bbox,
    }
}

/// The key objects are ordered by along an axis: the lower bound of their box
/// on that axis.
pub open spec fn axis_key(o: BvhObject, axis: int) -> i64 {
    o.bbox.spec_axis(axis).min
}

/// Along `axis`, no object before `mid` comes after an object from `mid` on.
pub open spec fn split_by(s: Seq<BvhObject>, mid: int, axis: int) -> bool {
    forall|i: int, j: int| 0 <= i < mid <= j < s.len() ==> axis_key(#[trigger] s[i], axis) <= axis_key(#[trigger] s[j], axis)
}

/// `n` is the hierarchy built over the objects `s`, in this order: one
/// object is held twice, two objects are the two children, and more are
/// split into halves (the first holding `len / 2` objects), each half below
/// the other along one of the three axes, with a node built over each half.
/// Every node's box combines its children's boxes.
pub open spec fn built_from(n: BvhNode, s: Seq<BvhObject>) -> bool
    decreases s.len(),
{
    &&& n.bbox == child_bbox(n.left).spec_combine(child_bbox(n.right))
    &&& if s.len() == 1 {
        n.left == BvhChild::Object(s[0]) && n.right == BvhChild::Object(s[0])
    } else if s.len() == 2 {
        n.left == BvhChild::Object(s[0]) && n.right == BvhChild::Object(s[1])
    } else if s.len() >= 3 {
        let mid = (s.len() / 2) as int;
        &&& (n.left matches BvhChild::Node(l) && built_from(*l, s.subrange(0, mid)))
        &&& (n.right matches BvhChild::Node(r) && built_from(*r, s.subrange(mid, s.len() as int)))
        &&& (split_by(s, mid, 0) || split_by(s, mid, 1) || split_by(s, mid, 2))
    } else {
        false
    }
}

/// `s` is ordered by the key of `axis` between `lo` and `hi`.
pub open spec fn sorted_by_axis(s: Seq<BvhObject>, lo: int, hi: int, axis: int) -> bool {
    forall|i: int, j: int| lo <= i < j < hi ==> axis_key(#[trigger] s[i], axis) <= axis_key(#[trigger] s[j], axis)
}

/// The object's key along `axis` is `v`.
pub open spec fn key_is(axis: int, v: i64) -> spec_fn(BvhObject) -> bool {
    |o: BvhObject| axis_key(o, axis) == v
}

/// `output` is `input` sorted by the key of `axis`, objects of equal key kept
/// in their order: it is ordered by key, and for each key it lists the
/// objects of that key as `input` does.
pub open spec fn stable_sorted(input: Seq<BvhObject>, output: Seq<BvhObject>, axis: int) -> bool {
    &&& output.len() == input.len()
    &&& sorted_by_axis(output, 0, output.len() as int, axis)
    &&& forall|v: i64| #[trigger] output.filter(key_is(axis, v)) == input.filter(key_is(axis, v))
}

/// Building over the objects `input` leaves them in the order `output` with
/// hierarchy `n`: one or two objects stay as they are; more are sorted stably
/// along one of the three axes, and each half of the sorted objects is built
/// over in turn.
pub open spec fn built_over(n: BvhNode, input: Seq<BvhObject>, output: Seq<BvhObject>) -> bool
    decreases input.len(),
{
    if input.len() <= 2 {
        output == input
    } else {
        let len = input.len() as int;
        let mid = (input.len() / 2) as int;
        &&& output.len() == input.len()
        &&& match (n.left, n.right) {
            (BvhChild::Node(l), BvhChild::Node(r)) => exists|axis: int, t: Seq<BvhObject>|
                0 <= axis < 3 && t.len() == len && #[trigger] stable_sorted(input, t, axis)
                    && built_over(*l, t.subrange(0, mid), output.subrange(0, mid))
                    && built_over(*r, t.subrange(mid, len), output.subrange(mid, len)),
            _ => false,
        }
    }
}

/// Swapping two neighbours of different keys keeps, for every key, the
/// order of the objects of that key.
proof fn lemma_swap_keeps_key_order(s: Seq<BvhObject>, i: int, axis: int, v: i64)
    requires
        0 <= i,
        i + 1 < s.len(),
        axis_key(s[i], axis) != axis_key(s[i + 1], axis),
    ensures
        s.update(i, s[i + 1]).update(i + 1, s[i]).filter(key_is(axis, v)) == s.filter(key_is(axis, v)),
{
    let t = s.update(i, s[i + 1]).update(i + 1, s[i]);
    let pre = s.subrange(0, i);
    let post = s.subrange(i + 2, s.len() as int);
    let xy = seq![s[i], s[i + 1]];
    let yx = seq![s[i + 1], s[i]];
    let p = key_is(axis, v);
    assert(s =~= pre + xy + post);
    assert(t =~= pre + yx + post);
    Seq::filter_distributes_over_add(pre + xy, post, p);
    Seq::filter_distributes_over_add(pre, xy, p);
    Seq::filter_distributes_over_add(pre + yx, post, p);
    Seq::filter_distributes_over_add(pre, yx, p);
    reveal_with_fuel(Seq::filter, 3);
    assert(xy.drop_last() =~= seq![s[i]]);
    assert(yx.drop_last() =~= seq![s[i + 1]]);
    assert(seq![s[i]].drop_last() =~= Seq::<BvhObject>::empty());
    assert(seq![s[i + 1]].drop_last() =~= Seq::<BvhObject>::empty());
    assert(xy.filter(p) =~= yx.filter(p));
}

/// `new` differs from `old` only by a reordering of the items in `[lo, hi)`.
pub open spec fn permuted_within<A>(old: Seq<A>, new: Seq<A>, lo: int, hi: int) -> bool {
    &&& new.len() == old.len()
    &&& forall|k: int| 0 <= k < old.len() && !(lo <= k < hi) ==> new[k] == old[k]
    &&& new.subrange(lo, hi).to_multiset() == old.subrange(lo, hi).to_multiset()
}

/// Swapping two items keeps the multiset of a sequence.
proof fn lemma_swap_multiset<A>(s: Seq<A>, i: int, j: int)
    requires
        0 <= i < s.len(),
        0 <= j < s.len(),
    ensures
        s.update(i, s[j]).update(j, s[i]).to_multiset() == s.to_multiset(),
{
    let s1 = s.update(i, s[j]);
    assert(s1.to_multiset() == s.to_multiset().insert(s[j]).remove(s[i]));
    assert(s1[j] == s[j]);
    assert(s1.update(j, s[i]).to_multiset() == s1.to_multiset().insert(s[i]).remove(s1[j]));
    assert(s1.update(j, s[i]).to_multiset() =~= s.to_multiset());
}

/// Two sequences with the same multiset hold the same items.
proof fn lemma_same_multiset_contains<A>(a: Seq<A>, b: Seq<A>, x: A)
    requires
        a.to_multiset() == b.to_multiset(),
    ensures
        a.contains(x) == b.contains(x),
{
    vstd::seq_lib::to_multiset_contains(a, x);
    vstd::seq_lib::to_multiset_contains(b, x);
}

/// Sorts the objects in `[lo, hi)` by the key of `axis`, keeping objects of
/// equal key in their order.
fn sort_range(objects: &mut Vec<BvhObject>, lo: usize, hi: usize, axis: i32)
    requires
        lo <= hi <= old(objects).len(),
    ensures
        permuted_within(old(objects)@, final(objects)@, lo as int, hi as int),
        sorted_by_axis(final(objects)@, lo as int, hi as int, axis as int),
        stable_sorted(old(objects)@.subrange(lo as int, hi as int), final(objects)@.subrange(lo as int, hi as int), axis as int),
{
    let ghost old_s = objects@;
    if hi - lo < 2 {
        return;
    }
    let mut i = lo + 1;
    while i < hi
        invariant
            lo < i <= hi <= objects@.len(),
            permuted_within(old_s, objects@, lo as int, hi as int),
            sorted_by_axis(objects@, lo as int, i as int, axis as int),
            forall|v: i64| #[trigger] objects@.subrange(lo as int, hi as int).filter(key_is(axis as int, v))
                == old_s.subrange(lo as int, hi as int).filter(key_is(axis as int, v)),
        decreases hi - i,
    {
        let mut j = i;
        while j > lo && objects[j - 1].bbox.axis_interval(axis).min > objects[j].bbox.axis_interval(axis).min
            invariant
                lo <= j <= i < hi <= objects@.len(),
                permuted_within(old_s, objects@, lo as int, hi as int),
                forall|v: i64| #[trigger] objects@.subrange(lo as int, hi as int).filter(key_is(axis as int, v))
                    == old_s.subrange(lo as int, hi as int).filter(key_is(axis as int, v)),
                sorted_by_axis(objects@, lo as int, j as int, axis as int),
                sorted_by_axis(objects@, j as int, i as int + 1, axis as int),
                forall|a: int, b: int|
                    lo <= a < j < b <= i ==> axis_key(#[trigger] objects@[a], axis as int) <= axis_key(#[trigger] objects@[b], axis as int),
            decreases j,
        {
            let ghost s = objects@;
            let tmp = objects[j - 1];
            let moving = objects[j];
            objects[j - 1] = moving;
            objects[j] = tmp;
            proof {
                let ns = objects@;
                assert(ns == s.update(j - 1, s[j as int]).update(j as int, s[j - 1]));
                lemma_swap_multiset(s.subrange(lo as int, hi as int), j - 1 - lo, j - lo);
                assert(ns.subrange(lo as int, hi as int) =~= s.subrange(lo as int, hi as int).update(
                    j - 1 - lo,
                    s.subrange(lo as int, hi as int)[j - lo],
                ).update(j - lo, s.subrange(lo as int, hi as int)[j - 1 - lo]));
                assert forall|v: i64| #[trigger] ns.subrange(lo as int, hi as int).filter(key_is(axis as int, v))
                    == old_s.subrange(lo as int, hi as int).filter(key_is(axis as int, v)) by {
                    lemma_swap_keeps_key_order(s.subrange(lo as int, hi as int), j - 1 - lo, axis as int, v);
                    assert(s.subrange(lo as int, hi as int).filter(key_is(axis as int, v))
                        == old_s.subrange(lo as int, hi as int).filter(key_is(axis as int, v)));
                }
            }
            j = j - 1;
        }
        i = i + 1;
    }
    proof {
        let fs = objects@.subrange(lo as int, hi as int);
        assert forall|a: int, b: int| 0 <= a < b < fs.len() implies axis_key(#[trigger] fs[a], axis as int)
            <= axis_key(#[trigger] fs[b], axis as int) by {
            assert(fs[a] == objects@[lo + a] && fs[b] == objects@[lo + b]);
        }
    }
}

/// Builds the hierarchy over the objects in `[lo, hi)`, reordering them there.
fn build(objects: &mut Vec<BvhObject>, lo: usize, hi: usize) -> (r: BvhNode)
    requires
        lo < hi <= old(objects).len(),
    ensures
        permuted_within(old(objects)@, final(objects)@, lo as int, hi as int),
        built_from(r, final(objects)@.subrange(lo as int, hi as int)),
        built_over(r, old(objects)@.subrange(lo as int, hi as int), final(objects)@.subrange(lo as int, hi as int)),
        hi - lo <= 2 ==> final(objects)@ == old(objects)@,
    decreases hi - lo,
{
    let axis = range_int_unseeded(0, 3);
    let object_span = hi - lo;
    let ghost old_s = objects@;
    let ghost mut t: Seq<BvhObject> = Seq::empty();
    let (left, right) = if object_span == 1 {
        (BvhChild::Object(objects[lo]), BvhChild::Object(objects[lo]))
    } else if object_span == 2 {
        (BvhChild::Object(objects[lo]), BvhChild::Object(objects[lo + 1]))
    } else {
        sort_range(objects, lo, hi, axis);
        let ghost sorted = objects@;
        let mid = lo + object_span / 2;
        let l = build(objects, lo, mid);
        let ghost after_left = objects@;
        let r = build(objects, mid, hi);
        proof {
            let fin = objects@;
            let s = fin.subrange(lo as int, hi as int);
            let m = (hi - lo) / 2;
            assert(s.subrange(0, m) =~= fin.subrange(lo as int, mid as int));
            assert(fin.subrange(lo as int, mid as int) =~= after_left.subrange(lo as int, mid as int));
            assert(s.subrange(m, s.len() as int) =~= fin.subrange(mid as int, hi as int));
            assert(split_by(s, m, axis as int)) by {
                assert forall|a: int, b: int| 0 <= a < m <= b < s.len() implies axis_key(#[trigger] s[a], axis as int) <= axis_key(#[trigger] s[b], axis as int) by {
                    let left_fin = fin.subrange(lo as int, mid as int);
                    let left_sorted = sorted.subrange(lo as int, mid as int);
                    let right_fin = fin.subrange(mid as int, hi as int);
                    let right_sorted = sorted.subrange(mid as int, hi as int);
                    assert(after_left.subrange(mid as int, hi as int) =~= sorted.subrange(mid as int, hi as int));
                    assert(left_fin.contains(s[a])) by {
                        assert(left_fin[a] == s[a]);
                    }
                    lemma_same_multiset_contains(left_fin, left_sorted, s[a]);
                    assert(right_fin.contains(s[b])) by {
                        assert(right_fin[b - m] == s[b]);
                    }
                    lemma_same_multiset_contains(right_fin, right_sorted, s[b]);
                    let ia = choose|ia: int| 0 <= ia < left_sorted.len() && left_sorted[ia] == s[a];
                    let ib = choose|ib: int| 0 <= ib < right_sorted.len() && right_sorted[ib] == s[b];
                    assert(sorted[lo + ia] == s[a]);
                    assert(sorted[mid + ib] == s[b]);
                }
            }
            assert(permuted_within(old_s, fin, lo as int, hi as int)) by {
                lemma_permuted_compose(old_s, sorted, after_left, fin, lo as int, mid as int, hi as int);
            }
            t = sorted.subrange(lo as int, hi as int);
            assert(t.subrange(0, m) =~= sorted.subrange(lo as int, mid as int));
            assert(t.subrange(m, t.len() as int) =~= sorted.subrange(mid as int, hi as int));
            assert(after_left.subrange(mid as int, hi as int) =~= sorted.subrange(mid as int, hi as int));
            assert(built_over(l, t.subrange(0, m), s.subrange(0, m)));
            assert(built_over(r, t.subrange(m, t.len() as int), s.subrange(m, s.len() as int)));
        }
        (BvhChild::Node(Box::new(l)), BvhChild::Node(Box::new(r)))
    };
    let left_box = match &left {
        BvhChild::Object(o) => o.bbox,
        BvhChild::Node(n) => n.bbox,
    };
    let right_box = match &right {
        BvhChild::Object(o) => o.bbox,
        BvhChild::Node(n) => n.bbox,
    };
    let bbox = left_box.combine(&right_box);
    let node = BvhNode { left, right, bbox };
    proof {
        if object_span >= 3 {
            assert(stable_sorted(old_s.subrange(lo as int, hi as int), t, axis as int));
        } else {
            assert(objects@.subrange(lo as int, hi as int) =~= old_s.subrange(lo as int, hi as int));
        }
    }
    node
}

/// Reorderings within `[lo, hi)`, then within `[lo, mid)`, then within
/// `[mid, hi)`, add up to a reordering within `[lo, hi)`.
proof fn lemma_permuted_compose<A>(s0: Seq<A>, s1: Seq<A>, s2: Seq<A>, s3: Seq<A>, lo: int, mid: int, hi: int)
    requires
        0 <= lo <= mid <= hi <= s0.len(),
        permuted_within(s0, s1, lo, hi),
        permuted_within(s1, s2, lo, mid),
        permuted_within(s2, s3, mid, hi),
    ensures
        permuted_within(s0, s3, lo, hi),
{
    broadcast use vstd::seq_lib::lemma_multiset_commutative;
    assert(s1.subrange(lo, hi) =~= s1.subrange(lo, mid) + s1.subrange(mid, hi));
    assert(s2.subrange(lo, hi) =~= s2.subrange(lo, mid) + s2.subrange(mid, hi));
    assert(s3.subrange(lo, hi) =~= s3.subrange(lo, mid) + s3.subrange(mid, hi));
    assert(s2.subrange(mid, hi) =~= s1.subrange(mid, hi));
    assert(s3.subrange(lo, mid) =~= s2.subrange(lo, mid));
    assert(s3.subrange(lo, hi).to_multiset() =~= s1.subrange(lo, hi).to_multiset());
}

impl BvhNode {
    /// Builds a bounding-volume hierarchy over the objects, reordering them:
    /// at each node an axis is drawn at random, the node's objects are sorted
    /// along it, and each half gets a node of its own.
    pub fn new(objects: &mut Vec<BvhObject>) -> (r: BvhNode)
        requires
            old(objects).len() >= 1,
        ensures
            final(objects)@.len() == old(objects)@.len(),
            final(objects)@.to_multiset() == old(objects)@.to_multiset(),
            built_from(r, final(objects)@),
            built_over(r, old(objects)@, final(objects)@),
            old(objects).len() <= 2 ==> final(objects)@ == old(objects)@,
    {
        let n = objects.len();
        let ghost old_s = objects@;
        let r = build(objects, 0, n);
        proof {
            assert(objects@.subrange(0, n as int) =~= objects@);
            assert(old_s.subrange(0, n as int) =~= old_s);
        }
        r
    }

    /// Builds a hierarchy over the objects of a list, reordering the list's
    /// objects as [`BvhNode::new`] does; the list's box is left as it was.
    pub fn new_from_hittable_list(hittable_list: &mut HittableList<BvhObject>) -> (r: BvhNode)
        requires
            old(hittable_list).objects.len() >= 1,
        ensures
            final(hittable_list).bbox == old(hittable_list).bbox,
            final(hittable_list).objects@.len() == old(hittable_list).objects@.len(),
            final(hittable_list).objects@.to_multiset() == old(hittable_list).objects@.to_multiset(),
            built_from(r, final(hittable_list).objects@),
            built_over(r, old(hittable_list).objects@, final(hittable_list).objects@),
            old(hittable_list).objects.len() <= 2 ==> final(hittable_list).objects@ == old(hittable_list).objects@,
    {
        BvhNode::new(&mut hittable_list.objects)
    }

    /// The node's bounding box.
    pub fn bounding_box(&self) -> (r: AABB)
        ensures
            r == self.bbox,
    {
        self.bbox
    }
}

/// `o` is a leaf of the hierarchy below `n`.
pub open spec fn in_tree(n: BvhNode, o: BvhObject) -> bool
    decreases n,
{
    ||| n.left == BvhChild::Object(o)
    ||| n.right == BvhChild::Object(o)
    ||| (n.left matches BvhChild::Node(l) && in_tree(*l, o))
    ||| (n.right matches BvhChild::Node(r) && in_tree(*r, o))
}

/// The leaves of a hierarchy built over a sequence of objects are exactly
/// those objects.
pub proof fn lemma_built_leaves(n: BvhNode, s: Seq<BvhObject>, o: BvhObject)
    requires
        built_from(n, s),
    ensures
        in_tree(n, o) <==> s.contains(o),
    decreases s.len(),
{
    if s.len() == 1 {
        if in_tree(n, o) {
            assert(s[0] == o);
        }
        if s.contains(o) {
            assert(s[0] == o);
        }
    } else if s.len() == 2 {
        if s.contains(o) {
            let i = choose|i: int| 0 <= i < s.len() && s[i] == o;
            assert(i == 0 || i == 1);
        }
        if in_tree(n, o) {
            if n.left == BvhChild::Object(o) {
                assert(s[0] == o);
            } else {
                assert(s[1] == o);
            }
        }
    } else {
        let mid = (s.len() / 2) as int;
        let ls = s.subrange(0, mid);
        let rs = s.subrange(mid, s.len() as int);
        let l = match n.left { BvhChild::Node(l) => *l, _ => n };
        let r = match n.right { BvhChild::Node(r) => *r, _ => n };
        lemma_built_leaves(l, ls, o);
        lemma_built_leaves(r, rs, o);
        assert(s =~= ls + rs);
        if s.contains(o) {
            let i = choose|i: int| 0 <= i < s.len() && s[i] == o;
            if i < mid {
                assert(ls[i] == o);
            } else {
                assert(rs[i - mid] == o);
            }
        }
        if ls.contains(o) {
            let i = choose|i: int| 0 <= i < ls.len() && ls[i] == o;
            assert(s[i] == o);
        }
        if rs.contains(o) {
            let i = choose|i: int| 0 <= i < rs.len() && rs[i] == o;
            assert(s[mid + i] == o);
        }
    }
}

/// A node's box holds the box of every object below it, and lies within any
/// box that holds all of them: it is the smallest box holding the objects.
pub proof fn lemma_built_bbox(n: BvhNode, s: Seq<BvhObject>, outer: AABB)
    requires
        built_from(n, s),
    ensures
        forall|i: int| 0 <= i < s.len() ==> (#[trigger] s[i]).bbox.within(n.bbox),
        (forall|i: int| 0 <= i < s.len() ==> (#[trigger] s[i]).bbox.within(outer)) ==> n.bbox.within(outer),
    decreases s.len(),
{
    let lb = child_bbox(n.left);
    let rb = child_bbox(n.right);
    crate::aabb::lemma_box_combine_holds_both(lb, rb);
    if s.len() >= 3 {
        let mid = (s.len() / 2) as int;
        let ls = s.subrange(0, mid);
        let rs = s.subrange(mid, s.len() as int);
        let l = match n.left { BvhChild::Node(l) => *l, _ => n };
        let r = match n.right { BvhChild::Node(r) => *r, _ => n };
        lemma_built_bbox(l, ls, outer);
        lemma_built_bbox(r, rs, outer);
        assert forall|i: int| 0 <= i < s.len() implies (#[trigger] s[i]).bbox.within(n.bbox) by {
            if i < mid {
                assert(ls[i] == s[i]);
                crate::aabb::lemma_box_within_transitive(s[i].bbox, lb, n.bbox);
            } else {
                assert(rs[i - mid] == s[i]);
                crate::aabb::lemma_box_within_transitive(s[i].bbox, rb, n.bbox);
            }
        }
        if forall|i: int| 0 <= i < s.len() ==> (#[trigger] s[i]).bbox.within(outer) {
            assert forall|i: int| 0 <= i < ls.len() implies (#[trigger] ls[i]).bbox.within(outer) by {
                assert(ls[i] == s[i]);
            }
            assert forall|i: int| 0 <= i < rs.len() implies (#[trigger] rs[i]).bbox.within(outer) by {
                assert(rs[i] == s[mid + i]);
            }
            crate::aabb::lemma_box_combine_least(lb, rb, outer);
        }
    } else if s.len() == 2 {
        if forall|i: int| 0 <= i < s.len() ==> (#[trigger] s[i]).bbox.within(outer) {
            assert(s[0].bbox.within(outer) && s[1].bbox.within(outer));
            crate::aabb::lemma_box_combine_least(lb, rb, outer);
        }
        assert forall|i: int| 0 <= i < s.len() implies (#[trigger] s[i]).bbox.within(n.bbox) by {
            assert(i == 0 || i == 1);
        }
    } else {
        if forall|i: int| 0 <= i < s.len() ==> (#[trigger] s[i]).bbox.within(outer) {
            assert(s[0].bbox.within(outer));
            crate::aabb::lemma_box_combine_least(lb, rb, outer);
        }
    }
}


/// The object's box has lower bound `v` on `axis`.
pub open spec fn lower_bound_is(axis: int, v: i64) -> spec_fn(BvhObject) -> bool {
    |o: BvhObject| o.bbox.spec_axis(axis).min == v
}

/// A stable sort along `axis` orders the objects by the lower bound of their
/// boxes on that axis, and lists the objects of each lower bound in the order
/// the input lists them.
pub proof fn lemma_stable_sorted_by_lower_bound(input: Seq<BvhObject>, output: Seq<BvhObject>, axis: int)
    requires
        stable_sorted(input, output, axis),
    ensures
        output.len() == input.len(),
        forall|i: int, j: int|
            0 <= i < j < output.len() ==> (#[trigger] output[i]).bbox.spec_axis(axis).min
                <= (#[trigger] output[j]).bbox.spec_axis(axis).min,
        forall|v: i64|
            output.filter(lower_bound_is(axis, v))
                == #[trigger] input.filter(lower_bound_is(axis, v)),
{
    assert forall|v: i64|
        output.filter(lower_bound_is(axis, v))
            == #[trigger] input.filter(lower_bound_is(axis, v)) by {
        assert(key_is(axis, v) =~= lower_bound_is(axis, v));
        assert(output.filter(key_is(axis, v)) == input.filter(key_is(axis, v)));
    }
}

/// Building over three or more objects first sorts them stably by the lower
/// bound of their boxes on one of the three axes (returned with the sorted
/// sequence); the two halves of that sorted sequence are then built over in
/// turn.
pub proof fn lemma_built_over_sorts_by_lower_bound(n: BvhNode, input: Seq<BvhObject>, output: Seq<BvhObject>) -> (r: (int, Seq<BvhObject>))
    requires
        built_over(n, input, output),
        input.len() >= 3,
    ensures
        0 <= r.0 < 3,
        r.1.len() == input.len(),
        forall|i: int, j: int|
            0 <= i < j < r.1.len() ==> (#[trigger] r.1[i]).bbox.spec_axis(r.0).min
                <= (#[trigger] r.1[j]).bbox.spec_axis(r.0).min,
        forall|v: i64|
            r.1.filter(lower_bound_is(r.0, v)) == #[trigger] input.filter(lower_bound_is(r.0, v)),
{
    let len = input.len() as int;
    let mid = (input.len() / 2) as int;
    let (l, rr) = match (n.left, n.right) {
        (BvhChild::Node(l), BvhChild::Node(r)) => (*l, *r),
        _ => (n, n),
    };
    assert(exists|axis: int, t: Seq<BvhObject>|
        0 <= axis < 3 && t.len() == len && #[trigger] stable_sorted(input, t, axis)
            && built_over(l, t.subrange(0, mid), output.subrange(0, mid))
            && built_over(rr, t.subrange(mid, len), output.subrange(mid, len)));
    let (axis, t) = choose|axis: int, t: Seq<BvhObject>|
        0 <= axis < 3 && t.len() == len && #[trigger] stable_sorted(input, t, axis)
            && built_over(l, t.subrange(0, mid), output.subrange(0, mid))
            && built_over(rr, t.subrange(mid, len), output.subrange(mid, len));
    lemma_stable_sorted_by_lower_bound(input, t, axis);
    (axis, t)
}

/// In the objects a hierarchy was built over (three or more), along one of the
/// three axes (returned) no object of the first half (the first `len / 2`) has
/// a box lower bound above that of any object of the second half.
pub proof fn lemma_built_halves_by_lower_bound(n: BvhNode, s: Seq<BvhObject>) -> (axis: int)
    requires
        built_from(n, s),
        s.len() >= 3,
    ensures
        0 <= axis < 3,
        forall|i: int, j: int|
            0 <= i < s.len() / 2 <= j < s.len() ==> (#[trigger] s[i]).bbox.spec_axis(axis).min
                <= (#[trigger] s[j]).bbox.spec_axis(axis).min,
{
    let mid = (s.len() / 2) as int;
    let axis: int = if split_by(s, mid, 0) { 0 } else if split_by(s, mid, 1) { 1 } else { 2 };
    assert(split_by(s, mid, axis));
    axis
}

} // verus!
