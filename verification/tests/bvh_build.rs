use raytracer::aabb::AABB;
use raytracer::bvh::{BvhChild, BvhNode, BvhObject};
use raytracer::hittable::HittableList;
use raytracer::interval::Interval;
use raytracer::utility::range_int_unseeded;

fn cube(lo: i64) -> AABB {
    AABB::new(Interval::new(lo, lo + 1), Interval::new(lo, lo + 1), Interval::new(lo, lo + 1))
}

fn obj(id: usize, lo: i64) -> BvhObject {
    BvhObject { id, bbox: cube(lo) }
}

fn leaf(c: &BvhChild) -> usize {
    match c {
        BvhChild::Object(o) => o.id,
        BvhChild::Node(_) => panic!("expected an object"),
    }
}

fn node(c: &BvhChild) -> &BvhNode {
    match c {
        BvhChild::Node(n) => n,
        BvhChild::Object(_) => panic!("expected a node"),
    }
}

#[test]
fn bvh_single_object_is_held_twice() {
    let mut objs = vec![obj(4, 2)];
    let n = BvhNode::new(&mut objs);
    assert_eq!(leaf(&n.left), 4);
    assert_eq!(leaf(&n.right), 4);
    assert_eq!(n.bounding_box(), cube(2));
}

#[test]
fn bvh_two_objects_keep_their_order() {
    let mut objs = vec![obj(1, 10), obj(2, 0)];
    let n = BvhNode::new(&mut objs);
    assert_eq!(leaf(&n.left), 1);
    assert_eq!(leaf(&n.right), 2);
    assert_eq!(objs, vec![obj(1, 10), obj(2, 0)]);
    assert_eq!(
        n.bbox,
        AABB::new(Interval::new(0, 11), Interval::new(0, 11), Interval::new(0, 11))
    );
}

#[test]
fn bvh_five_objects_are_sorted_and_split() {
    // The boxes are ordered the same way on every axis, so the random axes
    // cannot change the outcome.
    let mut objs = vec![obj(3, 30), obj(0, 0), obj(4, 40), obj(1, 10), obj(2, 20)];
    let n = BvhNode::new(&mut objs);
    let ids: Vec<usize> = objs.iter().map(|o| o.id).collect();
    assert_eq!(ids, vec![0, 1, 2, 3, 4]);
    let l = node(&n.left);
    assert_eq!((leaf(&l.left), leaf(&l.right)), (0, 1));
    let r = node(&n.right);
    let rl = node(&r.left);
    assert_eq!((leaf(&rl.left), leaf(&rl.right)), (2, 2));
    let rr = node(&r.right);
    assert_eq!((leaf(&rr.left), leaf(&rr.right)), (3, 4));
    assert_eq!(
        n.bbox,
        AABB::new(Interval::new(0, 41), Interval::new(0, 41), Interval::new(0, 41))
    );
    assert_eq!(l.bbox, AABB::new(Interval::new(0, 11), Interval::new(0, 11), Interval::new(0, 11)));
    assert_eq!(rr.bbox, AABB::new(Interval::new(30, 41), Interval::new(30, 41), Interval::new(30, 41)));
}

#[test]
fn bvh_equal_keys_keep_their_order() {
    // Equal boxes: the sort is stable, so the order stays as given.
    let mut objs = vec![obj(9, 5), obj(8, 5), obj(7, 5), obj(6, 5)];
    let n = BvhNode::new(&mut objs);
    let ids: Vec<usize> = objs.iter().map(|o| o.id).collect();
    assert_eq!(ids, vec![9, 8, 7, 6]);
    let l = node(&n.left);
    let r = node(&n.right);
    assert_eq!((leaf(&l.left), leaf(&l.right)), (9, 8));
    assert_eq!((leaf(&r.left), leaf(&r.right)), (7, 6));
    assert_eq!(n.bbox, cube(5));
}

#[test]
fn random_int_varies() {
    let mut seen = [false; 3];
    for _ in 0..300 {
        seen[range_int_unseeded(0, 3) as usize] = true;
    }
    assert!(seen.iter().filter(|s| **s).count() >= 2);
}

#[test]
fn random_int_stays_in_range() {
    for _ in 0..200 {
        let v = range_int_unseeded(0, 3);
        assert!((0..3).contains(&v));
        let w = range_int_unseeded(-5, -4);
        assert_eq!(w, -5);
    }
}

#[test]
fn bvh_from_list_reorders_the_list() {
    let mut list: HittableList<BvhObject> = HittableList::new_empty();
    for (id, lo) in [(0usize, 20i64), (1, 0), (2, 10)] {
        list.add(obj(id, lo), cube(lo));
    }
    let before = list.bounding_box();
    let n = BvhNode::new_from_hittable_list(&mut list);
    let ids: Vec<usize> = list.objects.iter().map(|o| o.id).collect();
    assert_eq!(ids, vec![1, 2, 0]);
    assert_eq!(list.bounding_box(), before);
    let l = node(&n.left);
    assert_eq!((leaf(&l.left), leaf(&l.right)), (1, 1));
    let r = node(&n.right);
    assert_eq!((leaf(&r.left), leaf(&r.right)), (2, 0));
    assert_eq!(n.bbox, before);
}
