use raytracer::aabb::AABB;
use raytracer::hittable::HittableList;
use raytracer::interval::{Interval, NEG_INFINITY_KEY, POS_INFINITY_KEY};

fn iv(min: i64, max: i64) -> Interval {
    Interval::new(min, max)
}

#[test]
fn interval_new_keeps_bounds() {
    let i = iv(-3, 7);
    assert_eq!(i.min, -3);
    assert_eq!(i.max, 7);
}

#[test]
fn interval_default_is_empty() {
    let i = Interval::default();
    assert_eq!(i.min, POS_INFINITY_KEY);
    assert_eq!(i.max, NEG_INFINITY_KEY);
    assert!(i.is_default());
    assert!(!iv(0, 0).is_default());
    assert!(!iv(POS_INFINITY_KEY, 0).is_default());
}

#[test]
fn interval_combine_takes_outer_bounds() {
    let c = iv(1, 5).combine(&iv(3, 9));
    assert_eq!((c.min, c.max), (1, 9));
    let c = iv(-4, -2).combine(&iv(-10, -8));
    assert_eq!((c.min, c.max), (-10, -2));
}

#[test]
fn interval_combine_laws_on_values() {
    let a = iv(2, 6);
    let b = iv(-1, 3);
    let c = iv(4, 12);
    assert_eq!(a.combine(&b), b.combine(&a));
    assert_eq!(a.combine(&b).combine(&c), a.combine(&b.combine(&c)));
    assert_eq!(a.combine(&a), a);
    assert_eq!(Interval::default().combine(&a), a);
    assert_eq!(a.combine(&Interval::default()), a);
}

#[test]
fn interval_contains_surrounds_clamp() {
    let i = iv(0, 10);
    assert!(i.contains(0));
    assert!(i.contains(10));
    assert!(!i.contains(11));
    assert!(!i.surrounds(0));
    assert!(i.surrounds(5));
    assert!(!i.surrounds(10));
    assert_eq!(i.clamp(-5), 0);
    assert_eq!(i.clamp(5), 5);
    assert_eq!(i.clamp(15), 10);
}

#[test]
fn aabb_new_and_axis_interval() {
    let b = AABB::new(iv(0, 1), iv(2, 3), iv(4, 5));
    assert_eq!(b.axis_interval(0), iv(0, 1));
    assert_eq!(b.axis_interval(1), iv(2, 3));
    assert_eq!(b.axis_interval(2), iv(4, 5));
    assert_eq!(b.axis_interval(3), iv(0, 1));
    assert_eq!(b.axis_interval(-1), iv(0, 1));
}

#[test]
fn aabb_new_ab_orders_each_axis() {
    let b = AABB::new_ab([5, -1, 3], [2, 4, 3]);
    assert_eq!(b.x, iv(2, 5));
    assert_eq!(b.y, iv(-1, 4));
    assert_eq!(b.z, iv(3, 3));
}

#[test]
fn aabb_combine_and_default() {
    let a = AABB::new(iv(0, 1), iv(0, 1), iv(0, 1));
    let b = AABB::new(iv(-2, 0), iv(3, 4), iv(1, 1));
    let c = a.combine(&b);
    assert_eq!(c, AABB::new(iv(-2, 1), iv(0, 4), iv(0, 1)));
    assert_eq!(c, b.combine(&a));
    assert!(AABB::default().is_default());
    assert!(!a.is_default());
    assert_eq!(AABB::default().combine(&a), a);
}

#[test]
fn hittable_list_tracks_bounding_box() {
    let a = AABB::new(iv(0, 1), iv(0, 1), iv(0, 1));
    let b = AABB::new(iv(5, 6), iv(-3, -2), iv(0, 2));
    let mut list: HittableList<&str> = HittableList::new_empty();
    assert!(list.objects.is_empty());
    assert!(list.bounding_box().is_default());
    list.add("a", a);
    assert_eq!(list.bounding_box(), a);
    list.add("b", b);
    assert_eq!(list.objects, vec!["a", "b"]);
    assert_eq!(list.bounding_box(), AABB::new(iv(0, 6), iv(-3, 1), iv(0, 2)));
}

#[test]
fn hittable_list_new_and_clear() {
    let a = AABB::new(iv(1, 2), iv(3, 4), iv(5, 6));
    let mut list = HittableList::new(7u32, a);
    assert_eq!(list.objects, vec![7]);
    assert_eq!(list.bounding_box(), a);
    list.clear();
    assert!(list.objects.is_empty());
    // Clearing keeps the box.
    assert_eq!(list.bounding_box(), a);
}
