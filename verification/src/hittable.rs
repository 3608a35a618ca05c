use vstd::prelude::*;
use crate::aabb::AABB;

verus! {

/// A list of objects together with a bounding box that holds every box
/// added to the list.
pub struct HittableList<T> {
    pub objects: Vec<T>,
    pub bbox: AABB,
}

/// The combination of a sequence of boxes, starting from the default box.
pub open spec fn combine_all(boxes: Seq<AABB>) -> AABB
    decreases boxes.len(),
{
    if boxes.len() == 0 {
        AABB::spec_default()
    } else {
        combine_all(boxes.drop_last()).spec_combine(boxes.last())
    }
}

impl<T> HittableList<T> {
    /// An empty list; its box is the default (empty) box.
    pub fn new_empty() -> (r: HittableList<T>)
        ensures
            r.objects@ == Seq::<T>::empty(),
            r.bbox == AABB::spec_default(),
    {
        HittableList { objects: Vec::new(), bbox: AABB::default() }
    }

    /// A list of one object, whose box is the object's box `h_bbox`.
    pub fn new(h: T, h_bbox: AABB) -> (r: HittableList<T>)
        ensures
            r.objects@ == seq![h],
            r.bbox == h_bbox,
    {
        let mut objects = Vec::new();
        objects.push(h);
        HittableList { objects, bbox: h_bbox }
    }

    /// Appends an object whose box is `h_bbox`, growing the list's box to hold
    /// it.
    pub fn add(&mut self, h: T, h_bbox: AABB)
        ensures
            final(self).objects@ == old(self).objects@.push(h),
            final(self).bbox == old(self).bbox.spec_combine(h_bbox),
    {
        self.bbox = self.bbox.combine(&h_bbox);
        self.objects.push(h);
    }

    /// Removes every object; the bounding box is kept as it was.
    pub fn clear(&mut self)
        ensures
            final(self).objects@ == Seq::<T>::empty(),
            final(self).bbox == old(self).bbox,
    {
        self.objects.clear();
    }

    /// The list's bounding box.
    pub fn bounding_box(&self) -> (r: AABB)
        ensures
            r == self.bbox,
    {
        self.bbox
    }
}

/// Adding a box to a sequence of boxes combines it into their combination.
pub proof fn lemma_combine_all_push(boxes: Seq<AABB>, b: AABB)
    ensures
        combine_all(boxes.push(b)) == combine_all(boxes).spec_combine(b),
{
    assert(boxes.push(b).drop_last() =~= boxes);
}

/// The combination of a sequence of boxes holds every one of them.
pub proof fn lemma_combine_all_holds(boxes: Seq<AABB>, i: int)
    requires
        0 <= i < boxes.len(),
    ensures
        boxes[i].within(combine_all(boxes)),
    decreases boxes.len(),
{
    let prev = boxes.drop_last();
    crate::aabb::lemma_box_combine_holds_both(combine_all(prev), boxes.last());
    if i < boxes.len() - 1 {
        lemma_combine_all_holds(prev, i);
        crate::aabb::lemma_box_within_transitive(boxes[i], combine_all(prev), combine_all(boxes));
    }
}

} // verus!
