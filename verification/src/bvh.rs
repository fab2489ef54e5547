//! The bounding-volume hierarchy: a binary tree of boxes over shapes.

use vstd::prelude::*;
use vstd::multiset::Multiset;
use vstd::seq_lib::{
    lemma_multiset_commutative, to_multiset_build, to_multiset_contains, to_multiset_len,
    to_multiset_remove,
};
use crate::aabb::{Aabb, lemma_regular_union};
use crate::hitable::{
    HitRecord, Hittable, Hittable_list, miss, Outcome, Sample, Sampler, Shape, World,
};
use crate::interval::Interval;
use crate::ray::Ray;

verus! {

/// A node of the tree. Both children are handles; a node over a single
/// shape names that shape twice.
#[derive(Clone, Copy, Debug, PartialEq, Eq, Structural)]
pub struct BVHnode {
    pub left: usize,
    pub right: usize,
    pub bbox: Aabb,
}

impl Hittable for BVHnode {
    open spec fn wf_at(&self, me: int) -> bool {
        self.left < me && self.right < me
    }

    open spec fn as_shape(self) -> Shape {
        Shape::Bvh(self)
    }

    /// A ray that misses the node's box misses the node. Otherwise the left
    /// child is tested, then the right one on the range that ends at the
    /// left child's hit, if it had one; the node is hit if either child is.
    open spec fn hit_spec(
        &self,
        shapes: Seq<Shape>,
        me: int,
        r: Ray,
        ray_t: Interval,
        rec: HitRecord,
        tape: Seq<Sample>,
        next: usize,
    ) -> Outcome
        decreases me, 0int, 1int, 0int,
    {
        if !self.bbox.hit_spec(r, ray_t) || !(self.left < me && self.right < me) {
            miss(rec, next)
        } else {
            let a = World::hit_spec(shapes, self.left as int, r, ray_t, rec, tape, next);
            let b = World::hit_spec(
                shapes,
                self.right as int,
                r,
                Interval {
                    tmin: ray_t.tmin,
                    tmax: if a.hit {
                        a.rec.t
                    } else {
                        ray_t.tmax
                    },
                },
                a.rec,
                tape,
                a.next,
            );
            Outcome { hit: a.hit || b.hit, rec: b.rec, next: b.next }
        }
    }

    open spec fn box_spec(&self, shapes: Seq<Shape>, me: int) -> Aabb {
        self.bbox
    }

    fn hit(
        &self,
        world: &World,
        me: usize,
        r: &Ray,
        ray_t: Interval,
        rec: &mut HitRecord,
        sampler: &mut Sampler,
    ) -> (b: bool)
        decreases me, 0int,
    {
        assert(self.wf_at(me as int));
        if !self.bbox.hit(r, ray_t) {
            return false;
        }
        let hit_left: bool = world.hit(self.left, r, ray_t, rec, sampler);
        let hit_right: bool = world.hit(
            self.right,
            r,
            Interval::new(
                ray_t.tmin,
                if hit_left {
                    rec.t
                } else {
                    ray_t.tmax
                },
            ),
            rec,
            sampler,
        );
        hit_left || hit_right
    }

    fn bounding_box(&self, world: &World, me: usize) -> (b: Aabb) {
        self.bbox
    }

    fn instancing(self, world: &mut World) -> (h: usize) {
        world.add(Shape::Bvh(self))
    }
}

/// `shorter` is the beginning of `longer`.
pub open spec fn is_prefix(shorter: Seq<Shape>, longer: Seq<Shape>) -> bool {
    &&& shorter.len() <= longer.len()
    &&& forall|i: int| 0 <= i < shorter.len() ==> shorter[i] == longer[i]
}

/// The handles at the positions `start..end` of `handles`, as a set.
pub open spec fn range_set(handles: Seq<usize>, start: int, end: int) -> Set<usize> {
    Set::new(|x: usize| exists|i: int| start <= i < end && 0 <= i < handles.len() && handles[i] == x)
}

/// The box of the shapes at the positions `start..k`, as it is built up:
/// from the empty box, each shape's box is joined in turn and the result
/// padded.
pub open spec fn fold_box(shapes: Seq<Shape>, handles: Seq<usize>, start: int, k: int) -> Aabb
    decreases k - start,
{
    if k <= start {
        Aabb::empty_spec()
    } else {
        Aabb::union_spec(
            fold_box(shapes, handles, start, k - 1),
            World::box_of(shapes, handles[k - 1] as int),
        ).padded_spec()
    }
}

/// The smallest box that holds the boxes of the shapes at the positions
/// `start..end`.
pub open spec fn range_hull(shapes: Seq<Shape>, handles: Seq<usize>, start: int, end: int) -> Aabb
    decreases end - start,
{
    if end <= start {
        Aabb::empty_spec()
    } else {
        Aabb::union_spec(
            range_hull(shapes, handles, start, end - 1),
            World::box_of(shapes, handles[end - 1] as int),
        )
    }
}

/// The shapes at the positions `start..end` all have regular boxes.
pub open spec fn range_regular(
    shapes: Seq<Shape>,
    handles: Seq<usize>,
    start: int,
    end: int,
) -> bool {
    forall|i: int|
        start <= i < end ==> (#[trigger] World::box_of(shapes, handles[i] as int)).is_regular()
}

/// The shapes that a ray can reach under the handle `h`, where the nodes of
/// a tree are the nodes with handles from `base` on.
pub open spec fn leaves(shapes: Seq<Shape>, base: int, h: int) -> Set<usize>
    decreases h,
{
    if base <= h < shapes.len() {
        match shapes[h] {
            Shape::Bvh(n) => if n.left < h && n.right < h {
                leaves(shapes, base, n.left as int) + leaves(shapes, base, n.right as int)
            } else {
                set![h as usize]
            },
            _ => set![h as usize],
        }
    } else {
        set![h as usize]
    }
}

/// Under the handle `h`, every node of the tree has as its box exactly the
/// union of the boxes of its two children.
pub open spec fn boxes_exact(shapes: Seq<Shape>, base: int, h: int) -> bool
    decreases h,
{
    if base <= h < shapes.len() {
        match shapes[h] {
            Shape::Bvh(n) => {
                &&& n.left < h
                &&& n.right < h
                &&& n.bbox == Aabb::union_spec(
                    World::box_of(shapes, n.left as int),
                    World::box_of(shapes, n.right as int),
                )
                &&& boxes_exact(shapes, base, n.left as int)
                &&& boxes_exact(shapes, base, n.right as int)
            },
            _ => true,
        }
    } else {
        true
    }
}

/// A shape's box does not change when shapes are added to the arena.
pub proof fn lemma_box_of_prefix(shorter: Seq<Shape>, longer: Seq<Shape>, h: int)
    requires
        is_prefix(shorter, longer),
        0 <= h < shorter.len(),
    ensures
        World::box_of(longer, h) == World::box_of(shorter, h),
    decreases h,
{
    match shorter[h] {
        Shape::Medium(m) => {
            if m.boundary < h {
                lemma_box_of_prefix(shorter, longer, m.boundary as int);
            }
        },
        _ => {},
    }
}

/// What lies under a handle does not change when shapes are added to the
/// arena.
pub proof fn lemma_tree_prefix(shorter: Seq<Shape>, longer: Seq<Shape>, base: int, h: int)
    requires
        is_prefix(shorter, longer),
        0 <= h < shorter.len(),
    ensures
        leaves(longer, base, h) == leaves(shorter, base, h),
        boxes_exact(longer, base, h) == boxes_exact(shorter, base, h),
    decreases h,
{
    if base <= h {
        match shorter[h] {
            Shape::Bvh(n) => {
                if n.left < h && n.right < h {
                    lemma_tree_prefix(shorter, longer, base, n.left as int);
                    lemma_tree_prefix(shorter, longer, base, n.right as int);
                    lemma_box_of_prefix(shorter, longer, n.left as int);
                    lemma_box_of_prefix(shorter, longer, n.right as int);
                }
            },
            _ => {},
        }
    }
}

/// The box that is built up over a range holds the box of every shape of
/// the range, whatever the boxes are.
pub proof fn lemma_fold_contains(
    shapes: Seq<Shape>,
    handles: Seq<usize>,
    start: int,
    end: int,
    i: int,
)
    requires
        start <= i < end,
    ensures
        fold_box(shapes, handles, start, end).contains_box(
            World::box_of(shapes, handles[i] as int),
        ),
    decreases end - start,
{
    let joined = Aabb::union_spec(
        fold_box(shapes, handles, start, end - 1),
        World::box_of(shapes, handles[end - 1] as int),
    );
    crate::aabb::lemma_pad_axis(joined.x);
    crate::aabb::lemma_pad_axis(joined.y);
    crate::aabb::lemma_pad_axis(joined.z);
    if i < end - 1 {
        lemma_fold_contains(shapes, handles, start, end - 1, i);
    }
}

/// Where every box is regular, the box that is built up with padding is the
/// plain union, and it is regular.
pub proof fn lemma_fold_is_hull(shapes: Seq<Shape>, handles: Seq<usize>, start: int, k: int)
    requires
        range_regular(shapes, handles, start, k),
    ensures
        fold_box(shapes, handles, start, k) == range_hull(shapes, handles, start, k),
        range_hull(shapes, handles, start, k).is_regular(),
    decreases k - start,
{
    if k > start {
        lemma_fold_is_hull(shapes, handles, start, k - 1);
        assert(World::box_of(shapes, handles[k - 1] as int).is_regular());
        lemma_regular_union(
            range_hull(shapes, handles, start, k - 1),
            World::box_of(shapes, handles[k - 1] as int),
        );
    }
}

/// The union holds the box of every shape of the range.
pub proof fn lemma_hull_contains(
    shapes: Seq<Shape>,
    handles: Seq<usize>,
    start: int,
    end: int,
    i: int,
)
    requires
        start <= i < end,
    ensures
        range_hull(shapes, handles, start, end).contains_box(
            World::box_of(shapes, handles[i] as int),
        ),
    decreases end - start,
{
    if i < end - 1 {
        lemma_hull_contains(shapes, handles, start, end - 1, i);
    }
}

/// The union is the least such box: any box that holds the box of every
/// shape of the range holds the union.
pub proof fn lemma_hull_least(
    shapes: Seq<Shape>,
    handles: Seq<usize>,
    start: int,
    end: int,
    outer: Aabb,
)
    requires
        forall|i: int|
            start <= i < end ==> outer.contains_box(
                #[trigger] World::box_of(shapes, handles[i] as int),
            ),
    ensures
        outer.contains_box(range_hull(shapes, handles, start, end)),
    decreases end - start,
{
    if end > start {
        lemma_hull_least(shapes, handles, start, end - 1, outer);
        assert(outer.contains_box(World::box_of(shapes, handles[end - 1] as int)));
    }
}

/// The union of a range is the union of the unions of its two parts.
pub proof fn lemma_hull_split(
    shapes: Seq<Shape>,
    handles: Seq<usize>,
    start: int,
    mid: int,
    end: int,
)
    requires
        start <= mid <= end,
    ensures
        range_hull(shapes, handles, start, end) == Aabb::union_spec(
            range_hull(shapes, handles, start, mid),
            range_hull(shapes, handles, mid, end),
        ),
    decreases end - mid,
{
    if end > mid {
        lemma_hull_split(shapes, handles, start, mid, end - 1);
    }
}

/// The union depends on which shapes are in the range, not on their order
/// nor on how often one occurs.
pub proof fn lemma_hull_same_set(
    shapes1: Seq<Shape>,
    handles1: Seq<usize>,
    shapes2: Seq<Shape>,
    handles2: Seq<usize>,
    start: int,
    end: int,
)
    requires
        0 <= start <= end <= handles1.len(),
        end <= handles2.len(),
        range_set(handles1, start, end) == range_set(handles2, start, end),
        forall|i: int|
            start <= i < end ==> World::box_of(shapes1, #[trigger] handles1[i] as int)
                == World::box_of(shapes2, handles1[i] as int),
    ensures
        range_hull(shapes1, handles1, start, end) == range_hull(shapes2, handles2, start, end),
{
    let h1 = range_hull(shapes1, handles1, start, end);
    let h2 = range_hull(shapes2, handles2, start, end);
    assert forall|j: int| start <= j < end implies h1.contains_box(
        #[trigger] World::box_of(shapes2, handles2[j] as int),
    ) by {
        assert(range_set(handles2, start, end).contains(handles2[j]));
        assert(range_set(handles1, start, end).contains(handles2[j]));
        let i = choose|i: int| start <= i < end && 0 <= i < handles1.len() && handles1[i] == handles2[j];
        lemma_hull_contains(shapes1, handles1, start, end, i);
    }
    lemma_hull_least(shapes2, handles2, start, end, h1);
    assert forall|i: int| start <= i < end implies h2.contains_box(
        #[trigger] World::box_of(shapes1, handles1[i] as int),
    ) by {
        assert(range_set(handles1, start, end).contains(handles1[i]));
        assert(range_set(handles2, start, end).contains(handles1[i]));
        let j = choose|j: int| start <= j < end && 0 <= j < handles2.len() && handles2[j] == handles1[i];
        lemma_hull_contains(shapes2, handles2, start, end, j);
    }
    lemma_hull_least(shapes1, handles1, start, end, h2);
}

/// The sets of two ranges that hold the same handles at the same places
/// are the same.
pub proof fn lemma_range_set_agree(h1: Seq<usize>, h2: Seq<usize>, start: int, end: int)
    requires
        h1.len() == h2.len(),
        forall|i: int| start <= i < end && 0 <= i < h1.len() ==> h1[i] == h2[i],
    ensures
        range_set(h1, start, end) == range_set(h2, start, end),
{
    assert forall|x: usize| range_set(h1, start, end).contains(x) == range_set(
        h2,
        start,
        end,
    ).contains(x) by {
        if range_set(h1, start, end).contains(x) {
            let i = choose|i: int| start <= i < end && 0 <= i < h1.len() && h1[i] == x;
            assert(h2[i] == x);
        }
        if range_set(h2, start, end).contains(x) {
            let i = choose|i: int| start <= i < end && 0 <= i < h2.len() && h2[i] == x;
            assert(h1[i] == x);
        }
    }
    assert(range_set(h1, start, end) =~= range_set(h2, start, end));
}

/// The set of a range is the union of the sets of its two parts.
pub proof fn lemma_range_set_split(h: Seq<usize>, start: int, mid: int, end: int)
    requires
        start <= mid <= end,
    ensures
        range_set(h, start, end) == range_set(h, start, mid) + range_set(h, mid, end),
{
    assert forall|x: usize| range_set(h, start, end).contains(x) == (range_set(
        h,
        start,
        mid,
    ).contains(x) || range_set(h, mid, end).contains(x)) by {
        if range_set(h, start, end).contains(x) {
            let i = choose|i: int| start <= i < end && 0 <= i < h.len() && h[i] == x;
            if i < mid {
                assert(range_set(h, start, mid).contains(x));
            } else {
                assert(range_set(h, mid, end).contains(x));
            }
        }
        if range_set(h, start, mid).contains(x) {
            let i = choose|i: int| start <= i < mid && 0 <= i < h.len() && h[i] == x;
            assert(start <= i < end && h[i] == x);
        }
        if range_set(h, mid, end).contains(x) {
            let i = choose|i: int| mid <= i < end && 0 <= i < h.len() && h[i] == x;
            assert(start <= i < end && h[i] == x);
        }
    }
    assert(range_set(h, start, end) =~= range_set(h, start, mid) + range_set(h, mid, end));
}

/// The handles at the positions `start..end`, each as often as it stands
/// there.
pub open spec fn range_members(handles: Seq<usize>, start: int, end: int) -> Multiset<usize> {
    handles.subrange(start, end).to_multiset()
}

/// The members of a range are those of its two parts together.
pub proof fn lemma_range_members_split(h: Seq<usize>, start: int, mid: int, end: int)
    requires
        0 <= start <= mid <= end <= h.len(),
    ensures
        range_members(h, start, end) == range_members(h, start, mid).add(
            range_members(h, mid, end),
        ),
{
    assert(h.subrange(start, end) =~= h.subrange(start, mid) + h.subrange(mid, end));
    lemma_multiset_commutative(h.subrange(start, mid), h.subrange(mid, end));
}

/// Ranges that hold the same handles at the same positions have the same
/// members.
pub proof fn lemma_range_members_agree(h1: Seq<usize>, h2: Seq<usize>, start: int, end: int)
    requires
        0 <= start <= end <= h1.len(),
        h1.len() == h2.len(),
        forall|i: int| start <= i < end ==> h1[i] == h2[i],
    ensures
        range_members(h1, start, end) == range_members(h2, start, end),
{
    assert(h1.subrange(start, end) =~= h2.subrange(start, end));
}

/// The handles of a sequence of keyed handles, in its order.
pub open spec fn handles_of(keyed: Seq<(i64, usize, usize)>) -> Seq<usize> {
    Seq::new(keyed.len(), |i: int| keyed[i].2)
}

/// Two sequences of keyed handles with the same members name the same
/// handles, each as often as the other.
pub proof fn lemma_handles_of_same_members(
    a: Seq<(i64, usize, usize)>,
    b: Seq<(i64, usize, usize)>,
)
    requires
        a.to_multiset() == b.to_multiset(),
    ensures
        handles_of(a).to_multiset() == handles_of(b).to_multiset(),
    decreases a.len(),
{
    broadcast use vstd::multiset::group_multiset_axioms;

    to_multiset_len(a);
    to_multiset_len(b);
    if a.len() == 0 {
        assert(handles_of(a) =~= handles_of(b));
    } else {
        let x = a.last();
        let shorter = a.drop_last();
        assert(a =~= shorter.push(x));
        to_multiset_build(shorter, x);
        assert(a.contains(x));
        to_multiset_contains(a, x);
        to_multiset_contains(b, x);
        let j = choose|j: int| 0 <= j < b.len() && b[j] == x;
        let rest = b.remove(j);
        to_multiset_remove(b, j);
        assert(shorter.to_multiset() =~= a.to_multiset().remove(x));
        assert(shorter.to_multiset() == rest.to_multiset());
        lemma_handles_of_same_members(shorter, rest);
        assert(handles_of(a) =~= handles_of(shorter).push(x.2));
        to_multiset_build(handles_of(shorter), x.2);
        assert(handles_of(b).remove(j) =~= handles_of(rest));
        to_multiset_remove(handles_of(b), j);
        assert(handles_of(b)[j] == x.2);
        assert(handles_of(b).contains(x.2));
        to_multiset_contains(handles_of(b), x.2);
        assert(handles_of(b).to_multiset() =~= handles_of(rest).to_multiset().insert(x.2));
    }
}

/// The lower bound of a shape's box on an axis: what the shapes of a range
/// are ordered by before the range is split.
pub open spec fn axis_key(shapes: Seq<Shape>, h: int, axis: int) -> i64 {
    World::box_of(shapes, h).axis_spec(axis).tmin
}

/// The order of triples of integers: by the first, then the second, then
/// the third.
pub open spec fn keyed_le(a: (i64, usize, usize), b: (i64, usize, usize)) -> bool {
    a.0 < b.0 || (a.0 == b.0 && (a.1 < b.1 || (a.1 == b.1 && a.2 <= b.2)))
}

/// The order of triples of integers as a relation.
pub open spec fn keyed_order() -> spec_fn((i64, usize, usize), (i64, usize, usize)) -> bool {
    |a: (i64, usize, usize), b: (i64, usize, usize)| keyed_le(a, b)
}

/// The order of triples puts any two of them in order, one way only
/// unless they are the same.
pub proof fn lemma_keyed_order_is_total()
    ensures
        vstd::relations::total_ordering(keyed_order()),
{
    let leq = keyed_order();
    assert forall|x: (i64, usize, usize), y: (i64, usize, usize)|
        #[trigger] leq(x, y) && #[trigger] leq(y, x) implies x == y by {
        assert(x.0 == y.0 && x.1 == y.1 && x.2 == y.2);
    }
}

/// The shapes at the positions `start..end`, each with its key on `axis`
/// before it and its position between the two.
pub open spec fn keyed_range(
    shapes: Seq<Shape>,
    handles: Seq<usize>,
    start: int,
    end: int,
    axis: int,
) -> Seq<(i64, usize, usize)> {
    Seq::new(
        (end - start) as nat,
        |k: int| (axis_key(shapes, handles[start + k] as int, axis), (start + k) as usize, handles[start + k]),
    )
}

/// The shapes at the positions `start..end` in the order of their keys on
/// `axis`; shapes with the same key stand in the order of their positions.
pub open spec fn ordered_range(
    shapes: Seq<Shape>,
    handles: Seq<usize>,
    start: int,
    end: int,
    axis: int,
) -> Seq<usize> {
    handles_of(keyed_range(shapes, handles, start, end, axis).sort_by(keyed_order()))
}

/// `sort` of the standard library's slices, on triples of integers. The
/// contract claims what its documentation says: the result holds the same
/// triples as before, in ascending order, where tuples are ordered by their
/// first component, then the second, then the third.
#[verifier::external_body]
fn sort_keyed(v: &mut Vec<(i64, usize, usize)>)
    ensures
        final(v)@.to_multiset() == old(v)@.to_multiset(),
        final(v)@.len() == old(v)@.len(),
        forall|i: int, j: int|
            0 <= i < j < final(v)@.len() ==> keyed_le(#[trigger] final(v)@[i], #[trigger] final(v)@[j]),
{
    v.sort();
}

/// Orders the shapes at the positions `start..end` by the lower bound of
/// their boxes on `axis`; shapes with the same bound keep their order, see
/// [`ordered_range`].
pub fn sort_range(objects: &mut Vec<usize>, start: usize, end: usize, axis: usize, world: &World)
    requires
        world.wf(),
        start <= end <= old(objects)@.len(),
        axis <= 2,
        forall|i: int| start <= i < end ==> old(objects)@[i] < world.shapes@.len(),
    ensures
        final(objects)@.len() == old(objects)@.len(),
        forall|i: int|
            0 <= i < start || end <= i < old(objects)@.len() ==> final(objects)@[i] == old(
                objects,
            )@[i],
        range_set(final(objects)@, start as int, end as int) == range_set(
            old(objects)@,
            start as int,
            end as int,
        ),
        range_members(final(objects)@, start as int, end as int) == range_members(
            old(objects)@,
            start as int,
            end as int,
        ),
        final(objects)@.subrange(start as int, end as int) == ordered_range(
            world.shapes@,
            old(objects)@,
            start as int,
            end as int,
            axis as int,
        ),
        forall|i: int, j: int|
            start <= i <= j < end ==> axis_key(
                world.shapes@,
                final(objects)@[i] as int,
                axis as int,
            ) <= axis_key(world.shapes@, final(objects)@[j] as int, axis as int),
{
    let ghost before = objects@;
    let mut keyed: Vec<(i64, usize, usize)> = Vec::new();
    let mut i: usize = start;
    while i < end
        invariant
            start <= i <= end <= objects@.len(),
            objects@ == before,
            world.wf(),
            axis <= 2,
            forall|k: int| start <= k < end ==> before[k] < world.shapes@.len(),
            keyed@.len() == i - start,
            forall|k: int|
                0 <= k < keyed@.len() ==> #[trigger] keyed@[k] == (
                    axis_key(world.shapes@, before[start + k] as int, axis as int),
                    (start + k) as usize,
                    before[start + k],
                ),
        decreases end - i,
    {
        let h: usize = objects[i];
        let b: Aabb = world.bounding_box(h);
        let key: i64 = b.axis_interval(axis).tmin;
        keyed.push((key, i, h));
        i = i + 1;
    }
    let ghost unsorted = keyed@;
    sort_keyed(&mut keyed);
    let ghost sorted = keyed@;
    proof {
        assert forall|k: int| 0 <= k < sorted.len() implies {
            let t = #[trigger] sorted[k];
            &&& t.0 == axis_key(world.shapes@, t.2 as int, axis as int)
            &&& range_set(before, start as int, end as int).contains(t.2)
        } by {
            let t = sorted[k];
            assert(sorted.contains(t));
            to_multiset_contains(sorted, t);
            to_multiset_contains(unsorted, t);
            let k0 = choose|k0: int| 0 <= k0 < unsorted.len() && unsorted[k0] == t;
            assert(before[start + k0] == t.2);
        }
    }
    let mut k: usize = 0;
    while k < keyed.len()
        invariant
            k <= keyed@.len(),
            keyed@ == sorted,
            sorted.len() == end - start,
            start <= end <= objects@.len(),
            objects@.len() == before.len(),
            forall|m: int| 0 <= m < start || end <= m < before.len() ==> objects@[m] == before[m],
            forall|m: int| 0 <= m < k ==> objects@[start + m] == (#[trigger] sorted[m]).2,
        decreases keyed@.len() - k,
    {
        let t: (i64, usize, usize) = keyed[k];
        objects[start + k] = t.2;
        k = k + 1;
    }
    proof {
        let after = objects@;
        lemma_handles_of_same_members(sorted, unsorted);
        let keyed_before = keyed_range(
            world.shapes@,
            before,
            start as int,
            end as int,
            axis as int,
        );
        assert(unsorted =~= keyed_before);
        lemma_keyed_order_is_total();
        keyed_before.lemma_sort_by_ensures(keyed_order());
        assert(vstd::relations::sorted_by(sorted, keyed_order()));
        vstd::seq_lib::lemma_sorted_unique(
            sorted,
            keyed_before.sort_by(keyed_order()),
            keyed_order(),
        );
        assert(after.subrange(start as int, end as int) =~= handles_of(sorted));
        assert(before.subrange(start as int, end as int) =~= handles_of(unsorted));
        assert forall|x: usize| range_set(after, start as int, end as int).contains(x)
            == range_set(before, start as int, end as int).contains(x) by {
            if range_set(after, start as int, end as int).contains(x) {
                let i = choose|i: int| start <= i < end && 0 <= i < after.len() && after[i] == x;
                assert(after[start + (i - start)] == sorted[i - start].2);
            }
            if range_set(before, start as int, end as int).contains(x) {
                let i = choose|i: int| start <= i < end && 0 <= i < before.len() && before[i] == x;
                let t = unsorted[i - start];
                assert(unsorted.contains(t));
                to_multiset_contains(unsorted, t);
                to_multiset_contains(sorted, t);
                let m = choose|m: int| 0 <= m < sorted.len() && sorted[m] == t;
                assert(after[start + m] == sorted[m].2);
                assert(start <= start + m < end);
            }
        }
        assert(range_set(after, start as int, end as int) =~= range_set(
            before,
            start as int,
            end as int,
        ));
        assert forall|i: int, j: int| start <= i <= j < end implies axis_key(
            world.shapes@,
            after[i] as int,
            axis as int,
        ) <= axis_key(world.shapes@, after[j] as int, axis as int) by {
            assert(after[start + (i - start)] == sorted[i - start].2);
            assert(after[start + (j - start)] == sorted[j - start].2);
            if i < j {
                assert(keyed_le(sorted[i - start], sorted[j - start]));
            }
        }
    }
}

/// What a node has under it: what lies under its two children.
pub open spec fn node_leaves(shapes: Seq<Shape>, base: int, node: BVHnode) -> Set<usize> {
    leaves(shapes, base, node.left as int) + leaves(shapes, base, node.right as int)
}

/// What a tree over the positions `start..end` of `before` must be: the
/// node `node`, in the arena `shapes` that grew from `grown_from`, with the
/// handles left in the order `after`.
///
/// The handles keep their places outside the range and are the same set
/// inside it. The node's box is the one built up from the boxes of the
/// range, and under the node lie exactly the shapes of the range.
#[verifier::opaque]
spec fn built(
    grown_from: Seq<Shape>,
    shapes: Seq<Shape>,
    before: Seq<usize>,
    after: Seq<usize>,
    start: int,
    end: int,
    base: int,
    node: BVHnode,
) -> bool {
    &&& is_prefix(grown_from, shapes)
    &&& after.len() == before.len()
    &&& forall|i: int| 0 <= i < start || end <= i < before.len() ==> after[i] == before[i]
    &&& range_set(after, start, end) == range_set(before, start, end)
    &&& node.left < shapes.len()
    &&& node.right < shapes.len()
    &&& node.bbox == fold_box(grown_from, before, start, end)
    &&& node_leaves(shapes, base, node) == range_set(before, start, end)
    &&& split(shapes, before, after, start, end, base, node)
}

/// How the range was split between the two children of `node`.
///
/// A range of one shape gives that shape as both children, a range of two
/// gives the first as the left and the second as the right child, and the
/// handles stay as they were. A longer range is cut in the middle: the left
/// child stands over the first half of the handles as they are left, the
/// right child over the second, and along the longest axis of the node's
/// box no shape of the first half begins after one of the second.
pub open spec fn split(
    shapes: Seq<Shape>,
    before: Seq<usize>,
    after: Seq<usize>,
    start: int,
    end: int,
    base: int,
    node: BVHnode,
) -> bool {
    let mid = start + (end - start) / 2;
    &&& end - start == 1 ==> node.left == before[start] && node.right == before[start] && after
        == before
    &&& end - start == 2 ==> node.left == before[start] && node.right == before[start + 1] && after
        == before
    &&& end - start > 2 ==> {
        &&& leaves(shapes, base, node.left as int) == range_set(after, start, mid)
        &&& leaves(shapes, base, node.right as int) == range_set(after, mid, end)
        &&& ordered_across(shapes, after, start, mid, end, node.bbox.longest_axis_spec())
    }
}

/// Along `axis`, no shape at the positions `start..mid` begins after one
/// at the positions `mid..end`.
pub open spec fn ordered_across(
    shapes: Seq<Shape>,
    handles: Seq<usize>,
    start: int,
    mid: int,
    end: int,
    axis: int,
) -> bool {
    forall|i: int, j: int|
        start <= i < mid && mid <= j < end ==> axis_key(shapes, (#[trigger] handles[i]) as int, axis)
            <= axis_key(shapes, (#[trigger] handles[j]) as int, axis)
}

/// The boxes of a tree are exact: the box of every node is the union of the
/// boxes of its two children, and the box of `node` is the union of the
/// boxes of the shapes at the positions `start..end`.
#[verifier::opaque]
spec fn exact(
    shapes: Seq<Shape>,
    after: Seq<usize>,
    start: int,
    end: int,
    base: int,
    node: BVHnode,
) -> bool {
    &&& node.bbox == range_hull(shapes, after, start, end)
    &&& node.bbox == Aabb::union_spec(
        World::box_of(shapes, node.left as int),
        World::box_of(shapes, node.right as int),
    )
    &&& node.bbox.is_regular()
    &&& boxes_exact(shapes, base, node.left as int)
    &&& boxes_exact(shapes, base, node.right as int)
}

/// A tree over one shape names the shape as both children.
proof fn lemma_built_single(shapes: Seq<Shape>, handles: Seq<usize>, start: int, base: int)
    requires
        0 <= start < handles.len(),
        handles[start] < base <= shapes.len(),
    ensures
        ({
            let node = BVHnode {
                left: handles[start],
                right: handles[start],
                bbox: fold_box(shapes, handles, start, start + 1),
            };
            &&& built(shapes, shapes, handles, handles, start, start + 1, base, node)
            &&& range_regular(shapes, handles, start, start + 1) ==> exact(
                shapes,
                handles,
                start,
                start + 1,
                base,
                node,
            )
        }),
{
    reveal(built);
    reveal(exact);
    let end = start + 1;
    let node = BVHnode {
        left: handles[start],
        right: handles[start],
        bbox: fold_box(shapes, handles, start, start + 1),
    };
    assert(range_set(handles, start, end) =~= set![handles[start]]);
    assert(node_leaves(shapes, base, node) =~= set![handles[start]]);
    if range_regular(shapes, handles, start, end) {
        lemma_fold_is_hull(shapes, handles, start, end);
        assert(range_hull(shapes, handles, start, start) == Aabb::empty_spec());
        assert(World::box_of(shapes, handles[start] as int).is_regular());
    }
}

/// A tree over two shapes names one as each child.
proof fn lemma_built_pair(shapes: Seq<Shape>, handles: Seq<usize>, start: int, base: int)
    requires
        0 <= start,
        start + 1 < handles.len(),
        handles[start] < base <= shapes.len(),
        handles[start + 1] < base,
    ensures
        ({
            let node = BVHnode {
                left: handles[start],
                right: handles[start + 1],
                bbox: fold_box(shapes, handles, start, start + 2),
            };
            &&& built(shapes, shapes, handles, handles, start, start + 2, base, node)
            &&& range_regular(shapes, handles, start, start + 2) ==> exact(
                shapes,
                handles,
                start,
                start + 2,
                base,
                node,
            )
        }),
{
    reveal(built);
    reveal(exact);
    let end = start + 2;
    let node = BVHnode {
        left: handles[start],
        right: handles[start + 1],
        bbox: fold_box(shapes, handles, start, start + 2),
    };
    assert(range_set(handles, start, end) =~= set![handles[start], handles[start + 1]]);
    assert(node_leaves(shapes, base, node) =~= set![handles[start], handles[start + 1]]);
    if range_regular(shapes, handles, start, end) {
        lemma_fold_is_hull(shapes, handles, start, end);
        assert(range_hull(shapes, handles, start, start) == Aabb::empty_spec());
        assert(range_hull(shapes, handles, start, start + 1) == Aabb::union_spec(
            Aabb::empty_spec(),
            World::box_of(shapes, handles[start] as int),
        ));
        assert(World::box_of(shapes, handles[start] as int).is_regular());
        assert(World::box_of(shapes, handles[start + 1] as int).is_regular());
    }
}

/// What every tree gives its caller.
proof fn lemma_built_basics(
    grown_from: Seq<Shape>,
    shapes: Seq<Shape>,
    before: Seq<usize>,
    after: Seq<usize>,
    start: int,
    end: int,
    base: int,
    node: BVHnode,
)
    requires
        built(grown_from, shapes, before, after, start, end, base, node),
    ensures
        is_prefix(grown_from, shapes),
        after.len() == before.len(),
        forall|i: int| 0 <= i < start || end <= i < before.len() ==> after[i] == before[i],
        range_set(after, start, end) == range_set(before, start, end),
        node.left < shapes.len(),
        node.right < shapes.len(),
        node.bbox == fold_box(grown_from, before, start, end),
        node_leaves(shapes, base, node) == range_set(before, start, end),
        split(shapes, before, after, start, end, base, node),
{
    reveal(built);
}

/// Shapes that stood in the arena before it grew have kept their boxes.
proof fn lemma_boxes_agree(
    shorter: Seq<Shape>,
    longer: Seq<Shape>,
    handles: Seq<usize>,
    start: int,
    end: int,
)
    requires
        is_prefix(shorter, longer),
        0 <= start <= end <= handles.len(),
        forall|i: int| start <= i < end ==> handles[i] < shorter.len(),
    ensures
        forall|i: int|
            start <= i < end ==> World::box_of(shorter, #[trigger] handles[i] as int)
                == World::box_of(longer, handles[i] as int),
{
    assert forall|i: int| start <= i < end implies World::box_of(
        shorter,
        #[trigger] handles[i] as int,
    ) == World::box_of(longer, handles[i] as int) by {
        lemma_box_of_prefix(shorter, longer, handles[i] as int);
    }
}

/// A tree over a range is made of the trees over its two halves: `l` over
/// `start..mid`, built first, and `r` over `mid..end`, each added to the
/// arena after it was built.
proof fn lemma_built_halves(
    s0: Seq<Shape>,
    o0: Seq<usize>,
    o1: Seq<usize>,
    s1: Seq<Shape>,
    o2: Seq<usize>,
    l: BVHnode,
    s3: Seq<Shape>,
    o3: Seq<usize>,
    r: BVHnode,
    start: int,
    mid: int,
    end: int,
    base: int,
    left: usize,
    right: usize,
)
    requires
        left == s1.len(),
        right == s3.len(),
        0 <= start < mid < end <= o0.len(),
        base <= s0.len(),
        o1.len() == o0.len(),
        forall|i: int| 0 <= i < start || end <= i < o0.len() ==> o1[i] == o0[i],
        range_set(o1, start, end) == range_set(o0, start, end),
        built(s0, s1, o1, o2, start, mid, base, l),
        built(s1.push(Shape::Bvh(l)), s3, o2, o3, mid, end, base, r),
        end - start > 2,
        mid == start + (end - start) / 2,
        forall|i: int| start <= i < end ==> o0[i] < base,
        forall|i: int, j: int|
            start <= i <= j < end ==> axis_key(
                s0,
                o1[i] as int,
                fold_box(s0, o0, start, end).longest_axis_spec(),
            ) <= axis_key(s0, o1[j] as int, fold_box(s0, o0, start, end).longest_axis_spec()),
    ensures
        built(
            s0,
            s3.push(Shape::Bvh(r)),
            o0,
            o3,
            start,
            end,
            base,
            BVHnode { left, right, bbox: fold_box(s0, o0, start, end) },
        ),
{
    reveal(built);
    let s2 = s1.push(Shape::Bvh(l));
    let s4 = s3.push(Shape::Bvh(r));
    let node = BVHnode { left, right, bbox: fold_box(s0, o0, start, end) };
    let axis = node.bbox.longest_axis_spec();
    assert(is_prefix(s0, s4));
    assert(is_prefix(s1, s4));
    assert(is_prefix(s3, s4));
    assert(s4[left as int] == Shape::Bvh(l));
    assert(s4[right as int] == Shape::Bvh(r));
    lemma_range_set_split(o1, start, mid, end);
    lemma_range_set_agree(o1, o2, mid, end);
    lemma_range_set_agree(o2, o3, start, mid);
    lemma_range_set_split(o3, start, mid, end);
    lemma_tree_prefix(s1, s4, base, l.left as int);
    lemma_tree_prefix(s1, s4, base, l.right as int);
    lemma_tree_prefix(s3, s4, base, r.left as int);
    lemma_tree_prefix(s3, s4, base, r.right as int);
    assert(leaves(s4, base, left as int) == node_leaves(s1, base, l));
    assert(leaves(s4, base, right as int) == node_leaves(s3, base, r));
    assert(range_set(o3, start, mid) == range_set(o1, start, mid));
    assert(range_set(o3, mid, end) == range_set(o1, mid, end));
    lemma_members_below(o0, o1, start, end, base);
    assert forall|i: int, j: int| start <= i < mid && mid <= j < end implies axis_key(
        s4,
        (#[trigger] o3[i]) as int,
        axis,
    ) <= axis_key(s4, (#[trigger] o3[j]) as int, axis) by {
        assert(range_set(o3, start, mid).contains(o3[i]));
        assert(range_set(o1, start, mid).contains(o3[i]));
        let i1 = choose|k: int| start <= k < mid && 0 <= k < o1.len() && o1[k] == o3[i];
        assert(range_set(o3, mid, end).contains(o3[j]));
        assert(range_set(o1, mid, end).contains(o3[j]));
        let j1 = choose|k: int| mid <= k < end && 0 <= k < o1.len() && o1[k] == o3[j];
        assert(axis_key(s0, o1[i1] as int, axis) <= axis_key(s0, o1[j1] as int, axis));
        lemma_box_of_prefix(s0, s4, o1[i1] as int);
        lemma_box_of_prefix(s0, s4, o1[j1] as int);
    }
    assert(ordered_across(s4, o3, start, mid, end, axis));
}

/// Where the boxes of the two halves of a tree are exact, so are the boxes
/// of the tree.
proof fn lemma_exact_halves(
    s0: Seq<Shape>,
    o0: Seq<usize>,
    o1: Seq<usize>,
    s1: Seq<Shape>,
    o2: Seq<usize>,
    l: BVHnode,
    s3: Seq<Shape>,
    o3: Seq<usize>,
    r: BVHnode,
    start: int,
    mid: int,
    end: int,
    base: int,
    left: usize,
    right: usize,
)
    requires
        left == s1.len(),
        right == s3.len(),
        0 <= start < mid < end <= o0.len(),
        base <= s0.len(),
        forall|i: int| start <= i < end ==> o0[i] < base,
        o1.len() == o0.len(),
        range_set(o1, start, end) == range_set(o0, start, end),
        built(s0, s1, o1, o2, start, mid, base, l),
        built(s1.push(Shape::Bvh(l)), s3, o2, o3, mid, end, base, r),
        range_regular(s0, o0, start, end),
        exact(s1, o2, start, mid, base, l),
        exact(s3, o3, mid, end, base, r),
    ensures
        exact(
            s3.push(Shape::Bvh(r)),
            o3,
            start,
            end,
            base,
            BVHnode { left, right, bbox: fold_box(s0, o0, start, end) },
        ),
{
    let s2 = s1.push(Shape::Bvh(l));
    let s4 = s3.push(Shape::Bvh(r));
    lemma_built_basics(s0, s1, o1, o2, start, mid, base, l);
    lemma_built_basics(s2, s3, o2, o3, mid, end, base, r);
    assert(is_prefix(s0, s4));
    assert(is_prefix(s1, s4));
    assert(is_prefix(s3, s4));
    assert(s4[left as int] == Shape::Bvh(l));
    assert(s4[right as int] == Shape::Bvh(r));
    lemma_range_set_split(o1, start, mid, end);
    lemma_range_set_agree(o1, o2, mid, end);
    lemma_range_set_agree(o2, o3, start, mid);
    lemma_range_set_split(o3, start, mid, end);
    lemma_members_below(o0, o3, start, end, base);
    lemma_fold_is_hull(s0, o0, start, end);
    lemma_boxes_agree(s0, s4, o0, start, end);
    lemma_hull_same_set(s0, o0, s4, o3, start, end);
    lemma_hull_split(s4, o3, start, mid, end);
    lemma_boxes_agree(s1, s4, o3, start, mid);
    lemma_range_set_agree(o3, o2, start, mid);
    lemma_hull_same_set(s1, o3, s4, o3, start, mid);
    lemma_hull_agree(s1, o2, o3, start, mid);
    lemma_boxes_agree(s3, s4, o3, mid, end);
    lemma_hull_same_set(s3, o3, s4, o3, mid, end);
    lemma_exact_child(s1, s4, o2, start, mid, base, l, left);
    lemma_exact_child(s3, s4, o3, mid, end, base, r, right);
    let lb = World::box_of(s4, left as int);
    let rb = World::box_of(s4, right as int);
    assert(lb == range_hull(s4, o3, start, mid)) by {
        reveal(exact);
    }
    assert(rb == range_hull(s4, o3, mid, end)) by {
        reveal(exact);
    }
    assert(lb.is_regular() && rb.is_regular()) by {
        reveal(exact);
    }
    lemma_regular_union(lb, rb);
    reveal(exact);
}

/// The union over a range is the same for two sequences that agree on the
/// range.
proof fn lemma_hull_agree(
    shapes: Seq<Shape>,
    h1: Seq<usize>,
    h2: Seq<usize>,
    start: int,
    end: int,
)
    requires
        forall|i: int| start <= i < end ==> h1[i] == h2[i],
    ensures
        range_hull(shapes, h1, start, end) == range_hull(shapes, h2, start, end),
    decreases end - start,
{
    if end > start {
        lemma_hull_agree(shapes, h1, h2, start, end - 1);
    }
}

/// A node whose boxes are exact, once it stands in the arena at `handle`,
/// has exact boxes under its handle, and its box is the box of the handle.
proof fn lemma_exact_child(
    shorter: Seq<Shape>,
    longer: Seq<Shape>,
    handles: Seq<usize>,
    start: int,
    end: int,
    base: int,
    node: BVHnode,
    handle: usize,
)
    requires
        is_prefix(shorter, longer),
        shorter.len() <= handle < longer.len(),
        base <= shorter.len(),
        longer[handle as int] == Shape::Bvh(node),
        node.left < shorter.len(),
        node.right < shorter.len(),
        exact(shorter, handles, start, end, base, node),
    ensures
        World::box_of(longer, handle as int) == node.bbox,
        boxes_exact(longer, base, handle as int),
{
    reveal(exact);
    lemma_tree_prefix(shorter, longer, base, node.left as int);
    lemma_tree_prefix(shorter, longer, base, node.right as int);
    lemma_box_of_prefix(shorter, longer, node.left as int);
    lemma_box_of_prefix(shorter, longer, node.right as int);
}

/// Along the longest axis of the node's box, no shape under its left
/// child begins after one under its right child.
pub open spec fn leaves_in_order(shapes: Seq<Shape>, base: int, node: BVHnode) -> bool {
    forall|a: usize, b: usize|
        #![trigger leaves(shapes, base, node.left as int).contains(a), leaves(shapes, base, node.right as int).contains(b)]
        leaves(shapes, base, node.left as int).contains(a) && leaves(
            shapes,
            base,
            node.right as int,
        ).contains(b) ==> axis_key(shapes, a as int, node.bbox.longest_axis_spec()) <= axis_key(
            shapes,
            b as int,
            node.bbox.longest_axis_spec(),
        )
}

/// The tree under `node` stands over `n` places for shapes and is cut in
/// the middle all the way down.
///
/// A node over one place names one shape twice, a node over two names a
/// shape in each child. A node over more has two nodes of the tree as its
/// children, the left one over `n / 2` places and the right one over the
/// rest, both again cut in the middle, and the shapes under the left child
/// come before those under the right one, see [`leaves_in_order`].
pub open spec fn cut_in_the_middle(shapes: Seq<Shape>, base: int, node: BVHnode, n: int) -> bool
    decreases n,
{
    if n <= 2 {
        &&& n >= 1
        &&& node.left < base
        &&& node.right < base
        &&& n == 1 ==> node.left == node.right
    } else {
        &&& base <= node.left < shapes.len()
        &&& base <= node.right < shapes.len()
        &&& match shapes[node.left as int] {
            Shape::Bvh(l) => l.left < node.left && l.right < node.left && cut_in_the_middle(
                shapes,
                base,
                l,
                n / 2,
            ),
            _ => false,
        }
        &&& match shapes[node.right as int] {
            Shape::Bvh(r) => r.left < node.right && r.right < node.right && cut_in_the_middle(
                shapes,
                base,
                r,
                n - n / 2,
            ),
            _ => false,
        }
        &&& leaves_in_order(shapes, base, node)
    }
}

/// The shapes that a tree over `n` places, cut in the middle, names at its
/// lowest nodes, read from left to right. A node over one place names its
/// shape twice and stands for it once.
pub open spec fn places(shapes: Seq<Shape>, node: BVHnode, n: int) -> Seq<usize>
    decreases n,
{
    if n <= 1 {
        seq![node.left]
    } else if n == 2 {
        seq![node.left, node.right]
    } else {
        (match shapes[node.left as int] {
            Shape::Bvh(l) => places(shapes, l, n / 2),
            _ => Seq::empty(),
        }) + (match shapes[node.right as int] {
            Shape::Bvh(r) => places(shapes, r, n - n / 2),
            _ => Seq::empty(),
        })
    }
}

/// What a tree that is cut in the middle names does not change when
/// shapes are added to the arena.
pub proof fn lemma_places_prefix(
    shorter: Seq<Shape>,
    longer: Seq<Shape>,
    base: int,
    node: BVHnode,
    n: int,
)
    requires
        is_prefix(shorter, longer),
        0 <= base <= shorter.len(),
        cut_in_the_middle(shorter, base, node, n),
    ensures
        places(longer, node, n) == places(shorter, node, n),
    decreases n,
{
    if n > 2 {
        match shorter[node.left as int] {
            Shape::Bvh(l) => {
                lemma_places_prefix(shorter, longer, base, l, n / 2);
            },
            _ => {},
        }
        match shorter[node.right as int] {
            Shape::Bvh(r) => {
                lemma_places_prefix(shorter, longer, base, r, n - n / 2);
            },
            _ => {},
        }
    }
}

/// At the handle `h` stands a node of a tree over `n` places that is cut in
/// the middle all the way down, see [`cut_in_the_middle`], and that names
/// the shapes `named` from left to right, see [`places`].
pub open spec fn names_at(shapes: Seq<Shape>, h: int, n: int, named: Seq<usize>) -> bool {
    &&& 0 <= h < shapes.len()
    &&& match shapes[h] {
        Shape::Bvh(node) => places(shapes, node, n) == named,
        _ => false,
    }
}

/// At the handle `h` stands a node of a tree over `n` places that is cut in
/// the middle all the way down, see [`cut_in_the_middle`].
pub open spec fn cut_at(shapes: Seq<Shape>, base: int, h: int, n: int) -> bool {
    &&& 0 <= h < shapes.len()
    &&& match shapes[h] {
        Shape::Bvh(node) => cut_in_the_middle(shapes, base, node, n),
        _ => false,
    }
}

/// How many nodes lie on the longest way from the node of a tree over `n`
/// places, cut in the middle, down to a shape.
pub open spec fn levels(n: int) -> int
    decreases n,
{
    if n <= 2 {
        1
    } else {
        1 + levels(n - n / 2)
    }
}

/// A tree over fewer than 2ᵏ⁺¹ + 1 places has no more than `k + 1` levels,
/// for `k ≥ 0`: over up to two places one level, over up to four two, over
/// up to eight three.
pub proof fn lemma_levels(n: int, k: nat)
    requires
        n <= 2 * vstd::arithmetic::power2::pow2(k),
    ensures
        levels(n) <= k + 1,
    decreases k,
{
    vstd::arithmetic::power2::lemma2_to64();
    if n > 2 {
        if k == 0 {
            assert(false);
        } else {
            vstd::arithmetic::power2::lemma_pow2_unfold(k);
            lemma_levels(n - n / 2, (k - 1) as nat);
        }
    }
}

/// `levels` is at least 1 and grows with the number of places.
pub proof fn lemma_levels_grow(a: int, b: int)
    requires
        a <= b,
    ensures
        1 <= levels(a) <= levels(b),
    decreases b,
{
    if a > 2 {
        lemma_levels_grow(a - a / 2, b - b / 2);
    } else if b > 2 {
        lemma_levels_grow(a, b - b / 2);
    }
}

/// How many nodes of the tree lie on the longest way from the handle `h`
/// down to a shape: none where `h` is a shape itself.
pub open spec fn depth_under(shapes: Seq<Shape>, base: int, h: int) -> int
    decreases h,
{
    if base <= h < shapes.len() {
        match shapes[h] {
            Shape::Bvh(n) => if n.left < h && n.right < h {
                1 + vstd::math::max(
                    depth_under(shapes, base, n.left as int),
                    depth_under(shapes, base, n.right as int),
                )
            } else {
                0
            },
            _ => 0,
        }
    } else {
        0
    }
}

/// A tree over `n` places that is cut in the middle is no deeper than
/// [`levels`] says: with the node itself, no more than `levels(n)` nodes
/// lie on any way down to a shape.
pub proof fn lemma_depth_of_cut_tree(shapes: Seq<Shape>, base: int, node: BVHnode, n: int)
    requires
        cut_in_the_middle(shapes, base, node, n),
    ensures
        1 + vstd::math::max(
            depth_under(shapes, base, node.left as int),
            depth_under(shapes, base, node.right as int),
        ) <= levels(n),
    decreases n,
{
    if n > 2 {
        match shapes[node.left as int] {
            Shape::Bvh(l) => {
                lemma_depth_of_cut_tree(shapes, base, l, n / 2);
            },
            _ => {},
        }
        match shapes[node.right as int] {
            Shape::Bvh(r) => {
                lemma_depth_of_cut_tree(shapes, base, r, n - n / 2);
            },
            _ => {},
        }
        lemma_levels_grow(n / 2, n - n / 2);
    }
}

/// The handle of every shape that lies under a handle is no larger than
/// that handle.
pub proof fn lemma_leaves_at_most(shapes: Seq<Shape>, base: int, h: int, leaf: usize)
    requires
        0 <= h,
        leaves(shapes, base, h).contains(leaf),
    ensures
        leaf <= h,
    decreases h,
{
    if base <= h < shapes.len() {
        match shapes[h] {
            Shape::Bvh(n) => {
                if n.left < h && n.right < h {
                    if leaves(shapes, base, n.left as int).contains(leaf) {
                        lemma_leaves_at_most(shapes, base, n.left as int, leaf);
                    } else {
                        lemma_leaves_at_most(shapes, base, n.right as int, leaf);
                    }
                }
            },
            _ => {},
        }
    }
}

/// A tree that is cut in the middle stays so when shapes are added to the
/// arena.
pub proof fn lemma_cut_prefix(
    shorter: Seq<Shape>,
    longer: Seq<Shape>,
    base: int,
    node: BVHnode,
    n: int,
)
    requires
        is_prefix(shorter, longer),
        0 <= base <= shorter.len(),
        cut_in_the_middle(shorter, base, node, n),
    ensures
        cut_in_the_middle(longer, base, node, n),
    decreases n,
{
    if n > 2 {
        match shorter[node.left as int] {
            Shape::Bvh(l) => {
                lemma_cut_prefix(shorter, longer, base, l, n / 2);
            },
            _ => {},
        }
        match shorter[node.right as int] {
            Shape::Bvh(r) => {
                lemma_cut_prefix(shorter, longer, base, r, n - n / 2);
            },
            _ => {},
        }
        lemma_tree_prefix(shorter, longer, base, node.left as int);
        lemma_tree_prefix(shorter, longer, base, node.right as int);
        assert forall|a: usize, b: usize|
            leaves(longer, base, node.left as int).contains(a) && leaves(
                longer,
                base,
                node.right as int,
            ).contains(b) implies axis_key(longer, a as int, node.bbox.longest_axis_spec())
            <= axis_key(longer, b as int, node.bbox.longest_axis_spec()) by {
            lemma_leaves_at_most(shorter, base, node.left as int, a);
            lemma_leaves_at_most(shorter, base, node.right as int, b);
            lemma_box_of_prefix(shorter, longer, a as int);
            lemma_box_of_prefix(shorter, longer, b as int);
        }
    }
}

/// `handles` with the positions from `start` on taken by `part`.
pub open spec fn replaced(handles: Seq<usize>, start: int, part: Seq<usize>) -> Seq<usize> {
    handles.subrange(0, start) + part + handles.subrange(
        start + part.len(),
        handles.len() as int,
    )
}

/// A sequence of which a part was replaced is as long as it was, holds the
/// part where it was put, and is unchanged elsewhere.
pub proof fn lemma_replaced(handles: Seq<usize>, start: int, part: Seq<usize>)
    requires
        0 <= start,
        start + part.len() <= handles.len(),
    ensures
        replaced(handles, start, part).len() == handles.len(),
        replaced(handles, start, part).subrange(start, start + part.len()) == part,
        forall|i: int|
            0 <= i < start || start + part.len() <= i < handles.len() ==> replaced(
                handles,
                start,
                part,
            )[i] == handles[i],
{
    assert(replaced(handles, start, part).subrange(start, start + part.len()) =~= part);
}

/// The order in which the handles are left when a tree is built over the
/// positions `start..end`: a range of one or two is left as it is; a longer
/// one is ordered along the longest axis of its box, see
/// [`ordered_range`], and then its first half is arranged and after that
/// its second half.
pub open spec fn arranged(shapes: Seq<Shape>, handles: Seq<usize>, start: int, end: int) -> Seq<
    usize,
>
    decreases end - start,
{
    if end - start <= 2 {
        handles
    } else {
        let mid = start + (end - start) / 2;
        let axis = fold_box(shapes, handles, start, end).longest_axis_spec();
        let ordered = replaced(handles, start, ordered_range(shapes, handles, start, end, axis));
        arranged(shapes, arranged(shapes, ordered, start, mid), mid, end)
    }
}

/// An ordered range holds what the range held, each handle as often.
pub proof fn lemma_ordered_range_members(
    shapes: Seq<Shape>,
    handles: Seq<usize>,
    start: int,
    end: int,
    axis: int,
)
    requires
        0 <= start <= end <= handles.len(),
    ensures
        ordered_range(shapes, handles, start, end, axis).len() == end - start,
        ordered_range(shapes, handles, start, end, axis).to_multiset() == range_members(
            handles,
            start,
            end,
        ),
{
    let keyed = keyed_range(shapes, handles, start, end, axis);
    lemma_keyed_order_is_total();
    keyed.lemma_sort_by_ensures(keyed_order());
    lemma_handles_of_same_members(keyed.sort_by(keyed_order()), keyed);
    assert(handles_of(keyed) =~= handles.subrange(start, end));
    to_multiset_len(keyed);
    to_multiset_len(keyed.sort_by(keyed_order()));
}

/// Ranges with the same members hold the same set of handles.
pub proof fn lemma_members_give_set(h1: Seq<usize>, h2: Seq<usize>, start: int, end: int)
    requires
        0 <= start <= end <= h1.len(),
        h1.len() == h2.len(),
        range_members(h1, start, end) == range_members(h2, start, end),
    ensures
        range_set(h1, start, end) == range_set(h2, start, end),
{
    let s1 = h1.subrange(start, end);
    let s2 = h2.subrange(start, end);
    assert forall|x: usize| range_set(h1, start, end).contains(x) == range_set(
        h2,
        start,
        end,
    ).contains(x) by {
        to_multiset_contains(s1, x);
        to_multiset_contains(s2, x);
        if range_set(h1, start, end).contains(x) {
            let i = choose|i: int| start <= i < end && 0 <= i < h1.len() && h1[i] == x;
            assert(s1[i - start] == x);
            assert(s2.contains(x));
            let j = choose|j: int| 0 <= j < s2.len() && s2[j] == x;
            assert(h2[start + j] == x);
        }
        if range_set(h2, start, end).contains(x) {
            let i = choose|i: int| start <= i < end && 0 <= i < h2.len() && h2[i] == x;
            assert(s2[i - start] == x);
            assert(s1.contains(x));
            let j = choose|j: int| 0 <= j < s1.len() && s1[j] == x;
            assert(h1[start + j] == x);
        }
    }
    assert(range_set(h1, start, end) =~= range_set(h2, start, end));
}

/// Arranging a range leaves the handles outside it where they were, and
/// inside it every handle as often as it stood there.
pub proof fn lemma_arranged_members(shapes: Seq<Shape>, handles: Seq<usize>, start: int, end: int)
    requires
        0 <= start <= end <= handles.len(),
    ensures
        arranged(shapes, handles, start, end).len() == handles.len(),
        forall|i: int|
            0 <= i < start || end <= i < handles.len() ==> arranged(shapes, handles, start, end)[i]
                == handles[i],
        range_members(arranged(shapes, handles, start, end), start, end) == range_members(
            handles,
            start,
            end,
        ),
    decreases end - start,
{
    if end - start > 2 {
        let mid = start + (end - start) / 2;
        let axis = fold_box(shapes, handles, start, end).longest_axis_spec();
        let part = ordered_range(shapes, handles, start, end, axis);
        lemma_ordered_range_members(shapes, handles, start, end, axis);
        let o1 = replaced(handles, start, part);
        lemma_replaced(handles, start, part);
        let o2 = arranged(shapes, o1, start, mid);
        lemma_arranged_members(shapes, o1, start, mid);
        let o3 = arranged(shapes, o2, mid, end);
        lemma_arranged_members(shapes, o2, mid, end);
        lemma_range_members_split(o1, start, mid, end);
        lemma_range_members_split(o3, start, mid, end);
        lemma_range_members_agree(o2, o3, start, mid);
        lemma_range_members_agree(o1, o2, mid, end);
    }
}

/// The order in which a range is arranged does not change when shapes
/// are added to the arena.
pub proof fn lemma_arranged_prefix(
    shorter: Seq<Shape>,
    longer: Seq<Shape>,
    handles: Seq<usize>,
    start: int,
    end: int,
)
    requires
        is_prefix(shorter, longer),
        0 <= start <= end <= handles.len(),
        forall|i: int| start <= i < end ==> handles[i] < shorter.len(),
    ensures
        arranged(longer, handles, start, end) == arranged(shorter, handles, start, end),
    decreases end - start,
{
    if end - start > 2 {
        let mid = start + (end - start) / 2;
        lemma_fold_box_prefix(shorter, longer, handles, start, end);
        let axis = fold_box(shorter, handles, start, end).longest_axis_spec();
        assert(keyed_range(longer, handles, start, end, axis) =~= keyed_range(
            shorter,
            handles,
            start,
            end,
            axis,
        )) by {
            assert forall|i: int| start <= i < end implies axis_key(
                longer,
                #[trigger] handles[i] as int,
                axis,
            ) == axis_key(shorter, handles[i] as int, axis) by {
                lemma_box_of_prefix(shorter, longer, handles[i] as int);
            }
        }
        let part = ordered_range(shorter, handles, start, end, axis);
        lemma_ordered_range_members(shorter, handles, start, end, axis);
        let o1 = replaced(handles, start, part);
        lemma_replaced(handles, start, part);
        lemma_members_give_set(o1, handles, start, end);
        lemma_members_below(handles, o1, start, end, shorter.len() as int);
        lemma_arranged_prefix(shorter, longer, o1, start, mid);
        let o2 = arranged(shorter, o1, start, mid);
        lemma_arranged_members(shorter, o1, start, mid);
        assert forall|i: int| mid <= i < end implies o2[i] < shorter.len() by {
            assert(o2[i] == o1[i]);
        }
        lemma_arranged_prefix(shorter, longer, o2, mid, end);
    }
}

/// The box that is built up over a range does not change when shapes are
/// added to the arena.
pub proof fn lemma_fold_box_prefix(
    shorter: Seq<Shape>,
    longer: Seq<Shape>,
    handles: Seq<usize>,
    start: int,
    k: int,
)
    requires
        is_prefix(shorter, longer),
        0 <= start <= k <= handles.len(),
        forall|i: int| start <= i < k ==> handles[i] < shorter.len(),
    ensures
        fold_box(longer, handles, start, k) == fold_box(shorter, handles, start, k),
    decreases k - start,
{
    if k > start {
        lemma_fold_box_prefix(shorter, longer, handles, start, k - 1);
        lemma_box_of_prefix(shorter, longer, handles[k - 1] as int);
    }
}

/// What a tree over the positions `start..end` keeps: every handle of the
/// range as often as it stood there, and the cut in the middle at every
/// node.
#[verifier::opaque]
spec fn kept(
    grown_from: Seq<Shape>,
    shapes: Seq<Shape>,
    before: Seq<usize>,
    after: Seq<usize>,
    start: int,
    end: int,
    base: int,
    node: BVHnode,
) -> bool {
    &&& range_members(after, start, end) == range_members(before, start, end)
    &&& cut_in_the_middle(shapes, base, node, end - start)
    &&& places(shapes, node, end - start) == after.subrange(start, end)
    &&& after == arranged(grown_from, before, start, end)
}

/// A node over one or two shapes keeps them.
proof fn lemma_kept_small(
    grown_from: Seq<Shape>,
    shapes: Seq<Shape>,
    handles: Seq<usize>,
    start: int,
    end: int,
    base: int,
    node: BVHnode,
)
    requires
        0 <= start < end <= handles.len(),
        end - start <= 2,
        node.left == handles[start],
        node.right == handles[end - 1],
        forall|i: int| start <= i < end ==> handles[i] < base,
    ensures
        kept(grown_from, shapes, handles, handles, start, end, base, node),
{
    reveal(kept);
    assert(places(shapes, node, end - start) =~= handles.subrange(start, end));
}

/// A node over the trees of the two halves of a range that was ordered
/// and cut in the middle keeps what the halves kept.
proof fn lemma_kept_halves(
    s0: Seq<Shape>,
    o0: Seq<usize>,
    o1: Seq<usize>,
    s1: Seq<Shape>,
    o2: Seq<usize>,
    l: BVHnode,
    s3: Seq<Shape>,
    o3: Seq<usize>,
    r: BVHnode,
    start: int,
    mid: int,
    end: int,
    base: int,
    node: BVHnode,
)
    requires
        0 <= base <= s1.len(),
        is_prefix(s1.push(Shape::Bvh(l)), s3),
        node.left == s1.len(),
        node.right == s3.len(),
        0 <= start < mid < end <= o0.len(),
        end - start > 2,
        mid == start + (end - start) / 2,
        l.left < s1.len(),
        l.right < s1.len(),
        r.left < s3.len(),
        r.right < s3.len(),
        o1.len() == o0.len(),
        o2.len() == o0.len(),
        o3.len() == o0.len(),
        range_members(o1, start, end) == range_members(o0, start, end),
        forall|i: int| 0 <= i < start || mid <= i < o0.len() ==> o2[i] == o1[i],
        forall|i: int| 0 <= i < mid || end <= i < o0.len() ==> o3[i] == o2[i],
        base <= s0.len(),
        is_prefix(s0, s1),
        forall|i: int| start <= i < end ==> o0[i] < base,
        forall|i: int| 0 <= i < start || end <= i < o0.len() ==> o1[i] == o0[i],
        node.bbox == fold_box(s0, o0, start, end),
        o1.subrange(start, end) == ordered_range(
            s0,
            o0,
            start,
            end,
            node.bbox.longest_axis_spec(),
        ),
        kept(s0, s1, o1, o2, start, mid, base, l),
        kept(s1.push(Shape::Bvh(l)), s3, o2, o3, mid, end, base, r),
        leaves(s3.push(Shape::Bvh(r)), base, node.left as int) == range_set(o3, start, mid),
        leaves(s3.push(Shape::Bvh(r)), base, node.right as int) == range_set(o3, mid, end),
        ordered_across(s3.push(Shape::Bvh(r)), o3, start, mid, end, node.bbox.longest_axis_spec()),
    ensures
        kept(s0, s3.push(Shape::Bvh(r)), o0, o3, start, end, base, node),
{
    reveal(kept);
    let s2 = s1.push(Shape::Bvh(l));
    let s4 = s3.push(Shape::Bvh(r));
    // the order in which the handles are left
    let part = ordered_range(s0, o0, start, end, node.bbox.longest_axis_spec());
    lemma_ordered_range_members(s0, o0, start, end, node.bbox.longest_axis_spec());
    lemma_replaced(o0, start, part);
    assert(o1 =~= replaced(o0, start, part)) by {
        assert forall|i: int| 0 <= i < o1.len() implies o1[i] == replaced(o0, start, part)[i] by {
            if start <= i < end {
                assert(o1.subrange(start, end)[i - start] == o1[i]);
                assert(replaced(o0, start, part).subrange(start, end)[i - start] == replaced(
                    o0,
                    start,
                    part,
                )[i]);
            }
        }
    }
    lemma_members_give_set(o1, o0, start, end);
    lemma_members_below(o0, o1, start, end, base);
    assert forall|i: int| mid <= i < end implies o2[i] < s0.len() by {
        assert(o2[i] == o1[i]);
    }
    assert(is_prefix(s0, s2));
    lemma_arranged_prefix(s0, s2, o2, mid, end);
    assert(o3 == arranged(s0, o0, start, end));
    let n = end - start;
    lemma_range_members_split(o1, start, mid, end);
    lemma_range_members_split(o3, start, mid, end);
    lemma_range_members_agree(o2, o3, start, mid);
    lemma_range_members_agree(o1, o2, mid, end);
    assert(is_prefix(s1, s4));
    assert(is_prefix(s3, s4));
    assert(s4[node.left as int] == Shape::Bvh(l));
    assert(s4[node.right as int] == Shape::Bvh(r));
    assert(mid - start == n / 2);
    assert(end - mid == n - n / 2);
    lemma_cut_prefix(s1, s4, base, l, n / 2);
    lemma_cut_prefix(s3, s4, base, r, n - n / 2);
    lemma_places_prefix(s1, s4, base, l, n / 2);
    lemma_places_prefix(s3, s4, base, r, n - n / 2);
    assert(o2.subrange(start, mid) =~= o3.subrange(start, mid));
    assert(o3.subrange(start, end) =~= o3.subrange(start, mid) + o3.subrange(mid, end));
    assert forall|a: usize, b: usize|
        leaves(s4, base, node.left as int).contains(a) && leaves(
            s4,
            base,
            node.right as int,
        ).contains(b) implies axis_key(s4, a as int, node.bbox.longest_axis_spec()) <= axis_key(
        s4,
        b as int,
        node.bbox.longest_axis_spec(),
    ) by {
        let i = choose|i: int| start <= i < mid && 0 <= i < o3.len() && o3[i] == a;
        let j = choose|j: int| mid <= j < end && 0 <= j < o3.len() && o3[j] == b;
        assert(o3[i] == a && o3[j] == b);
    }
}

/// Builds the tree over the shapes at the positions `start..end`, all of
/// which have handles below `base`; the nodes under the one returned are
/// added to the arena.
fn build(
    objects: &mut Vec<usize>,
    start: usize,
    end: usize,
    world: &mut World,
    Ghost(base): Ghost<int>,
) -> (node: BVHnode)
    requires
        old(world).wf(),
        start < end <= old(objects)@.len(),
        base <= old(world).shapes@.len(),
        forall|i: int| start <= i < end ==> old(objects)@[i] < base,
    ensures
        final(world).wf(),
        built(
            old(world).shapes@,
            final(world).shapes@,
            old(objects)@,
            final(objects)@,
            start as int,
            end as int,
            base,
            node,
        ),
        range_regular(old(world).shapes@, old(objects)@, start as int, end as int) ==> exact(
            final(world).shapes@,
            final(objects)@,
            start as int,
            end as int,
            base,
            node,
        ),
        kept(
            old(world).shapes@,
            final(world).shapes@,
            old(objects)@,
            final(objects)@,
            start as int,
            end as int,
            base,
            node,
        ),
    decreases end - start,
{
    let ghost s0 = world.shapes@;
    let ghost o0 = objects@;
    let mut bbox = Aabb::default();
    let mut i: usize = start;
    while i < end
        invariant
            start <= i <= end <= objects@.len(),
            world.wf(),
            world.shapes@ == s0,
            objects@ == o0,
            base <= s0.len(),
            forall|k: int| start <= k < end ==> o0[k] < base,
            bbox == fold_box(s0, o0, start as int, i as int),
        decreases end - i,
    {
        bbox = Aabb::new_from_bbox(bbox, world.bounding_box(objects[i]));
        i = i + 1;
    }
    let axis: usize = bbox.longest_axis();
    let object_span: usize = end - start;
    let left: usize;
    let right: usize;
    if object_span == 1 {
        left = objects[start];
        right = objects[start];
        proof {
            lemma_built_single(s0, o0, start as int, base);
        }
    } else if object_span == 2 {
        left = objects[start];
        right = objects[start + 1];
        proof {
            lemma_built_pair(s0, o0, start as int, base);
        }
    } else {
        sort_range(objects, start, end, axis, &*world);
        let ghost o1 = objects@;
        let mid: usize = start + (end - start) / 2;
        proof {
            lemma_members_below(o0, o1, start as int, end as int, base);
        }
        let l = build(objects, start, mid, world, Ghost(base));
        let ghost s1 = world.shapes@;
        let ghost o2 = objects@;
        proof {
            lemma_built_basics(s0, s1, o1, o2, start as int, mid as int, base, l);
        }
        left = world.add(Shape::Bvh(l));
        let r = build(objects, mid, end, world, Ghost(base));
        let ghost s3 = world.shapes@;
        let ghost o3 = objects@;
        proof {
            lemma_built_basics(
                s1.push(Shape::Bvh(l)),
                s3,
                o2,
                o3,
                mid as int,
                end as int,
                base,
                r,
            );
        }
        right = world.add(Shape::Bvh(r));
        proof {
            lemma_built_halves(
                s0,
                o0,
                o1,
                s1,
                o2,
                l,
                s3,
                o3,
                r,
                start as int,
                mid as int,
                end as int,
                base,
                left,
                right,
            );
            if range_regular(s0, o0, start as int, end as int) {
                let s2 = s1.push(Shape::Bvh(l));
                lemma_boxes_agree(s0, s2, o0, start as int, end as int);
                lemma_range_set_split(o1, start as int, mid as int, end as int);
                lemma_regular_carries(
                    s0,
                    o0,
                    start as int,
                    end as int,
                    s0,
                    o1,
                    start as int,
                    mid as int,
                );
                lemma_regular_carries(
                    s0,
                    o0,
                    start as int,
                    end as int,
                    s2,
                    o2,
                    mid as int,
                    end as int,
                );
                lemma_exact_halves(
                    s0,
                    o0,
                    o1,
                    s1,
                    o2,
                    l,
                    s3,
                    o3,
                    r,
                    start as int,
                    mid as int,
                    end as int,
                    base,
                    left,
                    right,
                );
            }
            let node = BVHnode { left, right, bbox };
            lemma_built_basics(
                s0,
                s3.push(Shape::Bvh(r)),
                o0,
                o3,
                start as int,
                end as int,
                base,
                node,
            );
            lemma_kept_halves(
                s0,
                o0,
                o1,
                s1,
                o2,
                l,
                s3,
                o3,
                r,
                start as int,
                mid as int,
                end as int,
                base,
                node,
            );
        }
    }
    proof {
        if object_span <= 2 {
            lemma_kept_small(
                s0,
                world.shapes@,
                o0,
                start as int,
                end as int,
                base,
                BVHnode { left, right, bbox },
            );
        }
    }
    BVHnode { left, right, bbox }
}

/// The handles of a range are below `base` if those of a range with the
/// same set are.
pub proof fn lemma_members_below(
    before: Seq<usize>,
    after: Seq<usize>,
    start: int,
    end: int,
    base: int,
)
    requires
        0 <= start <= end <= after.len(),
        after.len() == before.len(),
        forall|i: int| start <= i < end ==> before[i] < base,
        range_set(after, start, end).subset_of(range_set(before, start, end)),
    ensures
        forall|i: int| start <= i < end ==> after[i] < base,
{
    assert forall|i: int| start <= i < end implies after[i] < base by {
        assert(range_set(after, start, end).contains(after[i]));
        assert(range_set(before, start, end).contains(after[i]));
    }
}

/// The boxes of a range are regular if those of a range that holds it are,
/// in an arena in which the shapes have the same boxes.
pub proof fn lemma_regular_carries(
    shapes1: Seq<Shape>,
    handles1: Seq<usize>,
    start1: int,
    end1: int,
    shapes2: Seq<Shape>,
    handles2: Seq<usize>,
    start2: int,
    end2: int,
)
    requires
        range_regular(shapes1, handles1, start1, end1),
        0 <= start2 <= end2 <= handles2.len(),
        range_set(handles2, start2, end2).subset_of(range_set(handles1, start1, end1)),
        forall|i: int|
            start1 <= i < end1 && 0 <= i < handles1.len() ==> World::box_of(
                shapes2,
                #[trigger] handles1[i] as int,
            ) == World::box_of(shapes1, handles1[i] as int),
    ensures
        range_regular(shapes2, handles2, start2, end2),
{
    assert forall|i: int| start2 <= i < end2 implies (#[trigger] World::box_of(
        shapes2,
        handles2[i] as int,
    )).is_regular() by {
        assert(range_set(handles2, start2, end2).contains(handles2[i]));
        assert(range_set(handles1, start1, end1).contains(handles2[i]));
        let k = choose|k: int|
            start1 <= k < end1 && 0 <= k < handles1.len() && handles1[k] == handles2[i];
        assert(World::box_of(shapes1, handles1[k] as int).is_regular());
    }
}

impl BVHnode {
    /// Builds the tree over all shapes of the list, see
    /// [`BVHnode::new_from_list`].
    pub fn new(list: &mut Hittable_list, world: &mut World) -> (node: Self)
        requires
            old(world).wf(),
            old(list).objects@.len() > 0,
            forall|i: int|
                0 <= i < old(list).objects@.len() ==> old(list).objects@[i] < old(
                    world,
                ).shapes@.len(),
        ensures
            final(world).wf(),
            final(list).bbox == old(list).bbox,
            tree_over(
                old(world).shapes@,
                final(world).shapes@,
                old(list).objects@,
                final(list).objects@,
                0,
                old(list).objects@.len() as int,
                node,
            ),
    {
        let end: usize = list.objects.len();
        Self::new_from_list(&mut list.objects, 0, end, world)
    }

    /// Builds the tree over the shapes at the positions `start..end` of
    /// `objects` by splitting at the median.
    ///
    /// The node's box is the union of the boxes of the range. A range of
    /// one shape gives a node with that shape as both children, a range of
    /// two a node with one as each child. A longer range is ordered along
    /// the longest axis of the node's box, by the lower bound of the shapes'
    /// boxes, and cut in the middle; the trees over the two halves are added
    /// to the arena and become the children.
    pub fn new_from_list(
        objects: &mut Vec<usize>,
        start: usize,
        end: usize,
        world: &mut World,
    ) -> (node: Self)
        requires
            old(world).wf(),
            start < end <= old(objects)@.len(),
            forall|i: int| start <= i < end ==> old(objects)@[i] < old(world).shapes@.len(),
        ensures
            final(world).wf(),
            tree_over(
                old(world).shapes@,
                final(world).shapes@,
                old(objects)@,
                final(objects)@,
                start as int,
                end as int,
                node,
            ),
    {
        let ghost base = world.shapes@.len() as int;
        let node = build(objects, start, end, world, Ghost(base));
        proof {
            reveal(built);
            reveal(exact);
            reveal(kept);
        }
        node
    }

    pub fn bounding_box(&self) -> (b: Aabb)
        ensures
            b == self.bbox,
    {
        self.bbox
    }
}

/// The tree `node` stands over the shapes at the positions `start..end` of
/// `before`, in the arena `shapes` that grew from `grown_from`, with the
/// handles left in the order `after`.
///
/// The arena has only grown. The handles keep their places outside the
/// range, and inside it every handle stands as often as before. The node's
/// box is the one built up from the boxes of the range, and under the node
/// lie exactly the shapes of the range, split between the children as
/// [`split`] says; every node under it is again cut in the middle, see
/// [`cut_in_the_middle`], and the lowest nodes name, from left to right,
/// the handles of the range as they are left, see [`places`], which is the
/// order that [`arranged`] gives. Where all the boxes of the range are
/// regular, the node's box is the plain union of them, and the box of every
/// node of the tree is exactly the union of the boxes of its two children.
pub open spec fn tree_over(
    grown_from: Seq<Shape>,
    shapes: Seq<Shape>,
    before: Seq<usize>,
    after: Seq<usize>,
    start: int,
    end: int,
    node: BVHnode,
) -> bool {
    let base = grown_from.len() as int;
    &&& is_prefix(grown_from, shapes)
    &&& after.len() == before.len()
    &&& forall|i: int| 0 <= i < start || end <= i < before.len() ==> after[i] == before[i]
    &&& range_set(after, start, end) == range_set(before, start, end)
    &&& range_members(after, start, end) == range_members(before, start, end)
    &&& node.left < shapes.len()
    &&& node.right < shapes.len()
    &&& node.bbox == fold_box(grown_from, before, start, end)
    &&& node_leaves(shapes, base, node) == range_set(before, start, end)
    &&& split(shapes, before, after, start, end, base, node)
    &&& cut_in_the_middle(shapes, base, node, end - start)
    &&& places(shapes, node, end - start) == after.subrange(start, end)
    &&& after == arranged(grown_from, before, start, end)
    &&& range_regular(grown_from, before, start, end) ==> {
        &&& node.bbox == range_hull(shapes, after, start, end)
        &&& node.bbox == Aabb::union_spec(
            World::box_of(shapes, node.left as int),
            World::box_of(shapes, node.right as int),
        )
        &&& node.bbox.is_regular()
        &&& boxes_exact(shapes, base, node.left as int)
        &&& boxes_exact(shapes, base, node.right as int)
    }
}

/// In a tree whose boxes are exact, the box at a handle holds the box of
/// every shape that lies under the handle.
pub proof fn lemma_tree_contains_leaves(shapes: Seq<Shape>, base: int, h: int, leaf: usize)
    requires
        0 <= h < shapes.len(),
        h <= usize::MAX,
        boxes_exact(shapes, base, h),
        leaves(shapes, base, h).contains(leaf),
    ensures
        World::box_of(shapes, h).contains_box(World::box_of(shapes, leaf as int)),
    decreases h,
{
    if base <= h {
        match shapes[h] {
            Shape::Bvh(n) => {
                if leaves(shapes, base, n.left as int).contains(leaf) {
                    lemma_tree_contains_leaves(shapes, base, n.left as int, leaf);
                } else {
                    lemma_tree_contains_leaves(shapes, base, n.right as int, leaf);
                }
            },
            _ => {},
        }
    }
}

/// A node over two plain shapes whose box is hit keeps the nearer hit:
/// the node is hit where either child is hit by itself, its record is the
/// record of one of them, and neither is hit nearer than the node.
pub proof fn lemma_node_keeps_nearest(
    node: BVHnode,
    shapes: Seq<Shape>,
    me: int,
    r: Ray,
    ray_t: Interval,
    rec: HitRecord,
    rec_left: HitRecord,
    rec_right: HitRecord,
    tape: Seq<Sample>,
    next: usize,
)
    requires
        node.left < me,
        node.right < me,
        crate::hitable::plain(shapes, node.left as int),
        crate::hitable::plain(shapes, node.right as int),
        node.bbox.hit_spec(r, ray_t),
    ensures
        ({
            let both = node.hit_spec(shapes, me, r, ray_t, rec, tape, next);
            let left = World::hit_spec(shapes, node.left as int, r, ray_t, rec_left, tape, next);
            let right = World::hit_spec(
                shapes,
                node.right as int,
                r,
                ray_t,
                rec_right,
                tape,
                next,
            );
            &&& both.hit == (left.hit || right.hit)
            &&& both.hit ==> (left.hit && both.rec == left.rec) || (right.hit && both.rec
                == right.rec)
            &&& both.hit && left.hit ==> both.rec.t <= left.rec.t
            &&& both.hit && right.hit ==> both.rec.t <= right.rec.t
        }),
{
    let tmin = ray_t.tmin;
    let tmax = ray_t.tmax;
    let a = World::hit_spec(shapes, node.left as int, r, ray_t, rec, tape, next);
    crate::hitable::lemma_hit_range(
        shapes,
        node.left as int,
        r,
        tmin,
        tmax,
        tmax,
        rec,
        rec_left,
        tape,
        next,
    );
    crate::hitable::lemma_hit_range(
        shapes,
        node.left as int,
        r,
        tmin,
        tmax,
        tmax,
        rec_left,
        rec,
        tape,
        next,
    );
    let end: i64 = if a.hit {
        a.rec.t
    } else {
        tmax
    };
    crate::hitable::lemma_hit_range(
        shapes,
        node.right as int,
        r,
        tmin,
        end,
        tmax,
        a.rec,
        rec_right,
        tape,
        next,
    );
    if end == tmax {
        crate::hitable::lemma_hit_range(
            shapes,
            node.right as int,
            r,
            tmin,
            tmax,
            end,
            rec_right,
            a.rec,
            tape,
            next,
        );
    }
    crate::hitable::lemma_hit_in_range(
        shapes,
        node.right as int,
        r,
        Interval { tmin, tmax: end },
        a.rec,
        tape,
        a.next,
    );
}

} // verus!
