//! The bounding-volume hierarchy: a binary tree over spheres whose nodes
//! carry boxes that contain everything beneath them.
//!
//! Construction sorts each sub-range along a randomly chosen axis and splits
//! at the midpoint; the tree holds exactly the input objects (as a
//! multiset), and every node's box contains its children's.  Traversal
//! prunes a subtree only when the slab test says no parameter in range
//! reaches its box, which `lemma_bvh_list_agree` turns into agreement with
//! the flat list scan.
use crate::aabb::Aabb;
use crate::fixed::T_MAX;
use crate::helpers::random_axis;
use crate::hittable::{
    lemma_sphere_hit_range, list_hit_spec, sphere_bbox, sphere_hit_spec, BOX_SLACK, HitRecord,
    Hittable, HittableList, Sphere,
};
use crate::maths::{Ray, Vec3};
use vstd::prelude::*;
use vstd::seq_lib::lemma_multiset_commutative;

verus! {

/// A node of the hierarchy: a single sphere, or two subtrees under a
/// shared bounding box.
pub enum BvhNode {
    Leaf(Sphere),
    Node { left: Box<BvhNode>, right: Box<BvhNode>, bounding_box: Aabb },
}

impl BvhNode {
    /// The spheres at the tree's leaves, left to right.
    pub open spec fn leaves(self) -> Seq<Sphere>
        decreases self,
    {
        match self {
            BvhNode::Leaf(s) => seq![s],
            BvhNode::Node { left, right, .. } => left.leaves() + right.leaves(),
        }
    }

    /// The box the node answers queries with.
    pub open spec fn bbox_of(self) -> Aabb {
        match self {
            BvhNode::Leaf(s) => sphere_bbox(s),
            BvhNode::Node { bounding_box, .. } => bounding_box,
        }
    }

    /// Every sphere is well formed and every node's box contains its
    /// children's boxes.
    pub open spec fn wf(self) -> bool
        decreases self,
    {
        match self {
            BvhNode::Leaf(s) => s.wf(),
            BvhNode::Node { left, right, bounding_box } => {
                &&& left.wf()
                &&& right.wf()
                &&& bounding_box.wf()
                &&& left.bbox_of().contained_in(bounding_box)
                &&& right.bbox_of().contained_in(bounding_box)
            },
        }
    }

    /// The node's bounding box.
    pub fn bounding_box(&self) -> (r: Aabb)
        requires
            self.wf(),
        ensures
            r == self.bbox_of(),
            r.wf(),
    {
        match self {
            BvhNode::Leaf(s) => {
                let slack = s.radius + BOX_SLACK + 1;
                Aabb {
                    min: Vec3 {
                        x: s.center.x - slack,
                        y: s.center.y - slack,
                        z: s.center.z - slack,
                    },
                    max: Vec3 {
                        x: s.center.x + slack,
                        y: s.center.y + slack,
                        z: s.center.z + slack,
                    },
                }
            },
            BvhNode::Node { bounding_box, .. } => *bounding_box,
        }
    }
}

/// What the tree traversal returns: prune when the box test fails, else
/// the nearer of the two children's hits, the right child winning ties.
/// Both children are queried over the same unshrunk range — the final
/// comparison picks the winner, so only query cost differs from a scan
/// that tightens the range as it goes (see `lemma_bvh_list_agree`).
pub open spec fn bvh_hit_spec(node: BvhNode, tmin: int, tmax: int, ray: Ray) -> Option<HitRecord>
    decreases node,
{
    match node {
        BvhNode::Leaf(s) => sphere_hit_spec(s, tmin, tmax, ray),
        BvhNode::Node { left, right, bounding_box } => {
            if !crate::aabb::aabb_hit_spec(bounding_box, ray, tmin, tmax) {
                Option::None
            } else {
                let hl = bvh_hit_spec(*left, tmin, tmax, ray);
                let hr = bvh_hit_spec(*right, tmin, tmax, ray);
                match (hl, hr) {
                    (Option::Some(a), Option::Some(b)) => if a.t < b.t {
                        hl
                    } else {
                        hr
                    },
                    (Option::Some(a), Option::None) => hl,
                    (Option::None, _) => hr,
                }
            }
        },
    }
}

/// The sort key along an axis: the least corner of the sphere's box.
pub open spec fn axis_key(s: Sphere, axis: int) -> int {
    sphere_bbox(s).min.axis_spec(axis)
}

/// The sort key, executably.
fn key_of(s: &Sphere, axis: usize) -> (k: i64)
    requires
        axis < 3,
        s.wf(),
    ensures
        k == axis_key(*s, axis as int),
{
    s.center.axis(axis) - s.radius - (BOX_SLACK + 1)
}

/// The subrange `[start, end)` is ordered by the axis key.
pub open spec fn sorted_range(v: Seq<Sphere>, start: int, end: int, axis: int) -> bool {
    forall|p: int, q: int|
        start <= p <= q < end ==> axis_key(#[trigger] v[p], axis) <= axis_key(#[trigger] v[q], axis)
}

/// Updating one slot trades the old element for the new in the multiset.
proof fn lemma_update_multiset(s: Seq<Sphere>, i: int, x: Sphere)
    requires
        0 <= i < s.len(),
    ensures
        s.update(i, x).to_multiset() =~= s.to_multiset().remove(s[i]).insert(x),
{
    broadcast use vstd::multiset::group_multiset_axioms;

    let left = s.subrange(0, i);
    let right = s.subrange(i + 1, s.len() as int);
    let u = s[i];
    assert(s.update(i, x) =~= left.push(x) + right);
    assert(s =~= left.push(u) + right);
    lemma_multiset_commutative(left.push(x), right);
    lemma_multiset_commutative(left.push(u), right);
    left.to_multiset_ensures();
    s.to_multiset_ensures();
    assert(s.update(i, x).to_multiset() =~= left.to_multiset().insert(x).add(right.to_multiset()));
    assert(s.to_multiset() =~= left.to_multiset().insert(u).add(right.to_multiset()));
}

/// Swapping two slots preserves the multiset.
proof fn lemma_swap_multiset(s: Seq<Sphere>, i: int, j: int)
    requires
        0 <= i < s.len(),
        0 <= j < s.len(),
        i != j,
    ensures
        s.update(i, s[j]).update(j, s[i]).to_multiset() =~= s.to_multiset(),
{
    broadcast use vstd::multiset::group_multiset_axioms;

    let s1 = s.update(i, s[j]);
    lemma_update_multiset(s, i, s[j]);
    lemma_update_multiset(s1, j, s[i]);
    s.to_multiset_ensures();
    assert(s.to_multiset().contains(s[i]));
    assert(s1[j] == s[j]);
}

/// Sort the subrange `[start, end)` by the axis key: afterwards it is
/// ordered, holds the same spheres, and the rest of the vector is
/// untouched.
fn sort_range(v: &mut Vec<Sphere>, start: usize, end: usize, axis: usize)
    requires
        axis < 3,
        start <= end <= old(v).len(),
        forall|k: int| 0 <= k < old(v)@.len() ==> (#[trigger] old(v)@[k]).wf(),
    ensures
        final(v)@.len() == old(v)@.len(),
        forall|k: int|
            0 <= k < start || end <= k < old(v)@.len() ==> final(v)@[k] == old(v)@[k],
        forall|k: int| 0 <= k < final(v)@.len() ==> (#[trigger] final(v)@[k]).wf(),
        final(v)@.subrange(start as int, end as int).to_multiset() =~= old(v)@.subrange(
            start as int,
            end as int,
        ).to_multiset(),
        sorted_range(final(v)@, start as int, end as int, axis as int),
{
    if end - start < 2 {
        return ;
    }
    let mut i: usize = start + 1;
    while i < end
        invariant
            axis < 3,
            start < i <= end <= v@.len(),
            v@.len() == old(v)@.len(),
            forall|k: int|
                0 <= k < start || end <= k < old(v)@.len() ==> v@[k] == old(v)@[k],
            forall|k: int| 0 <= k < v@.len() ==> (#[trigger] v@[k]).wf(),
            v@.subrange(start as int, end as int).to_multiset() =~= old(v)@.subrange(
                start as int,
                end as int,
            ).to_multiset(),
            sorted_range(v@, start as int, i as int, axis as int),
        decreases end - i,
    {
        let mut j: usize = i;
        while j > start && key_of(&v[j - 1], axis) > key_of(&v[j], axis)
            invariant
                axis < 3,
                start <= j <= i < end <= v@.len(),
                v@.len() == old(v)@.len(),
                forall|k: int|
                    0 <= k < start || end <= k < old(v)@.len() ==> v@[k] == old(v)@[k],
                forall|k: int| 0 <= k < v@.len() ==> (#[trigger] v@[k]).wf(),
                v@.subrange(start as int, end as int).to_multiset() =~= old(v)@.subrange(
                    start as int,
                    end as int,
                ).to_multiset(),
                forall|p: int, q: int|
                    start <= p <= q <= i && q != j ==> axis_key(#[trigger] v@[p], axis as int)
                        <= axis_key(#[trigger] v@[q], axis as int),
                j < i ==> axis_key(v@[j as int], axis as int) <= axis_key(
                    v@[j + 1],
                    axis as int,
                ),
            decreases j,
        {
            let prev = v[j - 1];
            let cur = v[j];
            let ghost before = v@;
            v.set(j - 1, cur);
            v.set(j, prev);
            proof {
                lemma_swap_multiset(before, j - 1, j as int);
                assert(v@ =~= before.update(j - 1, cur).update(j as int, prev));
                assert(v@.subrange(start as int, end as int) =~= before.update(
                    j - 1,
                    cur,
                ).update(j as int, prev).subrange(start as int, end as int));
                assert(before.update(j - 1, cur).update(j as int, prev).subrange(
                    start as int,
                    end as int,
                ).to_multiset() =~= before.subrange(start as int, end as int).to_multiset()) by {
                    let full = before.update(j - 1, cur).update(j as int, prev);
                    let sb = before.subrange(start as int, end as int);
                    assert(full.subrange(start as int, end as int) =~= sb.update(
                        j - 1 - start,
                        cur,
                    ).update(j - start, prev));
                    lemma_swap_multiset(sb, j - 1 - start, j - start);
                }
            }
            j = j - 1;
        }
        i = i + 1;
    }
}

/// Two single-sphere sequences hold the same spheres in either order.
proof fn lemma_pair_multiset(a: Sphere, b: Sphere)
    ensures
        (seq![a] + seq![b]).to_multiset() =~= (seq![b] + seq![a]).to_multiset(),
{
    broadcast use vstd::multiset::group_multiset_axioms;

    lemma_multiset_commutative(seq![a], seq![b]);
    lemma_multiset_commutative(seq![b], seq![a]);
    seq![a].to_multiset_ensures();
    seq![b].to_multiset_ensures();
    assert(seq![a] =~= Seq::<Sphere>::empty().push(a));
    assert(seq![b] =~= Seq::<Sphere>::empty().push(b));
    Seq::<Sphere>::empty().to_multiset_ensures();
}

/// A sequence holding the same spheres as an all-well-formed one is
/// all well formed itself.
proof fn lemma_wf_of_multiset(a: Seq<Sphere>, b: Seq<Sphere>)
    requires
        a.to_multiset() =~= b.to_multiset(),
        forall|k: int| 0 <= k < a.len() ==> (#[trigger] a[k]).wf(),
    ensures
        forall|k: int| 0 <= k < b.len() ==> (#[trigger] b[k]).wf(),
{
    a.to_multiset_ensures();
    b.to_multiset_ensures();
    assert forall|k: int| 0 <= k < b.len() implies (#[trigger] b[k]).wf() by {
        assert(b.to_multiset().contains(b[k]));
        assert(a.contains(b[k]));
    }
}

/// Build the subtree for `objects[start..end]`: pick a random axis, sort
/// the sub-range along it, split at the midpoint and recurse; one object
/// becomes a leaf, two become an ordered pair of leaves.
fn create_next(objects: &mut Vec<Sphere>, start: usize, end: usize) -> (node: BvhNode)
    requires
        start < end,
        end <= old(objects).len(),
        forall|k: int| 0 <= k < old(objects)@.len() ==> (#[trigger] old(objects)@[k]).wf(),
    ensures
        final(objects)@.len() == old(objects)@.len(),
        forall|k: int|
            0 <= k < start || end <= k < old(objects)@.len() ==> final(objects)@[k] == old(
                objects,
            )@[k],
        forall|k: int| 0 <= k < final(objects)@.len() ==> (#[trigger] final(objects)@[k]).wf(),
        final(objects)@.subrange(start as int, end as int).to_multiset() =~= old(
            objects,
        )@.subrange(start as int, end as int).to_multiset(),
        node.wf(),
        node.leaves().to_multiset() =~= old(objects)@.subrange(start as int, end as int)
            .to_multiset(),
    decreases end - start,
{
    let axis = random_axis();
    let span = end - start;
    if span == 1 {
        let s = objects[start];
        proof {
            assert(objects@.subrange(start as int, end as int) =~= seq![s]);
            assert(BvhNode::Leaf(s).leaves() =~= seq![s]);
        }
        BvhNode::Leaf(s)
    } else if span == 2 {
        let s0 = objects[start];
        let s1 = objects[start + 1];
        let swap = key_of(&s0, axis) >= key_of(&s1, axis);
        let la = if swap {
            s1
        } else {
            s0
        };
        let lb = if swap {
            s0
        } else {
            s1
        };
        let left = BvhNode::Leaf(la);
        let right = BvhNode::Leaf(lb);
        let bbl = left.bounding_box();
        let bbr = right.bounding_box();
        let bb = bbl.combine(bbr);
        proof {
            let node = BvhNode::Node {
                left: Box::new(left),
                right: Box::new(right),
                bounding_box: bb,
            };
            assert(left.leaves() =~= seq![la]);
            assert(right.leaves() =~= seq![lb]);
            assert(node.leaves() == left.leaves() + right.leaves());
            assert(node.leaves() =~= seq![la] + seq![lb]);
            assert(left.wf());
            assert(right.wf());
            assert(left.bbox_of() == bbl);
            assert(right.bbox_of() == bbr);
            assert(node.wf());
            assert(objects@.subrange(start as int, end as int) =~= seq![s0] + seq![s1]);
            if swap {
                lemma_pair_multiset(s1, s0);
            }
        }
        BvhNode::Node { left: Box::new(left), right: Box::new(right), bounding_box: bb }
    } else {
        sort_range(objects, start, end, axis);
        let ghost after_sort = objects@;
        let mid = start + span / 2;
        let left = create_next(objects, start, mid);
        let ghost after_left = objects@;
        let right = create_next(objects, mid, end);
        let bbl = left.bounding_box();
        let bbr = right.bounding_box();
        let bb = bbl.combine(bbr);
        proof {
            let st = start as int;
            let en = end as int;
            let mi = mid as int;
            // The right half was untouched by the left recursion, and the
            // left half by the right recursion.
            assert(after_left.subrange(mi, en) =~= after_sort.subrange(mi, en));
            assert(objects@.subrange(st, mi) =~= after_left.subrange(st, mi));
            // Leaves of both subtrees together are the sorted sub-range.
            assert(after_sort.subrange(st, en) =~= after_sort.subrange(st, mi)
                + after_sort.subrange(mi, en));
            lemma_multiset_commutative(after_sort.subrange(st, mi), after_sort.subrange(mi, en));
            let node = BvhNode::Node {
                left: Box::new(left),
                right: Box::new(right),
                bounding_box: bb,
            };
            assert(node.leaves() =~= left.leaves() + right.leaves());
            lemma_multiset_commutative(left.leaves(), right.leaves());
            // The final sub-range still holds the same spheres.
            assert(objects@.subrange(st, en) =~= objects@.subrange(st, mi) + objects@.subrange(
                mi,
                en,
            ));
            lemma_multiset_commutative(objects@.subrange(st, mi), objects@.subrange(mi, en));
        }
        BvhNode::Node { left: Box::new(left), right: Box::new(right), bounding_box: bb }
    }
}

impl BvhNode {
    /// Build a hierarchy over the list's objects; the tree holds exactly
    /// them.
    pub fn new(list: HittableList) -> (r: BvhNode)
        requires
            list.wf(),
            list.objects@.len() >= 1,
        ensures
            r.wf(),
            r.leaves().to_multiset() =~= list.objects@.to_multiset(),
    {
        let ghost orig = list.objects@;
        let mut objects = list.objects;
        let n = objects.len();
        let node = create_next(&mut objects, 0, n);
        proof {
            assert(orig.subrange(0, n as int) =~= orig);
        }
        node
    }
}

/// Walk the tree: prune a subtree whose box the ray cannot reach in range,
/// otherwise return the nearer of the two children's hits.
fn bvh_hit(node: &BvhNode, tmin: i64, tmax: i64, ray: &Ray) -> (r: Option<HitRecord>)
    requires
        node.wf(),
        ray.wf(),
        0 <= tmin,
        tmin <= tmax,
        tmax <= T_MAX,
    ensures
        r == bvh_hit_spec(*node, tmin as int, tmax as int, *ray),
    decreases *node,
{
    match node {
        BvhNode::Leaf(s) => s.hit(tmin, tmax, ray),
        BvhNode::Node { left, right, bounding_box } => {
            if !bounding_box.hit(ray, tmin, tmax) {
                return None;
            }
            let hit_left = bvh_hit(&**left, tmin, tmax, ray);
            let hit_right = bvh_hit(&**right, tmin, tmax, ray);
            match (&hit_left, &hit_right) {
                (Some(l), Some(rgt)) => if l.t < rgt.t {
                    hit_left
                } else {
                    hit_right
                },
                (Some(_), None) => hit_left,
                (None, _) => hit_right,
            }
        },
    }
}

/// Any record the tree traversal yields is well formed and in range.
pub proof fn lemma_bvh_hit_wf(node: BvhNode, tmin: int, tmax: int, ray: Ray)
    requires
        node.wf(),
        ray.wf(),
        0 <= tmin <= tmax <= T_MAX,
    ensures
        match bvh_hit_spec(node, tmin, tmax, ray) {
            Option::Some(h) => h.wf() && tmin <= h.t <= tmax,
            Option::None => true,
        },
    decreases node,
{
    match node {
        BvhNode::Leaf(s) => {
            lemma_sphere_hit_range(s, tmin, tmax, ray);
        },
        BvhNode::Node { left, right, .. } => {
            lemma_bvh_hit_wf(*left, tmin, tmax, ray);
            lemma_bvh_hit_wf(*right, tmin, tmax, ray);
        },
    }
}

/// Every leaf's bounding box fits inside its tree's: containment runs up
/// the hierarchy.
proof fn lemma_leaf_boxes_contained(node: BvhNode, k: int)
    requires
        node.wf(),
        0 <= k < node.leaves().len(),
    ensures
        node.leaves()[k].wf(),
        sphere_bbox(node.leaves()[k]).contained_in(node.bbox_of()),
    decreases node,
{
    match node {
        BvhNode::Leaf(s) => {
            assert(node.leaves() =~= seq![s]);
        },
        BvhNode::Node { left, right, .. } => {
            let ll = left.leaves();
            assert(node.leaves() =~= ll + right.leaves());
            if k < ll.len() {
                lemma_leaf_boxes_contained(*left, k);
            } else {
                lemma_leaf_boxes_contained(*right, k - ll.len());
            }
        },
    }
}

/// The tree traversal finds a hit exactly when some leaf reports one, and
/// never a farther hit than any leaf's: a pruned subtree's leaves cannot
/// hit, because a hit parameter would satisfy the pruned box's slabs.
#[verifier::rlimit(100)]
pub proof fn lemma_bvh_hit_characterization(node: BvhNode, tmin: int, tmax: int, ray: Ray)
    requires
        node.wf(),
        ray.wf(),
        0 <= tmin <= tmax <= T_MAX,
    ensures
        match bvh_hit_spec(node, tmin, tmax, ray) {
            Option::None => forall|k: int|
                0 <= k < node.leaves().len() ==> (#[trigger] sphere_hit_spec(
                    node.leaves()[k],
                    tmin,
                    tmax,
                    ray,
                )) is None,
            Option::Some(h) => {
                &&& tmin <= h.t <= tmax
                &&& exists|k: int|
                    0 <= k < node.leaves().len() && #[trigger] sphere_hit_spec(
                        node.leaves()[k],
                        tmin,
                        tmax,
                        ray,
                    ) == Option::Some(h)
                &&& forall|k: int|
                    0 <= k < node.leaves().len() ==> match #[trigger] sphere_hit_spec(
                        node.leaves()[k],
                        tmin,
                        tmax,
                        ray,
                    ) {
                        Option::Some(g) => g.t >= h.t,
                        Option::None => true,
                    }
            },
        },
    decreases node,
{
    match node {
        BvhNode::Leaf(s) => {
            assert(node.leaves() =~= seq![s]);
            lemma_sphere_hit_range(s, tmin, tmax, ray);
            if sphere_hit_spec(s, tmin, tmax, ray) is Some {
                assert(node.leaves()[0] == s);
                assert(sphere_hit_spec(node.leaves()[0], tmin, tmax, ray) == sphere_hit_spec(
                    s,
                    tmin,
                    tmax,
                    ray,
                ));
            }
        },
        BvhNode::Node { left, right, bounding_box } => {
            let lvs = node.leaves();
            let ll = left.leaves();
            let rl = right.leaves();
            assert(lvs =~= ll + rl);
            if !crate::aabb::aabb_hit_spec(bounding_box, ray, tmin, tmax) {
                assert forall|k: int|
                    0 <= k < lvs.len() implies (#[trigger] sphere_hit_spec(
                    lvs[k],
                    tmin,
                    tmax,
                    ray,
                )) is None by {
                    lemma_leaf_boxes_contained(node, k);
                    if sphere_hit_spec(lvs[k], tmin, tmax, ray) is Some {
                        let h = sphere_hit_spec(lvs[k], tmin, tmax, ray)->Some_0;
                        crate::hittable::lemma_sphere_hit_in_box(lvs[k], tmin, tmax, ray);
                        crate::aabb::lemma_slab_monotone(
                            sphere_bbox(lvs[k]),
                            bounding_box,
                            ray,
                            h.t as int,
                        );
                        assert(tmin <= h.t as int <= tmax && crate::aabb::slab_ok(
                            bounding_box,
                            ray,
                            h.t as int,
                        ));
                        assert(false);
                    }
                }
            } else {
                lemma_bvh_hit_characterization(*left, tmin, tmax, ray);
                lemma_bvh_hit_characterization(*right, tmin, tmax, ray);
                let hl = bvh_hit_spec(*left, tmin, tmax, ray);
                let hr = bvh_hit_spec(*right, tmin, tmax, ray);
                assert(forall|k: int| 0 <= k < ll.len() ==> lvs[k] == ll[k]);
                assert(forall|k: int| 0 <= k < rl.len() ==> lvs[ll.len() + k] == rl[k]);
                match bvh_hit_spec(node, tmin, tmax, ray) {
                    Option::None => {
                        assert(hl is None && hr is None);
                        assert forall|k: int|
                            0 <= k < lvs.len() implies (#[trigger] sphere_hit_spec(
                            lvs[k],
                            tmin,
                            tmax,
                            ray,
                        )) is None by {
                            if k < ll.len() {
                                assert(sphere_hit_spec(ll[k], tmin, tmax, ray) is None);
                            } else {
                                assert(sphere_hit_spec(rl[k - ll.len()], tmin, tmax, ray)
                                    is None);
                            }
                        }
                    },
                    Option::Some(h) => {
                        // The winner comes from one child; present its leaf
                        // index in the combined sequence.
                        if hl == Option::Some(h) {
                            let k = choose|k: int|
                                0 <= k < ll.len() && #[trigger] sphere_hit_spec(
                                    ll[k],
                                    tmin,
                                    tmax,
                                    ray,
                                ) == Option::Some(h);
                            assert(sphere_hit_spec(lvs[k], tmin, tmax, ray) == Option::Some(h));
                        } else {
                            assert(hr == Option::Some(h));
                            let k = choose|k: int|
                                0 <= k < rl.len() && #[trigger] sphere_hit_spec(
                                    rl[k],
                                    tmin,
                                    tmax,
                                    ray,
                                ) == Option::Some(h);
                            assert(sphere_hit_spec(lvs[ll.len() + k], tmin, tmax, ray)
                                == Option::Some(h));
                        }
                        assert forall|k: int|
                            0 <= k < lvs.len() implies match #[trigger] sphere_hit_spec(
                            lvs[k],
                            tmin,
                            tmax,
                            ray,
                        ) {
                            Option::Some(g) => g.t >= h.t,
                            Option::None => true,
                        } by {
                            if k < ll.len() {
                                assert(lvs[k] == ll[k]);
                            } else {
                                assert(lvs[k] == rl[k - ll.len()]);
                            }
                        }
                    },
                }
            }
        },
    }
}

/// The hierarchy and the flat list agree on every query: over the same
/// spheres, both find a hit or neither does, and any hits lie at the same
/// parameter.  The acceleration structure never changes which object is
/// nearest, only how fast it is found.
pub proof fn lemma_bvh_list_agree(node: BvhNode, list: HittableList, tmin: int, tmax: int, ray: Ray)
    requires
        node.wf(),
        list.wf(),
        ray.wf(),
        0 <= tmin <= tmax <= T_MAX,
        node.leaves().to_multiset() == list.objects@.to_multiset(),
    ensures
        match (bvh_hit_spec(node, tmin, tmax, ray), list_hit_spec(
            list.objects@,
            tmin,
            tmax,
            ray,
        )) {
            (Option::None, Option::None) => true,
            (Option::Some(a), Option::Some(b)) => a.t == b.t,
            _ => false,
        },
{
    let lvs = node.leaves();
    let objs = list.objects@;
    lvs.to_multiset_ensures();
    objs.to_multiset_ensures();
    assert forall|k: int| 0 <= k < lvs.len() implies (#[trigger] lvs[k]).wf() by {
        lemma_leaf_boxes_contained(node, k);
    }
    proof_wf_transfer(lvs, objs);
    lemma_bvh_hit_characterization(node, tmin, tmax, ray);
    crate::hittable::lemma_list_hit_characterization(objs, tmin, tmax, ray);
    let bh = bvh_hit_spec(node, tmin, tmax, ray);
    let lh = list_hit_spec(objs, tmin, tmax, ray);
    if bh is Some {
        let a = bh->Some_0;
        let k = choose|k: int|
            0 <= k < lvs.len() && #[trigger] sphere_hit_spec(lvs[k], tmin, tmax, ray)
                == Option::Some(a);
        assert(objs.contains(lvs[k])) by {
            assert(lvs.to_multiset().contains(lvs[k]));
        }
        let j = choose|j: int| 0 <= j < objs.len() && objs[j] == lvs[k];
        assert(sphere_hit_spec(objs[j], tmin, tmax, ray) == Option::Some(a));
        assert(lh is Some);
        let b = lh->Some_0;
        assert(b.t <= a.t);
    }
    if lh is Some {
        let b = lh->Some_0;
        let j = choose|j: int|
            0 <= j < objs.len() && #[trigger] sphere_hit_spec(objs[j], tmin, tmax, ray)
                == Option::Some(b);
        assert(lvs.contains(objs[j])) by {
            assert(objs.to_multiset().contains(objs[j]));
        }
        let k = choose|k: int| 0 <= k < lvs.len() && lvs[k] == objs[j];
        assert(sphere_hit_spec(lvs[k], tmin, tmax, ray) == Option::Some(b));
        assert(bh is Some);
        let a = bh->Some_0;
        assert(a.t <= b.t);
    }
}

/// Two sequences with the same multiset have the same well-formed-ness.
proof fn proof_wf_transfer(a: Seq<Sphere>, b: Seq<Sphere>)
    requires
        a.to_multiset() == b.to_multiset(),
        forall|k: int| 0 <= k < a.len() ==> (#[trigger] a[k]).wf(),
    ensures
        forall|k: int| 0 <= k < b.len() ==> (#[trigger] b[k]).wf(),
{
    lemma_wf_of_multiset(a, b);
}

impl Hittable for BvhNode {
    open spec fn hit_spec(&self, tmin: int, tmax: int, ray: Ray) -> Option<HitRecord> {
        bvh_hit_spec(*self, tmin, tmax, ray)
    }

    open spec fn scene_wf(&self) -> bool {
        self.wf()
    }

    proof fn lemma_hit_spec_wf(&self, tmin: int, tmax: int, ray: Ray) {
        lemma_bvh_hit_wf(*self, tmin, tmax, ray);
    }

    fn hit(&self, tmin: i64, tmax: i64, ray: &Ray) -> (r: Option<HitRecord>) {
        bvh_hit(self, tmin, tmax, ray)
    }
}

} // verus!
