use vstd::prelude::*;
use crate::aabb::{spec_union, surrounding_box, AABB};
use crate::hittable::{
    below, hit_of, hit_t, lemma_call, lemma_nearest_below, lemma_nearest_concat,
    lemma_nearest_is_min, lemma_nearest_reorder, nearest, reports_nearest, Hit, HittableList,
    Primitive,
};
use std::cmp::Ordering;

verus! {

broadcast use vstd::seq_lib::group_to_multiset_ensures;

/// A child of a tree node: a primitive, or a node of its own.
pub enum Child {
    Prim(Primitive),
    Node(Box<BVHNode>),
}

/// An inner node of the hierarchy. The right child is missing only where a
/// single primitive was left; the box is the union of the children's boxes.
pub struct BVHNode {
    pub left: Child,
    pub right: Option<Child>,
    pub aabb_box: AABB,
}

/// The key of a primitive along an axis: the minimum corner of its box.
pub open spec fn key(p: Primitive, axis: int) -> i64 {
    p.bbox.min.spec_coord(axis)
}

/// `s` is in ascending order of the key along `axis`.
pub open spec fn sorted_by(s: Seq<Primitive>, axis: int) -> bool {
    forall|i: int, j: int| 0 <= i < j < s.len() ==> key(s[i], axis) <= key(s[j], axis)
}

/// Along `axis`, no key of `a` exceeds a key of `b`.
pub open spec fn split_along(a: Seq<Primitive>, b: Seq<Primitive>, axis: int) -> bool {
    forall|i: int, j: int|
        0 <= i < a.len() && 0 <= j < b.len() ==> key(a[i], axis) <= key(b[j], axis)
}

impl Child {
    /// The primitives below this child, left to right.
    pub open spec fn prims(&self) -> Seq<Primitive>
        decreases self,
    {
        match self {
            Child::Prim(p) => seq![*p],
            Child::Node(n) => n.left.prims() + match n.right {
                Some(r) => r.prims(),
                None => Seq::empty(),
            },
        }
    }

    /// The box that this child holds.
    pub open spec fn bbox(&self) -> AABB {
        match self {
            Child::Prim(p) => p.bbox,
            Child::Node(n) => n.aabb_box,
        }
    }

    /// Every box is well formed, and every node's box is the union of its
    /// children's boxes.
    pub open spec fn wf(&self) -> bool
        decreases self,
    {
        match self {
            Child::Prim(p) => p.bbox.wf(),
            Child::Node(n) => {
                &&& n.left.wf()
                &&& match n.right {
                    Some(r) => r.wf() && n.aabb_box == spec_union(n.left.bbox(), r.bbox()),
                    None => n.aabb_box == n.left.bbox(),
                }
            },
        }
    }

    /// The shape that construction gives: a node without a right child holds
    /// one primitive; any other node holds half of its primitives (rounded
    /// down) on the left, and on some axis no key on the left exceeds a key on
    /// the right.
    pub open spec fn shaped(&self) -> bool
        decreases self,
    {
        match self {
            Child::Prim(p) => true,
            Child::Node(n) => {
                &&& n.left.shaped()
                &&& match n.right {
                    Some(r) => {
                        &&& r.shaped()
                        &&& n.left.prims().len() == (n.left.prims().len() + r.prims().len()) / 2
                        &&& exists|axis: int|
                            0 <= axis < 3 && split_along(n.left.prims(), r.prims(), axis)
                    },
                    None => n.left is Prim,
                }
            },
        }
    }
}

impl BVHNode {
    /// The primitives below this node, left to right.
    pub open spec fn prims(&self) -> Seq<Primitive> {
        Child::Node(Box::new(*self)).prims()
    }

    pub open spec fn wf(&self) -> bool {
        Child::Node(Box::new(*self)).wf()
    }

    pub open spec fn shaped(&self) -> bool {
        Child::Node(Box::new(*self)).shaped()
    }
}

/// The box test `fb` can be called on anything, and it misses a box only
/// where the primitive test reports no hit for any primitive of `ps` that
/// lies inside that box.
pub open spec fn box_test_sound<
    FB: Fn(AABB, i64, i64) -> bool,
    FP: Fn(Primitive, i64, i64) -> Option<i64>,
>(fb: FB, fp: FP, ps: Seq<Primitive>) -> bool {
    &&& forall|b: AABB, lo: i64, hi: i64| call_requires(fb, (b, lo, hi))
    &&& forall|b: AABB, p: Primitive, lo: i64, hi: i64|
        #![trigger call_ensures(fb, (b, lo, hi), false), hit_of(fp, p, lo, hi)]
        ps.contains(p) && b.contains(p.bbox) && call_ensures(fb, (b, lo, hi), false) ==> hit_of(
            fp,
            p,
            lo,
            hi,
        ) is None
}

/// A box test that is sound for a sequence is sound for any part of it.
proof fn lemma_sound_part<FB: Fn(AABB, i64, i64) -> bool, FP: Fn(Primitive, i64, i64) -> Option<i64>>(
    fb: FB,
    fp: FP,
    ps: Seq<Primitive>,
    qs: Seq<Primitive>,
)
    requires
        box_test_sound(fb, fp, ps),
        forall|p: Primitive| qs.contains(p) ==> ps.contains(p),
    ensures
        box_test_sound(fb, fp, qs),
{
}

/// Both parts of a concatenation lie in it.
proof fn lemma_parts_contained(a: Seq<Primitive>, b: Seq<Primitive>)
    ensures
        forall|p: Primitive| a.contains(p) ==> (a + b).contains(p),
        forall|p: Primitive| b.contains(p) ==> (a + b).contains(p),
{
    assert forall|p: Primitive| a.contains(p) implies (a + b).contains(p) by {
        let i = choose|i: int| 0 <= i < a.len() && a[i] == p;
        assert((a + b)[i] == p);
    }
    assert forall|p: Primitive| b.contains(p) implies (a + b).contains(p) by {
        let i = choose|i: int| 0 <= i < b.len() && b[i] == p;
        assert((a + b)[a.len() + i] == p);
    }
}

impl Child {
    /// A well-formed child's box holds the box of every primitive below it.
    pub proof fn lemma_box_holds_prims(&self)
        requires
            self.wf(),
        ensures
            forall|i: int|
                0 <= i < self.prims().len() ==> self.bbox().contains(
                    (#[trigger] self.prims()[i]).bbox,
                ),
        decreases self,
    {
        match self {
            Child::Prim(p) => {},
            Child::Node(n) => {
                n.left.lemma_box_holds_prims();
                let lp = n.left.prims();
                match &n.right {
                    Some(r) => {
                        r.lemma_box_holds_prims();
                        let rp = r.prims();
                        assert forall|i: int| 0 <= i < self.prims().len() implies self.bbox().contains(
                            (#[trigger] self.prims()[i]).bbox,
                        ) by {
                            if i < lp.len() {
                                assert(self.prims()[i] == lp[i]);
                            } else {
                                assert(self.prims()[i] == rp[i - lp.len()]);
                            }
                        }
                    },
                    None => {
                        assert(self.prims() =~= lp);
                    },
                }
            },
        }
    }

    /// Searches this child for the nearest hit within `[t_min, t_max]`.
    pub fn hit<FB: Fn(AABB, i64, i64) -> bool, FP: Fn(Primitive, i64, i64) -> Option<i64>>(
        &self,
        box_hit: &FB,
        prim_hit: &FP,
        t_min: i64,
        t_max: i64,
    ) -> (r: Option<Hit>)
        requires
            self.wf(),
            reports_nearest(*prim_hit),
            box_test_sound(*box_hit, *prim_hit, self.prims()),
        ensures
            hit_t(r) == nearest(*prim_hit, self.prims(), t_min, t_max),
            r matches Some(h) ==> {
                &&& self.prims().contains(h.prim)
                &&& hit_of(*prim_hit, h.prim, t_min, t_max) == Some(h.t)
            },
        decreases self, 1int,
    {
        match self {
            Child::Prim(p) => {
                let r = prim_hit(*p, t_min, t_max);
                proof {
                    lemma_call(*prim_hit, *p, t_min, t_max, r);
                    assert(self.prims().drop_last().len() == 0);
                    assert(nearest(*prim_hit, self.prims().drop_last(), t_min, t_max) is None);
                    assert(self.prims().last() == *p);
                    assert(self.prims().contains(*p)) by {
                        assert(self.prims()[0] == *p);
                    }
                }
                match r {
                    Some(t) => Some(Hit { prim: *p, t }),
                    None => None,
                }
            },
            Child::Node(n) => n.hit(box_hit, prim_hit, t_min, t_max),
        }
    }
}

/// Compares two primitives by the minimum corner of their boxes along `axis`.
pub fn sort_closure(axis: usize, a: &Primitive, b: &Primitive) -> (r: Ordering)
    requires
        axis < 3,
    ensures
        r == Ordering::Less <==> key(*a, axis as int) < key(*b, axis as int),
        r == Ordering::Equal <==> key(*a, axis as int) == key(*b, axis as int),
        r == Ordering::Greater <==> key(*a, axis as int) > key(*b, axis as int),
{
    let ka = a.bbox.min.coord(axis);
    let kb = b.bbox.min.coord(axis);
    if ka < kb {
        Ordering::Less
    } else if ka == kb {
        Ordering::Equal
    } else {
        Ordering::Greater
    }
}

/// Sorts the primitives by their key along `axis`; of equal keys, the one
/// that came first stays first.
fn sort_by_axis(objs: Vec<Primitive>, axis: usize) -> (r: Vec<Primitive>)
    requires
        axis < 3,
    ensures
        r@.to_multiset() == objs@.to_multiset(),
        sorted_by(r@, axis as int),
{
    let mut out: Vec<Primitive> = Vec::new();
    let mut i: usize = 0;
    while i < objs.len()
        invariant
            axis < 3,
            i <= objs.len(),
            out@.to_multiset() == objs@.subrange(0, i as int).to_multiset(),
            sorted_by(out@, axis as int),
        decreases objs.len() - i,
    {
        let x = objs[i];
        let mut j: usize = 0;
        while j < out.len()
            invariant
                axis < 3,
                j <= out.len(),
                forall|k: int| 0 <= k < j ==> key(#[trigger] out@[k], axis as int) <= key(x, axis as int),
            ensures
                j <= out.len(),
                forall|k: int| 0 <= k < j ==> key(#[trigger] out@[k], axis as int) <= key(x, axis as int),
                j < out.len() ==> key(out@[j as int], axis as int) > key(x, axis as int),
            decreases out.len() - j,
        {
            match sort_closure(axis, &out[j], &x) {
                Ordering::Greater => break,
                _ => {
                    j += 1;
                },
            }
        }
        out.insert(j, x);
        assert(objs@.subrange(0, i + 1) =~= objs@.subrange(0, i as int).push(x));
        i += 1;
    }
    assert(objs@.subrange(0, objs.len() as int) =~= objs@);
    out
}

/// Relies on rand's `Rng::gen_range` over the thread's generator: a value
/// drawn from the range `0..3`, so one of the three axes.
#[verifier::external_body]
fn random_axis() -> (r: usize)
    ensures
        r < 3,
{
    rand::Rng::gen_range(&mut rand::thread_rng(), 0..3)
}

/// A sequence and a reordering of it hold the same elements.
proof fn lemma_same_elements(a: Seq<Primitive>, b: Seq<Primitive>, p: Primitive)
    requires
        a.to_multiset() == b.to_multiset(),
    ensures
        a.contains(p) <==> b.contains(p),
{
    assert(a.contains(p) <==> a.to_multiset().count(p) > 0);
    assert(b.contains(p) <==> b.to_multiset().count(p) > 0);
}

/// Splitting a sorted sequence, and reordering each half, leaves no key of
/// the first half above a key of the second.
proof fn lemma_split_sorted(
    s: Seq<Primitive>,
    mid: int,
    lp: Seq<Primitive>,
    rp: Seq<Primitive>,
    axis: int,
)
    requires
        sorted_by(s, axis),
        0 <= mid <= s.len(),
        lp.to_multiset() == s.subrange(0, mid).to_multiset(),
        rp.to_multiset() == s.subrange(mid, s.len() as int).to_multiset(),
    ensures
        split_along(lp, rp, axis),
{
    let first = s.subrange(0, mid);
    let second = s.subrange(mid, s.len() as int);
    assert forall|i: int, j: int| 0 <= i < lp.len() && 0 <= j < rp.len() implies key(
        lp[i],
        axis,
    ) <= key(rp[j], axis) by {
        assert(lp.contains(lp[i]));
        assert(rp.contains(rp[j]));
        lemma_same_elements(lp, first, lp[i]);
        lemma_same_elements(rp, second, rp[j]);
        let a = choose|k: int| 0 <= k < first.len() && first[k] == lp[i];
        let b = choose|k: int| 0 <= k < second.len() && second[k] == rp[j];
        assert(s[a] == first[a]);
        assert(s[mid + b] == second[b]);
    }
}

impl BVHNode {
    /// Builds the hierarchy over `objs`. Each node draws its split axis at
    /// random; one primitive makes a node with a left child alone, two are
    /// placed in the order of their keys, more are sorted by key and split at
    /// the middle, each half built in turn.
    pub fn new(objs: Vec<Primitive>) -> (r: BVHNode)
        requires
            objs.len() >= 1,
            forall|i: int| 0 <= i < objs.len() ==> (#[trigger] objs@[i]).bbox.wf(),
        ensures
            r.wf(),
            r.shaped(),
            r.prims().to_multiset() == objs@.to_multiset(),
        decreases objs.len(),
    {
        let axis = random_axis();
        let n = objs.len();
        let ghost input = objs@;
        if n == 1 {
            let p = objs[0];
            assert(objs@ =~= seq![p]);
            let node = BVHNode { left: Child::Prim(p), right: None, aabb_box: p.bbox };
            proof {
                assert(objs@[0].bbox.wf());
                assert(Child::Prim(p).wf());
                assert(Child::Prim(p).prims() == seq![p]);
                assert(node.prims() =~= seq![p]);
                assert(Child::Prim(p).shaped());
            }
            node
        } else if n == 2 {
            let a = objs[0];
            let b = objs[1];
            let ord = sort_closure(axis, &a, &b);
            let (l, r) = match ord {
                Ordering::Less => (a, b),
                _ => (b, a),
            };
            let bb = surrounding_box(&l.bbox, &r.bbox);
            let node = BVHNode { left: Child::Prim(l), right: Some(Child::Prim(r)), aabb_box: bb };
            proof {
                assert(split_along(seq![l], seq![r], axis as int));
                assert(objs@ =~= seq![a] + seq![b]);
                vstd::seq_lib::lemma_seq_union_to_multiset_commutative(seq![a], seq![b]);
                assert(Child::Prim(l).prims() == seq![l]);
                assert(Child::Prim(r).prims() == seq![r]);
                assert(node.prims() =~= seq![l] + seq![r]);
                assert(objs@[0].bbox.wf() && objs@[1].bbox.wf());
                assert(Child::Prim(l).wf() && Child::Prim(r).wf());
                assert(Child::Prim(l).shaped() && Child::Prim(r).shaped());
                assert(split_along(Child::Prim(l).prims(), Child::Prim(r).prims(), axis as int));
            }
            node
        } else {
            let mut sorted = sort_by_axis(objs, axis);
            let mid = n / 2;
            let ghost whole = sorted@;
            assert(whole.len() == whole.to_multiset().len());
            assert(input.len() == input.to_multiset().len());
            let second = sorted.split_off(mid);
            assert(whole =~= sorted@ + second@);
            proof {
                vstd::seq_lib::lemma_multiset_commutative(sorted@, second@);
                assert forall|i: int| 0 <= i < sorted.len() implies (#[trigger] sorted@[i]).bbox.wf() by {
                    assert(whole[i] == sorted@[i]);
                    assert(whole.contains(whole[i]));
                    lemma_same_elements(whole, input, whole[i]);
                }
                assert forall|i: int| 0 <= i < second.len() implies (#[trigger] second@[i]).bbox.wf() by {
                    assert(whole[mid + i] == second@[i]);
                    assert(whole.contains(whole[mid + i]));
                    lemma_same_elements(whole, input, whole[mid + i]);
                }
            }
            let left = BVHNode::new(sorted);
            let right = BVHNode::new(second);
            let bb = surrounding_box(&left.aabb_box, &right.aabb_box);
            let node = BVHNode {
                left: Child::Node(Box::new(left)),
                right: Some(Child::Node(Box::new(right))),
                aabb_box: bb,
            };
            proof {
                assert(whole.subrange(0, mid as int) =~= sorted@);
                assert(whole.subrange(mid as int, whole.len() as int) =~= second@);
                lemma_split_sorted(whole, mid as int, left.prims(), right.prims(), axis as int);
                assert(node.prims() =~= left.prims() + right.prims());
                vstd::seq_lib::lemma_multiset_commutative(left.prims(), right.prims());
                assert(left.prims().len() == sorted.len());
                assert(right.prims().len() == second.len());
                let lc = Child::Node(Box::new(left));
                let rc = Child::Node(Box::new(right));
                assert(lc.prims() == left.prims());
                assert(rc.prims() == right.prims());
                assert(lc.wf() && rc.wf());
                assert(lc.shaped() && rc.shaped());
                assert(split_along(lc.prims(), rc.prims(), axis as int));
                assert(lc.prims().len() == (lc.prims().len() + rc.prims().len()) / 2);
            }
            node
        }
    }
}

impl BVHNode {
    /// The box cached at this node.
    pub fn bounding_box(&self) -> (r: AABB)
        ensures
            r == self.aabb_box,
    {
        self.aabb_box
    }

    /// Searches the tree for the nearest hit within `[t_min, t_max]`. A node
    /// whose box the ray misses is skipped with all below it; otherwise the
    /// left child is searched, and the right child then only up to the
    /// parameter of the left child's hit, where there is one.
    pub fn hit<FB: Fn(AABB, i64, i64) -> bool, FP: Fn(Primitive, i64, i64) -> Option<i64>>(
        &self,
        box_hit: &FB,
        prim_hit: &FP,
        t_min: i64,
        t_max: i64,
    ) -> (r: Option<Hit>)
        requires
            self.wf(),
            reports_nearest(*prim_hit),
            box_test_sound(*box_hit, *prim_hit, self.prims()),
        ensures
            hit_t(r) == nearest(*prim_hit, self.prims(), t_min, t_max),
            r matches Some(h) ==> {
                &&& self.prims().contains(h.prim)
                &&& hit_of(*prim_hit, h.prim, t_min, t_max) == Some(h.t)
            },
        decreases Child::Node(Box::new(*self)), 0int,
    {
        let ghost f = *prim_hit;
        let ghost lp = self.left.prims();
        let ghost rp = match &self.right {
            Some(r) => r.prims(),
            None => Seq::<Primitive>::empty(),
        };
        proof {
            assert(self.prims() == lp + rp);
            lemma_parts_contained(lp, rp);
            lemma_sound_part(*box_hit, f, self.prims(), lp);
            lemma_sound_part(*box_hit, f, self.prims(), rp);
            lemma_nearest_concat(f, lp, rp, t_min, t_max);
        }
        if !box_hit(self.aabb_box, t_min, t_max) {
            proof {
                Child::Node(Box::new(*self)).lemma_box_holds_prims();
                lemma_nearest_is_min(f, self.prims(), t_min, t_max);
                assert forall|i: int| 0 <= i < self.prims().len() implies (#[trigger] hit_of(
                    f,
                    self.prims()[i],
                    t_min,
                    t_max,
                )) is None by {
                    assert(self.prims().contains(self.prims()[i]));
                }
            }
            None
        } else {
            let hit_left = self.left.hit(box_hit, prim_hit, t_min, t_max);
            match hit_left {
                Some(v) => match &self.right {
                    Some(right) => {
                        proof {
                            lemma_nearest_is_min(f, lp, t_min, t_max);
                            let i = choose|i: int| 0 <= i < lp.len() && #[trigger] hit_of(f, lp[i], t_min, t_max) == Some(v.t);
                            assert(v.t <= t_max);
                            lemma_nearest_below(f, rp, t_min, t_max, v.t);
                        }
                        let hit_right = right.hit(box_hit, prim_hit, t_min, v.t);
                        match hit_right {
                            Some(w) => {
                                proof {
                                    assert(hit_of(f, w.prim, t_min, v.t) == below(hit_of(f, w.prim, t_min, t_max), v.t));
                                }
                                Some(w)
                            },
                            None => Some(v),
                        }
                    },
                    None => Some(v),
                },
                None => match &self.right {
                    Some(right) => right.hit(box_hit, prim_hit, t_min, t_max),
                    None => None,
                },
            }
        }
    }
}

/// Searching a tree finds the same nearest hit as scanning a list of the same
/// primitives: where the tree holds the list's primitives, in any order,
/// the nearest ray parameter over the one is the nearest over the other, for
/// every primitive test and every range.
pub proof fn lemma_tree_matches_scan<FP: Fn(Primitive, i64, i64) -> Option<i64>>(
    tree: BVHNode,
    list: HittableList,
    prim_hit: FP,
    t_min: i64,
    t_max: i64,
)
    requires
        tree.prims().to_multiset() == list.objects@.to_multiset(),
    ensures
        nearest(prim_hit, tree.prims(), t_min, t_max) == nearest(
            prim_hit,
            list.objects@,
            t_min,
            t_max,
        ),
{
    lemma_nearest_reorder(prim_hit, tree.prims(), list.objects@, t_min, t_max);
}

} // verus!
