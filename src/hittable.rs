use vstd::prelude::*;
use crate::aabb::{spec_union, surrounding_box, AABB};

verus! {

broadcast use vstd::seq_lib::group_to_multiset_ensures;

/// A primitive as a search sees it: the index of a shape in the caller's list
/// and the box that bounds that shape.
#[derive(Clone, Copy, Debug, PartialEq, Eq, Structural)]
pub struct Primitive {
    pub id: usize,
    pub bbox: AABB,
}

/// What a search finds: the primitive that was hit, and the key of the ray
/// parameter at which it was hit.
#[derive(Clone, Copy, Debug, PartialEq, Eq, Structural)]
pub struct Hit {
    pub prim: Primitive,
    pub t: i64,
}

/// The ray parameter of a search's result.
pub open spec fn hit_t(r: Option<Hit>) -> Option<i64> {
    match r {
        Some(h) => Some(h.t),
        None => None,
    }
}

/// What the primitive test `f` reports for `p` over the range `[lo, hi]`.
pub open spec fn hit_of<FP: Fn(Primitive, i64, i64) -> Option<i64>>(
    f: FP,
    p: Primitive,
    lo: i64,
    hi: i64,
) -> Option<i64> {
    choose|r: Option<i64>| call_ensures(f, (p, lo, hi), r)
}

/// A reported parameter, kept only where it does not exceed `c`.
pub open spec fn below(o: Option<i64>, c: i64) -> Option<i64> {
    match o {
        Some(t) => if t <= c {
            Some(t)
        } else {
            None
        },
        None => None,
    }
}

/// The nearer of two reported parameters.
pub open spec fn closer(a: Option<i64>, b: Option<i64>) -> Option<i64> {
    match a {
        None => b,
        Some(s) => match b {
            None => Some(s),
            Some(t) => if t <= s {
                Some(t)
            } else {
                Some(s)
            },
        },
    }
}

/// The nearest parameter that the primitive test reports for any of `ps`
/// over `[lo, hi]`.
pub open spec fn nearest<FP: Fn(Primitive, i64, i64) -> Option<i64>>(
    f: FP,
    ps: Seq<Primitive>,
    lo: i64,
    hi: i64,
) -> Option<i64>
    decreases ps.len(),
{
    if ps.len() == 0 {
        None
    } else {
        closer(nearest(f, ps.drop_last(), lo, hi), hit_of(f, ps.last(), lo, hi))
    }
}

/// The primitive test `f` can be called on anything, answers the same for
/// the same arguments, and reports the nearest of the primitive's ray
/// parameters within the range: the answer lies in the range, and lowering
/// the upper end of the range drops the answer exactly where it now lies
/// above it.
pub open spec fn reports_nearest<FP: Fn(Primitive, i64, i64) -> Option<i64>>(f: FP) -> bool {
    &&& forall|p: Primitive, lo: i64, hi: i64| call_requires(f, (p, lo, hi))
    &&& forall|p: Primitive, lo: i64, hi: i64, r1: Option<i64>, r2: Option<i64>|
        #![trigger call_ensures(f, (p, lo, hi), r1), call_ensures(f, (p, lo, hi), r2)]
        call_ensures(f, (p, lo, hi), r1) && call_ensures(f, (p, lo, hi), r2) ==> r1 == r2
    &&& forall|p: Primitive, lo: i64, hi: i64|
        (#[trigger] hit_of(f, p, lo, hi)) is Some ==> lo <= hit_of(f, p, lo, hi)->0 <= hi
    &&& forall|p: Primitive, lo: i64, hi: i64, c: i64|
        #![trigger hit_of(f, p, lo, c), hit_of(f, p, lo, hi)]
        c <= hi ==> hit_of(f, p, lo, c) == below(hit_of(f, p, lo, hi), c)
}

/// A call of the primitive test returned what `hit_of` names.
pub proof fn lemma_call<FP: Fn(Primitive, i64, i64) -> Option<i64>>(
    f: FP,
    p: Primitive,
    lo: i64,
    hi: i64,
    r: Option<i64>,
)
    requires
        reports_nearest(f),
        call_ensures(f, (p, lo, hi), r),
    ensures
        hit_of(f, p, lo, hi) == r,
{
    let c = hit_of(f, p, lo, hi);
    assert(call_ensures(f, (p, lo, hi), c));
}

/// The nearest parameter over a concatenation is the nearer of the nearest
/// over each part.
pub proof fn lemma_nearest_concat<FP: Fn(Primitive, i64, i64) -> Option<i64>>(
    f: FP,
    a: Seq<Primitive>,
    b: Seq<Primitive>,
    lo: i64,
    hi: i64,
)
    ensures
        nearest(f, a + b, lo, hi) == closer(nearest(f, a, lo, hi), nearest(f, b, lo, hi)),
    decreases b.len(),
{
    if b.len() == 0 {
        assert(a + b =~= a);
    } else {
        assert((a + b).drop_last() =~= a + b.drop_last());
        assert((a + b).last() == b.last());
        lemma_nearest_concat(f, a, b.drop_last(), lo, hi);
    }
}

/// Lowering the upper end of the range to `c` keeps the nearest parameter
/// where it does not exceed `c`, and drops it otherwise.
pub proof fn lemma_nearest_below<FP: Fn(Primitive, i64, i64) -> Option<i64>>(
    f: FP,
    ps: Seq<Primitive>,
    lo: i64,
    hi: i64,
    c: i64,
)
    requires
        reports_nearest(f),
        c <= hi,
    ensures
        nearest(f, ps, lo, c) == below(nearest(f, ps, lo, hi), c),
    decreases ps.len(),
{
    if ps.len() > 0 {
        lemma_nearest_below(f, ps.drop_last(), lo, hi, c);
        assert(hit_of(f, ps.last(), lo, c) == below(hit_of(f, ps.last(), lo, hi), c));
    }
}

/// The nearest parameter is missing exactly where no primitive is reported
/// hit; otherwise it is reported for one of them and is at most what is
/// reported for any of them.
pub proof fn lemma_nearest_is_min<FP: Fn(Primitive, i64, i64) -> Option<i64>>(
    f: FP,
    ps: Seq<Primitive>,
    lo: i64,
    hi: i64,
)
    ensures
        nearest(f, ps, lo, hi) is None <==> forall|i: int|
            0 <= i < ps.len() ==> (#[trigger] hit_of(f, ps[i], lo, hi)) is None,
        forall|i: int|
            0 <= i < ps.len() && (#[trigger] hit_of(f, ps[i], lo, hi)) is Some ==> {
                &&& nearest(f, ps, lo, hi) is Some
                &&& nearest(f, ps, lo, hi)->0 <= hit_of(f, ps[i], lo, hi)->0
            },
        nearest(f, ps, lo, hi) is Some ==> exists|i: int|
            0 <= i < ps.len() && #[trigger] hit_of(f, ps[i], lo, hi) == nearest(f, ps, lo, hi),
    decreases ps.len(),
{
    if ps.len() > 0 {
        let q = ps.drop_last();
        lemma_nearest_is_min(f, q, lo, hi);
        assert forall|i: int| 0 <= i < q.len() implies q[i] == ps[i] by {}
        let n = nearest(f, ps, lo, hi);
        if n is Some {
            if nearest(f, q, lo, hi) == n {
                let i = choose|i: int| 0 <= i < q.len() && #[trigger] hit_of(f, q[i], lo, hi) == n;
                assert(hit_of(f, ps[i], lo, hi) == n);
            } else {
                assert(hit_of(f, ps[ps.len() - 1], lo, hi) == n);
            }
        }
    }
}

/// Two sequences with the same elements, counted with multiplicity, have the
/// same nearest parameter.
pub proof fn lemma_nearest_reorder<FP: Fn(Primitive, i64, i64) -> Option<i64>>(
    f: FP,
    a: Seq<Primitive>,
    b: Seq<Primitive>,
    lo: i64,
    hi: i64,
)
    requires
        a.to_multiset() == b.to_multiset(),
    ensures
        nearest(f, a, lo, hi) == nearest(f, b, lo, hi),
{
    lemma_nearest_is_min(f, a, lo, hi);
    lemma_nearest_is_min(f, b, lo, hi);
    let na = nearest(f, a, lo, hi);
    let nb = nearest(f, b, lo, hi);
    if na is Some {
        let i = choose|i: int| 0 <= i < a.len() && #[trigger] hit_of(f, a[i], lo, hi) == na;
        assert(a.contains(a[i]));
        assert(a.to_multiset().count(a[i]) > 0);
        assert(b.contains(a[i]));
        let j = choose|j: int| 0 <= j < b.len() && b[j] == a[i];
        assert(hit_of(f, b[j], lo, hi) == na);
    }
    if nb is Some {
        let j = choose|j: int| 0 <= j < b.len() && #[trigger] hit_of(f, b[j], lo, hi) == nb;
        assert(b.contains(b[j]));
        assert(b.to_multiset().count(b[j]) > 0);
        assert(a.contains(b[j]));
        let i = choose|i: int| 0 <= i < a.len() && a[i] == b[j];
        assert(hit_of(f, a[i], lo, hi) == nb);
    }
}

/// The parameter at which a ray meets a sphere, from the two roots of the
/// quadratic: the nearer root where it lies within `[t_min, t_max]`, else the
/// farther one where it does, else none.
pub open spec fn root_choice(near: i64, far: i64, t_min: i64, t_max: i64) -> Option<i64> {
    if t_min <= near && near <= t_max {
        Some(near)
    } else if t_min <= far && far <= t_max {
        Some(far)
    } else {
        None
    }
}

/// Picks the root at which a ray meets a sphere, given the roots of the
/// quadratic nearer first.
pub fn select_root(near: i64, far: i64, t_min: i64, t_max: i64) -> (r: Option<i64>)
    ensures
        r == root_choice(near, far, t_min, t_max),
{
    if (near < t_min) || (near > t_max) {
        if (far < t_min) || (far > t_max) {
            None
        } else {
            Some(far)
        }
    } else {
        Some(near)
    }
}

/// With the roots in order, the root chosen is the smallest root in the
/// range, and lowering the upper end of the range to `c` keeps it exactly
/// where it does not exceed `c`: a sphere's test reports the nearest hit.
pub proof fn lemma_root_choice_nearest(near: i64, far: i64, t_min: i64, t_max: i64, c: i64)
    requires
        near <= far,
    ensures
        root_choice(near, far, t_min, t_max) matches Some(t) ==> {
            &&& t_min <= t <= t_max
            &&& t == near || t == far
            &&& t_min <= near <= t_max ==> t <= near
        },
        root_choice(near, far, t_min, t_max) is None ==> !(t_min <= near <= t_max) && !(t_min
            <= far <= t_max),
        c <= t_max ==> root_choice(near, far, t_min, c) == below(
            root_choice(near, far, t_min, t_max),
            c,
        ),
{
}

/// The union of the boxes of a non-empty sequence of primitives, taken from
/// the first to the last.
pub open spec fn bound_of(ps: Seq<Primitive>) -> AABB
    decreases ps.len(),
{
    if ps.len() <= 1 {
        ps[0].bbox
    } else {
        spec_union(bound_of(ps.drop_last()), ps.last().bbox)
    }
}

/// A plain list of primitives, searched one after another.
pub struct HittableList {
    pub objects: Vec<Primitive>,
}

impl HittableList {
    pub fn new(objs: Vec<Primitive>) -> (r: HittableList)
        ensures
            r.objects@ == objs@,
    {
        HittableList { objects: objs }
    }

    /// Tests every primitive in turn, lowering the upper end of the range to
    /// each hit found, and returns the last hit found: the nearest one.
    pub fn hit<FP: Fn(Primitive, i64, i64) -> Option<i64>>(
        &self,
        prim_hit: &FP,
        t_min: i64,
        t_max: i64,
    ) -> (r: Option<Hit>)
        requires
            reports_nearest(*prim_hit),
        ensures
            hit_t(r) == nearest(*prim_hit, self.objects@, t_min, t_max),
            r matches Some(h) ==> {
                &&& self.objects@.contains(h.prim)
                &&& hit_of(*prim_hit, h.prim, t_min, t_max) == Some(h.t)
            },
    {
        let ghost f = *prim_hit;
        let mut closest_so_far = t_max;
        let mut best: Option<Hit> = None;
        let mut i: usize = 0;
        while i < self.objects.len()
            invariant
                reports_nearest(f),
                f == *prim_hit,
                i <= self.objects.len(),
                hit_t(best) == nearest(f, self.objects@.subrange(0, i as int), t_min, t_max),
                closest_so_far == match best {
                    Some(h) => h.t,
                    None => t_max,
                },
                best matches Some(h) ==> {
                    &&& self.objects@.contains(h.prim)
                    &&& hit_of(f, h.prim, t_min, t_max) == Some(h.t)
                },
            decreases self.objects.len() - i,
        {
            let p = self.objects[i];
            let r = prim_hit(p, t_min, closest_so_far);
            proof {
                lemma_call(f, p, t_min, closest_so_far, r);
                assert(hit_of(f, p, t_min, closest_so_far) == below(
                    hit_of(f, p, t_min, t_max),
                    closest_so_far,
                ));
                assert(self.objects@.subrange(0, i + 1).drop_last() =~= self.objects@.subrange(
                    0,
                    i as int,
                ));
                assert(self.objects@.contains(self.objects@[i as int]));
            }
            if let Some(t) = r {
                closest_so_far = t;
                best = Some(Hit { prim: p, t });
            }
            i += 1;
        }
        assert(self.objects@.subrange(0, i as int) =~= self.objects@);
        best
    }

    /// The union of the boxes of all primitives; nothing for an empty list.
    pub fn bounding_box(&self) -> (r: Option<AABB>)
        ensures
            self.objects.len() == 0 ==> r is None,
            self.objects.len() > 0 ==> r == Some(bound_of(self.objects@)),
            r matches Some(b) ==> forall|i: int|
                0 <= i < self.objects.len() ==> b.contains((#[trigger] self.objects@[i]).bbox),
    {
        if self.objects.len() == 0 {
            return None;
        }
        let mut res_box = self.objects[0].bbox;
        let mut i: usize = 1;
        assert(self.objects@.subrange(0, 1).drop_last().len() == 0);
        while i < self.objects.len()
            invariant
                1 <= i <= self.objects.len(),
                res_box == bound_of(self.objects@.subrange(0, i as int)),
                forall|k: int| 0 <= k < i ==> res_box.contains((#[trigger] self.objects@[k]).bbox),
            decreases self.objects.len() - i,
        {
            res_box = surrounding_box(&res_box, &self.objects[i].bbox);
            assert(self.objects@.subrange(0, i + 1).drop_last() =~= self.objects@.subrange(
                0,
                i as int,
            ));
            i += 1;
        }
        assert(self.objects@.subrange(0, i as int) =~= self.objects@);
        Some(res_box)
    }
}

} // verus!
