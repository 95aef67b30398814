use raytracer::aabb::{surrounding_box, Point3, AABB};
use raytracer::bvh::{sort_closure, BVHNode, Child};
use raytracer::hittable::{select_root, Hit, HittableList, Primitive};
use std::cmp::Ordering;

fn interval(id: usize, lo: i64, hi: i64) -> Primitive {
    Primitive {
        id,
        bbox: AABB::new(Point3::new(lo, -1, -1), Point3::new(hi, 1, 1)),
    }
}

// A ray along the x axis meets an interval where it enters and where it leaves.
fn prim_test(p: Primitive, lo: i64, hi: i64) -> Option<i64> {
    select_root(p.bbox.min.x, p.bbox.max.x, lo, hi)
}

fn box_test(b: AABB, lo: i64, hi: i64) -> bool {
    b.min.x <= hi && lo <= b.max.x
}

fn count_prims(c: &Child) -> usize {
    match c {
        Child::Prim(_) => 1,
        Child::Node(n) => count_node(n),
    }
}

fn count_node(n: &BVHNode) -> usize {
    count_prims(&n.left) + n.right.as_ref().map_or(0, count_prims)
}

fn leaves(c: &Child, out: &mut Vec<Primitive>) {
    match c {
        Child::Prim(p) => out.push(*p),
        Child::Node(n) => {
            leaves(&n.left, out);
            if let Some(r) = &n.right {
                leaves(r, out);
            }
        }
    }
}

// Checks the built shape below a node: box unions, halves, and an axis that
// separates the halves. Returns the number of primitives.
fn check_shape(n: &BVHNode) -> usize {
    match &n.right {
        None => {
            assert!(matches!(n.left, Child::Prim(p) if p.bbox == n.aabb_box));
            1
        }
        Some(r) => {
            let (mut lp, mut rp) = (vec![], vec![]);
            leaves(&n.left, &mut lp);
            leaves(r, &mut rp);
            assert_eq!(lp.len(), (lp.len() + rp.len()) / 2);
            let key = |p: &Primitive, a: usize| [p.bbox.min.x, p.bbox.min.y, p.bbox.min.z][a];
            assert!((0..3).any(|a| lp.iter().all(|x| rp.iter().all(|y| key(x, a) <= key(y, a)))));
            let bbox = |c: &Child| match c {
                Child::Prim(p) => p.bbox,
                Child::Node(m) => m.aabb_box,
            };
            assert_eq!(n.aabb_box, surrounding_box(&bbox(&n.left), &bbox(r)));
            for c in [&n.left, r] {
                if let Child::Node(m) = c {
                    check_shape(m);
                }
            }
            lp.len() + rp.len()
        }
    }
}

fn scattered(n: usize) -> Vec<Primitive> {
    (0..n)
        .map(|i| {
            let lo = ((i * 37) % 101) as i64 * 10;
            interval(i, lo, lo + 5 + (i % 7) as i64)
        })
        .collect()
}

fn check_against_scan(n: usize) {
    let objs = scattered(n);
    let tree = BVHNode::new(objs.clone());
    assert_eq!(count_node(&tree), n);
    assert_eq!(check_shape(&tree), n);
    let mut ids: Vec<usize> = {
        let mut v = vec![];
        leaves(&tree.left, &mut v);
        if let Some(r) = &tree.right {
            leaves(r, &mut v);
        }
        v.iter().map(|p| p.id).collect()
    };
    ids.sort();
    assert_eq!(ids, (0..n).collect::<Vec<_>>());
    let list = HittableList::new(objs);
    for &(lo, hi) in &[(0, 2000), (-50, 10), (300, 700), (505, 506), (1200, 1300), (7, 7)] {
        let a = tree.hit(&box_test, &prim_test, lo, hi).map(|h: Hit| h.t);
        let b = list.hit(&prim_test, lo, hi).map(|h: Hit| h.t);
        assert_eq!(a, b, "n = {}, range = [{}, {}]", n, lo, hi);
    }
}

#[test]
fn tree_matches_scan_one() {
    check_against_scan(1);
}

#[test]
fn tree_matches_scan_two() {
    check_against_scan(2);
}

#[test]
fn tree_matches_scan_three() {
    check_against_scan(3);
}

#[test]
fn tree_matches_scan_fifty() {
    check_against_scan(50);
}

#[test]
fn one_primitive_makes_a_lone_left_child() {
    let tree = BVHNode::new(vec![interval(4, 2, 3)]);
    assert!(tree.right.is_none());
    assert!(matches!(tree.left, Child::Prim(p) if p.id == 4));
    assert_eq!(tree.bounding_box(), interval(4, 2, 3).bbox);
}

#[test]
fn two_primitives_in_key_order() {
    // b's keys are lower on every axis, so it goes left whatever axis is drawn.
    let a = Primitive { id: 0, bbox: AABB::new(Point3::new(5, 5, 5), Point3::new(6, 6, 6)) };
    let b = Primitive { id: 1, bbox: AABB::new(Point3::new(1, 1, 1), Point3::new(2, 2, 2)) };
    let tree = BVHNode::new(vec![a, b]);
    match (&tree.left, &tree.right) {
        (Child::Prim(l), Some(Child::Prim(r))) => {
            assert_eq!(l.id, 1);
            assert_eq!(r.id, 0);
        }
        _ => panic!("two primitives must sit directly under the root"),
    }
    assert_eq!(tree.aabb_box, AABB::new(Point3::new(1, 1, 1), Point3::new(6, 6, 6)));
}

#[test]
fn three_primitives_give_a_degenerate_node() {
    let tree = BVHNode::new(vec![interval(0, 0, 1), interval(1, 10, 11), interval(2, 20, 21)]);
    match &tree.left {
        Child::Node(n) => {
            assert!(n.right.is_none());
            assert!(matches!(n.left, Child::Prim(_)));
        }
        Child::Prim(_) => panic!("the left half of three is a node of its own"),
    }
    assert_eq!(count_node(&tree), 3);
    assert_eq!(tree.aabb_box, AABB::new(Point3::new(0, -1, -1), Point3::new(21, 1, 1)));
}

#[test]
fn tree_hit_is_nearest() {
    let objs = vec![interval(0, 50, 60), interval(1, 10, 20), interval(2, 30, 40)];
    let tree = BVHNode::new(objs);
    let h = tree.hit(&box_test, &prim_test, 0, 100).unwrap();
    assert_eq!((h.prim.id, h.t), (1, 10));
    // Starting inside the first interval, the ray leaves it first.
    let h = tree.hit(&box_test, &prim_test, 15, 100).unwrap();
    assert_eq!((h.prim.id, h.t), (1, 20));
    let h = tree.hit(&box_test, &prim_test, 21, 100).unwrap();
    assert_eq!((h.prim.id, h.t), (2, 30));
    assert!(tree.hit(&box_test, &prim_test, 61, 100).is_none());
    assert!(tree.hit(&box_test, &prim_test, 0, 5).is_none());
}

#[test]
fn scan_hit_is_nearest() {
    let list = HittableList::new(vec![interval(0, 50, 60), interval(1, 10, 20), interval(2, 30, 40)]);
    let h = list.hit(&prim_test, 0, 100).unwrap();
    assert_eq!((h.prim.id, h.t), (1, 10));
    assert!(list.hit(&prim_test, 70, 100).is_none());
    assert!(HittableList::new(vec![]).hit(&prim_test, 0, 100).is_none());
}

#[test]
fn list_bounding_box() {
    assert!(HittableList::new(vec![]).bounding_box().is_none());
    let list = HittableList::new(vec![interval(0, 5, 7), interval(1, -3, 2)]);
    assert_eq!(
        list.bounding_box(),
        Some(AABB::new(Point3::new(-3, -1, -1), Point3::new(7, 1, 1)))
    );
}

#[test]
fn sort_closure_compares_along_axis() {
    let a = Primitive { id: 0, bbox: AABB::new(Point3::new(1, 9, 4), Point3::new(2, 10, 5)) };
    let b = Primitive { id: 1, bbox: AABB::new(Point3::new(3, 2, 4), Point3::new(4, 3, 5)) };
    assert_eq!(sort_closure(0, &a, &b), Ordering::Less);
    assert_eq!(sort_closure(1, &a, &b), Ordering::Greater);
    assert_eq!(sort_closure(2, &a, &b), Ordering::Equal);
}

#[test]
fn union_holds_both_and_commutes() {
    let a = AABB::new(Point3::new(0, 0, 0), Point3::new(1, 1, 1));
    let b = AABB::new(Point3::new(-2, 3, 0), Point3::new(-1, 4, 5));
    let u = surrounding_box(&a, &b);
    assert_eq!(u, AABB::new(Point3::new(-2, 0, 0), Point3::new(1, 4, 5)));
    assert_eq!(u, surrounding_box(&b, &a));
    for bx in [a, b] {
        assert!(u.min.x <= bx.min.x && u.min.y <= bx.min.y && u.min.z <= bx.min.z);
        assert!(bx.max.x <= u.max.x && bx.max.y <= u.max.y && bx.max.z <= u.max.z);
    }
}
