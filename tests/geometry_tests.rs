use raytracer::hittable::select_root;
use raytracer::key::{key_bits, order_key};
use raytracer::render::{output_order, pixel_index, split_samples, trace_path, Bounce};

fn key(x: f64) -> i64 {
    order_key(x.to_bits())
}

// Roots of |o + t d - c|^2 = r^2 for a ray from the origin along -z.
fn sphere_roots(c: [f64; 3], radius: f64) -> Option<(f64, f64)> {
    let oc = [-c[0], -c[1], -c[2]];
    let d = [0.0, 0.0, -1.0];
    let a = 1.0;
    let half_b = oc[0] * d[0] + oc[1] * d[1] + oc[2] * d[2];
    let cc = oc[0] * oc[0] + oc[1] * oc[1] + oc[2] * oc[2] - radius * radius;
    let disc = half_b * half_b - a * cc;
    if disc < 0.0 {
        None
    } else {
        Some(((-half_b - disc.sqrt()) / a, (-half_b + disc.sqrt()) / a))
    }
}

#[test]
fn keys_order_as_numbers() {
    let xs = [f64::NEG_INFINITY, -1e300, -2.5, -1.0, -1e-300, -0.0, 0.0, 1e-300, 0.001, 1.0, 2.5, 1e300, f64::INFINITY];
    for w in xs.windows(2) {
        assert!(key(w[0]) < key(w[1]), "{} {}", w[0], w[1]);
    }
    assert_eq!(key(0.0), 0);
    assert_eq!(key(-0.0), -1);
}

#[test]
fn keys_round_trip() {
    for x in [0.0, -0.0, 1.5, -1.5, 0.001, f64::INFINITY, f64::NEG_INFINITY, -123456.789] {
        let back = f64::from_bits(key_bits(key(x)));
        assert_eq!(back.to_bits(), x.to_bits());
    }
    assert_eq!(key_bits(i64::MIN), u64::MAX);
    assert_eq!(key_bits(i64::MAX), 0x7FFF_FFFF_FFFF_FFFF);
}

#[test]
fn sphere_hit_from_outside_takes_near_root() {
    let (near, far) = sphere_roots([0.0, 0.0, -5.0], 1.0).unwrap();
    assert_eq!((near, far), (4.0, 6.0));
    let r = select_root(key(near), key(far), key(0.001), key(f64::INFINITY));
    assert_eq!(r, Some(key(4.0)));
}

#[test]
fn sphere_hit_from_inside_takes_far_root() {
    let (near, far) = sphere_roots([0.0, 0.0, -0.5], 1.0).unwrap();
    assert_eq!(select_root(key(near), key(far), key(0.001), key(f64::INFINITY)), Some(key(1.5)));
    // The far root lies beyond the range: no hit.
    assert_eq!(select_root(key(near), key(far), key(0.001), key(1.0)), None);
}

#[test]
fn sphere_passed_by_has_no_roots() {
    // The ray passes at distance 2 from the center of a sphere of radius 1.
    assert_eq!(sphere_roots([2.0, 0.0, -5.0], 1.0), None);
}

#[test]
fn select_root_cases() {
    assert_eq!(select_root(2, 4, 0, 10), Some(2));
    assert_eq!(select_root(2, 4, 3, 10), Some(4));
    assert_eq!(select_root(2, 4, 5, 10), None);
    assert_eq!(select_root(2, 4, 0, 1), None);
    assert_eq!(select_root(2, 4, 2, 2), Some(2));
    assert_eq!(select_root(2, 4, 4, 4), Some(4));
}

#[test]
fn output_order_goes_from_last_row() {
    assert_eq!(output_order(3, 2), vec![3, 4, 5, 0, 1, 2]);
    assert_eq!(output_order(0, 4), Vec::<usize>::new());
    assert_eq!(pixel_index(1, 2, 4, 3), 9);
}

#[test]
fn samples_shared_among_workers() {
    assert_eq!(split_samples(500, 8), (62, 496));
    assert_eq!(split_samples(7, 8), (0, 0));
    assert_eq!(split_samples(16, 4), (4, 16));
}

// A ray is a height: it leaves the scene from 3 up, is absorbed below 0, and
// otherwise climbs one step with its height as attenuation.
fn climb(x: i64) -> Bounce<i64, i64> {
    if x >= 3 {
        Bounce::Miss(x * 10)
    } else if x < 0 {
        Bounce::Absorbed
    } else {
        Bounce::Scattered(x, x + 1)
    }
}

#[test]
fn path_ends_in_background() {
    assert_eq!(trace_path(0, 10, &climb), (vec![0, 1, 2], Some(30)));
    assert_eq!(trace_path(5, 1, &climb), (vec![], Some(50)));
}

#[test]
fn path_cut_at_depth_is_black() {
    assert_eq!(trace_path(0, 2, &climb), (vec![0, 1], None));
    assert_eq!(trace_path(0, 0, &climb), (vec![], None));
    // One step allows one scatter; the next ray is never looked at.
    assert_eq!(trace_path(2, 1, &climb), (vec![2], None));
}

#[test]
fn absorbed_path_is_black() {
    assert_eq!(trace_path(-1, 10, &climb), (vec![], None));
}
