use vstd::prelude::*;

verus! {

/// The place in a row-major pixel buffer of column `i` of row `j`.
pub open spec fn spec_pixel_index(i: int, j: int, width: int) -> int {
    j * width + i
}

/// The place in a row-major pixel buffer of column `i` of row `j`.
pub fn pixel_index(i: usize, j: usize, width: usize, height: usize) -> (r: usize)
    requires
        i < width,
        j < height,
        width * height <= usize::MAX,
    ensures
        r == spec_pixel_index(i as int, j as int, width as int),
        r < width * height,
{
    proof {
        assert(j * width + i < width * height) by (nonlinear_arith)
            requires
                i < width,
                j < height,
        ;
    }
    j * width + i
}

/// The buffer places in the order in which the image is written out: rows
/// from the last to the first, each row from left to right.
pub fn output_order(width: usize, height: usize) -> (r: Vec<usize>)
    requires
        width * height <= usize::MAX,
    ensures
        r@.len() == width * height,
        forall|k: int|
            0 <= k < r@.len() ==> #[trigger] r@[k] == spec_pixel_index(
                k % width as int,
                height - 1 - k / width as int,
                width as int,
            ),
{
    let mut r: Vec<usize> = Vec::new();
    let mut row: usize = height;
    while row > 0
        invariant
            row <= height,
            width * height <= usize::MAX,
            r@.len() == (height - row) * width,
            forall|k: int|
                0 <= k < r@.len() ==> #[trigger] r@[k] == spec_pixel_index(
                    k % width as int,
                    height - 1 - k / width as int,
                    width as int,
                ),
        decreases row,
    {
        row -= 1;
        let mut i: usize = 0;
        while i < width
            invariant
                row < height,
                i <= width,
                width * height <= usize::MAX,
                r@.len() == (height - 1 - row) * width + i,
                forall|k: int|
                    0 <= k < r@.len() ==> #[trigger] r@[k] == spec_pixel_index(
                        k % width as int,
                        height - 1 - k / width as int,
                        width as int,
                    ),
            decreases width - i,
        {
            let idx = pixel_index(i, row, width, height);
            proof {
                let k = r@.len() as int;
                let b = (height - 1 - row) as int;
                assert(k % width as int == i && k / width as int == b) by (nonlinear_arith)
                    requires
                        k == b * width + i,
                        0 <= i < width,
                        0 <= b,
                ;
            }
            r.push(idx);
            i += 1;
        }
        proof {
            assert((height - 1 - row) * width + width == (height - row) * width) by (nonlinear_arith);
        }
    }
    assert(height * width == width * height) by (nonlinear_arith);
    r
}

/// What happens to a ray at one step of a light path: it leaves the scene and
/// takes the background's radiance, it is absorbed, or it is scattered with
/// an attenuation into a new ray.
pub enum Bounce<C, R> {
    Miss(C),
    Absorbed,
    Scattered(C, R),
}

/// `rays` and `atts` are a path that `step` can take from `rays[0]`: each ray
/// but the last is scattered with the attenuation at its place into the next.
pub open spec fn is_path<C, R, F: Fn(R) -> Bounce<C, R>>(
    step: F,
    rays: Seq<R>,
    atts: Seq<C>,
) -> bool {
    &&& rays.len() == atts.len() + 1
    &&& forall|i: int|
        0 <= i < atts.len() ==> call_ensures(
            step,
            (rays[i],),
            Bounce::Scattered(atts[i], rays[i + 1]),
        )
}

/// Follows a light path from `ray` for at most `depth` steps. Returns the
/// attenuations met along the way, in order, and how the path ended: with the
/// background radiance of the ray that left the scene, or with nothing (black)
/// where a ray was absorbed or the steps ran out.
pub fn trace_path<C, R, F: Fn(R) -> Bounce<C, R>>(ray: R, depth: u32, step: &F) -> (r: (
    Vec<C>,
    Option<C>,
))
    requires
        forall|x: R| call_requires(*step, (x,)),
    ensures
        r.0@.len() <= depth,
        r.1 is Some ==> r.0@.len() < depth,
        exists|rays: Seq<R>|
            {
                &&& rays[0] == ray
                &&& is_path(*step, rays, r.0@)
                &&& match r.1 {
                    Some(c) => call_ensures(*step, (rays.last(),), Bounce::Miss(c)),
                    None => r.0@.len() == depth || call_ensures(
                        *step,
                        (rays.last(),),
                        Bounce::Absorbed,
                    ),
                }
            },
{
    let mut atts: Vec<C> = Vec::new();
    let mut cur = ray;
    let ghost rays: Seq<R> = seq![ray];
    let mut i: u32 = 0;
    while i < depth
        invariant
            forall|x: R| call_requires(*step, (x,)),
            i <= depth,
            atts@.len() == i,
            rays[0] == ray,
            rays.last() == cur,
            is_path(*step, rays, atts@),
        decreases depth - i,
    {
        let ghost before = cur;
        match step(cur) {
            Bounce::Miss(c) => {
                return (atts, Some(c));
            },
            Bounce::Absorbed => {
                return (atts, None);
            },
            Bounce::Scattered(a, next) => {
                proof {
                    rays = rays.push(next);
                }
                atts.push(a);
                cur = next;
            },
        }
        i += 1;
    }
    (atts, None)
}

/// How a render's samples are shared out among workers: each worker takes
/// `total / workers` samples of every pixel, and the image is the sum of what
/// they took divided by the number taken in all.
pub fn split_samples(total: u32, workers: u32) -> (r: (u32, u32))
    requires
        workers > 0,
    ensures
        r.0 == total / workers,
        r.1 == (total / workers) * workers,
        r.1 <= total,
{
    let per = total / workers;
    proof {
        assert(per * workers <= total) by (nonlinear_arith)
            requires
                per == total / workers,
                workers > 0,
        ;
    }
    (per, per * workers)
}

} // verus!
