//! Viewport culling of axis-aligned boxes: a box is visible when it
//! overlaps the viewport rectangle.

use vstd::prelude::*;

verus! {

/// Whether the box (x0, y0)-(x1, y1) overlaps the viewport
/// (vx0, vy0)-(vx1, vy1).
pub open spec fn visible(
    x0: i32,
    y0: i32,
    x1: i32,
    y1: i32,
    vx0: i32,
    vy0: i32,
    vx1: i32,
    vy1: i32,
) -> bool {
    !(x1 < vx0 || x0 > vx1 || y1 < vy0 || y0 > vy1)
}

/// Whether box `i` of a flat (x0, y0, x1, y1) box array overlaps the
/// viewport held in the first four entries of `vp`.
pub open spec fn box_visible(boxes: Seq<i32>, vp: Seq<i32>, i: int) -> bool
    recommends
        0 <= i,
        4 * i + 4 <= boxes.len(),
        vp.len() >= 4,
{
    visible(
        boxes[4 * i],
        boxes[4 * i + 1],
        boxes[4 * i + 2],
        boxes[4 * i + 3],
        vp[0],
        vp[1],
        vp[2],
        vp[3],
    )
}

/// Whether one box overlaps one viewport.
pub fn sage_is_visible(
    x0: i32,
    y0: i32,
    x1: i32,
    y1: i32,
    vx0: i32,
    vy0: i32,
    vx1: i32,
    vy1: i32,
) -> (r: bool)
    ensures
        r == visible(x0, y0, x1, y1, vx0, vy0, vx1, vy1),
{
    !(x1 < vx0 || x0 > vx1 || y1 < vy0 || y0 > vy1)
}

/// Collects, in increasing order, the indices of the boxes that overlap the
/// viewport: exactly the visible ones, each once.
pub fn sage_cull(boxes: &Vec<i32>, count: usize, viewport: &Vec<i32>) -> (r: Vec<usize>)
    requires
        4 * count <= boxes@.len(),
        viewport@.len() >= 4,
    ensures
        forall|k: int|
            0 <= k < r@.len() ==> (#[trigger] r@[k]) < count && box_visible(
                boxes@,
                viewport@,
                r@[k] as int,
            ),
        forall|k1: int, k2: int| 0 <= k1 < k2 < r@.len() ==> r@[k1] < r@[k2],
        forall|i: int| 0 <= i < count && box_visible(boxes@, viewport@, i) ==> r@.contains(
            i as usize,
        ),
{
    let mut out: Vec<usize> = Vec::new();
    let mut i: usize = 0;
    while i < count
        invariant
            4 * count <= boxes@.len(),
            viewport@.len() >= 4,
            0 <= i <= count,
            forall|k: int|
                0 <= k < out@.len() ==> (#[trigger] out@[k]) < i && box_visible(
                    boxes@,
                    viewport@,
                    out@[k] as int,
                ),
            forall|k1: int, k2: int| 0 <= k1 < k2 < out@.len() ==> out@[k1] < out@[k2],
            forall|ii: int|
                0 <= ii < i && box_visible(boxes@, viewport@, ii) ==> out@.contains(ii as usize),
        decreases count - i,
    {
        let ghost pre = out@;
        let _nb = boxes.len();
        proof {
            assert(4 * (i as int) + 4 <= 4 * (count as int)) by (nonlinear_arith)
                requires
                    (i as int) < (count as int),
            ;
        }
        let base = i * 4;
        let x0 = boxes[base];
        let y0 = boxes[base + 1];
        let x1 = boxes[base + 2];
        let y1 = boxes[base + 3];
        if !(x1 < viewport[0] || x0 > viewport[2] || y1 < viewport[1] || y0 > viewport[3]) {
            out.push(i);
        }
        proof {
            assert forall|ii: int|
                0 <= ii < i as int + 1 && box_visible(boxes@, viewport@, ii) implies out@.contains(
                ii as usize,
            ) by {
                if ii < i as int {
                    assert(pre.contains(ii as usize));
                    let k = choose|k: int| 0 <= k < pre.len() && pre[k] == ii as usize;
                    assert(out@[k] == ii as usize);
                } else {
                    assert(out@[out@.len() - 1] == i);
                }
            }
        }
        i = i + 1;
    }
    out
}

} // verus!
