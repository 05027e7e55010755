use vstd::prelude::*;

use crate::frame::Frame;
use crate::shift_search::ShiftVector;
use crate::suppression::Rect;

verus! {

pub open spec fn fits_i32(v: int) -> bool {
    i32::MIN <= v <= i32::MAX
}

/// Half of `n`, rounded toward zero as integer division does.
pub open spec fn half_toward_zero(n: int) -> int {
    if n >= 0 {
        n / 2
    } else {
        -((-n) / 2)
    }
}

/// Left (or top) edge of a `window`-wide square centered in `extent` pixels;
/// negative when the square is wider than the span.
pub open spec fn centered_edge(extent: int, window: int) -> int {
    half_toward_zero(extent - window)
}

fn centered_edge_exec(extent: usize, window: usize) -> (r: i128)
    ensures
        r == centered_edge(extent as int, window as int),
{
    let n: i128 = extent as i128 - window as i128;
    if n >= 0 {
        n / 2
    } else {
        -((-n) / 2)
    }
}

/// The two measurement windows drawn on every feed, as `(moved, centered)`:
/// a `window`-wide square centered in a `width x height` frame, and the same
/// square moved by `offset`. A square wider than the frame still gets its
/// rectangles, starting left of (or above) the frame. `None` only when a
/// coordinate or the size does not fit in an `i32`.
pub fn window_rects(width: usize, height: usize, window: usize, offset: ShiftVector) -> (r: Option<
    (Rect, Rect),
>)
    ensures
        r.is_some() <==> {
            &&& fits_i32(window as int)
            &&& fits_i32(centered_edge(width as int, window as int))
            &&& fits_i32(centered_edge(height as int, window as int))
            &&& fits_i32(centered_edge(width as int, window as int) + offset.dx)
            &&& fits_i32(centered_edge(height as int, window as int) + offset.dy)
        },
        r.is_some() ==> {
            let (moved, center) = r.unwrap();
            &&& center == Rect {
                x: centered_edge(width as int, window as int) as i32,
                y: centered_edge(height as int, window as int) as i32,
                width: window as i32,
                height: window as i32,
            }
            &&& moved == Rect {
                x: (centered_edge(width as int, window as int) + offset.dx) as i32,
                y: (centered_edge(height as int, window as int) + offset.dy) as i32,
                width: window as i32,
                height: window as i32,
            }
        },
{
    if window > 0x7fff_ffff {
        return None;
    }
    let cx = centered_edge_exec(width, window);
    let cy = centered_edge_exec(height, window);
    if cx < -0x8000_0000 || cx > 0x7fff_ffff || cy < -0x8000_0000 || cy > 0x7fff_ffff {
        return None;
    }
    let mx = cx + offset.dx as i128;
    let my = cy + offset.dy as i128;
    if mx < -0x8000_0000 || mx > 0x7fff_ffff || my < -0x8000_0000 || my > 0x7fff_ffff {
        return None;
    }
    let w = window as i32;
    Some(
        (
            Rect { x: mx as i32, y: my as i32, width: w, height: w },
            Rect { x: cx as i32, y: cy as i32, width: w, height: w },
        ),
    )
}

/// Rectangle `r` lies inside `frame`.
pub open spec fn rect_inside(frame: &Frame, r: Rect) -> bool {
    &&& r.x >= 0
    &&& r.y >= 0
    &&& r.width >= 0
    &&& r.height >= 0
    &&& r.x + r.width <= frame.width
    &&& r.y + r.height <= frame.height
}

/// Channel `c` summed over the first `n` pixels of row `y` from column `x0`.
pub open spec fn row_sum(frame: &Frame, x0: int, y: int, n: int, c: int) -> int
    decreases n,
{
    if n <= 0 {
        0
    } else {
        row_sum(frame, x0, y, n - 1, c) + frame.pixel(x0 + n - 1, y, c)
    }
}

/// Channel `c` summed over the first `m` rows of the `w`-wide region at `(x0, y0)`.
pub open spec fn region_sum(frame: &Frame, x0: int, y0: int, w: int, m: int, c: int) -> int
    decreases m,
{
    if m <= 0 {
        0
    } else {
        region_sum(frame, x0, y0, w, m - 1, c) + row_sum(frame, x0, y0 + m - 1, w, c)
    }
}

proof fn lemma_row_sum_bound(frame: &Frame, x0: int, y: int, n: int, c: int)
    requires
        n >= 0,
    ensures
        0 <= row_sum(frame, x0, y, n, c) <= 255 * n,
    decreases n,
{
    if n > 0 {
        lemma_row_sum_bound(frame, x0, y, n - 1, c);
    }
}

/// Per-channel sums over `rect`, whose pixel count is `rect.width * rect.height`;
/// a caller divides to get channel means. `None` when `rect` is not inside `frame`.
pub fn region_sums(frame: &Frame, rect: Rect) -> (r: Option<[u128; 3]>)
    requires
        frame.wf(),
    ensures
        r.is_some() <==> rect_inside(frame, rect),
        r.is_some() ==> forall|c: int|
            0 <= c < 3 ==> #[trigger] r.unwrap()[c] as int == region_sum(
                frame,
                rect.x as int,
                rect.y as int,
                rect.width as int,
                rect.height as int,
                c,
            ),
{
    if rect.x < 0 || rect.y < 0 || rect.width < 0 || rect.height < 0 {
        return None;
    }
    let x0 = rect.x as usize;
    let y0 = rect.y as usize;
    let w = rect.width as usize;
    let h = rect.height as usize;
    if x0 > frame.width || w > frame.width - x0 || y0 > frame.height || h > frame.height - y0 {
        return None;
    }
    let mut sums: [u128; 3] = [0, 0, 0];
    let mut j: usize = 0;
    while j < h
        invariant
            frame.wf(),
            x0 + w <= frame.width,
            y0 + h <= frame.height,
            x0 == rect.x,
            y0 == rect.y,
            w == rect.width,
            h == rect.height,
            j <= h,
            forall|c: int|
                0 <= c < 3 ==> #[trigger] sums[c] as int == region_sum(
                    frame,
                    x0 as int,
                    y0 as int,
                    w as int,
                    j as int,
                    c,
                ),
            forall|c: int| 0 <= c < 3 ==> #[trigger] sums[c] <= 255 * (j * w),
            w <= 0x8000_0000,
            h <= 0x8000_0000,
        decreases h - j,
    {
        let mut i: usize = 0;
        let ghost start = sums;
        while i < w
            invariant
                frame.wf(),
                x0 + w <= frame.width,
                y0 + h <= frame.height,
                j < h,
                i <= w,
                forall|c: int|
                    0 <= c < 3 ==> #[trigger] sums[c] as int == start[c] as int + row_sum(
                        frame,
                        x0 as int,
                        (y0 + j) as int,
                        i as int,
                        c,
                    ),
                forall|c: int| 0 <= c < 3 ==> #[trigger] start[c] <= 255 * (j * w),
                forall|c: int| 0 <= c < 3 ==> #[trigger] sums[c] <= 255 * (j * w + i),
                w <= 0x8000_0000,
                h <= 0x8000_0000,
            decreases w - i,
        {
            proof {
                assert(j * w + i + 1 <= 0x8000_0000 * 0x8000_0000) by (nonlinear_arith)
                    requires
                        j < h,
                        i < w,
                        w <= 0x8000_0000,
                        h <= 0x8000_0000,
                ;
            }
            let p0 = frame.get(x0 + i, y0 + j, 0);
            let p1 = frame.get(x0 + i, y0 + j, 1);
            let p2 = frame.get(x0 + i, y0 + j, 2);
            sums = [sums[0] + p0 as u128, sums[1] + p1 as u128, sums[2] + p2 as u128];
            i = i + 1;
        }
        proof {
            assert(j * w + w == (j + 1) * w) by (nonlinear_arith);
        }
        j = j + 1;
    }
    Some(sums)
}

} // verus!
