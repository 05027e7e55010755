use vstd::prelude::*;

use crate::error::AlignmentError;
use crate::frame::{index_of, lemma_index_before, lemma_index_in_bounds, pixel_before, Frame};
use crate::shift_search::{abs_diff, ShiftVector};

verus! {

/// `out` is `feed` with its origin moved by `(dx, dy)`, black where nothing maps.
pub open spec fn is_shifted(feed: &Frame, out: &Frame, dx: int, dy: int) -> bool {
    &&& out.wf()
    &&& out.width == feed.width
    &&& out.height == feed.height
    &&& forall|x: int, y: int, c: int|
        out.in_bounds(x, y) && 0 <= c < 3 ==> #[trigger] out.pixel(x, y, c) == feed.shifted_pixel(
            x,
            y,
            c,
            dx,
            dy,
        )
}

/// Difference of `a` and `b` after values under `threshold` are zeroed; a threshold
/// of zero keeps every difference.
pub open spec fn thresholded_diff(a: u8, b: u8, threshold: u8) -> int {
    if abs_diff(a, b) < threshold {
        0
    } else {
        abs_diff(a, b)
    }
}

/// `out` holds, channel by channel, the absolute difference of `a` and `b`, with
/// differences under `threshold` set to zero.
pub open spec fn is_diff(a: &Frame, b: &Frame, threshold: u8, out: &Frame) -> bool {
    &&& out.wf()
    &&& out.width == a.width
    &&& out.height == a.height
    &&& forall|x: int, y: int, c: int|
        out.in_bounds(x, y) && 0 <= c < 3 ==> #[trigger] out.pixel(x, y, c) as int
            == thresholded_diff(a.pixel(x, y, c), b.pixel(x, y, c), threshold)
}

fn shifted_get(feed: &Frame, x: usize, y: usize, c: usize, dx: i64, dy: i64) -> (r: u8)
    requires
        feed.wf(),
        c < 3,
    ensures
        r == feed.shifted_pixel(x as int, y as int, c as int, dx as int, dy as int),
{
    let sx: i128 = x as i128 + dx as i128;
    let sy: i128 = y as i128 + dy as i128;
    if 0 <= sx && sx < feed.width as i128 && 0 <= sy && sy < feed.height as i128 {
        feed.get(sx as usize, sy as usize, c)
    } else {
        0
    }
}

/// Moves the origin of `feed` by `shift`: the pixel at `(x + dx, y + dy)` lands
/// on `(x, y)`, and pixels that nothing maps onto are black.
pub fn apply_shift(feed: &Frame, shift: ShiftVector) -> (r: Frame)
    requires
        feed.wf(),
    ensures
        is_shifted(feed, &r, shift.dx as int, shift.dy as int),
{
    let width = feed.width;
    let height = feed.height;
    let mut data: Vec<u8> = Vec::new();
    let mut y: usize = 0;
    while y < height
        invariant
            feed.wf(),
            width == feed.width,
            height == feed.height,
            y <= height,
            data@.len() == y * width * 3,
            forall|xx: int, yy: int, cc: int|
                0 <= xx < width && 0 <= yy < y && 0 <= cc < 3 ==> #[trigger] data@[index_of(
                    width as int,
                    xx,
                    yy,
                    cc,
                )] == feed.shifted_pixel(xx, yy, cc, shift.dx as int, shift.dy as int),
        decreases height - y,
    {
        let mut x: usize = 0;
        while x < width
            invariant
                feed.wf(),
                width == feed.width,
                height == feed.height,
                x <= width,
                y < height,
                data@.len() == (y * width + x) * 3,
                forall|xx: int, yy: int, cc: int|
                    0 <= xx < width && 0 <= yy && pixel_before(xx, yy, x as int, y as int) && 0
                        <= cc < 3 ==> #[trigger] data@[index_of(width as int, xx, yy, cc)]
                        == feed.shifted_pixel(xx, yy, cc, shift.dx as int, shift.dy as int),
            decreases width - x,
        {
            let ghost before = data@;
            data.push(shifted_get(feed, x, y, 0, shift.dx, shift.dy));
            data.push(shifted_get(feed, x, y, 1, shift.dx, shift.dy));
            data.push(shifted_get(feed, x, y, 2, shift.dx, shift.dy));
            proof {
                assert forall|xx: int, yy: int, cc: int|
                    0 <= xx < width && 0 <= yy && pixel_before(xx, yy, x + 1, y as int) && 0 <= cc
                        < 3 implies #[trigger] data@[index_of(width as int, xx, yy, cc)]
                    == feed.shifted_pixel(xx, yy, cc, shift.dx as int, shift.dy as int) by {
                    if pixel_before(xx, yy, x as int, y as int) {
                        lemma_index_before(width as int, xx, yy, cc, x as int, y as int);
                        assert(data@[index_of(width as int, xx, yy, cc)] == before[index_of(
                            width as int,
                            xx,
                            yy,
                            cc,
                        )]);
                    } else {
                        assert(xx == x && yy == y);
                    }
                }
            }
            x = x + 1;
        }
        proof {
            assert((y * width + width) * 3 == (y + 1) * width * 3) by (nonlinear_arith);
        }
        y = y + 1;
    }
    proof {
        assert(y * width * 3 == width * height * 3) by (nonlinear_arith)
            requires
                y == height,
        ;
    }
    Frame { width, height, data }
}

/// `out` is `feed` mirrored: columns reversed when `mirror_x`, rows reversed
/// when `mirror_y`.
pub open spec fn is_flipped(feed: &Frame, out: &Frame, mirror_x: bool, mirror_y: bool) -> bool {
    &&& out.wf()
    &&& out.width == feed.width
    &&& out.height == feed.height
    &&& forall|x: int, y: int, c: int|
        out.in_bounds(x, y) && 0 <= c < 3 ==> #[trigger] out.pixel(x, y, c) == feed.pixel(
            if mirror_x {
                feed.width - 1 - x
            } else {
                x
            },
            if mirror_y {
                feed.height - 1 - y
            } else {
                y
            },
            c,
        )
}

/// `out` shows channel `c` of `feed` alone, copied into all three channels.
pub open spec fn is_channel_plane(feed: &Frame, c: int, out: &Frame) -> bool {
    &&& out.wf()
    &&& out.width == feed.width
    &&& out.height == feed.height
    &&& forall|x: int, y: int, k: int|
        out.in_bounds(x, y) && 0 <= k < 3 ==> #[trigger] out.pixel(x, y, k) == feed.pixel(x, y, c)
}

/// Mirrors `feed` horizontally (`mirror_x`), vertically (`mirror_y`), or both.
pub fn flip(feed: &Frame, mirror_x: bool, mirror_y: bool) -> (r: Frame)
    requires
        feed.wf(),
    ensures
        is_flipped(feed, &r, mirror_x, mirror_y),
{
    let width = feed.width;
    let height = feed.height;
    let mut data: Vec<u8> = Vec::new();
    let mut y: usize = 0;
    while y < height
        invariant
            feed.wf(),
            width == feed.width,
            height == feed.height,
            y <= height,
            data@.len() == y * width * 3,
            forall|xx: int, yy: int, cc: int|
                0 <= xx < width && 0 <= yy < y && 0 <= cc < 3 ==> #[trigger] data@[index_of(
                    width as int,
                    xx,
                    yy,
                    cc,
                )] == feed.pixel(
                    if mirror_x {
                        width - 1 - xx
                    } else {
                        xx
                    },
                    if mirror_y {
                        height - 1 - yy
                    } else {
                        yy
                    },
                    cc,
                ),
        decreases height - y,
    {
        let sy = if mirror_y {
            height - 1 - y
        } else {
            y
        };
        let mut x: usize = 0;
        while x < width
            invariant
                feed.wf(),
                width == feed.width,
                height == feed.height,
                x <= width,
                y < height,
                sy == (if mirror_y {
                    height - 1 - y
                } else {
                    y as int
                }),
                data@.len() == (y * width + x) * 3,
                forall|xx: int, yy: int, cc: int|
                    0 <= xx < width && 0 <= yy && pixel_before(xx, yy, x as int, y as int) && 0
                        <= cc < 3 ==> #[trigger] data@[index_of(width as int, xx, yy, cc)]
                        == feed.pixel(
                        if mirror_x {
                            width - 1 - xx
                        } else {
                            xx
                        },
                        if mirror_y {
                            height - 1 - yy
                        } else {
                            yy
                        },
                        cc,
                    ),
            decreases width - x,
        {
            let sx = if mirror_x {
                width - 1 - x
            } else {
                x
            };
            let ghost before = data@;
            data.push(feed.get(sx, sy, 0));
            data.push(feed.get(sx, sy, 1));
            data.push(feed.get(sx, sy, 2));
            proof {
                assert forall|xx: int, yy: int, cc: int|
                    0 <= xx < width && 0 <= yy && pixel_before(xx, yy, x + 1, y as int) && 0 <= cc
                        < 3 implies #[trigger] data@[index_of(width as int, xx, yy, cc)]
                    == feed.pixel(
                    if mirror_x {
                        width - 1 - xx
                    } else {
                        xx
                    },
                    if mirror_y {
                        height - 1 - yy
                    } else {
                        yy
                    },
                    cc,
                ) by {
                    if pixel_before(xx, yy, x as int, y as int) {
                        lemma_index_before(width as int, xx, yy, cc, x as int, y as int);
                        assert(data@[index_of(width as int, xx, yy, cc)] == before[index_of(
                            width as int,
                            xx,
                            yy,
                            cc,
                        )]);
                    } else {
                        assert(xx == x && yy == y);
                    }
                }
            }
            x = x + 1;
        }
        proof {
            assert((y * width + width) * 3 == (y + 1) * width * 3) by (nonlinear_arith);
        }
        y = y + 1;
    }
    proof {
        assert(y * width * 3 == width * height * 3) by (nonlinear_arith)
            requires
                y == height,
        ;
    }
    Frame { width, height, data }
}

/// Channel `c` of `feed` on its own, as a gray frame.
pub fn channel_plane(feed: &Frame, c: usize) -> (r: Frame)
    requires
        feed.wf(),
        c < 3,
    ensures
        is_channel_plane(feed, c as int, &r),
{
    let width = feed.width;
    let height = feed.height;
    let mut data: Vec<u8> = Vec::new();
    let mut y: usize = 0;
    while y < height
        invariant
            feed.wf(),
            c < 3,
            width == feed.width,
            height == feed.height,
            y <= height,
            data@.len() == y * width * 3,
            forall|xx: int, yy: int, cc: int|
                0 <= xx < width && 0 <= yy < y && 0 <= cc < 3 ==> #[trigger] data@[index_of(
                    width as int,
                    xx,
                    yy,
                    cc,
                )] == feed.pixel(xx, yy, c as int),
        decreases height - y,
    {
        let mut x: usize = 0;
        while x < width
            invariant
                feed.wf(),
                c < 3,
                width == feed.width,
                height == feed.height,
                x <= width,
                y < height,
                data@.len() == (y * width + x) * 3,
                forall|xx: int, yy: int, cc: int|
                    0 <= xx < width && 0 <= yy && pixel_before(xx, yy, x as int, y as int) && 0
                        <= cc < 3 ==> #[trigger] data@[index_of(width as int, xx, yy, cc)]
                        == feed.pixel(xx, yy, c as int),
            decreases width - x,
        {
            let v = feed.get(x, y, c);
            let ghost before = data@;
            data.push(v);
            data.push(v);
            data.push(v);
            proof {
                assert forall|xx: int, yy: int, cc: int|
                    0 <= xx < width && 0 <= yy && pixel_before(xx, yy, x + 1, y as int) && 0 <= cc
                        < 3 implies #[trigger] data@[index_of(width as int, xx, yy, cc)]
                    == feed.pixel(xx, yy, c as int) by {
                    if pixel_before(xx, yy, x as int, y as int) {
                        lemma_index_before(width as int, xx, yy, cc, x as int, y as int);
                        assert(data@[index_of(width as int, xx, yy, cc)] == before[index_of(
                            width as int,
                            xx,
                            yy,
                            cc,
                        )]);
                    } else {
                        assert(xx == x && yy == y);
                    }
                }
            }
            x = x + 1;
        }
        proof {
            assert((y * width + width) * 3 == (y + 1) * width * 3) by (nonlinear_arith);
        }
        y = y + 1;
    }
    proof {
        assert(y * width * 3 == width * height * 3) by (nonlinear_arith)
            requires
                y == height,
        ;
    }
    Frame { width, height, data }
}

/// Channel-wise absolute difference of two frames of the same size, with
/// differences under `threshold` set to zero to suppress sensor noise.
pub fn diff_thresholded(a: &Frame, b: &Frame, threshold: u8) -> (r: Result<Frame, AlignmentError>)
    requires
        a.wf(),
        b.wf(),
    ensures
        r.is_err() <==> (a.width != b.width || a.height != b.height),
        r.is_err() ==> r == Err::<Frame, AlignmentError>(AlignmentError::DimensionMismatch),
        r.is_ok() ==> is_diff(a, b, threshold, &r.unwrap()),
{
    if a.width != b.width || a.height != b.height {
        return Err(AlignmentError::DimensionMismatch);
    }
    let n = a.data.len();
    let mut data: Vec<u8> = Vec::new();
    let mut k: usize = 0;
    while k < n
        invariant
            a.wf(),
            b.wf(),
            a.width == b.width,
            a.height == b.height,
            n == a.data@.len(),
            k <= n,
            data@.len() == k,
            forall|i: int|
                0 <= i < k ==> #[trigger] data@[i] as int == thresholded_diff(
                    a.data@[i],
                    b.data@[i],
                    threshold,
                ),
        decreases n - k,
    {
        let u = a.data[k];
        let v = b.data[k];
        let d = if u >= v {
            u - v
        } else {
            v - u
        };
        let t = if d < threshold {
            0
        } else {
            d
        };
        data.push(t);
        k = k + 1;
    }
    let out = Frame { width: a.width, height: a.height, data };
    proof {
        assert forall|x: int, y: int, c: int|
            out.in_bounds(x, y) && 0 <= c < 3 implies #[trigger] out.pixel(x, y, c) as int
            == thresholded_diff(a.pixel(x, y, c), b.pixel(x, y, c), threshold) by {
            lemma_index_in_bounds(a.width as int, a.height as int, x, y, c);
        }
    }
    Ok(out)
}

/// Channel-wise absolute difference of two frames of the same size.
pub fn diff(a: &Frame, b: &Frame) -> (r: Result<Frame, AlignmentError>)
    requires
        a.wf(),
        b.wf(),
    ensures
        r.is_err() <==> (a.width != b.width || a.height != b.height),
        r.is_err() ==> r == Err::<Frame, AlignmentError>(AlignmentError::DimensionMismatch),
        r.is_ok() ==> is_diff(a, b, 0, &r.unwrap()),
{
    diff_thresholded(a, b, 0)
}

/// The difference of a frame with itself is black.
pub proof fn lemma_diff_self_is_black(a: &Frame, threshold: u8, out: &Frame)
    requires
        is_diff(a, a, threshold, out),
    ensures
        forall|x: int, y: int, c: int|
            out.in_bounds(x, y) && 0 <= c < 3 ==> #[trigger] out.pixel(x, y, c) == 0,
{
    assert forall|x: int, y: int, c: int| out.in_bounds(x, y) && 0 <= c < 3 implies #[trigger] out.pixel(
        x,
        y,
        c,
    ) == 0 by {
        assert(out.pixel(x, y, c) as int == thresholded_diff(a.pixel(x, y, c), a.pixel(x, y, c), threshold));
    }
}

/// The difference does not depend on the order of its operands.
pub proof fn lemma_diff_symmetric(a: &Frame, b: &Frame, threshold: u8, ab: &Frame, ba: &Frame)
    requires
        a.width == b.width,
        a.height == b.height,
        is_diff(a, b, threshold, ab),
        is_diff(b, a, threshold, ba),
    ensures
        ab.same_pixels(ba),
{
    assert forall|x: int, y: int, c: int| ab.in_bounds(x, y) && 0 <= c < 3 implies #[trigger] ab.pixel(
        x,
        y,
        c,
    ) == ba.pixel(x, y, c) by {
        assert(ab.pixel(x, y, c) as int == thresholded_diff(a.pixel(x, y, c), b.pixel(x, y, c), threshold));
        assert(ba.pixel(x, y, c) as int == thresholded_diff(b.pixel(x, y, c), a.pixel(x, y, c), threshold));
    }
}

/// Moving the origin by `(dx, dy)` and then back by `(-dx, -dy)` restores every
/// pixel whose source survived the first move; the others are black.
pub proof fn lemma_shift_round_trip(feed: &Frame, moved: &Frame, back: &Frame, dx: int, dy: int)
    requires
        is_shifted(feed, moved, dx, dy),
        is_shifted(moved, back, -dx, -dy),
    ensures
        back.width == feed.width,
        back.height == feed.height,
        forall|x: int, y: int, c: int|
            back.in_bounds(x, y) && 0 <= c < 3 ==> #[trigger] back.pixel(x, y, c) == (if feed.in_bounds(
                x - dx,
                y - dy,
            ) {
                feed.pixel(x, y, c)
            } else {
                0
            }),
{
    assert forall|x: int, y: int, c: int| back.in_bounds(x, y) && 0 <= c < 3 implies #[trigger] back.pixel(
        x,
        y,
        c,
    ) == (if feed.in_bounds(x - dx, y - dy) {
        feed.pixel(x, y, c)
    } else {
        0
    }) by {
        if moved.in_bounds(x - dx, y - dy) {
            assert(moved.pixel(x - dx, y - dy, c) == feed.shifted_pixel(x - dx, y - dy, c, dx, dy));
            assert(x - dx + dx == x && y - dy + dy == y);
        }
    }
}

} // verus!
