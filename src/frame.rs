use vstd::prelude::*;

verus! {

/// Position of channel `c` of pixel `(x, y)` in the row-major, channel-interleaved
/// buffer of a frame that is `w` pixels wide.
pub open spec fn index_of(w: int, x: int, y: int, c: int) -> int {
    (y * w + x) * 3 + c
}

/// Pixel `(xx, yy)` comes before pixel `(x, y)` in row-major scan order.
pub open spec fn pixel_before(xx: int, yy: int, x: int, y: int) -> bool {
    yy < y || (yy == y && xx < x)
}

/// An owned `width x height` image with three 8-bit channels per pixel,
/// stored row by row with the channels of each pixel next to each other.
pub struct Frame {
    pub width: usize,
    pub height: usize,
    pub data: Vec<u8>,
}

impl Frame {
    /// The buffer holds exactly one byte per channel of every pixel.
    pub open spec fn wf(&self) -> bool {
        self.data@.len() == self.width * self.height * 3
    }

    pub open spec fn in_bounds(&self, x: int, y: int) -> bool {
        0 <= x < self.width && 0 <= y < self.height
    }

    /// Channel `c` of pixel `(x, y)`.
    pub open spec fn pixel(&self, x: int, y: int, c: int) -> u8 {
        self.data@[index_of(self.width as int, x, y, c)]
    }

    /// Channel `c` of the pixel that lands on `(x, y)` when the frame's origin is
    /// moved by `(dx, dy)`: the pixel at `(x + dx, y + dy)`, or black where that
    /// falls outside the frame.
    pub open spec fn shifted_pixel(&self, x: int, y: int, c: int, dx: int, dy: int) -> u8 {
        if self.in_bounds(x + dx, y + dy) {
            self.pixel(x + dx, y + dy, c)
        } else {
            0
        }
    }

    /// A frame without any pixel.
    pub open spec fn spec_is_empty(&self) -> bool {
        self.width == 0 || self.height == 0
    }

    /// Two frames of the same size hold the same pixels.
    pub open spec fn same_pixels(&self, other: &Frame) -> bool {
        &&& self.width == other.width
        &&& self.height == other.height
        &&& forall|x: int, y: int, c: int|
            self.in_bounds(x, y) && 0 <= c < 3 ==> #[trigger] self.pixel(x, y, c) == other.pixel(
                x,
                y,
                c,
            )
    }

    /// A `width x height` frame whose every pixel has the color `color`.
    pub fn filled(width: usize, height: usize, color: [u8; 3]) -> (r: Frame)
        requires
            width * height * 3 <= usize::MAX,
        ensures
            r.wf(),
            r.width == width,
            r.height == height,
            forall|x: int, y: int, c: int|
                r.in_bounds(x, y) && 0 <= c < 3 ==> #[trigger] r.pixel(x, y, c) == color[c],
    {
        let mut data: Vec<u8> = Vec::new();
        let mut y: usize = 0;
        while y < height
            invariant
                y <= height,
                width * height * 3 <= usize::MAX,
                data@.len() == y * width * 3,
                forall|xx: int, yy: int, cc: int|
                    0 <= xx < width && 0 <= yy < y && 0 <= cc < 3 ==> #[trigger] data@[index_of(
                        width as int,
                        xx,
                        yy,
                        cc,
                    )] == color[cc],
            decreases height - y,
        {
            let mut x: usize = 0;
            while x < width
                invariant
                    x <= width,
                    y < height,
                    width * height * 3 <= usize::MAX,
                    data@.len() == (y * width + x) * 3,
                    forall|xx: int, yy: int, cc: int|
                        0 <= xx < width && 0 <= yy && pixel_before(xx, yy, x as int, y as int) && 0
                            <= cc < 3 ==> #[trigger] data@[index_of(width as int, xx, yy, cc)]
                            == color[cc],
                decreases width - x,
            {
                proof {
                    lemma_row_fits(width as int, height as int, x as int, y as int);
                }
                let ghost before = data@;
                data.push(color[0]);
                data.push(color[1]);
                data.push(color[2]);
                proof {
                    assert forall|xx: int, yy: int, cc: int|
                        0 <= xx < width && 0 <= yy && pixel_before(
                            xx,
                            yy,
                            x + 1,
                            y as int,
                        ) && 0 <= cc < 3 implies #[trigger] data@[index_of(
                        width as int,
                        xx,
                        yy,
                        cc,
                    )] == color[cc] by {
                        if pixel_before(xx, yy, x as int, y as int) {
                            lemma_index_before(width as int, xx, yy, cc, x as int, y as int);
                            assert(data@[index_of(width as int, xx, yy, cc)] == before[index_of(
                                width as int,
                                xx,
                                yy,
                                cc,
                            )]);
                        } else {
                            assert(xx == x && yy == y);
                        }
                    }
                }
                x = x + 1;
            }
            proof {
                assert((y * width + width) * 3 == (y + 1) * width * 3) by (nonlinear_arith);
            }
            y = y + 1;
        }
        proof {
            assert(y * width * 3 == width * height * 3) by (nonlinear_arith)
                requires
                    y == height,
            ;
        }
        Frame { width, height, data }
    }

    /// A frame over `data`, when `data` holds exactly `width * height * 3` bytes.
    pub fn from_data(width: usize, height: usize, data: Vec<u8>) -> (r: Option<Frame>)
        ensures
            r.is_some() <==> data@.len() == width * height * 3,
            r.is_some() ==> r.unwrap().wf() && r.unwrap().width == width && r.unwrap().height
                == height && r.unwrap().data@ == data@,
    {
        let len = data.len();
        let pixels = width.checked_mul(height);
        match pixels {
            None => {
                proof {
                    assert(width * height * 3 > usize::MAX) by (nonlinear_arith)
                        requires
                            width * height > usize::MAX,
                    ;
                }
                None
            },
            Some(p) => {
                let bytes = p.checked_mul(3);
                match bytes {
                    None => None,
                    Some(n) => {
                        if len == n {
                            Some(Frame { width, height, data })
                        } else {
                            None
                        }
                    },
                }
            },
        }
    }

    /// Whether the frame has no pixel.
    pub fn is_empty(&self) -> (r: bool)
        ensures
            r == self.spec_is_empty(),
    {
        self.width == 0 || self.height == 0
    }

    /// Channel `c` of pixel `(x, y)`.
    pub fn get(&self, x: usize, y: usize, c: usize) -> (r: u8)
        requires
            self.wf(),
            x < self.width,
            y < self.height,
            c < 3,
        ensures
            r == self.pixel(x as int, y as int, c as int),
    {
        let len = self.data.len();
        proof {
            lemma_index_in_bounds(
                self.width as int,
                self.height as int,
                x as int,
                y as int,
                c as int,
            );
        }
        self.data[(y * self.width + x) * 3 + c]
    }

    /// Sets channel `c` of pixel `(x, y)` to `v`, leaving every other channel as it was.
    pub fn set(&mut self, x: usize, y: usize, c: usize, v: u8)
        requires
            old(self).wf(),
            x < old(self).width,
            y < old(self).height,
            c < 3,
        ensures
            final(self).wf(),
            final(self).width == old(self).width,
            final(self).height == old(self).height,
            final(self).pixel(x as int, y as int, c as int) == v,
            forall|xx: int, yy: int, cc: int|
                old(self).in_bounds(xx, yy) && 0 <= cc < 3 && (xx, yy, cc) != (x as int, y as int, c as int)
                    ==> #[trigger] final(self).pixel(xx, yy, cc) == old(self).pixel(xx, yy, cc),
    {
        let len = self.data.len();
        proof {
            lemma_index_in_bounds(
                self.width as int,
                self.height as int,
                x as int,
                y as int,
                c as int,
            );
        }
        let i = (y * self.width + x) * 3 + c;
        self.data.set(i, v);
        proof {
            assert forall|xx: int, yy: int, cc: int|
                old(self).in_bounds(xx, yy) && 0 <= cc < 3 && (xx, yy, cc) != (
                    x as int,
                    y as int,
                    c as int,
                ) implies #[trigger] self.pixel(xx, yy, cc) == old(self).pixel(xx, yy, cc) by {
                lemma_index_injective(self.width as int, xx, yy, cc, x as int, y as int, c as int);
                lemma_index_in_bounds(self.width as int, self.height as int, xx, yy, cc);
            }
        }
    }

    /// A copy of the frame.
    pub fn duplicate(&self) -> (r: Frame)
        ensures
            r.width == self.width,
            r.height == self.height,
            r.data@ == self.data@,
    {
        Frame { width: self.width, height: self.height, data: self.data.clone() }
    }
}

/// Every channel of every pixel of a `w x h` frame lies inside its buffer.
pub proof fn lemma_index_in_bounds(w: int, h: int, x: int, y: int, c: int)
    requires
        0 <= x < w,
        0 <= y < h,
        0 <= c < 3,
    ensures
        0 <= index_of(w, x, y, c) < w * h * 3,
        0 <= y * w + x < w * h,
{
    assert(0 <= y * w + x < w * h) by (nonlinear_arith)
        requires
            0 <= x < w,
            0 <= y < h,
    ;
    assert(0 <= index_of(w, x, y, c) < w * h * 3) by (nonlinear_arith)
        requires
            0 <= y * w + x < w * h,
            0 <= c < 3,
            index_of(w, x, y, c) == (y * w + x) * 3 + c,
    ;
}

/// A pixel that comes earlier in scan order than `(x, y)` is stored before it.
pub proof fn lemma_index_before(w: int, xx: int, yy: int, cc: int, x: int, y: int)
    requires
        0 <= xx < w,
        0 <= x <= w,
        0 <= yy,
        0 <= cc < 3,
        pixel_before(xx, yy, x, y),
    ensures
        0 <= index_of(w, xx, yy, cc) < (y * w + x) * 3,
{
    assert(0 <= yy * w + xx < y * w + x) by (nonlinear_arith)
        requires
            0 <= xx < w,
            0 <= x <= w,
            0 <= yy,
            yy < y || (yy == y && xx < x),
    ;
    assert(0 <= index_of(w, xx, yy, cc) < (y * w + x) * 3) by (nonlinear_arith)
        requires
            0 <= yy * w + xx < y * w + x,
            0 <= cc < 3,
            index_of(w, xx, yy, cc) == (yy * w + xx) * 3 + cc,
    ;
}

/// Distinct channels of pixels of a frame have distinct positions in its buffer.
pub proof fn lemma_index_injective(w: int, xx: int, yy: int, cc: int, x: int, y: int, c: int)
    requires
        0 <= xx < w,
        0 <= x < w,
        0 <= yy,
        0 <= y,
        0 <= cc < 3,
        0 <= c < 3,
        (xx, yy, cc) != (x, y, c),
    ensures
        index_of(w, xx, yy, cc) != index_of(w, x, y, c),
{
    if pixel_before(xx, yy, x, y) {
        lemma_index_before(w, xx, yy, cc, x, y);
    } else if pixel_before(x, y, xx, yy) {
        lemma_index_before(w, x, y, c, xx, yy);
    } else {
        assert(xx == x && yy == y);
    }
}

/// The bytes of the pixels up to and including `(x, y)` fit in the buffer.
pub proof fn lemma_row_fits(w: int, h: int, x: int, y: int)
    requires
        0 <= x < w,
        0 <= y < h,
    ensures
        (y * w + x) * 3 + 3 <= w * h * 3,
{
    lemma_index_in_bounds(w, h, x, y, 2);
}

} // verus!
