use vstd::prelude::*;

use crate::error::AlignmentError;
use crate::frame::Frame;

verus! {

/// An integer translation, in pixels, applied to the origin of the second feed.
#[derive(PartialEq, Eq, Structural, Clone, Copy, Debug)]
pub struct ShiftVector {
    pub dx: i64,
    pub dy: i64,
}

pub open spec fn abs_diff(a: u8, b: u8) -> int {
    if a >= b {
        a - b
    } else {
        b - a
    }
}

/// Left (or top) edge of a `window`-wide square centered in a span of `extent` pixels.
pub open spec fn centered(extent: int, window: int) -> int {
    (extent - window) / 2
}

/// Summed absolute difference over the three channels of pixel `(rx, ry)` of
/// `reference` and pixel `(cx, cy)` of `candidate`.
pub open spec fn pixel_cost(
    reference: &Frame,
    candidate: &Frame,
    rx: int,
    ry: int,
    cx: int,
    cy: int,
) -> int {
    abs_diff(reference.pixel(rx, ry, 0), candidate.pixel(cx, cy, 0)) + abs_diff(
        reference.pixel(rx, ry, 1),
        candidate.pixel(cx, cy, 1),
    ) + abs_diff(reference.pixel(rx, ry, 2), candidate.pixel(cx, cy, 2))
}

/// Cost of the first `n` pixels of row `j` of the window: the centered square of
/// `reference` against the square of `candidate` whose top-left corner is `(a, b)`.
pub open spec fn row_cost(
    reference: &Frame,
    candidate: &Frame,
    window: int,
    a: int,
    b: int,
    j: int,
    n: int,
) -> int
    decreases n,
{
    if n <= 0 {
        0
    } else {
        row_cost(reference, candidate, window, a, b, j, n - 1) + pixel_cost(
            reference,
            candidate,
            centered(reference.width as int, window) + n - 1,
            centered(reference.height as int, window) + j,
            a + n - 1,
            b + j,
        )
    }
}

/// Cost of the first `m` rows of the window placed at `(a, b)` in `candidate`.
pub open spec fn rows_cost(
    reference: &Frame,
    candidate: &Frame,
    window: int,
    a: int,
    b: int,
    m: int,
) -> int
    decreases m,
{
    if m <= 0 {
        0
    } else {
        rows_cost(reference, candidate, window, a, b, m - 1) + row_cost(
            reference,
            candidate,
            window,
            a,
            b,
            m - 1,
            window,
        )
    }
}

/// Total absolute difference between the centered `window x window` square of
/// `reference` and the square of `candidate` at `(a, b)`. It is the sum over
/// the channels of the mean absolute difference, times the constant `window * window`,
/// so it orders offsets exactly as that sum does.
pub open spec fn offset_cost(
    reference: &Frame,
    candidate: &Frame,
    window: int,
    a: int,
    b: int,
) -> int {
    rows_cost(reference, candidate, window, a, b, window)
}

/// The square at `(a, b)` fits inside `candidate`.
pub open spec fn offset_in_range(candidate: &Frame, window: int, a: int, b: int) -> bool {
    0 <= a <= candidate.width - window && 0 <= b <= candidate.height - window
}

/// Offset `(pa, pb)` is visited before `(a, b)`: offsets are scanned with `a` in
/// the outer loop and `b` in the inner one.
pub open spec fn offset_before(pa: int, pb: int, a: int, b: int) -> bool {
    pa < a || (pa == a && pb < b)
}

/// `(a, b)` has the least cost, and every offset visited before it costs strictly more.
pub open spec fn is_first_min(
    reference: &Frame,
    candidate: &Frame,
    window: int,
    a: int,
    b: int,
) -> bool {
    &&& offset_in_range(candidate, window, a, b)
    &&& forall|pa: int, pb: int|
        offset_in_range(candidate, window, pa, pb) ==> #[trigger] offset_cost(
            reference,
            candidate,
            window,
            pa,
            pb,
        ) >= offset_cost(reference, candidate, window, a, b)
    &&& forall|pa: int, pb: int|
        offset_in_range(candidate, window, pa, pb) && offset_before(pa, pb, a, b)
            ==> #[trigger] offset_cost(reference, candidate, window, pa, pb) > offset_cost(
            reference,
            candidate,
            window,
            a,
            b,
        )
}

/// The window fits strictly inside both frames.
pub open spec fn window_fits(reference: &Frame, candidate: &Frame, window: int) -> bool {
    &&& 0 < window
    &&& window < reference.width
    &&& window < reference.height
    &&& window < candidate.width
    &&& window < candidate.height
}

/// The shift that moves the centered placement in `candidate` onto `(a, b)`.
pub open spec fn shift_for(candidate: &Frame, window: int, a: int, b: int) -> ShiftVector {
    ShiftVector {
        dx: (a - centered(candidate.width as int, window)) as i64,
        dy: (b - centered(candidate.height as int, window)) as i64,
    }
}

/// What the translational search returns: an error for an empty frame or a window
/// that does not fit, else the shift of the first offset of least cost.
pub open spec fn search_result(reference: &Frame, candidate: &Frame, window: int) -> Result<
    ShiftVector,
    AlignmentError,
> {
    if reference.spec_is_empty() || candidate.spec_is_empty() {
        Err(AlignmentError::EmptyFrame)
    } else if !window_fits(reference, candidate, window) {
        Err(AlignmentError::InvalidWindowSize)
    } else {
        let p = choose|p: (int, int)| is_first_min(reference, candidate, window, p.0, p.1);
        Ok(shift_for(candidate, window, p.0, p.1))
    }
}

/// At most one offset is the first of least cost.
pub proof fn lemma_first_min_unique(
    reference: &Frame,
    candidate: &Frame,
    window: int,
    a: int,
    b: int,
    a2: int,
    b2: int,
)
    requires
        is_first_min(reference, candidate, window, a, b),
        is_first_min(reference, candidate, window, a2, b2),
    ensures
        a == a2 && b == b2,
{
    let c1 = offset_cost(reference, candidate, window, a, b);
    let c2 = offset_cost(reference, candidate, window, a2, b2);
    assert(c1 >= c2);
    assert(c2 >= c1);
    if offset_before(a, b, a2, b2) {
        assert(c1 > c2);
    } else if offset_before(a2, b2, a, b) {
        assert(c2 > c1);
    }
}

/// When `(a, b)` is the first offset of least cost, the search returns its shift.
pub proof fn lemma_search_result_at(
    reference: &Frame,
    candidate: &Frame,
    window: int,
    a: int,
    b: int,
)
    requires
        !reference.spec_is_empty(),
        !candidate.spec_is_empty(),
        window_fits(reference, candidate, window),
        is_first_min(reference, candidate, window, a, b),
    ensures
        search_result(reference, candidate, window) == Ok::<ShiftVector, AlignmentError>(
            shift_for(candidate, window, a, b),
        ),
{
    let p = choose|p: (int, int)| is_first_min(reference, candidate, window, p.0, p.1);
    assert(is_first_min(reference, candidate, window, (a, b).0, (a, b).1));
    lemma_first_min_unique(reference, candidate, window, a, b, p.0, p.1);
}

/// Costs are never negative.
pub proof fn lemma_cost_nonneg(
    reference: &Frame,
    candidate: &Frame,
    window: int,
    a: int,
    b: int,
    m: int,
)
    ensures
        rows_cost(reference, candidate, window, a, b, m) >= 0,
    decreases m,
{
    if m > 0 {
        lemma_cost_nonneg(reference, candidate, window, a, b, m - 1);
        lemma_row_cost_nonneg(reference, candidate, window, a, b, m - 1, window);
    }
}

pub proof fn lemma_row_cost_nonneg(
    reference: &Frame,
    candidate: &Frame,
    window: int,
    a: int,
    b: int,
    j: int,
    n: int,
)
    ensures
        row_cost(reference, candidate, window, a, b, j, n) >= 0,
    decreases n,
{
    if n > 0 {
        lemma_row_cost_nonneg(reference, candidate, window, a, b, j, n - 1);
    }
}

/// The cost of a placement vanishes when every pixel of the window matches.
pub proof fn lemma_cost_zero(
    reference: &Frame,
    candidate: &Frame,
    window: int,
    a: int,
    b: int,
    m: int,
)
    requires
        m <= window,
        forall|i: int, j: int|
            0 <= i < window && 0 <= j < window ==> #[trigger] pixel_cost(
                reference,
                candidate,
                centered(reference.width as int, window) + i,
                centered(reference.height as int, window) + j,
                a + i,
                b + j,
            ) == 0,
    ensures
        rows_cost(reference, candidate, window, a, b, m) == 0,
    decreases m,
{
    if m > 0 {
        lemma_cost_zero(reference, candidate, window, a, b, m - 1);
        lemma_row_cost_zero(reference, candidate, window, a, b, m - 1, window);
    }
}

pub proof fn lemma_row_cost_zero(
    reference: &Frame,
    candidate: &Frame,
    window: int,
    a: int,
    b: int,
    j: int,
    n: int,
)
    requires
        0 <= j < window,
        n <= window,
        forall|i: int, j: int|
            0 <= i < window && 0 <= j < window ==> #[trigger] pixel_cost(
                reference,
                candidate,
                centered(reference.width as int, window) + i,
                centered(reference.height as int, window) + j,
                a + i,
                b + j,
            ) == 0,
    ensures
        row_cost(reference, candidate, window, a, b, j, n) == 0,
    decreases n,
{
    if n > 0 {
        lemma_row_cost_zero(reference, candidate, window, a, b, j, n - 1);
        assert(pixel_cost(
            reference,
            candidate,
            centered(reference.width as int, window) + (n - 1),
            centered(reference.height as int, window) + j,
            a + (n - 1),
            b + j,
        ) == 0);
    }
}

/// On two frames of one uniform color every offset costs the same, so the search
/// returns the first offset scanned, `(0, 0)`, relative to the centered placement.
pub proof fn lemma_search_uniform_picks_first(
    reference: &Frame,
    candidate: &Frame,
    window: int,
    color: [u8; 3],
)
    requires
        reference.wf(),
        candidate.wf(),
        !reference.spec_is_empty(),
        !candidate.spec_is_empty(),
        window_fits(reference, candidate, window),
        forall|x: int, y: int, c: int|
            reference.in_bounds(x, y) && 0 <= c < 3 ==> #[trigger] reference.pixel(x, y, c)
                == color[c],
        forall|x: int, y: int, c: int|
            candidate.in_bounds(x, y) && 0 <= c < 3 ==> #[trigger] candidate.pixel(x, y, c)
                == color[c],
    ensures
        search_result(reference, candidate, window) == Ok::<ShiftVector, AlignmentError>(
            ShiftVector {
                dx: (0 - centered(candidate.width as int, window)) as i64,
                dy: (0 - centered(candidate.height as int, window)) as i64,
            },
        ),
{
    let ox = centered(reference.width as int, window);
    let oy = centered(reference.height as int, window);
    assert forall|i: int, j: int| 0 <= i < window && 0 <= j < window implies #[trigger] pixel_cost(
        reference,
        candidate,
        ox + i,
        oy + j,
        0 + i,
        0 + j,
    ) == 0 by {
        assert(reference.pixel(ox + i, oy + j, 0) == candidate.pixel(i, j, 0));
        assert(reference.pixel(ox + i, oy + j, 1) == candidate.pixel(i, j, 1));
        assert(reference.pixel(ox + i, oy + j, 2) == candidate.pixel(i, j, 2));
    }
    lemma_cost_zero(reference, candidate, window, 0, 0, window);
    assert forall|pa: int, pb: int| offset_in_range(candidate, window, pa, pb) implies #[trigger] offset_cost(
        reference,
        candidate,
        window,
        pa,
        pb,
    ) >= offset_cost(reference, candidate, window, 0, 0) by {
        lemma_cost_nonneg(reference, candidate, window, pa, pb, window);
    }
    assert(is_first_min(reference, candidate, window, 0, 0));
    lemma_search_result_at(reference, candidate, window, 0, 0);
}

/// When `candidate` shows `reference` with its origin moved by `(dx, dy)`
/// wherever both frames have the pixel (whatever lies outside the overlap), the moved
/// window still lies inside the frame, and no other placement matches exactly
/// (the content has enough texture), the search recovers `(-dx, -dy)`.
pub proof fn lemma_search_recovers_translation(
    reference: &Frame,
    candidate: &Frame,
    window: int,
    dx: int,
    dy: int,
)
    requires
        reference.wf(),
        candidate.wf(),
        !reference.spec_is_empty(),
        candidate.width == reference.width,
        candidate.height == reference.height,
        window_fits(reference, candidate, window),
        forall|x: int, y: int, c: int|
            candidate.in_bounds(x, y) && reference.in_bounds(x + dx, y + dy) && 0 <= c < 3
                ==> #[trigger] candidate.pixel(x, y, c) == reference.pixel(x + dx, y + dy, c),
        offset_in_range(
            candidate,
            window,
            centered(reference.width as int, window) - dx,
            centered(reference.height as int, window) - dy,
        ),
        forall|pa: int, pb: int|
            offset_in_range(candidate, window, pa, pb) && (pa, pb) != (centered(
                reference.width as int,
                window,
            ) - dx, centered(reference.height as int, window) - dy) ==> #[trigger] offset_cost(
                reference,
                candidate,
                window,
                pa,
                pb,
            ) > 0,
    ensures
        search_result(reference, candidate, window) == Ok::<ShiftVector, AlignmentError>(
            ShiftVector { dx: (-dx) as i64, dy: (-dy) as i64 },
        ),
{
    let ox = centered(reference.width as int, window);
    let oy = centered(reference.height as int, window);
    let a0 = ox - dx;
    let b0 = oy - dy;
    assert forall|i: int, j: int| 0 <= i < window && 0 <= j < window implies #[trigger] pixel_cost(
        reference,
        candidate,
        ox + i,
        oy + j,
        a0 + i,
        b0 + j,
    ) == 0 by {
        assert(candidate.in_bounds(a0 + i, b0 + j));
        assert(reference.in_bounds(a0 + i + dx, b0 + j + dy));
        assert(candidate.pixel(a0 + i, b0 + j, 0) == reference.pixel(a0 + i + dx, b0 + j + dy, 0));
        assert(candidate.pixel(a0 + i, b0 + j, 1) == reference.pixel(a0 + i + dx, b0 + j + dy, 1));
        assert(candidate.pixel(a0 + i, b0 + j, 2) == reference.pixel(a0 + i + dx, b0 + j + dy, 2));
    }
    lemma_cost_zero(reference, candidate, window, a0, b0, window);
    assert forall|pa: int, pb: int| offset_in_range(candidate, window, pa, pb) implies #[trigger] offset_cost(
        reference,
        candidate,
        window,
        pa,
        pb,
    ) >= offset_cost(reference, candidate, window, a0, b0) by {
        lemma_cost_nonneg(reference, candidate, window, pa, pb, window);
    }
    assert(is_first_min(reference, candidate, window, a0, b0));
    lemma_search_result_at(reference, candidate, window, a0, b0);
}

fn abs_diff_u8(a: u8, b: u8) -> (r: u8)
    ensures
        r as int == abs_diff(a, b),
{
    if a >= b {
        a - b
    } else {
        b - a
    }
}

/// Cost of placing the window at `(a, b)` in `candidate`.
fn offset_cost_at(
    reference: &Frame,
    candidate: &Frame,
    window: usize,
    a: usize,
    b: usize,
) -> (r: u128)
    requires
        reference.wf(),
        candidate.wf(),
        window_fits(reference, candidate, window as int),
        offset_in_range(candidate, window as int, a as int, b as int),
    ensures
        r as int == offset_cost(reference, candidate, window as int, a as int, b as int),
{
    let len = reference.data.len();
    proof {
        let w = reference.width as int;
        let h = reference.height as int;
        assert(window * window <= usize::MAX) by (nonlinear_arith)
            requires
                window < w,
                window < h,
                w * h * 3 <= usize::MAX,
                0 < window,
        ;
    }
    let ox = (reference.width - window) / 2;
    let oy = (reference.height - window) / 2;
    let mut total: u128 = 0;
    let mut j: usize = 0;
    while j < window
        invariant
            reference.wf(),
            candidate.wf(),
            window_fits(reference, candidate, window as int),
            offset_in_range(candidate, window as int, a as int, b as int),
            ox == centered(reference.width as int, window as int),
            oy == centered(reference.height as int, window as int),
            window * window <= usize::MAX,
            j <= window,
            total == rows_cost(reference, candidate, window as int, a as int, b as int, j as int),
            total <= 765 * (j * window),
        decreases window - j,
    {
        let mut i: usize = 0;
        while i < window
            invariant
                reference.wf(),
                candidate.wf(),
                window_fits(reference, candidate, window as int),
                offset_in_range(candidate, window as int, a as int, b as int),
                ox == centered(reference.width as int, window as int),
                oy == centered(reference.height as int, window as int),
                window * window <= usize::MAX,
                j < window,
                i <= window,
                total == rows_cost(reference, candidate, window as int, a as int, b as int, j as int)
                    + row_cost(
                    reference,
                    candidate,
                    window as int,
                    a as int,
                    b as int,
                    j as int,
                    i as int,
                ),
                total <= 765 * (j * window + i),
            decreases window - i,
        {
            proof {
                assert(j * window + i + 1 <= window * window) by (nonlinear_arith)
                    requires
                        i < window,
                        j < window,
                ;
            }
            let d0 = abs_diff_u8(reference.get(ox + i, oy + j, 0), candidate.get(a + i, b + j, 0));
            let d1 = abs_diff_u8(reference.get(ox + i, oy + j, 1), candidate.get(a + i, b + j, 1));
            let d2 = abs_diff_u8(reference.get(ox + i, oy + j, 2), candidate.get(a + i, b + j, 2));
            total = total + d0 as u128 + d1 as u128 + d2 as u128;
            i = i + 1;
        }
        proof {
            assert(j * window + window == (j + 1) * window) by (nonlinear_arith);
        }
        j = j + 1;
    }
    total
}

/// Finds the shift that best aligns `candidate` with `reference` by comparing the
/// centered `window x window` square of `reference` with every same-size square
/// of `candidate`. Among offsets of equal least cost the first in scan order wins.
pub fn search(reference: &Frame, candidate: &Frame, window: usize) -> (r: Result<
    ShiftVector,
    AlignmentError,
>)
    requires
        reference.wf(),
        candidate.wf(),
    ensures
        r == search_result(reference, candidate, window as int),
        r.is_ok() ==> exists|a: int, b: int|
            is_first_min(reference, candidate, window as int, a, b) && r == Ok::<
                ShiftVector,
                AlignmentError,
            >(shift_for(candidate, window as int, a, b)),
{
    if reference.is_empty() || candidate.is_empty() {
        return Err(AlignmentError::EmptyFrame);
    }
    if window == 0 || window >= reference.width || window >= reference.height || window
        >= candidate.width || window >= candidate.height {
        return Err(AlignmentError::InvalidWindowSize);
    }
    let len = candidate.data.len();
    proof {
        let w = candidate.width as int;
        let h = candidate.height as int;
        assert(w <= usize::MAX / 3) by (nonlinear_arith)
            requires
                w * h * 3 <= usize::MAX,
                h >= 1,
        ;
        assert(h <= usize::MAX / 3) by (nonlinear_arith)
            requires
                w * h * 3 <= usize::MAX,
                w >= 1,
        ;
    }
    let last_a = candidate.width - window;
    let last_b = candidate.height - window;
    let mut best_a: usize = 0;
    let mut best_b: usize = 0;
    let mut best_cost: u128 = 0;
    let mut found = false;
    let mut a: usize = 0;
    while a <= last_a
        invariant
            reference.wf(),
            candidate.wf(),
            window_fits(reference, candidate, window as int),
            last_a == candidate.width - window,
            last_b == candidate.height - window,
            a <= last_a + 1,
            !found ==> a == 0,
            found ==> offset_in_range(candidate, window as int, best_a as int, best_b as int),
            found ==> best_cost == offset_cost(
                reference,
                candidate,
                window as int,
                best_a as int,
                best_b as int,
            ),
            forall|pa: int, pb: int|
                found && offset_in_range(candidate, window as int, pa, pb) && offset_before(
                    pa,
                    pb,
                    a as int,
                    0,
                ) ==> #[trigger] offset_cost(reference, candidate, window as int, pa, pb)
                    >= best_cost,
            forall|pa: int, pb: int|
                found && offset_in_range(candidate, window as int, pa, pb) && offset_before(
                    pa,
                    pb,
                    best_a as int,
                    best_b as int,
                ) ==> #[trigger] offset_cost(reference, candidate, window as int, pa, pb)
                    > best_cost,
        decreases last_a + 1 - a,
    {
        let mut b: usize = 0;
        while b <= last_b
            invariant
                reference.wf(),
                candidate.wf(),
                window_fits(reference, candidate, window as int),
                last_a == candidate.width - window,
                last_b == candidate.height - window,
                a <= last_a,
                b <= last_b + 1,
                !found ==> a == 0 && b == 0,
                found ==> offset_in_range(candidate, window as int, best_a as int, best_b as int),
                found ==> best_cost == offset_cost(
                    reference,
                    candidate,
                    window as int,
                    best_a as int,
                    best_b as int,
                ),
                forall|pa: int, pb: int|
                    found && offset_in_range(candidate, window as int, pa, pb) && offset_before(
                        pa,
                        pb,
                        a as int,
                        b as int,
                    ) ==> #[trigger] offset_cost(reference, candidate, window as int, pa, pb)
                        >= best_cost,
                forall|pa: int, pb: int|
                    found && offset_in_range(candidate, window as int, pa, pb) && offset_before(
                        pa,
                        pb,
                        best_a as int,
                        best_b as int,
                    ) ==> #[trigger] offset_cost(reference, candidate, window as int, pa, pb)
                        > best_cost,
            decreases last_b + 1 - b,
        {
            let cost = offset_cost_at(reference, candidate, window, a, b);
            if !found || cost < best_cost {
                best_a = a;
                best_b = b;
                best_cost = cost;
                found = true;
            }
            b = b + 1;
        }
        a = a + 1;
    }
    proof {
        assert(found);
        assert forall|pa: int, pb: int|
            offset_in_range(candidate, window as int, pa, pb) implies #[trigger] offset_cost(
            reference,
            candidate,
            window as int,
            pa,
            pb,
        ) >= offset_cost(reference, candidate, window as int, best_a as int, best_b as int) by {
            assert(offset_before(pa, pb, a as int, 0));
        }
        assert(is_first_min(reference, candidate, window as int, best_a as int, best_b as int));
        lemma_search_result_at(reference, candidate, window as int, best_a as int, best_b as int);
        assert(search_result(reference, candidate, window as int) == Ok::<ShiftVector, AlignmentError>(
            shift_for(candidate, window as int, best_a as int, best_b as int),
        ));
    }
    Ok(
        ShiftVector {
            dx: best_a as i64 - (last_a / 2) as i64,
            dy: best_b as i64 - (last_b / 2) as i64,
        },
    )
}

/// Recomputes `shift` with [`search`]. On an error the previous shift stays in effect.
pub fn get_shift(
    reference: &Frame,
    candidate: &Frame,
    window: usize,
    shift: &mut ShiftVector,
) -> (r: Result<(), AlignmentError>)
    requires
        reference.wf(),
        candidate.wf(),
    ensures
        match search_result(reference, candidate, window as int) {
            Ok(s) => r == Ok::<(), AlignmentError>(()) && *final(shift) == s,
            Err(e) => r == Err::<(), AlignmentError>(e) && *final(shift) == *old(shift),
        },
{
    match search(reference, candidate, window) {
        Ok(s) => {
            *shift = s;
            Ok(())
        },
        Err(e) => Err(e),
    }
}

} // verus!
