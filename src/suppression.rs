use vstd::prelude::*;

verus! {

/// Confidence scores are fixed-point fractions of this many parts (1.0 is one million).
pub const SCORE_SCALE: u32 = 1_000_000;

/// Detections scoring at or below this (0.1) are never kept.
pub const SCORE_THRESHOLD: u32 = 100_000;

/// Axis-aligned box in pixels, as `(x, y)` of its top-left corner and its size.
#[derive(PartialEq, Eq, Structural, Clone, Copy, Debug)]
pub struct Rect {
    pub x: i32,
    pub y: i32,
    pub width: i32,
    pub height: i32,
}

/// One raw detection: a class, a confidence in millionths, and a box.
#[derive(PartialEq, Eq, Structural, Clone, Copy, Debug)]
pub struct Detection {
    pub class_id: i32,
    pub score: u32,
    pub rect: Rect,
}

pub open spec fn area(r: Rect) -> int {
    if r.width > 0 && r.height > 0 {
        r.width * r.height
    } else {
        0
    }
}

pub open spec fn span_overlap(a0: int, a1: int, b0: int, b1: int) -> int {
    let lo = if a0 >= b0 {
        a0
    } else {
        b0
    };
    let hi = if a1 <= b1 {
        a1
    } else {
        b1
    };
    if hi > lo {
        hi - lo
    } else {
        0
    }
}

/// Area shared by two boxes.
pub open spec fn intersection(a: Rect, b: Rect) -> int {
    span_overlap(a.x as int, a.x + a.width, b.x as int, b.x + b.width) * span_overlap(
        a.y as int,
        a.y + a.height,
        b.y as int,
        b.y + b.height,
    )
}

pub open spec fn union_area(a: Rect, b: Rect) -> int {
    area(a) + area(b) - intersection(a, b)
}

/// Intersection over union of the two boxes is above one half.
pub open spec fn overlaps(a: Rect, b: Rect) -> bool {
    2 * intersection(a, b) > union_area(a, b)
}

/// The detection scores above the threshold.
pub open spec fn eligible(d: Detection) -> bool {
    d.score > SCORE_THRESHOLD
}

/// Detection `j` is considered before detection `i`: higher score first, and the
/// earlier one first among equal scores.
pub open spec fn precedes(ds: Seq<Detection>, j: int, i: int) -> bool {
    ds[j].score > ds[i].score || (ds[j].score == ds[i].score && j < i)
}

/// Some detection kept in `kept` is considered before `i` and overlaps it.
pub open spec fn suppressed_by(ds: Seq<Detection>, kept: Seq<usize>, i: int) -> bool {
    exists|k: int|
        0 <= k < kept.len() && precedes(ds, #[trigger] kept[k] as int, i) && overlaps(
            ds[kept[k] as int].rect,
            ds[i].rect,
        )
}

/// `kept` is what non-maximum suppression keeps of `ds`: indices of detections
/// above the score threshold, best first, where a detection is kept exactly when
/// no kept detection considered before it overlaps it.
pub open spec fn is_suppression_of(ds: Seq<Detection>, kept: Seq<usize>) -> bool {
    &&& forall|k: int|
        0 <= k < kept.len() ==> #[trigger] kept[k] < ds.len() && eligible(ds[kept[k] as int])
    &&& forall|k1: int, k2: int|
        0 <= k1 < k2 < kept.len() ==> precedes(ds, #[trigger] kept[k1] as int, #[trigger] kept[k2] as int)
    &&& forall|i: int|
        0 <= i < ds.len() && eligible(#[trigger] ds[i]) ==> (kept.contains(i as usize) <==> !suppressed_by(
            ds,
            kept,
            i,
        ))
}

/// The detections at the positions listed in `kept`, in that order.
pub open spec fn pick(ds: Seq<Detection>, kept: Seq<usize>) -> Seq<Detection> {
    Seq::new(kept.len(), |k: int| ds[kept[k] as int])
}

fn span_overlap_exec(a0: i128, a1: i128, b0: i128, b1: i128) -> (r: i128)
    requires
        -0x2_0000_0000 <= a0 <= 0x2_0000_0000,
        -0x2_0000_0000 <= a1 <= 0x2_0000_0000,
        -0x2_0000_0000 <= b0 <= 0x2_0000_0000,
        -0x2_0000_0000 <= b1 <= 0x2_0000_0000,
    ensures
        r == span_overlap(a0 as int, a1 as int, b0 as int, b1 as int),
        0 <= r <= 0x4_0000_0000,
{
    let lo = if a0 >= b0 {
        a0
    } else {
        b0
    };
    let hi = if a1 <= b1 {
        a1
    } else {
        b1
    };
    if hi > lo {
        hi - lo
    } else {
        0
    }
}

/// Whether the intersection over union of `a` and `b` is above one half.
pub fn boxes_overlap(a: &Rect, b: &Rect) -> (r: bool)
    ensures
        r == overlaps(*a, *b),
{
    let iw = span_overlap_exec(
        a.x as i128,
        a.x as i128 + a.width as i128,
        b.x as i128,
        b.x as i128 + b.width as i128,
    );
    let ih = span_overlap_exec(
        a.y as i128,
        a.y as i128 + a.height as i128,
        b.y as i128,
        b.y as i128 + b.height as i128,
    );
    proof {
        assert(0 <= iw * ih <= 0x4_0000_0000 * 0x4_0000_0000) by (nonlinear_arith)
            requires
                0 <= iw <= 0x4_0000_0000,
                0 <= ih <= 0x4_0000_0000,
        ;
    }
    let inter = iw * ih;
    let area_a: i128 = if a.width > 0 && a.height > 0 {
        proof {
            assert(a.width * a.height <= 0x8000_0000 * 0x8000_0000) by (nonlinear_arith)
                requires
                    0 < a.width <= 0x8000_0000,
                    0 < a.height <= 0x8000_0000,
            ;
        }
        a.width as i128 * a.height as i128
    } else {
        0
    };
    let area_b: i128 = if b.width > 0 && b.height > 0 {
        proof {
            assert(b.width * b.height <= 0x8000_0000 * 0x8000_0000) by (nonlinear_arith)
                requires
                    0 < b.width <= 0x8000_0000,
                    0 < b.height <= 0x8000_0000,
            ;
        }
        b.width as i128 * b.height as i128
    } else {
        0
    };
    2 * inter > area_a + area_b - inter
}

/// Indices of the detections above the score threshold, best first.
fn ranked_candidates(ds: &Vec<Detection>) -> (order: Vec<usize>)
    ensures
        forall|k: int|
            0 <= k < order.len() ==> #[trigger] order[k] < ds.len() && eligible(ds@[order[k] as int]),
        forall|k1: int, k2: int|
            0 <= k1 < k2 < order.len() ==> precedes(
                ds@,
                #[trigger] order[k1] as int,
                #[trigger] order[k2] as int,
            ),
        forall|i: int| 0 <= i < ds.len() && eligible(#[trigger] ds@[i]) ==> order@.contains(i as usize),
{
    let mut order: Vec<usize> = Vec::new();
    let mut i: usize = 0;
    while i < ds.len()
        invariant
            i <= ds.len(),
            forall|k: int|
                0 <= k < order.len() ==> #[trigger] order[k] < i && eligible(ds@[order[k] as int]),
            forall|k1: int, k2: int|
                0 <= k1 < k2 < order.len() ==> precedes(
                    ds@,
                    #[trigger] order[k1] as int,
                    #[trigger] order[k2] as int,
                ),
            forall|j: int| 0 <= j < i && eligible(#[trigger] ds@[j]) ==> order@.contains(j as usize),
        decreases ds.len() - i,
    {
        if ds[i].score > SCORE_THRESHOLD {
            let mut p: usize = 0;
            while p < order.len() && !(ds[i].score > ds[order[p]].score)
                invariant
                    p <= order.len(),
                    i < ds.len(),
                    forall|k: int| 0 <= k < order.len() ==> #[trigger] order[k] < i,
                    forall|q: int| 0 <= q < p ==> !precedes(ds@, i as int, #[trigger] order[q] as int),
                decreases order.len() - p,
            {
                p = p + 1;
            }
            let ghost old_order = order@;
            order.insert(p, i);
            proof {
                old_order.insert_ensures(p as int, i);
                assert(order@[p as int] == i);
                assert forall|k1: int, k2: int| 0 <= k1 < k2 < order.len() implies precedes(
                    ds@,
                    #[trigger] order[k1] as int,
                    #[trigger] order[k2] as int,
                ) by {
                    if k2 < p {
                        assert(order[k1] == old_order[k1] && order[k2] == old_order[k2]);
                    } else if k2 == p {
                        assert(order[k1] == old_order[k1]);
                        assert(!precedes(ds@, i as int, old_order[k1] as int));
                    } else if k1 < p {
                        assert(order[k1] == old_order[k1] && order[k2] == old_order[k2 - 1]);
                    } else if k1 == p {
                        assert(order[k2] == old_order[k2 - 1]);
                        assert(precedes(ds@, i as int, old_order[p as int] as int));
                        if k2 - 1 > p {
                            assert(precedes(ds@, old_order[p as int] as int, old_order[k2 - 1] as int));
                        }
                    } else {
                        assert(order[k1] == old_order[k1 - 1] && order[k2] == old_order[k2 - 1]);
                    }
                }
                assert forall|k: int| 0 <= k < order.len() implies #[trigger] order[k] < i + 1
                    && eligible(ds@[order[k] as int]) by {
                    if k < p {
                        assert(order[k] == old_order[k]);
                    } else if k > p {
                        assert(order[k] == old_order[k - 1]);
                    }
                }
                assert forall|j: int| 0 <= j < i + 1 && eligible(#[trigger] ds@[j]) implies order@.contains(
                    j as usize,
                ) by {
                    if j < i {
                        let q = choose|q: int| 0 <= q < old_order.len() && old_order[q] == j as usize;
                        if q < p {
                            assert(order@[q] == j as usize);
                        } else {
                            assert(order@[q + 1] == j as usize);
                        }
                    } else {
                        assert(order@[p as int] == j as usize);
                    }
                }
            }
        }
        i = i + 1;
    }
    order
}

/// Non-maximum suppression: the indices of the detections to keep, best first.
/// Detections scoring 0.1 or less are dropped; then, in order of decreasing
/// score, a detection is kept unless a kept one overlaps it with an
/// intersection over union above one half.
pub fn suppress_overlaps(detections: &Vec<Detection>) -> (kept: Vec<usize>)
    ensures
        is_suppression_of(detections@, kept@),
{
    let ghost ds = detections@;
    let order = ranked_candidates(detections);
    let mut kept: Vec<usize> = Vec::new();
    let ghost mut pos: Seq<int> = Seq::empty();
    let mut k: usize = 0;
    while k < order.len()
        invariant
            ds == detections@,
            forall|q: int|
                0 <= q < order.len() ==> #[trigger] order[q] < ds.len() && eligible(ds[order[q] as int]),
            forall|q1: int, q2: int|
                0 <= q1 < q2 < order.len() ==> precedes(
                    ds,
                    #[trigger] order[q1] as int,
                    #[trigger] order[q2] as int,
                ),
            k <= order.len(),
            pos.len() == kept.len(),
            forall|t: int|
                0 <= t < kept.len() ==> 0 <= #[trigger] pos[t] < k && kept[t] == order[pos[t]],
            forall|t1: int, t2: int|
                0 <= t1 < t2 < kept.len() ==> precedes(
                    ds,
                    #[trigger] kept[t1] as int,
                    #[trigger] kept[t2] as int,
                ),
            forall|q: int|
                0 <= q < k ==> (kept@.contains(#[trigger] order[q]) <==> !suppressed_by(
                    ds,
                    kept@,
                    order[q] as int,
                )),
        decreases order.len() - k,
    {
        let cand = order[k];
        proof {
            assert forall|t: int| 0 <= t < kept.len() implies #[trigger] kept[t] < ds.len() by {
                assert(kept[t] == order[pos[t]]);
            }
        }
        let mut m: usize = 0;
        let mut hit = false;
        while m < kept.len() && !hit
            invariant
                ds == detections@,
                cand < ds.len(),
                forall|t: int| 0 <= t < kept.len() ==> #[trigger] kept[t] < ds.len(),
                m <= kept.len(),
                !hit ==> forall|t: int|
                    0 <= t < m ==> !overlaps(ds[#[trigger] kept[t] as int].rect, ds[cand as int].rect),
                hit ==> exists|t: int|
                    0 <= t < kept.len() && overlaps(
                        ds[#[trigger] kept[t] as int].rect,
                        ds[cand as int].rect,
                    ),
            decreases kept.len() - m,
        {
            if boxes_overlap(&detections[kept[m]].rect, &detections[cand].rect) {
                hit = true;
            }
            m = m + 1;
        }
        let ghost old_kept = kept@;
        proof {
            assert forall|t: int| 0 <= t < old_kept.len() implies precedes(
                ds,
                #[trigger] old_kept[t] as int,
                cand as int,
            ) by {
                assert(old_kept[t] == order[pos[t]]);
            }
            assert forall|q: int| 0 <= q < k implies order[q] != cand && precedes(
                ds,
                #[trigger] order[q] as int,
                cand as int,
            ) by {}
            assert(!old_kept.contains(cand)) by {
                if old_kept.contains(cand) {
                    let t = choose|t: int| 0 <= t < old_kept.len() && old_kept[t] == cand;
                    assert(order[pos[t]] == cand);
                }
            }
        }
        if !hit {
            kept.push(cand);
            proof {
                pos = pos.push(k as int);
                assert(kept@ == old_kept.push(cand));
                assert forall|q: int| 0 <= q < k + 1 implies (kept@.contains(#[trigger] order[q])
                    <==> !suppressed_by(ds, kept@, order[q] as int)) by {
                    if q < k {
                        assert(precedes(ds, order[q] as int, cand as int));
                        assert(kept@.contains(order[q]) <==> old_kept.contains(order[q])) by {
                            if kept@.contains(order[q]) {
                                let t = choose|t: int| 0 <= t < kept@.len() && kept@[t] == order[q];
                                if t < old_kept.len() {
                                    assert(old_kept[t] == order[q]);
                                }
                            }
                            if old_kept.contains(order[q]) {
                                let t = choose|t: int| 0 <= t < old_kept.len() && old_kept[t] == order[q];
                                assert(kept@[t] == order[q]);
                            }
                        }
                        assert(suppressed_by(ds, kept@, order[q] as int) <==> suppressed_by(
                            ds,
                            old_kept,
                            order[q] as int,
                        )) by {
                            if suppressed_by(ds, kept@, order[q] as int) {
                                let t = choose|t: int|
                                    0 <= t < kept@.len() && precedes(
                                        ds,
                                        #[trigger] kept@[t] as int,
                                        order[q] as int,
                                    ) && overlaps(ds[kept@[t] as int].rect, ds[order[q] as int].rect);
                                if t < old_kept.len() {
                                    assert(old_kept[t] == kept@[t]);
                                }
                            }
                            if suppressed_by(ds, old_kept, order[q] as int) {
                                let t = choose|t: int|
                                    0 <= t < old_kept.len() && precedes(
                                        ds,
                                        #[trigger] old_kept[t] as int,
                                        order[q] as int,
                                    ) && overlaps(ds[old_kept[t] as int].rect, ds[order[q] as int].rect);
                                assert(kept@[t] == old_kept[t]);
                            }
                        }
                    } else {
                        assert(kept@[old_kept.len() as int] == cand);
                        assert(!suppressed_by(ds, kept@, cand as int)) by {
                            if suppressed_by(ds, kept@, cand as int) {
                                let t = choose|t: int|
                                    0 <= t < kept@.len() && precedes(
                                        ds,
                                        #[trigger] kept@[t] as int,
                                        cand as int,
                                    ) && overlaps(ds[kept@[t] as int].rect, ds[cand as int].rect);
                                if t < old_kept.len() {
                                    assert(old_kept[t] == kept@[t]);
                                }
                            }
                        }
                    }
                }
            }
        } else {
            proof {
                let t = choose|t: int|
                    0 <= t < kept.len() && overlaps(
                        ds[#[trigger] kept[t] as int].rect,
                        ds[cand as int].rect,
                    );
                assert(precedes(ds, kept@[t] as int, cand as int));
                assert(suppressed_by(ds, kept@, cand as int));
            }
        }
        k = k + 1;
    }
    proof {
        assert forall|t: int| 0 <= t < kept.len() implies #[trigger] kept[t] < ds.len() && eligible(
            ds[kept[t] as int],
        ) by {
            assert(kept[t] == order[pos[t]]);
        }
        assert forall|i: int| 0 <= i < ds.len() && eligible(#[trigger] ds[i]) implies (kept@.contains(
            i as usize,
        ) <==> !suppressed_by(ds, kept@, i)) by {
            let q = choose|q: int| 0 <= q < order.len() && order@[q] == i as usize;
            assert(order[q] == i as usize);
        }
    }
    kept
}

proof fn lemma_same_membership(ds: Seq<Detection>, k1: Seq<usize>, k2: Seq<usize>, i: int)
    requires
        is_suppression_of(ds, k1),
        is_suppression_of(ds, k2),
        0 <= i < ds.len(),
        eligible(ds[i]),
    ensures
        k1.contains(i as usize) <==> k2.contains(i as usize),
    decreases u32::MAX - ds[i].score, i,
{
    assert(suppressed_by(ds, k1, i) ==> suppressed_by(ds, k2, i)) by {
        if suppressed_by(ds, k1, i) {
            let k = choose|k: int|
                0 <= k < k1.len() && precedes(ds, #[trigger] k1[k] as int, i) && overlaps(
                    ds[k1[k] as int].rect,
                    ds[i].rect,
                );
            let j = k1[k] as int;
            assert(j < ds.len() && eligible(ds[j]));
            lemma_same_membership(ds, k1, k2, j);
            assert(k1.contains(j as usize));
            let t = choose|t: int| 0 <= t < k2.len() && k2[t] == j as usize;
            assert(precedes(ds, k2[t] as int, i));
        }
    }
    assert(suppressed_by(ds, k2, i) ==> suppressed_by(ds, k1, i)) by {
        if suppressed_by(ds, k2, i) {
            let k = choose|k: int|
                0 <= k < k2.len() && precedes(ds, #[trigger] k2[k] as int, i) && overlaps(
                    ds[k2[k] as int].rect,
                    ds[i].rect,
                );
            let j = k2[k] as int;
            assert(j < ds.len() && eligible(ds[j]));
            lemma_same_membership(ds, k1, k2, j);
            assert(k2.contains(j as usize));
            let t = choose|t: int| 0 <= t < k1.len() && k1[t] == j as usize;
            assert(precedes(ds, k1[t] as int, i));
        }
    }
}

proof fn lemma_kept_agree_at(ds: Seq<Detection>, k1: Seq<usize>, k2: Seq<usize>, k: int)
    requires
        is_suppression_of(ds, k1),
        is_suppression_of(ds, k2),
        0 <= k < k1.len(),
    ensures
        k < k2.len(),
        k1[k] == k2[k],
    decreases k,
{
    assert forall|q: int| 0 <= q < k implies q < k2.len() && k1[q] == k2[q] by {
        lemma_kept_agree_at(ds, k1, k2, q);
    }
    let x = k1[k] as int;
    assert(x < ds.len() && eligible(ds[x]));
    assert(k1.contains(x as usize));
    lemma_same_membership(ds, k1, k2, x);
    let t = choose|t: int| 0 <= t < k2.len() && k2[t] == x as usize;
    if t < k {
        assert(k1[t] == x as usize);
        assert(precedes(ds, k1[t] as int, k1[k] as int));
    } else if t > k {
        let y = k2[k] as int;
        assert(y < ds.len() && eligible(ds[y]));
        assert(k2.contains(y as usize));
        lemma_same_membership(ds, k1, k2, y);
        let u = choose|u: int| 0 <= u < k1.len() && k1[u] == y as usize;
        if u < k {
            assert(k2[u] == y as usize);
            assert(precedes(ds, k2[u] as int, k2[k] as int));
        } else if u == k {
            assert(precedes(ds, k2[k] as int, k2[t] as int));
        } else {
            assert(precedes(ds, k1[k] as int, k1[u] as int));
            assert(precedes(ds, k2[k] as int, k2[t] as int));
        }
    }
}

/// The characterization determines the kept sequence: at most one sequence is
/// what suppression keeps of `ds`.
pub proof fn lemma_suppression_unique(ds: Seq<Detection>, k1: Seq<usize>, k2: Seq<usize>)
    requires
        is_suppression_of(ds, k1),
        is_suppression_of(ds, k2),
    ensures
        k1 == k2,
{
    assert forall|k: int| 0 <= k < k1.len() implies k < k2.len() && k1[k] == k2[k] by {
        lemma_kept_agree_at(ds, k1, k2, k);
    }
    assert forall|k: int| 0 <= k < k2.len() implies k < k1.len() && k2[k] == k1[k] by {
        lemma_kept_agree_at(ds, k2, k1, k);
    }
    if k1.len() > k2.len() {
        lemma_kept_agree_at(ds, k1, k2, k2.len() as int);
    }
    if k2.len() > k1.len() {
        lemma_kept_agree_at(ds, k2, k1, k1.len() as int);
    }
    assert(k1 =~= k2);
}

proof fn lemma_increasing_at_least_index(s: Seq<usize>, k: int)
    requires
        0 <= k < s.len(),
        forall|k1: int, k2: int| 0 <= k1 < k2 < s.len() ==> #[trigger] s[k1] < #[trigger] s[k2],
    ensures
        s[k] >= k,
    decreases k,
{
    if k > 0 {
        lemma_increasing_at_least_index(s, k - 1);
        assert(s[k - 1] < s[k]);
    }
}

proof fn lemma_increasing_cover_at(s: Seq<usize>, n: int, k: int)
    requires
        0 <= k < s.len(),
        forall|q: int| 0 <= q < s.len() ==> #[trigger] s[q] < n,
        forall|k1: int, k2: int| 0 <= k1 < k2 < s.len() ==> #[trigger] s[k1] < #[trigger] s[k2],
        forall|v: usize| v < n ==> #[trigger] s.contains(v),
    ensures
        s[k] == k,
    decreases k,
{
    if k > 0 {
        lemma_increasing_cover_at(s, n, k - 1);
    }
    lemma_increasing_at_least_index(s, k);
    assert(s.contains(k as usize));
    let t = choose|t: int| 0 <= t < s.len() && s[t] == k as usize;
    if t < k {
        assert forall|q: int| 0 <= q <= t implies s[q] == q by {
            if q < k {
                lemma_increasing_cover_at(s, n, q);
            }
        }
    } else if t > k {
        assert(s[k] < s[t]);
    }
}

/// A strictly increasing sequence of indices below `n` that holds each of them
/// is `0, 1, ..., n - 1`.
proof fn lemma_increasing_cover(s: Seq<usize>, n: int)
    requires
        0 <= n <= usize::MAX,
        forall|q: int| 0 <= q < s.len() ==> #[trigger] s[q] < n,
        forall|k1: int, k2: int| 0 <= k1 < k2 < s.len() ==> #[trigger] s[k1] < #[trigger] s[k2],
        forall|v: usize| v < n ==> #[trigger] s.contains(v),
    ensures
        s == Seq::new(n as nat, |k: int| k as usize),
{
    assert forall|k: int| 0 <= k < s.len() implies s[k] == k by {
        lemma_increasing_cover_at(s, n, k);
    }
    if s.len() > n {
        assert(s[n] == n);
    }
    if s.len() < n {
        let last = (n - 1) as usize;
        assert(s.contains(last));
        let t = choose|t: int| 0 <= t < s.len() && s[t] == last;
        assert(s[t] == t);
    }
    assert(s.len() == n);
    assert forall|k: int| 0 <= k < n implies s[k] == Seq::new(n as nat, |k: int| k as usize)[k] by {
        assert(s[k] == k);
    }
    assert(s =~= Seq::new(n as nat, |k: int| k as usize));
}

/// Suppressing again the detections that suppression kept keeps every one of
/// them, in the same order: suppression is idempotent.
pub proof fn lemma_suppression_idempotent(ds: Seq<Detection>, kept: Seq<usize>, again: Seq<usize>)
    requires
        kept.len() <= usize::MAX,
        is_suppression_of(ds, kept),
        is_suppression_of(pick(ds, kept), again),
    ensures
        again == Seq::new(kept.len(), |k: int| k as usize),
        pick(pick(ds, kept), again) == pick(ds, kept),
{
    let d2 = pick(ds, kept);
    let n = kept.len() as int;
    assert forall|a: int, b: int| 0 <= a < n && 0 <= b < n && precedes(d2, a, b) implies a < b by {
        if b < a {
            assert(precedes(ds, kept[b] as int, kept[a] as int));
        }
    }
    assert forall|w: usize| w < n implies #[trigger] again.contains(w) by {
        let v = w as int;
        assert(eligible(d2[v]));
        assert(kept.contains(kept[v]));
        assert(!suppressed_by(ds, kept, kept[v] as int));
        if suppressed_by(d2, again, v) {
            let k = choose|k: int|
                0 <= k < again.len() && precedes(d2, #[trigger] again[k] as int, v) && overlaps(
                    d2[again[k] as int].rect,
                    d2[v].rect,
                );
            let b = again[k] as int;
            assert(b < v);
            assert(precedes(ds, kept[b] as int, kept[v] as int));
            assert(suppressed_by(ds, kept, kept[v] as int));
        }
    }
    assert forall|k1: int, k2: int| 0 <= k1 < k2 < again.len() implies #[trigger] again[k1]
        < #[trigger] again[k2] by {
        assert(precedes(d2, again[k1] as int, again[k2] as int));
    }
    lemma_increasing_cover(again, n);
    assert forall|k: int| 0 <= k < n implies pick(d2, again)[k] == d2[k] by {
        assert(again[k] == k as usize);
    }
    assert(pick(d2, again) =~= d2);
}

} // verus!
