use vstd::prelude::*;

use crate::error::AlignmentError;

verus! {

/// A descriptor match: keypoint `query` of the first frame against keypoint
/// `train` of the second, at a Hamming `distance`.
#[derive(PartialEq, Eq, Structural, Clone, Copy, Debug)]
pub struct Match {
    pub query: usize,
    pub train: usize,
    pub distance: u32,
}

/// Fewest correspondences that determine a homography.
pub const MIN_MATCHES: usize = 4;

/// The best of a query's nearest neighbours, closest first, is kept when there
/// is a second one and the best is closer than 0.7 times the second.
pub open spec fn passes_ratio(neighbours: Seq<Match>) -> bool {
    neighbours.len() >= 2 && 10 * neighbours[0].distance < 7 * neighbours[1].distance
}

/// The matches that pass the ratio test, one per query, in query order.
pub open spec fn ratio_survivors(candidates: Seq<Vec<Match>>) -> Seq<Match>
    decreases candidates.len(),
{
    if candidates.len() == 0 {
        Seq::empty()
    } else {
        let before = ratio_survivors(candidates.drop_last());
        if passes_ratio(candidates.last()@) {
            before.push(candidates.last()@[0])
        } else {
            before
        }
    }
}

/// Match `j` ranks before match `i`: closer first, earlier first among equals.
pub open spec fn ranks_before(ms: Seq<Match>, j: int, i: int) -> bool {
    ms[j].distance < ms[i].distance || (ms[j].distance == ms[i].distance && j < i)
}

/// `order` lists every index of `ms` once, closest match first; ties keep
/// the order they were given in.
pub open spec fn is_ranking(ms: Seq<Match>, order: Seq<usize>) -> bool {
    &&& order.len() == ms.len()
    &&& forall|k: int| 0 <= k < order.len() ==> #[trigger] order[k] < ms.len()
    &&& forall|k1: int, k2: int|
        0 <= k1 < k2 < order.len() ==> ranks_before(
            ms,
            #[trigger] order[k1] as int,
            #[trigger] order[k2] as int,
        )
    &&& forall|i: int| 0 <= i < ms.len() ==> #[trigger] order.contains(i as usize)
}

/// How many matches survive dropping the worst tenth (rounded down).
pub open spec fn kept_count(n: int) -> int {
    n - n / 10
}

/// The best `kept_count` matches of `ms`, closest first.
pub open spec fn is_selection(ms: Seq<Match>, out: Seq<Match>) -> bool {
    exists|order: Seq<usize>|
        is_ranking(ms, order) && out == Seq::new(
            kept_count(ms.len() as int) as nat,
            |k: int| ms[order[k] as int],
        )
}

/// Only one order lists every match once, closest first with ties in their
/// given order; so a selection is determined by the matches alone.
pub proof fn lemma_ranking_unique(ms: Seq<Match>, o1: Seq<usize>, o2: Seq<usize>)
    requires
        is_ranking(ms, o1),
        is_ranking(ms, o2),
    ensures
        o1 == o2,
{
    assert forall|k: int| 0 <= k < o1.len() implies o1[k] == o2[k] by {
        lemma_ranking_agrees_at(ms, o1, o2, k);
    }
    assert(o1 =~= o2);
}

proof fn lemma_ranking_agrees_at(ms: Seq<Match>, o1: Seq<usize>, o2: Seq<usize>, k: int)
    requires
        is_ranking(ms, o1),
        is_ranking(ms, o2),
        0 <= k < o1.len(),
    ensures
        o1[k] == o2[k],
    decreases k,
{
    assert forall|q: int| 0 <= q < k implies o1[q] == o2[q] by {
        lemma_ranking_agrees_at(ms, o1, o2, q);
    }
    let x = o1[k];
    assert(x < ms.len());
    assert(o2.contains((x as int) as usize));
    let t = choose|t: int| 0 <= t < o2.len() && o2[t] == x;
    if t < k {
        assert(o1[t] == x);
        assert(ranks_before(ms, o1[t] as int, o1[k] as int));
    } else if t > k {
        let y = o2[k];
        assert(y < ms.len());
        assert(o1.contains((y as int) as usize));
        let u = choose|u: int| 0 <= u < o1.len() && o1[u] == y;
        if u < k {
            assert(o2[u] == y);
            assert(ranks_before(ms, o2[u] as int, o2[k] as int));
        } else if u == k {
            assert(ranks_before(ms, o2[k] as int, o2[t] as int));
        } else {
            assert(ranks_before(ms, o1[k] as int, o1[u] as int));
            assert(ranks_before(ms, o2[k] as int, o2[t] as int));
        }
    }
}

/// Ratio test over each query's nearest neighbours, closest first.
pub fn ratio_filter(candidates: &Vec<Vec<Match>>) -> (r: Vec<Match>)
    ensures
        r@ == ratio_survivors(candidates@),
{
    let mut r: Vec<Match> = Vec::new();
    let mut i: usize = 0;
    while i < candidates.len()
        invariant
            i <= candidates.len(),
            r@ == ratio_survivors(candidates@.subrange(0, i as int)),
        decreases candidates.len() - i,
    {
        let ns = &candidates[i];
        proof {
            let pre = candidates@.subrange(0, i as int + 1);
            assert(pre.drop_last() =~= candidates@.subrange(0, i as int));
            assert(pre.last() == candidates@[i as int]);
        }
        if ns.len() >= 2 && (ns[0].distance as u64) * 10 < (ns[1].distance as u64) * 7 {
            r.push(ns[0]);
        }
        i = i + 1;
    }
    proof {
        assert(candidates@.subrange(0, candidates@.len() as int) =~= candidates@);
    }
    r
}

/// Every index of `ms`, closest match first.
fn rank_matches(ms: &Vec<Match>) -> (order: Vec<usize>)
    ensures
        is_ranking(ms@, order@),
{
    let mut order: Vec<usize> = Vec::new();
    let mut i: usize = 0;
    while i < ms.len()
        invariant
            i <= ms.len(),
            order.len() == i,
            forall|k: int| 0 <= k < order.len() ==> #[trigger] order[k] < i,
            forall|k1: int, k2: int|
                0 <= k1 < k2 < order.len() ==> ranks_before(
                    ms@,
                    #[trigger] order[k1] as int,
                    #[trigger] order[k2] as int,
                ),
            forall|j: int| 0 <= j < i ==> #[trigger] order@.contains(j as usize),
        decreases ms.len() - i,
    {
        let mut p: usize = 0;
        while p < order.len() && !(ms[i].distance < ms[order[p]].distance)
            invariant
                p <= order.len(),
                i < ms.len(),
                forall|k: int| 0 <= k < order.len() ==> #[trigger] order[k] < i,
                forall|q: int| 0 <= q < p ==> !ranks_before(ms@, i as int, #[trigger] order[q] as int),
            decreases order.len() - p,
        {
            p = p + 1;
        }
        let ghost old_order = order@;
        order.insert(p, i);
        proof {
            old_order.insert_ensures(p as int, i);
            assert(order@[p as int] == i);
            assert forall|k1: int, k2: int| 0 <= k1 < k2 < order.len() implies ranks_before(
                ms@,
                #[trigger] order[k1] as int,
                #[trigger] order[k2] as int,
            ) by {
                if k2 < p {
                    assert(order[k1] == old_order[k1] && order[k2] == old_order[k2]);
                } else if k2 == p {
                    assert(order[k1] == old_order[k1]);
                    assert(!ranks_before(ms@, i as int, old_order[k1] as int));
                } else if k1 < p {
                    assert(order[k1] == old_order[k1] && order[k2] == old_order[k2 - 1]);
                } else if k1 == p {
                    assert(order[k2] == old_order[k2 - 1]);
                    assert(ranks_before(ms@, i as int, old_order[p as int] as int));
                    if k2 - 1 > p {
                        assert(ranks_before(ms@, old_order[p as int] as int, old_order[k2 - 1] as int));
                    }
                } else {
                    assert(order[k1] == old_order[k1 - 1] && order[k2] == old_order[k2 - 1]);
                }
            }
            assert forall|k: int| 0 <= k < order.len() implies #[trigger] order[k] < i + 1 by {
                if k < p {
                    assert(order[k] == old_order[k]);
                } else if k > p {
                    assert(order[k] == old_order[k - 1]);
                }
            }
            assert forall|j: int| 0 <= j < i + 1 implies #[trigger] order@.contains(j as usize) by {
                if j < i {
                    assert(old_order.contains(j as usize));
                    let q = choose|q: int| 0 <= q < old_order.len() && old_order[q] == j as usize;
                    if q < p {
                        assert(order@[q] == j as usize);
                    } else {
                        assert(order@[q + 1] == j as usize);
                    }
                } else {
                    assert(order@[p as int] == j as usize);
                }
            }
        }
        i = i + 1;
    }
    order
}

/// Orders the matches closest first and drops the worst tenth. Fails when fewer
/// than four matches are given: a homography needs four correspondences.
pub fn select_matches(ms: &Vec<Match>) -> (r: Result<Vec<Match>, AlignmentError>)
    ensures
        r.is_err() <==> ms.len() < MIN_MATCHES,
        r.is_err() ==> r == Err::<Vec<Match>, AlignmentError>(AlignmentError::InsufficientMatches),
        r.is_ok() ==> is_selection(ms@, r.unwrap()@),
{
    if ms.len() < MIN_MATCHES {
        return Err(AlignmentError::InsufficientMatches);
    }
    let order = rank_matches(ms);
    let keep = ms.len() - ms.len() / 10;
    let mut out: Vec<Match> = Vec::new();
    let mut k: usize = 0;
    while k < keep
        invariant
            is_ranking(ms@, order@),
            keep == kept_count(ms.len() as int),
            keep <= ms.len(),
            k <= keep,
            out@ == Seq::new(k as nat, |t: int| ms@[order@[t] as int]),
        decreases keep - k,
    {
        out.push(ms[order[k]]);
        proof {
            assert(out@ =~= Seq::new((k + 1) as nat, |t: int| ms@[order@[t] as int]));
        }
        k = k + 1;
    }
    proof {
        assert(is_ranking(ms@, order@) && out@ == Seq::new(
            kept_count(ms@.len() as int) as nat,
            |t: int| ms@[order@[t] as int],
        ));
    }
    Ok(out)
}

/// The correspondences handed to the homography fit: the ratio test, then the
/// selection. Fails exactly when fewer than four matches pass the ratio test,
/// which is what two featureless frames give.
pub fn prepare_correspondences(candidates: &Vec<Vec<Match>>) -> (r: Result<Vec<Match>, AlignmentError>)
    ensures
        r.is_err() <==> ratio_survivors(candidates@).len() < MIN_MATCHES,
        r.is_err() ==> r == Err::<Vec<Match>, AlignmentError>(AlignmentError::InsufficientMatches),
        r.is_ok() ==> is_selection(ratio_survivors(candidates@), r.unwrap()@),
{
    let survivors = ratio_filter(candidates);
    select_matches(&survivors)
}

} // verus!
