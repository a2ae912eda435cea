//! Dense ranks from merge scores. A score is handed over as the bit pattern of an
//! IEEE-754 single, and scores are ordered by the total order of `f32::total_cmp`.
use vstd::prelude::*;

verus! {

/// The integer whose order on bit patterns is `f32::total_cmp`'s order on the floats:
/// positive patterns keep their value, negative ones are reversed below zero.
pub open spec fn score_key(bits: u32) -> int {
    if bits < 0x8000_0000 {
        bits as int
    } else {
        0x7FFF_FFFF - bits as int
    }
}

/// Computes `score_key`.
pub fn total_order_key(bits: u32) -> (r: i64)
    ensures
        r == score_key(bits),
{
    if bits < 0x8000_0000 {
        bits as i64
    } else {
        0x7FFF_FFFFi64 - bits as i64
    }
}

pub open spec fn strictly_descending(d: Seq<i64>) -> bool {
    forall|a: int, b: int| 0 <= a < b < d.len() ==> d[a] > d[b]
}

/// The first position of `d` whose value is not above `k`.
fn split_point(d: &Vec<i64>, k: i64) -> (p: usize)
    requires
        strictly_descending(d@),
    ensures
        p <= d.len(),
        forall|a: int| 0 <= a < p ==> d@[a] > k,
        forall|a: int| p <= a < d.len() ==> d@[a] <= k,
{
    let mut lo: usize = 0;
    let mut hi: usize = d.len();
    while lo < hi
        invariant
            lo <= hi <= d.len(),
            strictly_descending(d@),
            forall|a: int| 0 <= a < lo ==> d@[a] > k,
            forall|a: int| hi <= a < d.len() ==> d@[a] <= k,
        decreases hi - lo,
    {
        let mid = lo + (hi - lo) / 2;
        if d[mid] > k {
            lo = mid + 1;
        } else {
            hi = mid;
        }
    }
    lo
}

pub open spec fn is_key_of(scores: Seq<u32>, x: int) -> bool {
    exists|j: int| 0 <= j < scores.len() && score_key(scores[j]) == x
}

pub open spec fn is_in(d: Seq<i64>, x: int) -> bool {
    exists|a: int| 0 <= a < d.len() && d[a] == x
}

/// The distinct keys of `scores`, highest first.
fn distinct_keys(scores: &[u32]) -> (d: Vec<i64>)
    ensures
        d.len() <= scores.len(),
        strictly_descending(d@),
        forall|a: int| 0 <= a < d.len() ==> is_key_of(scores@, #[trigger] d@[a] as int),
        forall|j: int| 0 <= j < scores.len() ==> is_in(d@, #[trigger] score_key(scores@[j])),
{
    let n = scores.len();
    let mut d: Vec<i64> = Vec::new();
    let mut i: usize = 0;
    while i < n
        invariant
            i <= n == scores.len(),
            d.len() <= i,
            strictly_descending(d@),
            forall|a: int| 0 <= a < d.len() ==> is_key_of(scores@.take(i as int), #[trigger] d@[a] as int),
            forall|j: int| 0 <= j < i ==> is_in(d@, #[trigger] score_key(scores@[j])),
        decreases n - i,
    {
        let k = total_order_key(scores[i]);
        let p = split_point(&d, k);
        let ghost d0 = d@;
        assert forall|a: int| 0 <= a < d0.len() implies is_key_of(scores@.take(i + 1), #[trigger] d0[a] as int) by {
            let j = choose|j: int| 0 <= j < i && score_key(scores@.take(i as int)[j]) == d0[a] as int;
            assert(scores@.take(i + 1)[j] == scores@.take(i as int)[j]);
        }
        if p < d.len() && d[p] == k {
            assert(is_in(d@, score_key(scores@[i as int])));
        } else {
            d.insert(p, k);
            assert forall|a: int| 0 <= a < d.len() implies is_key_of(scores@.take(i + 1), #[trigger] d@[a] as int) by {
                if a < p {
                    assert(d@[a] == d0[a]);
                } else if a > p {
                    assert(d@[a] == d0[a - 1]);
                } else {
                    assert(scores@.take(i + 1)[i as int] == scores@[i as int]);
                }
            }
            assert forall|j: int| 0 <= j < i + 1 implies is_in(d@, #[trigger] score_key(scores@[j])) by {
                if j < i {
                    assert(is_in(d0, score_key(scores@[j])));
                    let a0 = choose|a: int| 0 <= a < d0.len() && d0[a] == score_key(scores@[j]);
                    if a0 < p {
                        assert(d@[a0] == d0[a0]);
                    } else {
                        assert(d@[a0 + 1] == d0[a0]);
                    }
                } else {
                    assert(d@[p as int] == k);
                }
            }
        }
        i += 1;
    }
    assert(scores@.take(n as int) =~= scores@);
    d
}

/// `r` ranks `scores`: a higher score has a smaller rank, equal scores share one,
/// and every rank above 0 has its predecessor in use.
pub open spec fn dense_ranks(scores: Seq<u32>, r: Seq<u32>) -> bool {
    &&& r.len() == scores.len()
    &&& forall|i: int, j: int| 0 <= i < r.len() && 0 <= j < r.len() ==>
            (score_key(scores[i]) > score_key(scores[j]) <==> r[i] < r[j])
    &&& forall|i: int| 0 <= i < r.len() && r[i] > 0 ==>
            exists|j: int| 0 <= j < r.len() && #[trigger] r[j] + 1 == r[i]
}

/// Ranks scores: 0 for the highest, equal scores alike, and no rank skipped.
/// `scores` holds the bit patterns of the floats.
pub fn rank(scores: &[u32]) -> (r: Vec<u32>)
    requires
        scores.len() <= u32::MAX,
    ensures
        dense_ranks(scores@, r@),
{
    let n = scores.len();
    let d = distinct_keys(scores);
    let mut r: Vec<u32> = Vec::new();
    let mut i: usize = 0;
    while i < n
        invariant
            i <= n == scores.len(),
            n <= u32::MAX,
            d.len() <= n,
            strictly_descending(d@),
            forall|j: int| 0 <= j < n ==> is_in(d@, #[trigger] score_key(scores@[j])),
            r.len() == i,
            forall|j: int| 0 <= j < i ==> #[trigger] r@[j] < d.len() && d@[r@[j] as int] == score_key(scores@[j]),
        decreases n - i,
    {
        let k = total_order_key(scores[i]);
        let p = split_point(&d, k);
        proof {
            assert(is_in(d@, score_key(scores@[i as int])));
            let a = choose|a: int| 0 <= a < d.len() && d@[a] == score_key(scores@[i as int]);
            if a < p {
                assert(d@[a] > k);
            } else if a > p {
                assert(d@[p as int] > d@[a]);
            }
        }
        assert(p < d.len() && d@[p as int] == score_key(scores@[i as int]));
        let ghost r0 = r@;
        assert(p < u32::MAX);
        let q: u32 = p as u32;
        assert(q as int == p as int);
        r.push(q);
        assert(r@[i as int] as int == p as int);
        assert forall|j: int| 0 <= j < i + 1 implies #[trigger] r@[j] < d.len() && d@[r@[j] as int] == score_key(scores@[j]) by {
            if j < i {
                assert(r@[j] == r0[j]);
            }
        }
        i += 1;
    }
    assert forall|i: int, j: int| 0 <= i < r.len() && 0 <= j < r.len() implies
        (score_key(scores@[i]) > score_key(scores@[j]) <==> r@[i] < r@[j]) by {
        assert(r@[i] < d.len() && d@[r@[i] as int] == score_key(scores@[i]));
        assert(r@[j] < d.len() && d@[r@[j] as int] == score_key(scores@[j]));
    }
    assert forall|i: int| 0 <= i < r.len() && r@[i] > 0 implies
        exists|j: int| 0 <= j < r.len() && #[trigger] r@[j] + 1 == r@[i] by {
        let a = r@[i] - 1;
        assert(is_key_of(scores@, d@[a] as int));
        let j = choose|j: int| 0 <= j < n && score_key(scores@[j]) == d@[a] as int;
        assert(r@[j] < d.len() && d@[r@[j] as int] == score_key(scores@[j]));
        assert(r@[j] + 1 == r@[i]);
    }
    r
}

} // verus!
