//! Deterministic bucketing of a toss into a variant.

use vstd::prelude::*;
use vstd::set_lib::{lemma_int_range, set_int_range};

verus! {

/// Whether `toss` falls in bucket `i`: `[traffic * i, traffic * (i + 1))`.
pub open spec fn in_bucket(traffic: int, n: int, toss: int, i: int) -> bool {
    0 <= i < n && traffic * i <= toss < traffic * (i + 1)
}

/// The variant index for `toss`: none when `toss >= traffic * n`, else the
/// smallest `i` with `toss < traffic * (i + 1)`.
pub open spec fn decide_index(traffic: int, n: int, toss: int) -> Option<int> {
    if toss >= traffic * n {
        None
    } else {
        Some(choose|i: int| #[trigger] in_bucket(traffic, n, toss, i))
    }
}

proof fn lemma_bucket(traffic: int, n: int, toss: int, i: int)
    requires
        0 <= toss < traffic * n,
        traffic >= 0,
        0 <= i < n,
        traffic * i <= toss < traffic * (i + 1),
    ensures
        decide_index(traffic, n, toss) == Some(i),
{
    assert(in_bucket(traffic, n, toss, i));
    let k = choose|k: int| #[trigger] in_bucket(traffic, n, toss, k);
    if k < i {
        assert(traffic * (k + 1) <= traffic * i) by (nonlinear_arith)
            requires k + 1 <= i, traffic >= 0;
    } else if k > i {
        assert(traffic * (i + 1) <= traffic * k) by (nonlinear_arith)
            requires i + 1 <= k, traffic >= 0;
    }
}

/// Picks the index of the variant that `toss` falls on, among `n` variants that
/// each receive `traffic` percent.
pub fn decide(traffic: u8, n: usize, toss: u8) -> (r: Option<usize>)
    ensures
        r matches Some(i) ==> i < n,
        decide_index(traffic as int, n as int, toss as int) matches Some(j) ==> 0 <= j < n,
        r == (match decide_index(traffic as int, n as int, toss as int) {
            Some(i) => Some(i as usize),
            None => None,
        }),
{
    assert((traffic as int) * (n as int) <= 255 * (usize::MAX as int)) by (nonlinear_arith)
        requires traffic <= 255, n <= usize::MAX, traffic >= 0;
    let range: u128 = (traffic as u128) * (n as u128);
    proof {
        law_decide_total(traffic, n, toss);
    }
    if (toss as u128) >= range {
        return None;
    }
    let mut i: usize = 0;
    let mut bucket: u64 = traffic as u64;
    while (toss as u64) >= bucket
        invariant
            (toss as int) < traffic as int * n as int,
            i < n,
            bucket == traffic as int * (i + 1),
            traffic as int * i <= toss as int,
            bucket <= 256 + 255,
        decreases 256 - i,
    {
        assert(traffic > 0) by (nonlinear_arith)
            requires (toss as int) < traffic as int * n as int, toss >= 0;
        assert(i + 1 < n) by (nonlinear_arith)
            requires (toss as int) < traffic as int * n as int, traffic as int * (i + 1) <= toss as int, traffic > 0;
        assert(i < 256) by (nonlinear_arith)
            requires traffic as int * (i + 1) <= toss as int, traffic > 0, toss < 256;
        assert(traffic as int * (i + 2) == traffic as int * (i + 1) + traffic as int) by (nonlinear_arith);
        i += 1;
        bucket = bucket + traffic as u64;
    }
    proof {
        lemma_bucket(traffic as int, n as int, toss as int, i as int);
    }
    Some(i)
}

/// Every outcome of the assigner is either no variant or one of the variants.
pub proof fn law_decide_total(traffic: u8, n: usize, toss: u8)
    ensures
        decide_index(traffic as int, n as int, toss as int) matches Some(i) ==> 0 <= i < n,
{
    if toss as int >= traffic as int * n as int {
    } else {
        assert(traffic > 0) by (nonlinear_arith)
            requires (toss as int) < traffic as int * n as int, toss >= 0;
        let t = traffic as int;
        let q = toss as int / t;
        assert(t * q <= toss < t * (q + 1)) by (nonlinear_arith)
            requires t > 0, q == toss as int / t, toss >= 0;
        assert(q < n) by (nonlinear_arith)
            requires t * q <= toss, toss < t * n, t > 0;
        assert(q >= 0) by (nonlinear_arith)
            requires t > 0, q == toss as int / t, toss >= 0;
        lemma_bucket(t, n as int, toss as int, q);
    }
}

/// The assigner is a function of its inputs: the same traffic, variant count
/// and toss give the same outcome.
pub proof fn law_decide_deterministic(traffic: u8, n: usize, toss: u8, r1: Option<usize>, r2: Option<usize>)
    requires
        r1 == (match decide_index(traffic as int, n as int, toss as int) {
            Some(i) => Some(i as usize),
            None => None,
        }),
        r2 == (match decide_index(traffic as int, n as int, toss as int) {
            Some(i) => Some(i as usize),
            None => None,
        }),
    ensures
        r1 == r2,
{
}

/// Coverage: when the buckets fit in `[0, 100)`, variant `i` receives exactly the
/// tosses of `[traffic * i, traffic * (i + 1))`, that is `traffic` of the hundred.
pub proof fn law_decide_coverage(traffic: u8, n: usize, i: int, toss: u8)
    requires
        traffic as int * n as int <= 100,
        0 <= i < n,
    ensures
        decide_index(traffic as int, n as int, toss as int) == Some(i)
            <==> traffic as int * i <= toss as int && (toss as int) < traffic as int * (i + 1),
{
    let t = traffic as int;
    if t * i <= toss && toss < t * (i + 1) {
        assert(t * (i + 1) <= t * n) by (nonlinear_arith)
            requires i + 1 <= n, t >= 0;
        lemma_bucket(t, n as int, toss as int, i);
    } else if decide_index(t, n as int, toss as int) == Some(i) {
        law_decide_total(traffic, n, toss);
        if toss < t * n {
            let q = toss as int / t;
            assert(t > 0) by (nonlinear_arith)
                requires (toss as int) < t * n, toss >= 0;
            assert(t * q <= toss < t * (q + 1)) by (nonlinear_arith)
                requires t > 0, q == toss as int / t, toss >= 0;
            assert(q < n) by (nonlinear_arith)
                requires t * q <= toss, toss < t * n, t > 0;
            assert(q >= 0) by (nonlinear_arith)
                requires t > 0, q == toss as int / t, toss >= 0;
            lemma_bucket(t, n as int, toss as int, q);
        }
    }
}

/// Coverage as a share: among the tosses `0..100`, exactly `traffic` pick
/// variant `i`, when the buckets fit in that range.
pub proof fn law_decide_share(traffic: u8, n: usize, i: int)
    requires
        traffic as int * n as int <= 100,
        0 <= i < n,
    ensures
        Set::new(|t: int| 0 <= t < 100 && decide_index(traffic as int, n as int, t) == Some(i)).finite(),
        Set::new(|t: int| 0 <= t < 100 && decide_index(traffic as int, n as int, t) == Some(i)).len() == traffic,
{
    let tr = traffic as int;
    let s = Set::new(|t: int| 0 <= t < 100 && decide_index(tr, n as int, t) == Some(i));
    assert(tr * (i + 1) <= tr * n) by (nonlinear_arith)
        requires i + 1 <= n, tr >= 0;
    assert(tr * i >= 0) by (nonlinear_arith)
        requires i >= 0, tr >= 0;
    assert(tr * (i + 1) == tr * i + tr) by (nonlinear_arith);
    assert forall|t: int| s.contains(t) <==> set_int_range(tr * i, tr * (i + 1)).contains(t) by {
        if 0 <= t < 100 {
            law_decide_coverage(traffic, n, i, t as u8);
        }
    }
    assert(s =~= set_int_range(tr * i, tr * (i + 1)));
    lemma_int_range(tr * i, tr * (i + 1));
}

} // verus!
