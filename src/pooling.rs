//! Why the padding rewrite keeps a pooling node's values, on one axis.
//!
//! Max pooling with implicit padding ignores the padded positions; the
//! rewritten graph instead pads explicitly by reflection and pools without
//! padding. Reflected values are copies of values inside the same window as
//! long as the kernel spans at least `2p + 1` positions, so both give the same
//! maximum.
use vstd::prelude::*;

verus! {

/// Largest of `x[lo .. hi]` (`hi` excluded, `lo < hi`).
pub open spec fn max_of(x: Seq<int>, lo: int, hi: int) -> int
    decreases hi - lo,
{
    if hi - lo <= 1 {
        x[lo]
    } else {
        let m = max_of(x, lo, hi - 1);
        if x[hi - 1] > m {
            x[hi - 1]
        } else {
            m
        }
    }
}

/// Output `i` of stride-1 max pooling with kernel `k` and implicit padding
/// `p` at both ends: the window `[i - p, i - p + k)` clipped to the signal.
pub open spec fn pool_implicit(x: Seq<int>, k: int, p: int, i: int) -> int {
    let lo = if i - p > 0 { i - p } else { 0 };
    let hi = if i - p + k < x.len() { i - p + k } else { x.len() as int };
    max_of(x, lo, hi)
}

/// Source position of position `j` of a signal of length `n` reflect-padded by `p`.
pub open spec fn reflect_index(n: int, p: int, j: int) -> int {
    let s = j - p;
    if s < 0 {
        -s
    } else if s >= n {
        2 * (n - 1) - s
    } else {
        s
    }
}

/// The signal padded by `p` at both ends in reflect mode (the edge value is not repeated).
pub open spec fn reflect_pad(x: Seq<int>, p: int) -> Seq<int> {
    Seq::new((x.len() + 2 * p) as nat, |j: int| x[reflect_index(x.len() as int, p, j)])
}

/// Output `i` of stride-1 max pooling with kernel `k` and no padding.
pub open spec fn pool_valid(y: Seq<int>, k: int, i: int) -> int {
    max_of(y, i, i + k)
}

proof fn lemma_max_of(x: Seq<int>, lo: int, hi: int)
    requires
        0 <= lo < hi <= x.len(),
    ensures
        forall|t: int| lo <= t < hi ==> x[t] <= max_of(x, lo, hi),
        exists|t: int| lo <= t < hi && x[t] == max_of(x, lo, hi),
    decreases hi - lo,
{
    if hi - lo > 1 {
        lemma_max_of(x, lo, hi - 1);
        if x[hi - 1] <= max_of(x, lo, hi - 1) {
            let t = choose|t: int| lo <= t < hi - 1 && x[t] == max_of(x, lo, hi - 1);
            assert(lo <= t < hi && x[t] == max_of(x, lo, hi));
        } else {
            assert(x[hi - 1] == max_of(x, lo, hi));
        }
    } else {
        assert(x[lo] == max_of(x, lo, hi));
    }
}

/// On one axis, with integer values: reflect padding by `p` followed by
/// stride-1 max pooling without padding gives, at every output position, the
/// value of stride-1 max pooling with implicit padding `p`, whenever the
/// kernel `k` spans at least `2p + 1` positions and the signal is longer than `p`.
pub proof fn lemma_reflect_pad_then_pool(x: Seq<int>, k: int, p: int, i: int)
    requires
        p >= 0,
        x.len() >= p + 1,
        k >= 2 * p + 1,
        0 <= i <= x.len() + 2 * p - k,
    ensures
        pool_valid(reflect_pad(x, p), k, i) == pool_implicit(x, k, p, i),
{
    let n = x.len() as int;
    let y = reflect_pad(x, p);
    let lo = if i - p > 0 { i - p } else { 0 };
    let hi = if i - p + k < n { i - p + k } else { n };
    assert forall|j: int| i <= j < i + k implies lo <= #[trigger] reflect_index(n, p, j) < hi by {}
    lemma_max_of(y, i, i + k);
    lemma_max_of(x, lo, hi);
    let a = pool_valid(y, k, i);
    let b = pool_implicit(x, k, p, i);
    let ja = choose|t: int| i <= t < i + k && y[t] == a;
    assert(y[ja] == x[reflect_index(n, p, ja)]);
    assert(a <= b);
    let tb = choose|t: int| lo <= t < hi && x[t] == b;
    assert(reflect_index(n, p, tb + p) == tb);
    assert(y[tb + p] == b);
    assert(b <= a);
}

} // verus!
