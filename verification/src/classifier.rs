use vstd::prelude::*;

use crate::{HISTORY_SIZE, OFFLINE_THRESHOLD, RECENT_WINDOW};

verus! {

/// Number of `true` samples in a window.
pub open spec fn count_true(h: Seq<bool>) -> int
    decreases h.len(),
{
    if h.len() == 0 {
        0
    } else {
        count_true(h.drop_last()) + if h.last() {
            1int
        } else {
            0int
        }
    }
}

/// Position of the most recent `true` sample (0 = seen this round); equals
/// `h.len()` when the window holds no `true` sample at all.
pub open spec fn first_true_index(h: Seq<bool>) -> int
    decreases h.len(),
{
    if h.len() == 0 {
        0
    } else if h[0] {
        0
    } else {
        1 + first_true_index(h.subrange(1, h.len() as int))
    }
}

/// The three classifier rule-sets, selected by the fraction of `true`
/// samples in the full window (the base rate).
pub enum Regime {
    /// Base rate at most 3/10: devices that sleep most of the time.
    Sparse,
    /// Base rate above 3/10 and at most 1/2: irregular traffic.
    Intermittent,
    /// Base rate above 1/2: devices that answer almost every round.
    AlwaysOn,
}

/// Which regime a window with `trues` `true` samples out of `n` falls in.
pub open spec fn regime_of(trues: int, n: int) -> Regime {
    if 10 * trues <= 3 * n {
        Regime::Sparse
    } else if 2 * trues <= n {
        Regime::Intermittent
    } else {
        Regime::AlwaysOn
    }
}

/// Whether the recent rate has dropped sharply below the window's own base
/// rate. This is the comparison `(recent/w - trues/n) / (trues/n + 1/100)
/// < -3/5` (with `w = RECENT_WINDOW`), written with the positive
/// denominators cleared so that it is exact integer arithmetic.
pub open spec fn sharp_deviation_below(trues: int, recent: int, n: int) -> bool {
    n * (500 * recent + 3 * (RECENT_WINDOW as int)) < 200 * (RECENT_WINDOW as int) * trues
}

/// Whether the recent sub-window's rate is below 3/10.
pub open spec fn low_recent_rate(recent: int) -> bool {
    10 * recent < 3 * (RECENT_WINDOW as int)
}

/// The debounced connectivity verdict for a window `h` (most-recent first)
/// given the prior belief. An immature window (shorter than the capacity)
/// keeps the prior belief; a mature window is judged by the regime its base
/// rate selects:
///
/// - Sparse: offline only on total silence over the whole window; online on
///   a ping within the recent sub-window; otherwise the prior belief stands.
/// - Intermittent: offline exactly when the most recent ping lies deeper
///   than `OFFLINE_THRESHOLD`.
/// - Always-on: offline when the device has dropped sharply below its own
///   baseline while the recent rate is low, or has not answered for more
///   than `RECENT_WINDOW` rounds; otherwise online.
pub open spec fn spec_classify(h: Seq<bool>, prior: bool) -> bool {
    if h.len() < HISTORY_SIZE {
        prior
    } else {
        let n = h.len() as int;
        let trues = count_true(h);
        let last_ping = first_true_index(h);
        match regime_of(trues, n) {
            Regime::Sparse => {
                if last_ping >= HISTORY_SIZE {
                    false
                } else if last_ping < RECENT_WINDOW {
                    true
                } else {
                    prior
                }
            },
            Regime::Intermittent => last_ping <= OFFLINE_THRESHOLD,
            Regime::AlwaysOn => {
                let recent = count_true(h.take(RECENT_WINDOW as int));
                !((low_recent_rate(recent) && sharp_deviation_below(trues, recent, n))
                    || last_ping > RECENT_WINDOW)
            },
        }
    }
}

/// `count_true` never leaves `[0, h.len()]`.
pub proof fn lemma_count_true_bounds(h: Seq<bool>)
    ensures
        0 <= count_true(h) <= h.len(),
    decreases h.len(),
{
    if h.len() > 0 {
        lemma_count_true_bounds(h.drop_last());
    }
}

/// On an all-`true` window the count is the length.
pub proof fn lemma_count_true_full(h: Seq<bool>)
    requires
        forall|i: int| 0 <= i < h.len() ==> h[i],
    ensures
        count_true(h) == h.len(),
    decreases h.len(),
{
    if h.len() > 0 {
        lemma_count_true_full(h.drop_last());
    }
}

/// A window without a single `true` sample has count zero, and conversely.
pub proof fn lemma_count_true_zero(h: Seq<bool>)
    ensures
        count_true(h) == 0 <==> (forall|i: int| 0 <= i < h.len() ==> !h[i]),
    decreases h.len(),
{
    if h.len() > 0 {
        lemma_count_true_zero(h.drop_last());
        lemma_count_true_bounds(h.drop_last());
        assert(forall|i: int| 0 <= i < h.len() - 1 ==> h.drop_last()[i] == h[i]);
    }
}

/// If the first `true` sample sits at position `i`, `first_true_index`
/// finds exactly that position.
pub proof fn lemma_first_true_at(h: Seq<bool>, i: int)
    requires
        0 <= i < h.len(),
        h[i],
        forall|j: int| 0 <= j < i ==> !h[j],
    ensures
        first_true_index(h) == i,
    decreases i,
{
    if i > 0 {
        let t = h.subrange(1, h.len() as int);
        lemma_first_true_at(t, i - 1);
    }
}

/// On a window with no `true` sample the index runs off the end.
pub proof fn lemma_first_true_none(h: Seq<bool>)
    requires
        forall|j: int| 0 <= j < h.len() ==> !h[j],
    ensures
        first_true_index(h) == h.len(),
    decreases h.len(),
{
    if h.len() > 0 {
        lemma_first_true_none(h.subrange(1, h.len() as int));
    }
}

/// Counting over a window that is silent for its first `k` rounds and
/// `true` everywhere after.
pub proof fn lemma_count_false_then_true(h: Seq<bool>, k: int)
    requires
        0 <= k <= h.len(),
        forall|i: int| 0 <= i < k ==> !h[i],
        forall|i: int| k <= i < h.len() ==> h[i],
    ensures
        count_true(h) == h.len() - k,
    decreases h.len(),
{
    if h.len() == 0 {
    } else if k == h.len() {
        lemma_count_true_zero(h);
    } else {
        assert(h.last());
        assert(forall|i: int| 0 <= i < h.len() - 1 ==> h.drop_last()[i] == h[i]);
        lemma_count_false_then_true(h.drop_last(), k);
    }
}

/// `first_true_index` stays in `[0, h.len()]`, points at a `true` sample
/// whenever one exists, and nothing before it is `true`.
pub proof fn lemma_first_true_index_bounds(h: Seq<bool>)
    ensures
        0 <= first_true_index(h) <= h.len(),
        first_true_index(h) < h.len() ==> h[first_true_index(h)],
        forall|j: int| 0 <= j < first_true_index(h) ==> !h[j],
    decreases h.len(),
{
    if h.len() > 0 && !h[0] {
        let t = h.subrange(1, h.len() as int);
        lemma_first_true_index_bounds(t);
        assert forall|j: int| 0 <= j < first_true_index(h) implies !h[j] by {
            if j >= 1 {
                assert(t[j - 1] == h[j]);
                assert(!t[j - 1]);
            }
        }
    }
}

} // verus!
