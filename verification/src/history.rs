use std::collections::VecDeque;
use vstd::prelude::*;

use crate::classifier::{
    count_true, first_true_index, lemma_count_true_zero, lemma_first_true_at,
    lemma_first_true_none, spec_classify,
};
use crate::{HISTORY_SIZE, OFFLINE_THRESHOLD, RECENT_WINDOW};

verus! {

/// One sample per scan round: `true` when the device answered that round.
/// The window is most-recent-first (index 0 is the newest sample) and holds
/// at most `HISTORY_SIZE` samples; pushing into a full window drops the
/// oldest one.
pub struct ScanHistory {
    log: VecDeque<bool>,
}

impl View for ScanHistory {
    type V = Seq<bool>;

    closed spec fn view(&self) -> Seq<bool> {
        self.log@
    }
}

/// The sequence after recording one more sample at the front of `h`: the new
/// sample is prepended and, when the window is already at capacity, the
/// oldest sample falls off the back.
pub open spec fn push_sample(h: Seq<bool>, s: bool) -> Seq<bool> {
    if h.len() < HISTORY_SIZE {
        seq![s] + h
    } else {
        (seq![s] + h).take(HISTORY_SIZE as int)
    }
}

impl ScanHistory {
    /// The window never grows past its capacity.
    pub open spec fn wf(&self) -> bool {
        self@.len() <= HISTORY_SIZE
    }

    /// An empty window: no rounds observed yet.
    pub fn new() -> (h: ScanHistory)
        ensures
            h@ == Seq::<bool>::empty(),
            h.wf(),
    {
        ScanHistory { log: VecDeque::new() }
    }

    /// A full window with exactly the given samples, most-recent first.
    pub fn from(array: Vec<bool>) -> (h: ScanHistory)
        requires
            array@.len() == HISTORY_SIZE,
        ensures
            h@ == array@,
            h.wf(),
    {
        let mut log: VecDeque<bool> = VecDeque::new();
        let mut i: usize = 0;
        while i < array.len()
            invariant
                i <= array@.len(),
                log@ == array@.take(i as int),
            decreases array@.len() - i,
        {
            log.push_back(array[i]);
            proof {
                assert(array@.take(i as int).push(array@[i as int]) =~= array@.take(
                    i as int + 1,
                ));
            }
            i = i + 1;
        }
        proof {
            assert(array@.take(array@.len() as int) =~= array@);
        }
        ScanHistory { log }
    }

    /// Record one more round's sample at the front, evicting the oldest
    /// sample when the window is full.
    pub fn update(&mut self, state: bool)
        requires
            old(self).wf(),
        ensures
            final(self)@ == push_sample(old(self)@, state),
            final(self).wf(),
    {
        self.log.push_front(state);
        if self.log.len() > HISTORY_SIZE {
            self.log.pop_back();
            proof {
                assert((seq![state] + old(self)@).subrange(0, HISTORY_SIZE as int) =~= (seq![
                    state,
                ] + old(self)@).take(HISTORY_SIZE as int));
            }
        }
    }

    /// Number of samples recorded so far, capped at the capacity.
    pub fn len(&self) -> (n: usize)
        ensures
            n == self@.len(),
    {
        self.log.len()
    }

    /// Whether the window has reached its capacity; only then is it mature
    /// enough for the classifier to override the prior belief.
    pub fn is_full(&self) -> (r: bool)
        requires
            self.wf(),
        ensures
            r == (self@.len() == HISTORY_SIZE),
    {
        self.log.len() == HISTORY_SIZE
    }

    /// How many of the `k` most recent samples are `true`. With `k` the
    /// window's length this counts every answered round (the base rate is
    /// this count over the length); a smaller `k` restricts the count to
    /// the front of the window (the recent rate).
    pub fn recent_true_count(&self, k: usize) -> (r: usize)
        requires
            k <= self@.len(),
        ensures
            r == count_true(self@.take(k as int)),
    {
        let mut trues: usize = 0;
        let mut i: usize = 0;
        while i < k
            invariant
                i <= k <= self@.len(),
                trues <= i,
                trues == count_true(self@.take(i as int)),
            decreases k - i,
        {
            proof {
                assert(self@.take(i as int + 1).drop_last() =~= self@.take(i as int));
                assert(self@.take(i as int + 1).last() == self@[i as int]);
            }
            if self.log[i] {
                trues = trues + 1;
            }
            i = i + 1;
        }
        trues
    }

    /// How many samples in the whole window are `true`.
    pub fn true_count(&self) -> (r: usize)
        ensures
            r == count_true(self@),
    {
        let n = self.log.len();
        let r = self.recent_true_count(n);
        proof {
            assert(self@.take(n as int) =~= self@);
        }
        r
    }

    /// Position of the most recent `true` sample (0 = seen this round);
    /// `HISTORY_SIZE` — older than anything the window can hold — when no
    /// round in the window was answered.
    pub fn index_of_last_true(&self) -> (r: usize)
        requires
            self.wf(),
        ensures
            self@.len() == HISTORY_SIZE ==> r == first_true_index(self@),
            count_true(self@) == 0 <==> r == HISTORY_SIZE,
            count_true(self@) != 0 ==> r == first_true_index(self@),
    {
        let n = self.log.len();
        let mut i: usize = 0;
        while i < n
            invariant
                i <= n == self@.len(),
                n <= HISTORY_SIZE,
                forall|j: int| 0 <= j < i ==> !self@[j],
            decreases n - i,
        {
            if self.log[i] {
                proof {
                    lemma_first_true_at(self@, i as int);
                    lemma_count_true_zero(self@);
                }
                return i;
            }
            i = i + 1;
        }
        proof {
            lemma_first_true_none(self@);
            lemma_count_true_zero(self@);
        }
        HISTORY_SIZE
    }

    /// The debounced connectivity verdict for this window, given the prior
    /// belief `is_connected`; see `spec_classify` for the classification
    /// rules.
    pub fn is_connected(&self, is_connected: bool) -> (verdict: bool)
        requires
            self.wf(),
        ensures
            verdict == spec_classify(self@, is_connected),
    {
        let n = self.log.len();
        if n < HISTORY_SIZE {
            return is_connected;
        }
        let mut trues: usize = 0;
        let mut recent: usize = 0;
        let mut last_ping: usize = HISTORY_SIZE;
        let mut found = false;
        let mut i: usize = 0;
        while i < n
            invariant
                n == self@.len(),
                n == HISTORY_SIZE,
                i <= n,
                trues <= i,
                recent <= RECENT_WINDOW,
                trues == count_true(self@.take(i as int)),
                i <= RECENT_WINDOW ==> recent == count_true(self@.take(i as int)),
                i > RECENT_WINDOW ==> recent == count_true(self@.take(RECENT_WINDOW as int)),
                found ==> last_ping < i && self@[last_ping as int] && (forall|j: int|
                    0 <= j < last_ping ==> !self@[j]),
                !found ==> last_ping == HISTORY_SIZE && (forall|j: int|
                    0 <= j < i ==> !self@[j]),
            decreases n - i,
        {
            let s = self.log[i];
            proof {
                assert(self@.take(i as int + 1).drop_last() =~= self@.take(i as int));
                assert(self@.take(i as int + 1).last() == self@[i as int]);
            }
            if s {
                trues = trues + 1;
                if i < RECENT_WINDOW {
                    recent = recent + 1;
                }
                if !found {
                    found = true;
                    last_ping = i;
                }
            }
            i = i + 1;
        }
        proof {
            assert(self@.take(n as int) =~= self@);
            if found {
                lemma_first_true_at(self@, last_ping as int);
            } else {
                lemma_first_true_none(self@);
            }
        }
        assert(trues <= HISTORY_SIZE);
        assert(recent <= RECENT_WINDOW);
        let verdict: bool = if 10 * trues <= 3 * n {
            if last_ping >= HISTORY_SIZE {
                false
            } else if last_ping < RECENT_WINDOW {
                true
            } else {
                is_connected
            }
        } else if 2 * trues <= n {
            last_ping <= OFFLINE_THRESHOLD
        } else {
            proof {
                assert(n * (500 * recent + 3 * RECENT_WINDOW) <= 75450) by (nonlinear_arith)
                    requires
                        n == 30,
                        recent <= 5,
                        RECENT_WINDOW == 5,
                ;
                assert(200 * RECENT_WINDOW * trues <= 30000) by (nonlinear_arith)
                    requires
                        trues <= 30,
                        RECENT_WINDOW == 5,
                ;
            }
            let scaled_base: usize = n * (500 * recent + 3 * RECENT_WINDOW);
            let scaled_recent: usize = 200 * RECENT_WINDOW * trues;
            !((10 * recent < 3 * RECENT_WINDOW && scaled_base < scaled_recent) || last_ping
                > RECENT_WINDOW)
        };
        verdict
    }

    /// The sample recorded `i` rounds ago (0 = most recent).
    pub fn get(&self, i: usize) -> (s: bool)
        requires
            i < self@.len(),
        ensures
            s == self@[i as int],
    {
        self.log[i]
    }
}

} // verus!
