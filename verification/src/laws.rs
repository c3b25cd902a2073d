use vstd::prelude::*;

use crate::classifier::{
    count_true, first_true_index, lemma_count_false_then_true, lemma_count_true_full,
    lemma_count_true_zero, lemma_first_true_at, lemma_first_true_index_bounds,
    lemma_first_true_none, spec_classify,
};
use crate::device::{DeviceStateView, DeviceView, EventView};
use crate::history::push_sample;
use crate::registry::{
    lemma_observe_all_wf, lemma_push_sample_len, lemma_settle_all_wf, observe_all, observe_one,
    observed_has, reg_has, reg_index_of, reg_wf, settle_all, settle_event, settle_events,
    settle_history, settle_state, spec_reconcile,
};
use crate::{HISTORY_SIZE, OFFLINE_THRESHOLD, RECENT_WINDOW};

verus! {

/// Every sample in the window is `true`.
pub open spec fn all_true(h: Seq<bool>) -> bool {
    forall|i: int| 0 <= i < h.len() ==> h[i]
}

/// Every sample in the window is `false`.
pub open spec fn all_false(h: Seq<bool>) -> bool {
    forall|i: int| 0 <= i < h.len() ==> !h[i]
}

/// An immature window (fewer samples than the capacity) never changes the
/// belief: the classifier returns the prior unchanged.
pub proof fn lemma_immature_window_keeps_belief(h: Seq<bool>, prior: bool)
    requires
        h.len() < HISTORY_SIZE,
    ensures
        spec_classify(h, prior) == prior,
{
}

/// A mature window in which the device answered every round classifies as
/// online, whatever the prior belief was.
pub proof fn lemma_always_answering_device_is_online(h: Seq<bool>, prior: bool)
    requires
        h.len() == HISTORY_SIZE,
        all_true(h),
    ensures
        spec_classify(h, prior),
{
    lemma_count_true_full(h);
    let r = h.take(RECENT_WINDOW as int);
    assert(forall|i: int| 0 <= i < r.len() ==> r[i]);
    lemma_count_true_full(r);
    assert(first_true_index(h) == 0);
}

/// A device with a mature window that has answered nothing for more than
/// `RECENT_WINDOW` consecutive rounds and answered every round before that:
/// while the silence is at most `2 * OFFLINE_THRESHOLD` rounds the verdict
/// is offline whatever the prior belief was, and under a prior offline
/// belief continued silence never brings the verdict back online.
pub proof fn lemma_silent_spell_turns_offline_and_sticks(h: Seq<bool>, k: int, prior: bool)
    requires
        h.len() == HISTORY_SIZE,
        RECENT_WINDOW < k <= HISTORY_SIZE,
        forall|i: int| 0 <= i < k ==> !h[i],
        forall|i: int| k <= i < h.len() ==> h[i],
    ensures
        k <= 2 * OFFLINE_THRESHOLD ==> !spec_classify(h, prior),
        !spec_classify(h, false),
{
    lemma_count_false_then_true(h, k);
    if k < h.len() {
        lemma_first_true_at(h, k);
    } else {
        lemma_first_true_none(h);
    }
}

/// A sparse-regime device that still has at least one `true` sample
/// anywhere in its mature window keeps an online belief: only total
/// silence over the whole window can take it offline.
pub proof fn lemma_sparse_device_needs_total_silence(h: Seq<bool>)
    requires
        h.len() == HISTORY_SIZE,
        10 * count_true(h) <= 3 * h.len(),
        count_true(h) > 0,
    ensures
        spec_classify(h, true),
{
    lemma_first_true_index_bounds(h);
    if first_true_index(h) == h.len() {
        lemma_count_true_zero(h);
    }
}

/// A mature window without a single `true` sample classifies as offline,
/// whatever the prior belief was.
pub proof fn lemma_total_silence_is_offline(h: Seq<bool>, prior: bool)
    requires
        h.len() == HISTORY_SIZE,
        count_true(h) == 0,
    ensures
        !spec_classify(h, prior),
{
    lemma_count_true_zero(h);
    lemma_first_true_none(h);
}

/// A device seen this round or the round before, whose base rate is at most
/// one half, classifies as online: outside the always-on regime a single
/// missed round can never flip a belief to offline.
pub proof fn lemma_fresh_sighting_never_turns_offline(h: Seq<bool>, prior: bool)
    requires
        h.len() == HISTORY_SIZE,
        h[0] || h[1],
        2 * count_true(h) <= h.len(),
    ensures
        spec_classify(h, prior),
{
    if h[0] {
        assert(first_true_index(h) == 0);
    } else {
        lemma_first_true_at(h, 1);
    }
}

/// Prepending a `true` sample to an all-`true` window leaves it all `true`.
pub proof fn lemma_push_true_stays_all_true(h: Seq<bool>)
    requires
        all_true(h),
    ensures
        all_true(push_sample(h, true)),
{
    let out = push_sample(h, true);
    assert forall|i: int| 0 <= i < out.len() implies out[i] by {
        if i > 0 {
            assert(out[i] == h[i - 1]);
        }
    }
}

/// Prepending a `false` sample to an all-`false` window leaves it all
/// `false`.
pub proof fn lemma_push_false_stays_all_false(h: Seq<bool>)
    requires
        all_false(h),
    ensures
        all_false(push_sample(h, false)),
{
    let out = push_sample(h, false);
    assert forall|i: int| 0 <= i < out.len() implies !out[i] by {
        if i > 0 {
            assert(out[i] == h[i - 1]);
        }
    }
}

proof fn lemma_observe_all_announces(
    reg: Seq<DeviceStateView>,
    obs: Seq<DeviceView>,
    now: i64,
    m: Seq<char>,
)
    requires
        reg_wf(reg),
        !reg_has(reg, m),
        observed_has(obs, m),
    ensures
        exists|e: int|
            0 <= e < observe_all(reg, obs, now).1.len() && (#[trigger] observe_all(
                reg,
                obs,
                now,
            ).1[e]).device.mac == m && observe_all(reg, obs, now).1[e].became_online,
    decreases obs.len(),
{
    let prefix = obs.drop_last();
    let d = obs.last();
    let prev = observe_all(reg, prefix, now);
    let step = observe_one(prev.0, d, now);
    let out = observe_all(reg, obs, now);
    if observed_has(prefix, m) {
        lemma_observe_all_announces(reg, prefix, now, m);
        let e = choose|e: int|
            0 <= e < prev.1.len() && (#[trigger] prev.1[e]).device.mac == m
                && prev.1[e].became_online;
        assert(out.1[e] == prev.1[e]);
    } else {
        let j = choose|j: int| 0 <= j < obs.len() && obs[j].mac == m;
        if j < obs.len() - 1 {
            assert(prefix[j].mac == m);
            assert(false);
        }
        assert(d.mac == m);
        lemma_observe_all_wf(reg, prefix, now);
        assert(!reg_has(prev.0, m));
        let e = prev.1.len() as int;
        assert(out.1[e] == step.1[0]);
        assert(out.1[e].device.mac == m && out.1[e].became_online);
    }
}

/// A brand-new device — one observed this round under an identifier the
/// registry has never held — is announced with a `became_online` event in
/// the very cycle it first appears.
pub proof fn lemma_new_device_is_announced(
    reg: Seq<DeviceStateView>,
    obs: Seq<DeviceView>,
    now: i64,
    x: int,
)
    requires
        reg_wf(reg),
        0 <= x < obs.len(),
        !reg_has(reg, obs[x].mac),
    ensures
        exists|e: int|
            0 <= e < spec_reconcile(reg, obs, now).1.len() && (#[trigger] spec_reconcile(
                reg,
                obs,
                now,
            ).1[e]).device.mac == obs[x].mac && spec_reconcile(reg, obs, now).1[e].became_online,
{
    assert(observed_has(obs, obs[x].mac));
    lemma_observe_all_announces(reg, obs, now, obs[x].mac);
    let o = observe_all(reg, obs, now);
    let e = choose|e: int|
        0 <= e < o.1.len() && (#[trigger] o.1[e]).device.mac == obs[x].mac
            && o.1[e].became_online;
    assert(spec_reconcile(reg, obs, now).1[e] == o.1[e]);
}

/// The registry's steady state for a fixed observation set: every observed
/// device is known, online, with a window saturated to all `true`; every
/// other device is offline with a window saturated to all `false`.
pub open spec fn steady_state(reg: Seq<DeviceStateView>, obs: Seq<DeviceView>) -> bool {
    &&& forall|i: int|
        #![trigger reg[i]]
        0 <= i < reg.len() ==> if observed_has(obs, reg[i].device.mac) {
            reg[i].is_connected && all_true(reg[i].history)
        } else {
            !reg[i].is_connected && all_false(reg[i].history)
        }
    &&& forall|x: int| 0 <= x < obs.len() ==> reg_has(reg, (#[trigger] obs[x]).mac)
}

proof fn lemma_observe_all_keeps_steady(
    reg: Seq<DeviceStateView>,
    full: Seq<DeviceView>,
    obs: Seq<DeviceView>,
    now: i64,
)
    requires
        reg_wf(reg),
        forall|x: int| 0 <= x < obs.len() ==> observed_has(full, (#[trigger] obs[x]).mac),
        forall|x: int| 0 <= x < obs.len() ==> reg_has(reg, (#[trigger] obs[x]).mac),
        forall|i: int|
            #![trigger reg[i]]
            0 <= i < reg.len() ==> (observed_has(full, reg[i].device.mac) ==> reg[i].is_connected
                && all_true(reg[i].history)),
    ensures
        observe_all(reg, obs, now).1.len() == 0,
        observe_all(reg, obs, now).0.len() == reg.len(),
        reg_wf(observe_all(reg, obs, now).0),
        forall|i: int|
            #![trigger observe_all(reg, obs, now).0[i]]
            0 <= i < reg.len() ==> {
                &&& observe_all(reg, obs, now).0[i].device.mac == reg[i].device.mac
                &&& observe_all(reg, obs, now).0[i].is_connected == reg[i].is_connected
                &&& (observed_has(full, reg[i].device.mac) ==> all_true(
                    observe_all(reg, obs, now).0[i].history,
                ))
                &&& (!observed_has(full, reg[i].device.mac) ==> observe_all(reg, obs, now).0[i]
                    == reg[i])
            },
    decreases obs.len(),
{
    if obs.len() > 0 {
        let prefix = obs.drop_last();
        let d = obs.last();
        assert(forall|x: int| 0 <= x < prefix.len() ==> prefix[x] == obs[x]);
        lemma_observe_all_keeps_steady(reg, full, prefix, now);
        let mid = observe_all(reg, prefix, now).0;
        assert(obs[obs.len() - 1] == d);
        assert(reg_has(reg, d.mac));
        let w = choose|w: int| 0 <= w < reg.len() && reg[w].device.mac == d.mac;
        assert(mid[w].device.mac == d.mac);
        assert(reg_has(mid, d.mac));
        let i = reg_index_of(mid, d.mac);
        assert(0 <= i < mid.len() && mid[i].device.mac == d.mac);
        assert(observed_has(full, d.mac));
        assert(all_true(mid[i].history));
        lemma_push_sample_len(mid[i].history, true);
        lemma_push_true_stays_all_true(mid[i].history);
        let out = observe_all(reg, obs, now).0;
        assert(out == mid.update(i, observe_one(mid, d, now).0[i]));
        assert forall|q: int|
            #![trigger out[q]]
            0 <= q < reg.len() implies {
            &&& out[q].device.mac == reg[q].device.mac
            &&& out[q].is_connected == reg[q].is_connected
            &&& (observed_has(full, reg[q].device.mac) ==> all_true(out[q].history))
            &&& (!observed_has(full, reg[q].device.mac) ==> out[q] == reg[q])
        } by {
            if q != i {
                assert(out[q] == mid[q]);
            }
        }
        assert(observe_all(reg, obs, now).1.len() == 0);
    }
}

proof fn lemma_settle_events_all_empty(reg: Seq<DeviceStateView>, obs: Seq<DeviceView>)
    requires
        forall|i: int|
            0 <= i < reg.len() ==> settle_event(#[trigger] reg[i], obs).len() == 0,
    ensures
        settle_events(reg, obs).len() == 0,
    decreases reg.len(),
{
    if reg.len() > 0 {
        assert(forall|i: int|
            0 <= i < reg.len() - 1 ==> reg.drop_last()[i] == reg[i]);
        lemma_settle_events_all_empty(reg.drop_last(), obs);
        assert(reg[reg.len() - 1] == reg.last());
    }
}

/// Reconciling a steady-state registry against the same observation set is
/// quiet: it emits no events and leaves the registry in the same steady
/// state, so an unchanged network never produces repeat notifications.
pub proof fn lemma_steady_state_is_quiet(
    reg: Seq<DeviceStateView>,
    obs: Seq<DeviceView>,
    now: i64,
)
    requires
        reg_wf(reg),
        steady_state(reg, obs),
    ensures
        spec_reconcile(reg, obs, now).1.len() == 0,
        reg_wf(spec_reconcile(reg, obs, now).0),
        steady_state(spec_reconcile(reg, obs, now).0, obs),
{
    lemma_observe_all_keeps_steady(reg, obs, obs, now);
    let mid = observe_all(reg, obs, now).0;
    let out = spec_reconcile(reg, obs, now).0;
    assert(out == settle_all(mid, obs));
    lemma_settle_all_wf(mid, obs);
    assert forall|i: int| 0 <= i < mid.len() implies settle_event(#[trigger] mid[i], obs).len()
        == 0 && (#[trigger] out[i]) == settle_state(mid[i], obs) && {
        if observed_has(obs, mid[i].device.mac) {
            out[i].is_connected && all_true(out[i].history)
        } else {
            !out[i].is_connected && all_false(out[i].history)
        }
    } by {
        let st = mid[i];
        let h = settle_history(st, obs);
        assert(st.history.len() <= HISTORY_SIZE);
        lemma_push_sample_len(st.history, false);
        if observed_has(obs, st.device.mac) {
            assert(observed_has(obs, reg[i].device.mac));
            assert(all_true(st.history));
            assert(st.is_connected);
            assert(h == st.history);
            if h.len() < HISTORY_SIZE {
                lemma_immature_window_keeps_belief(h, st.is_connected);
            } else {
                lemma_always_answering_device_is_online(h, st.is_connected);
            }
            assert(spec_classify(h, st.is_connected) == st.is_connected);
        } else {
            assert(!observed_has(obs, reg[i].device.mac));
            assert(mid[i] == reg[i]);
            assert(all_false(st.history));
            assert(!st.is_connected);
            lemma_push_false_stays_all_false(st.history);
            assert(h == push_sample(st.history, false));
            if h.len() < HISTORY_SIZE {
                lemma_immature_window_keeps_belief(h, st.is_connected);
            } else {
                lemma_count_true_zero(h);
                lemma_total_silence_is_offline(h, st.is_connected);
            }
            assert(spec_classify(h, st.is_connected) == st.is_connected);
        }
    }
    assert forall|i: int| 0 <= i < mid.len() implies settle_event(
        #[trigger] mid[i],
        obs,
    ).len() == 0 by {
        assert(out[i] == settle_state(mid[i], obs));
    }
    lemma_settle_events_all_empty(mid, obs);
    assert(spec_reconcile(reg, obs, now).1.len() == 0) by {
        assert(observe_all(reg, obs, now).1.len() == 0);
    }
    assert forall|x: int| 0 <= x < obs.len() implies reg_has(out, (#[trigger] obs[x]).mac) by {
        assert(reg_has(reg, obs[x].mac));
        let w = choose|w: int| 0 <= w < reg.len() && reg[w].device.mac == obs[x].mac;
        assert(mid[w].device.mac == obs[x].mac);
        assert(out[w] == settle_state(mid[w], obs));
        assert(out[w].device.mac == obs[x].mac);
    }
}

} // verus!
