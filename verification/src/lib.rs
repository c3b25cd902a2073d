//! Presence classification for devices on a local network.
//!
//! Each device has a bounded, most-recent-first window of boolean samples
//! ("was the device seen this scan round"). A pure classifier turns such a
//! window plus the prior belief into a debounced online/offline verdict, and
//! a registry reconciles one scan snapshot against the stored per-device
//! state, emitting a notification event exactly when a belief flips.

use vstd::prelude::*;

mod classifier;
mod device;
mod history;
mod laws;
mod registry;

pub use classifier::{count_true, first_true_index, regime_of, spec_classify, Regime};
pub use device::{
    Device, DeviceState, DeviceStateView, DeviceView, EventView, MacAddr, NotificationEvent,
    MAC_LEN,
};
pub use history::{push_sample, ScanHistory};
pub use laws::{
    all_false, all_true, lemma_always_answering_device_is_online,
    lemma_fresh_sighting_never_turns_offline, lemma_immature_window_keeps_belief,
    lemma_new_device_is_announced, lemma_push_false_stays_all_false,
    lemma_push_true_stays_all_true, lemma_silent_spell_turns_offline_and_sticks,
    lemma_sparse_device_needs_total_silence, lemma_steady_state_is_quiet,
    lemma_total_silence_is_offline, steady_state,
};
pub use registry::{
    device_views, event_views, observe_all, observed_has, reg_has, reg_wf, seed_all,
    spec_reconcile, state_views, Registry,
};

verus! {

/// Capacity of each device's sample window; a window shorter than this is
/// immature and the classifier leaves the prior belief unchanged.
pub const HISTORY_SIZE: usize = 30;

/// In the intermittent regime the device is offline once the most recent
/// `true` sample lies strictly deeper than this many rounds.
pub const OFFLINE_THRESHOLD: usize = 10;

/// Length of the "recent" sub-window at the front of the history, used for
/// the just-seen test of the sparse regime and the deviation detector of the
/// always-on regime.
pub const RECENT_WINDOW: usize = 5;

} // verus!
