use lanwatch::{Device, MacAddr, Registry, ScanHistory, HISTORY_SIZE};

fn device(mac: &str, last_octet: u8, vendor: &str) -> Device {
    Device { mac: MacAddr::new(mac), ip: [192, 168, 1, last_octet], vendor: vendor.to_string() }
}

const MAC_A: &str = "aa:aa:aa:aa:aa:aa";
const MAC_B: &str = "bb:bb:bb:bb:bb:bb";
const MAC_C: &str = "cc:cc:cc:cc:cc:cc";

#[test]
fn new_devices_are_announced_immediately() {
    let mut reg = Registry::new();
    let observed = vec![device(MAC_A, 2, "acme"), device(MAC_B, 3, "")];
    let events = reg.reconcile(&observed, 100);
    assert_eq!(events.len(), 2);
    assert_eq!(events[0].device.mac.as_str(), MAC_A);
    assert!(events[0].became_online);
    assert_eq!(events[1].device.mac.as_str(), MAC_B);
    assert!(events[1].became_online);
    assert_eq!(reg.len(), 2);
    let states = reg.states();
    assert!(states[0].is_connected);
    assert_eq!(states[0].last_seen, 100);
    assert_eq!(states[0].ping_history.len(), 1);
    assert!(states[0].ping_history.get(0));
}

#[test]
fn steady_observations_stay_quiet_after_first_cycle() {
    let mut reg = Registry::new();
    let observed = vec![device(MAC_A, 2, "acme"), device(MAC_B, 3, "")];
    let first = reg.reconcile(&observed, 0);
    assert_eq!(first.len(), 2);
    for t in 1..(2 * HISTORY_SIZE as i64) {
        let events = reg.reconcile(&observed, t);
        assert_eq!(events.len(), 0);
    }
}

#[test]
fn observation_overwrites_address_and_label_but_keeps_history() {
    let mut reg = Registry::new();
    reg.reconcile(&vec![device(MAC_A, 2, "acme")], 10);
    reg.reconcile(&vec![device(MAC_A, 77, "renamed")], 20);
    assert_eq!(reg.len(), 1);
    let states = reg.states();
    assert_eq!(states[0].device.ip, [192, 168, 1, 77]);
    assert_eq!(states[0].device.vendor, "renamed");
    assert_eq!(states[0].last_seen, 20);
    assert_eq!(states[0].ping_history.len(), 2);
    assert!(states[0].ping_history.get(0));
    assert!(states[0].ping_history.get(1));
}

#[test]
fn absent_device_receives_a_false_sample() {
    let mut reg = Registry::new();
    reg.reconcile(&vec![device(MAC_A, 2, "acme")], 0);
    let events = reg.reconcile(&vec![], 1);
    assert_eq!(events.len(), 0);
    let states = reg.states();
    assert_eq!(states[0].ping_history.len(), 2);
    assert!(!states[0].ping_history.get(0));
    assert!(states[0].ping_history.get(1));
    assert_eq!(states[0].last_seen, 0);
    assert!(states[0].is_connected);
}

#[test]
fn sparse_device_survives_disappearing_for_one_cycle() {
    // A mature, low-duty-cycle device that answered the most recent round.
    let mut samples = vec![false; HISTORY_SIZE];
    for i in 0..HISTORY_SIZE {
        if i % 10 == 0 {
            samples[i] = true;
        }
    }
    let mut reg = Registry::new();
    reg.init_state(vec![device(MAC_A, 2, "acme")], 0);
    for i in (0..HISTORY_SIZE).rev() {
        let observed = if samples[i] { vec![device(MAC_A, 2, "acme")] } else { vec![] };
        reg.reconcile(&observed, 0);
    }
    assert!(reg.states()[0].is_connected);
    // It disappears for one cycle: the belief must not flip.
    let events = reg.reconcile(&vec![], 1);
    assert_eq!(events.len(), 0);
    assert!(reg.states()[0].is_connected);
}

#[test]
fn prolonged_total_silence_flips_sparse_device_offline_once() {
    let mut reg = Registry::new();
    reg.init_state(vec![device(MAC_A, 2, "acme")], 0);
    // Fill a mature window at a 10% duty cycle.
    for i in (0..HISTORY_SIZE).rev() {
        let observed = if i % 10 == 0 { vec![device(MAC_A, 2, "acme")] } else { vec![] };
        reg.reconcile(&observed, 0);
    }
    assert!(reg.states()[0].is_connected);
    // Total silence: exactly one offline event, once the last `true`
    // sample has left the window; silence after that stays quiet.
    let mut offline_events = 0;
    for _ in 0..(2 * HISTORY_SIZE) {
        let events = reg.reconcile(&vec![], 1);
        for e in &events {
            assert!(!e.became_online);
            offline_events += 1;
        }
    }
    assert_eq!(offline_events, 1);
    assert!(!reg.states()[0].is_connected);
}

#[test]
fn init_state_seeds_without_events_and_without_samples() {
    let mut reg = Registry::new();
    reg.init_state(vec![device(MAC_A, 2, "acme"), device(MAC_B, 3, "")], 5);
    assert_eq!(reg.len(), 2);
    let states = reg.states();
    assert!(states[0].is_connected && states[1].is_connected);
    assert_eq!(states[0].ping_history.len(), 0);
    assert_eq!(states[0].last_seen, 5);
    // Reconciling the same set afterwards announces nothing new.
    let events = reg.reconcile(&vec![device(MAC_A, 2, "acme"), device(MAC_B, 3, "")], 6);
    assert_eq!(events.len(), 0);
}

#[test]
fn init_state_last_duplicate_wins() {
    let mut reg = Registry::new();
    reg.init_state(vec![device(MAC_A, 2, "first"), device(MAC_A, 9, "second")], 5);
    assert_eq!(reg.len(), 1);
    assert_eq!(reg.states()[0].device.vendor, "second");
    assert_eq!(reg.states()[0].device.ip, [192, 168, 1, 9]);
}

#[test]
fn mac_addr_of_wrong_length_is_rejected() {
    assert!(MacAddr::try_new("aa:bb").is_none());
    assert!(MacAddr::try_new("").is_none());
    assert!(MacAddr::try_new("aa:aa:aa:aa:aa:aa:aa").is_none());
    let ok = MacAddr::try_new(MAC_A);
    assert!(ok.is_some());
    assert_eq!(ok.unwrap().as_str(), MAC_A);
}

#[test]
fn reconcile_current_behaves_like_reconcile() {
    let mut reg = Registry::new();
    let observed = vec![device(MAC_A, 2, "acme"), device(MAC_C, 4, "other")];
    let events = reg.reconcile_current(&observed);
    assert_eq!(events.len(), 2);
    assert!(events.iter().all(|e| e.became_online));
    let events = reg.reconcile_current(&observed);
    assert_eq!(events.len(), 0);
    assert_eq!(reg.len(), 2);
}

#[test]
fn always_on_device_goes_offline_after_short_silence_and_comes_back() {
    let mut reg = Registry::new();
    reg.init_state(vec![device(MAC_B, 3, "nas")], 0);
    // A full window of answered rounds.
    for _ in 0..HISTORY_SIZE {
        reg.reconcile(&vec![device(MAC_B, 3, "nas")], 0);
    }
    assert!(reg.states()[0].is_connected);
    // Silence: the deviation detector flips it offline on the fourth miss.
    for _ in 0..3 {
        let events = reg.reconcile(&vec![], 1);
        assert_eq!(events.len(), 0);
        assert!(reg.states()[0].is_connected);
    }
    let events = reg.reconcile(&vec![], 1);
    assert_eq!(events.len(), 1);
    assert!(!events[0].became_online);
    assert_eq!(events[0].device.mac.as_str(), MAC_B);
    assert!(!reg.states()[0].is_connected);
    // It answers again: back online with a single event.
    let mut online_events = 0;
    for _ in 0..HISTORY_SIZE {
        let events = reg.reconcile(&vec![device(MAC_B, 3, "nas")], 2);
        for e in &events {
            assert!(e.became_online);
            online_events += 1;
        }
    }
    assert_eq!(online_events, 1);
    assert!(reg.states()[0].is_connected);
}

#[test]
fn windows_never_outgrow_their_capacity() {
    let mut reg = Registry::new();
    reg.reconcile(&vec![device(MAC_A, 2, "acme")], 0);
    for _ in 0..(3 * HISTORY_SIZE) {
        reg.reconcile(&vec![device(MAC_A, 2, "acme")], 1);
    }
    assert_eq!(reg.states()[0].ping_history.len(), HISTORY_SIZE);

    let mut h = ScanHistory::new();
    for _ in 0..(2 * HISTORY_SIZE) {
        h.update(true);
    }
    assert_eq!(h.len(), HISTORY_SIZE);
}
