use lanwatch::{ScanHistory, HISTORY_SIZE, OFFLINE_THRESHOLD, RECENT_WINDOW};

/// Draw the window for assertion messages: 'O' for an answered round, '-'
/// for a missed one, '.' for a slot not yet filled.
fn render(h: &ScanHistory) -> String {
    let mut out = String::new();
    for i in 0..h.len() {
        out.push(if h.get(i) { 'O' } else { '-' });
    }
    for _ in 0..(HISTORY_SIZE - h.len()) {
        out.push('.');
    }
    out
}

fn window(parts: &[(bool, usize)]) -> ScanHistory {
    let mut samples: Vec<bool> = Vec::new();
    for &(value, count) in parts {
        for _ in 0..count {
            samples.push(value);
        }
    }
    assert_eq!(samples.len(), HISTORY_SIZE);
    ScanHistory::from(samples)
}

#[test]
fn window_accessors_report_exact_counts() {
    let mut history = ScanHistory::new();
    assert_eq!(history.len(), 0);
    assert!(!history.is_full());
    history.update(true);
    history.update(false);
    history.update(true); // window, most recent first: [true, false, true]
    assert_eq!(history.len(), 3);
    assert!(history.get(0));
    assert!(!history.get(1));
    assert!(history.get(2));
    assert_eq!(history.true_count(), 2);
    assert_eq!(history.recent_true_count(2), 1);
    assert_eq!(history.index_of_last_true(), 0);

    let sparse = window(&[(false, 9), (true, 1), (false, 20)]);
    assert!(sparse.is_full());
    assert_eq!(sparse.true_count(), 1);
    assert_eq!(sparse.index_of_last_true(), 9);
    assert_eq!(sparse.recent_true_count(RECENT_WINDOW), 0);

    let silent = ScanHistory::from(vec![false; HISTORY_SIZE]);
    // The "not found" sentinel: older than anything the window can hold.
    assert_eq!(silent.index_of_last_true(), HISTORY_SIZE);
}

#[test]
fn immature_window_keeps_prior_belief() {
    let mut history = ScanHistory::new();
    for _ in 0..(HISTORY_SIZE - 1) {
        history.update(true);
    }
    assert!(history.is_connected(true));
    assert!(!history.is_connected(false));
}

#[test]
fn fully_answering_window_is_online_regardless_of_prior() {
    let history = ScanHistory::from(vec![true; HISTORY_SIZE]);
    assert!(history.is_connected(true));
    assert!(history.is_connected(false));
}

#[test]
fn total_silence_is_offline_regardless_of_prior() {
    let history = ScanHistory::from(vec![false; HISTORY_SIZE]);
    assert!(!history.is_connected(true));
    assert!(!history.is_connected(false));
}

#[test]
fn intermittent_offline_threshold_is_exact() {
    // Base rate exactly one half selects the intermittent regime; the most
    // recent ping must lie strictly deeper than OFFLINE_THRESHOLD to count
    // as offline.
    let over = window(&[(false, 11), (true, 15), (false, 4)]);
    assert!(!over.is_connected(true));
    let at = window(&[(false, 10), (true, 15), (false, 5)]);
    assert!(at.is_connected(false));
}

#[test]
fn sparse_regime_boundary_is_exact() {
    // Nine answered rounds out of thirty is still sparse: with the last
    // ping outside the just-seen sub-window the prior belief stands. A
    // tenth answered round tips into the intermittent regime, where the
    // same last ping means online outright.
    let sparse = window(&[(false, 6), (true, 9), (false, 15)]);
    assert!(!sparse.is_connected(false));
    assert!(sparse.is_connected(true));
    let intermittent = window(&[(false, 6), (true, 10), (false, 14)]);
    assert!(intermittent.is_connected(false));
    assert!(intermittent.is_connected(true));
}

#[test]
fn always_on_deviation_detector_is_exact() {
    // Sixteen answered rounds put the window just inside the always-on
    // regime. One answered round among the five most recent is a sharp drop
    // below the baseline; two are not.
    let sharp = window(&[(true, 1), (false, 4), (true, 15), (false, 10)]);
    assert!(!sharp.is_connected(true));
    let mild = window(&[(true, 2), (false, 3), (true, 14), (false, 11)]);
    assert!(mild.is_connected(true));
    assert!(mild.is_connected(false));
}

#[test]
fn test_connected_always_on() {
    let mut history = ScanHistory::from(vec![true; HISTORY_SIZE]);
    let mut is_connected = true;

    // for a short while it stays connected
    for _ in 0..3 {
        history.update(false);
        is_connected = history.is_connected(is_connected);
        assert!(is_connected);
    }

    // stay disconnected
    for _ in 0..HISTORY_SIZE {
        history.update(false);
        is_connected = history.is_connected(is_connected);
        assert!(!is_connected);
    }
}

#[test]
fn test_connected_always_on_temporary_offline() {
    let mut history = ScanHistory::from(vec![true; HISTORY_SIZE]);

    // 3x scan misses
    for _ in 0..3 {
        history.update(false);
    }

    let mut is_connected = true;

    // stay connected
    for _ in 0..HISTORY_SIZE {
        is_connected = history.is_connected(is_connected);
        assert!(is_connected);
        history.update(true);
    }
}

#[test]
fn test_connected_sleeping() {
    let mut history = ScanHistory::new();
    for i in 0..HISTORY_SIZE {
        history.update(i % 10 == 0); // 10% activity
    }

    let mut is_connected = true;
    is_connected = history.is_connected(is_connected);
    assert!(is_connected);

    // stays connected the entire time
    for _ in 0..HISTORY_SIZE {
        history.update(false);
        assert!(is_connected);
    }

    is_connected = history.is_connected(is_connected);
    assert!(!is_connected);
}

#[test]
fn test_connected_intermittent() {
    let mut history = ScanHistory::new();
    let mut is_connected = true;
    for i in 0..HISTORY_SIZE {
        is_connected = history.is_connected(is_connected);
        assert!(is_connected);
        history.update(i % 2 == 0); // 50% activity
    }
    for _ in 0..OFFLINE_THRESHOLD {
        history.update(false);
    }
    for _ in 0..HISTORY_SIZE {
        is_connected = history.is_connected(is_connected);
        assert!(!is_connected);
        history.update(false);
    }
}

#[test]
fn test_connected_new_sleeping() {
    let mut is_connected = true;
    let mut history = ScanHistory::new();
    for i in 0..(HISTORY_SIZE * 2) {
        is_connected = history.is_connected(is_connected);
        assert!(is_connected);
        history.update(i % 20 == 0); // very low activity
    }
}

#[test]
fn test_connected_intervals() {
    // on and off in intervals
    for x in 1..RECENT_WINDOW {
        let mut is_connected = true;
        let mut history = ScanHistory::new();
        for y in 0..HISTORY_SIZE {
            for z in 0..OFFLINE_THRESHOLD {
                // offset of z
                for _ in 0..z {
                    history.update(false);
                }
                // x times on
                for _ in 0..x {
                    is_connected = history.is_connected(is_connected);
                    {
                        let history = render(&history);
                        assert!(is_connected, "x={x}, y={y}, z={z}, {history}");
                    }
                    history.update(true);
                }
                // x times off
                for _ in 0..x {
                    is_connected = history.is_connected(is_connected);
                    {
                        let history = render(&history);
                        assert!(is_connected, "x={x}, y={y}, z={z} {history}");
                    }
                    history.update(false);
                }
            }
        }
    }
}
