use seed_search::progress::FindState;
use seed_search::search::{process_seed, seed_messages, worker_count, OutgoingMessage, SeedCursor};

/// Checks that the ranges are consecutive and cover `[lo, hi)`.
fn assert_tiles(parts: &[(i32, i32)], lo: i32, hi: i32) {
    let mut at = lo;
    for &(s, e) in parts {
        assert_eq!(s, at);
        assert!(s <= e);
        at = e;
    }
    assert_eq!(at, hi);
}

#[test]
fn cursor_hands_out_each_seed_once() {
    let mut c = SeedCursor::new(3, 7);
    let mut got = Vec::new();
    while let Some(s) = c.claim() {
        got.push(s);
    }
    assert_eq!(got, vec![3, 4, 5, 6]);
    assert_eq!(c.claim(), None);
    assert_eq!(c.next, 7);
}

#[test]
fn cursor_on_empty_range() {
    let mut c = SeedCursor::new(5, 5);
    assert_eq!(c.claim(), None);
    let mut d = SeedCursor::new(9, 2);
    assert_eq!(d.claim(), None);
}

#[test]
fn cursor_up_to_largest_seed() {
    let mut c = SeedCursor::new(i32::MAX - 2, i32::MAX);
    assert_eq!(c.claim(), Some(i32::MAX - 2));
    assert_eq!(c.claim(), Some(i32::MAX - 1));
    assert_eq!(c.claim(), None);
}

#[test]
fn workers_share_cursor_without_gaps() {
    for w in 1..=6usize {
        let mut c = SeedCursor::new(0, 6);
        let mut per_worker: Vec<Vec<i32>> = vec![Vec::new(); w];
        let mut active = vec![true; w];
        let mut turn = 0;
        while active.iter().any(|a| *a) {
            let k = turn % w;
            if active[k] {
                match c.claim() {
                    Some(s) => per_worker[k].push(s),
                    None => active[k] = false,
                }
            }
            turn += 1;
        }
        let mut all: Vec<i32> = per_worker.iter().flatten().copied().collect();
        for seeds in &per_worker {
            assert!(seeds.windows(2).all(|p| p[0] < p[1]));
        }
        all.sort();
        assert_eq!(all, vec![0, 1, 2, 3, 4, 5]);
    }
}

#[test]
fn worker_count_is_clamped() {
    assert_eq!(worker_count(3, 0, 10), 3);
    assert_eq!(worker_count(20, 0, 10), 10);
    assert_eq!(worker_count(-1, 0, 10), 0);
    assert_eq!(worker_count(5, 10, 0), 0);
    assert_eq!(worker_count(5, i32::MIN, i32::MAX), 5);
    assert_eq!(worker_count(i32::MAX, i32::MIN, i32::MAX), i32::MAX);
}

#[test]
fn messages_for_a_seed() {
    assert!(seed_messages(4, vec![], None).is_empty());
    assert_eq!(
        seed_messages(4, vec![2, 9], None),
        vec![OutgoingMessage::Result { seed: 4, indexes: vec![2, 9] }]
    );
    assert_eq!(
        seed_messages(4, vec![], Some((0, 5))),
        vec![OutgoingMessage::Progress { start: 0, end: 5 }]
    );
    assert_eq!(
        seed_messages(4, vec![1], Some((3, 5))),
        vec![
            OutgoingMessage::Result { seed: 4, indexes: vec![1] },
            OutgoingMessage::Progress { start: 3, end: 5 },
        ]
    );
}

#[test]
fn scenario_three_workers_every_advance_checkpoints() {
    let threads = worker_count(3, 0, 10);
    assert_eq!(threads, 3);
    let mut cursor = SeedCursor::new(0, 10);
    let mut st = FindState::new(0, threads, 0);
    let mut progress: Vec<(i32, i32)> = Vec::new();
    let mut done = None;
    // Each round, the three workers claim a seed and finish them in reverse.
    let mut live = vec![true; threads as usize];
    while live.iter().any(|l| *l) {
        let mut claimed = Vec::new();
        for k in 0..live.len() {
            if live[k] {
                match cursor.claim() {
                    Some(s) => claimed.push(s),
                    None => {
                        live[k] = false;
                        if let Some(r) = st.finish_worker() {
                            done = Some(r);
                        }
                    }
                }
            }
        }
        for &s in claimed.iter().rev() {
            let before = st.progress_end;
            let cp = st.add(s);
            if st.progress_end > before {
                assert!(cp.is_some());
            }
            if let Some(r) = cp {
                progress.push(r);
            }
        }
    }
    let done = done.expect("the last worker reports completion");
    assert_eq!(done, (10, 10));
    let mut parts = progress.clone();
    parts.push(done);
    assert_tiles(&parts, 0, 10);
}

#[test]
fn scenario_single_worker_in_order() {
    let threads = worker_count(1, 100, 105);
    assert_eq!(threads, 1);
    let mut cursor = SeedCursor::new(100, 105);
    let mut st = FindState::new(100, threads, 0);
    let mut seen = Vec::new();
    let mut dones = Vec::new();
    loop {
        match cursor.claim() {
            Some(s) => {
                seen.push(s);
                st.add(s);
                assert!(st.pending_seeds.is_empty());
            }
            None => break,
        }
    }
    if let Some(r) = st.finish_worker() {
        dones.push(r);
    }
    assert_eq!(seen, vec![100, 101, 102, 103, 104]);
    assert_eq!(st.progress_end, 105);
    assert_eq!(dones.len(), 1);
    assert_eq!((st.progress_start, st.progress_end), (105, 105));
    assert_eq!(dones[0].1, 105);
}

#[test]
fn scenario_single_worker_done_range_with_autosave() {
    let mut cursor = SeedCursor::new(100, 105);
    let mut st = FindState::new_at(100, 1, 60, 0);
    while let Some(s) = cursor.claim() {
        assert_eq!(st.add_at(s, 1_000), None);
    }
    assert_eq!(st.finish_worker(), Some((100, 105)));
}

#[test]
fn scenario_stop_before_range_is_exhausted() {
    let mut cursor = SeedCursor::new(0, 10);
    let mut st = FindState::new_at(0, 2, 0, 0);
    let mut results: Vec<i32> = Vec::new();
    let mut claimed_all: Vec<i32> = Vec::new();
    let mut done = None;
    // Worker 0 claims 0, worker 1 claims 1; worker 1 finishes first, then the
    // stop flag is set and both exit after their current seed.
    let a = cursor.claim().unwrap();
    let b = cursor.claim().unwrap();
    claimed_all.push(a);
    claimed_all.push(b);
    for (seed, hits) in [(b, vec![3usize]), (a, vec![])] {
        let cp = st.add_at(seed, 0);
        for m in seed_messages(seed, hits.clone(), cp) {
            if let OutgoingMessage::Result { seed, .. } = m {
                results.push(seed);
            }
        }
        let stop = true;
        if stop {
            if let Some(r) = st.finish_worker() {
                done = Some(r);
            }
        }
    }
    let (_, end) = done.expect("done after both workers exit");
    assert!(end <= 10);
    assert_eq!(end, 2);
    assert!(results.iter().all(|s| claimed_all.contains(s)));
    assert_eq!(results, vec![1]);
}

#[test]
fn process_seed_reports_and_obeys_stop() {
    let mut st = FindState::new_at(0, 1, 0, 0);
    let (msgs, go_on) = process_seed(&mut st, 1, vec![4], false);
    assert_eq!(msgs, vec![OutgoingMessage::Result { seed: 1, indexes: vec![4] }]);
    assert!(go_on);
    let (msgs, go_on) = process_seed(&mut st, 0, vec![], true);
    assert_eq!(msgs, vec![OutgoingMessage::Progress { start: 0, end: 2 }]);
    assert!(!go_on);
    assert_eq!(st.progress_end, 2);
}
