use seed_search::progress::FindState;

#[test]
fn in_order_reports_advance_watermark() {
    let mut st = FindState::new_at(0, 1, 0, 0);
    assert_eq!(st.add_at(0, 0), Some((0, 1)));
    assert_eq!(st.add_at(1, 0), Some((1, 2)));
    assert_eq!(st.progress_end, 2);
    assert!(st.pending_seeds.is_empty());
}

#[test]
fn out_of_order_reports_wait_then_drain() {
    let mut st = FindState::new_at(10, 3, 0, 0);
    assert_eq!(st.add_at(12, 0), None);
    assert_eq!(st.add_at(11, 0), None);
    assert_eq!(st.progress_end, 10);
    assert_eq!(st.pending_seeds.len(), 2);
    assert_eq!(st.add_at(10, 0), Some((10, 13)));
    assert_eq!(st.progress_end, 13);
    assert!(st.pending_seeds.is_empty());
}

#[test]
fn drain_stops_at_gap() {
    let mut st = FindState::new_at(0, 2, 0, 0);
    assert_eq!(st.add_at(1, 0), None);
    assert_eq!(st.add_at(3, 0), None);
    assert_eq!(st.add_at(0, 0), Some((0, 2)));
    assert_eq!(st.progress_end, 2);
    assert!(st.pending_seeds.contains(&3));
    assert_eq!(st.add_at(2, 0), Some((2, 4)));
}

#[test]
fn autosave_gates_checkpoints() {
    let mut st = FindState::new_at(0, 1, 2, 1_000);
    assert_eq!(st.add_at(0, 2_500), None);
    assert_eq!(st.progress_start, 0);
    assert_eq!(st.progress_end, 1);
    assert_eq!(st.add_at(1, 3_000), Some((0, 2)));
    assert_eq!(st.last_notify, 3_000);
    assert_eq!(st.progress_start, 2);
    assert_eq!(st.add_at(2, 4_999), None);
    assert_eq!(st.add_at(3, 5_000), Some((2, 4)));
}

#[test]
fn clock_going_back_counts_as_no_time() {
    let mut st = FindState::new_at(0, 1, 1, 10_000);
    assert_eq!(st.add_at(0, 5_000), None);
    let mut zero = FindState::new_at(0, 1, 0, 10_000);
    assert_eq!(zero.add_at(0, 5_000), Some((0, 1)));
}

#[test]
fn add_with_zero_autosave_always_checkpoints() {
    let mut st = FindState::new(5, 1, 0);
    assert_eq!(st.add(6), None);
    assert_eq!(st.add(5), Some((5, 7)));
    assert_eq!(st.add(7), Some((7, 8)));
}

#[test]
fn add_with_long_autosave_holds_checkpoints() {
    let mut st = FindState::new(0, 1, 1_000_000);
    assert_eq!(st.add(0), None);
    assert_eq!(st.add(1), None);
    assert_eq!(st.progress_end, 2);
    assert_eq!(st.progress_start, 0);
}

#[test]
fn last_worker_gets_final_range() {
    let mut st = FindState::new_at(0, 2, 0, 0);
    st.add_at(0, 0);
    assert_eq!(st.finish_worker(), None);
    assert_eq!(st.running, 1);
    assert_eq!(st.finish_worker(), Some((1, 1)));
    assert_eq!(st.running, 0);
}

#[test]
fn watermark_same_for_any_report_order() {
    let orders: [[i32; 5]; 4] = [[0, 1, 2, 3, 4], [4, 3, 2, 1, 0], [2, 0, 4, 1, 3], [1, 3, 0, 4, 2]];
    for order in orders.iter() {
        let mut st = FindState::new_at(0, 1, 0, 0);
        let mut reported = 0;
        let mut last = 0;
        for &s in order.iter() {
            st.add_at(s, 0);
            reported += 1;
            assert!(st.progress_end >= last);
            assert!(st.progress_end <= reported);
            last = st.progress_end;
        }
        assert_eq!(st.progress_end, 5);
        assert!(st.pending_seeds.is_empty());
    }
}
