use latency_hooks::toggle::{init, is_active, Activity, OscillatingToggle, ToggleRead};

/// Polls `slot` at `now` as a caller whose locks never fail would.
fn poll(slot: &mut Option<OscillatingToggle>, now: u128) -> bool {
    let read = match slot {
        Some(state) => ToggleRead::Available(*state),
        None => ToggleRead::Uninitialized,
    };
    let outcome: Activity = is_active(read, now);
    if let Some(next) = outcome.update {
        *slot = Some(next);
    }
    outcome.report(true)
}

fn started(now: u128, window: u128) -> Option<OscillatingToggle> {
    let mut slot = None;
    init(&mut slot, now, window);
    slot
}

#[test]
fn init_starts_disabled_at_the_given_time() {
    let slot = started(1000, 10);
    let state = slot.expect("init fills an empty slot");
    assert!(!state.enabled());
    assert_eq!(state.updated_at(), 1000);
    assert_eq!(state.toggle_window(), 10);
}

#[test]
fn second_init_is_a_no_op() {
    let mut slot = started(1000, 10);
    init(&mut slot, 5000, 77);
    let state = slot.expect("the first toggle stays");
    assert!(!state.enabled());
    assert_eq!(state.updated_at(), 1000);
    assert_eq!(state.toggle_window(), 10);
}

#[test]
fn second_init_keeps_an_enabled_toggle() {
    let mut slot = started(0, 10);
    assert!(poll(&mut slot, 10));
    init(&mut slot, 11, 3);
    let state = slot.expect("the first toggle stays");
    assert!(state.enabled());
    assert_eq!(state.updated_at(), 10);
    assert_eq!(state.toggle_window(), 10);
}

#[test]
fn without_a_toggle_injection_is_always_active() {
    let outcome = is_active(ToggleRead::Uninitialized, 123);
    assert!(outcome.active);
    assert!(outcome.update.is_none());
    assert!(outcome.report(true));
    assert!(outcome.report(false));
}

#[test]
fn an_unreadable_toggle_reports_disabled() {
    let outcome = is_active(ToggleRead::Unavailable, 123);
    assert!(!outcome.active);
    assert!(outcome.update.is_none());
    assert!(!outcome.report(true));
    assert!(!outcome.report(false));
}

#[test]
fn poll_schedule_follows_the_parity_of_elapsed_windows() {
    let t0: u128 = 1000;
    let w: u128 = 10;
    let mut slot = started(t0, w);
    assert!(!poll(&mut slot, t0 + w / 2));
    assert_eq!(slot.unwrap().updated_at(), t0);
    assert!(poll(&mut slot, t0 + w + w / 2));
    assert_eq!(slot.unwrap().updated_at(), t0 + w);
    assert!(!poll(&mut slot, t0 + 2 * w + w / 2));
    assert_eq!(slot.unwrap().updated_at(), t0 + 2 * w);
    assert!(!poll(&mut slot, t0 + 10 * w));
    assert_eq!(slot.unwrap().updated_at(), t0 + 10 * w);
    assert!(!slot.unwrap().enabled());
}

#[test]
fn ten_windows_at_once_leave_the_toggle_disabled() {
    let mut slot = started(1000, 10);
    assert!(!poll(&mut slot, 1100));
    let state = slot.unwrap();
    assert!(!state.enabled());
    assert_eq!(state.updated_at(), 1100);
}

#[test]
fn five_windows_at_once_enable_the_toggle() {
    let mut slot = started(1000, 10);
    assert!(poll(&mut slot, 1059));
    let state = slot.unwrap();
    assert!(state.enabled());
    assert_eq!(state.updated_at(), 1050);
}

#[test]
fn no_whole_window_means_no_update() {
    let state = started(1000, 10).unwrap();
    let outcome = is_active(ToggleRead::Available(state), 1009);
    assert!(!outcome.active);
    assert!(outcome.update.is_none());
    assert!(!outcome.report(true));
    assert!(!outcome.report(false));
}

#[test]
fn a_whole_window_hands_back_the_new_state() {
    let state = started(1000, 10).unwrap();
    let outcome = is_active(ToggleRead::Available(state), 1010);
    assert!(outcome.active);
    let next = outcome.update.expect("one window has elapsed");
    assert!(next.enabled());
    assert_eq!(next.updated_at(), 1010);
    assert_eq!(next.toggle_window(), 10);
}

#[test]
fn updated_at_moves_by_whole_windows_only() {
    let state = started(7, 3).unwrap();
    let outcome = is_active(ToggleRead::Available(state), 20);
    let next = outcome.update.expect("four windows have elapsed");
    assert_eq!(next.updated_at(), 19);
    assert!(!next.enabled());
    assert!(!outcome.active);
}

#[test]
fn an_update_that_was_not_stored_reports_disabled() {
    let state = started(1000, 10).unwrap();
    let outcome = is_active(ToggleRead::Available(state), 1015);
    assert!(outcome.active);
    assert!(outcome.update.is_some());
    assert!(outcome.report(true));
    assert!(!outcome.report(false));
}

#[test]
fn a_clock_reading_before_the_last_update_changes_nothing() {
    let state = started(1000, 10).unwrap();
    let outcome = is_active(ToggleRead::Available(state), 3);
    assert!(!outcome.active);
    assert!(outcome.update.is_none());
}

#[test]
fn too_many_windows_flip_by_parity_but_do_not_move_updated_at() {
    let state = started(5, 1).unwrap();
    let odd = is_active(ToggleRead::Available(state), 5 + 4_294_967_297);
    let next = odd.update.expect("windows have elapsed");
    assert!(odd.active);
    assert!(next.enabled());
    assert_eq!(next.updated_at(), 5);

    let even = is_active(ToggleRead::Available(state), 5 + 4_294_967_296);
    let next = even.update.expect("windows have elapsed");
    assert!(!even.active);
    assert!(!next.enabled());
    assert_eq!(next.updated_at(), 5);
}

#[test]
fn the_largest_step_still_moves_updated_at() {
    let state = started(5, 2).unwrap();
    let outcome = is_active(ToggleRead::Available(state), 5 + 2 * 4_294_967_295 + 1);
    let next = outcome.update.expect("windows have elapsed");
    assert!(next.enabled());
    assert_eq!(next.updated_at(), 5 + 2 * 4_294_967_295);
}

#[test]
fn the_far_end_of_the_clock_does_not_overflow() {
    let state = started(0, u128::MAX).unwrap();
    let outcome = is_active(ToggleRead::Available(state), u128::MAX);
    let next = outcome.update.expect("one window has elapsed");
    assert!(next.enabled());
    assert_eq!(next.updated_at(), u128::MAX);

    let late = started(u128::MAX - 5, 2).unwrap();
    let outcome = is_active(ToggleRead::Available(late), u128::MAX);
    let next = outcome.update.expect("two windows have elapsed");
    assert!(!next.enabled());
    assert_eq!(next.updated_at(), u128::MAX - 1);
}

#[test]
fn later_polls_never_move_updated_at_backwards() {
    let mut slot = started(100, 7);
    let mut last = 100;
    for now in [100u128, 103, 107, 106, 150, 149, 1000, 5, 1001] {
        poll(&mut slot, now);
        let at = slot.unwrap().updated_at();
        assert!(at >= last);
        assert_eq!((at - 100) % 7, 0);
        last = at;
    }
    assert_eq!(last, 996);
}

#[test]
fn polls_in_between_do_not_change_a_later_poll() {
    for (first, second) in
        [(1003u128, 1049u128), (1010, 1010), (1019, 1020), (1000, 1075), (1070, 1075)]
    {
        let mut direct = started(1000, 10);
        let answer = poll(&mut direct, second);

        let mut stepped = started(1000, 10);
        poll(&mut stepped, first);
        assert_eq!(poll(&mut stepped, second), answer);
        assert_eq!(stepped.unwrap().updated_at(), direct.unwrap().updated_at());
        assert_eq!(stepped.unwrap().enabled(), direct.unwrap().enabled());

        assert_eq!(poll(&mut stepped, second), answer);
        assert_eq!(stepped.unwrap().updated_at(), direct.unwrap().updated_at());
    }
}

const MILLISECOND: u128 = 1_000_000;

#[test]
fn a_window_of_half_a_second_flips_after_half_a_second() {
    let t0 = 3 * 1000 * MILLISECOND + 17;
    let mut slot = started(t0, 500 * MILLISECOND);
    assert!(!poll(&mut slot, t0 + 499 * MILLISECOND));
    assert_eq!(slot.unwrap().updated_at(), t0);
    assert!(poll(&mut slot, t0 + 750 * MILLISECOND));
    let state = slot.unwrap();
    assert!(state.enabled());
    assert_eq!(state.updated_at(), t0 + 500 * MILLISECOND);
    assert_eq!(state.toggle_window(), 500 * MILLISECOND);
    assert!(!poll(&mut slot, t0 + 1000 * MILLISECOND));
    assert_eq!(slot.unwrap().updated_at(), t0 + 1000 * MILLISECOND);
}

#[test]
fn a_window_with_a_part_of_a_second_is_counted_whole() {
    let window = 1500 * MILLISECOND;
    let mut slot = started(0, window);
    assert!(!poll(&mut slot, 1499 * MILLISECOND));
    assert!(poll(&mut slot, 3200 * MILLISECOND - 1500 * MILLISECOND));
    assert_eq!(slot.unwrap().updated_at(), window);
    assert!(!poll(&mut slot, 3200 * MILLISECOND));
    assert_eq!(slot.unwrap().updated_at(), 2 * window);
}

#[test]
fn a_clock_reading_is_not_rounded() {
    let second = 1000 * MILLISECOND;
    let mut slot = started(second - 1, second);
    assert!(!poll(&mut slot, 2 * second - 2));
    assert!(poll(&mut slot, 2 * second - 1));
    assert_eq!(slot.unwrap().updated_at(), 2 * second - 1);
}

#[test]
fn a_window_of_one_nanosecond_is_a_window() {
    let mut slot = started(10, 1);
    assert!(poll(&mut slot, 11));
    assert!(!poll(&mut slot, 12));
    assert!(!poll(&mut slot, 14));
    assert!(poll(&mut slot, 15));
}

#[test]
fn second_init_with_any_window_is_a_no_op() {
    let mut slot = started(1000, 10);
    assert!(poll(&mut slot, 1015));
    for window in [0u128, 1, 10, 77, u128::MAX] {
        init(&mut slot, 2000, window);
        let state = slot.expect("the first toggle stays");
        assert!(state.enabled());
        assert_eq!(state.updated_at(), 1010);
        assert_eq!(state.toggle_window(), 10);
    }
}
