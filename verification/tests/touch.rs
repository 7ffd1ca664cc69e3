use riddle::touch::{
    tick_quit, Gesture, QuitArm, Slot, TouchState, ABS_MT_POSITION_Y, ABS_MT_SLOT, ABS_MT_TRACKING_ID, EV_ABS, EV_SYN, MAX_SLOTS,
    SYN_REPORT,
};

/// A fixed point on the monotonic clock, in milliseconds.
const T0: u64 = 1_000_000;

#[test]
fn quit_requires_sustained_five_fingers() {
    let mut arm = QuitArm::new(3000);
    assert!(!arm.update(5, T0));
    assert!(!arm.update(5, T0 + 2900));
    assert!(arm.update(5, T0 + 3001));
    assert!(!arm.update(5, T0 + 3200));
}

#[test]
fn quit_rearms_only_after_release() {
    let mut arm = QuitArm::new(3000);
    arm.update(5, T0);
    assert!(!arm.update(3, T0 + 1000));
    assert!(!arm.update(5, T0 + 1500));
    assert!(!arm.update(5, T0 + 4400));
    assert!(arm.update(5, T0 + 4600));
}

#[test]
fn zero_hold_fires_immediately_for_legacy_mode() {
    let mut arm = QuitArm::new(0);
    assert!(arm.update(5, T0));
}

#[test]
fn stationary_hold_fires_via_tick_without_new_frames() {
    let mut slots = [Slot::default(); MAX_SLOTS];
    for s in slots.iter_mut().take(5) {
        s.active = true;
    }
    let mut arm = QuitArm::new(3000);
    assert!(!tick_quit(&slots, &mut arm, T0));
    assert!(tick_quit(&slots, &mut arm, T0 + 3100));
    assert!(!tick_quit(&slots, &mut arm, T0 + 3200), "fired latch holds");
}

/// Feed a tap of `n` fingers that stay still, then lift; the gestures seen.
fn tap(n: i32, t: u64) -> Vec<Gesture> {
    let mut st = TouchState::new(3000);
    let mut out = Vec::new();
    for k in 0..n {
        st.feed_event(EV_ABS, ABS_MT_SLOT, k, t, &mut out);
        st.feed_event(EV_ABS, ABS_MT_TRACKING_ID, 10 + k, t, &mut out);
        st.feed_event(EV_ABS, ABS_MT_POSITION_Y, 500 + 40 * k, t, &mut out);
    }
    st.feed_event(EV_SYN, SYN_REPORT, 0, t, &mut out);
    st.feed_event(EV_SYN, SYN_REPORT, 0, t + 20, &mut out);
    for k in 0..n {
        st.feed_event(EV_ABS, ABS_MT_SLOT, k, t + 40, &mut out);
        st.feed_event(EV_ABS, ABS_MT_TRACKING_ID, -1, t + 40, &mut out);
    }
    st.feed_event(EV_SYN, SYN_REPORT, 0, t + 40, &mut out);
    out
}

#[test]
fn a_still_tap_undoes_with_two_fingers_and_redoes_with_three() {
    assert_eq!(tap(2, T0), vec![Gesture::Undo]);
    assert_eq!(tap(3, T0), vec![Gesture::Redo]);
    assert!(tap(4, T0).is_empty());
    assert!(tap(1, T0).is_empty());
}

#[test]
fn quit_fires_once_over_a_long_hold_and_again_after_a_release() {
    let mut arm = QuitArm::new(100);
    let fired: Vec<bool> = [(5, 0), (5, 50), (6, 100), (5, 400), (4, 450), (5, 500), (5, 650)]
        .iter()
        .map(|&(c, t)| arm.update(c, T0 + t))
        .collect();
    assert_eq!(fired, vec![false, false, true, false, false, false, true]);
}
