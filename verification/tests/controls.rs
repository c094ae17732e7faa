use whitenoise::controls::{ButtonControls, ControlDelta};

fn poll(
    controls: &mut ButtonControls,
    next_pressed: bool,
    previous_pressed: bool,
    ticks: usize,
) -> ControlDelta {
    let mut total = ControlDelta::default();
    for _ in 0..ticks {
        let delta = controls.update(next_pressed, previous_pressed);
        total.color_steps += delta.color_steps;
        total.volume_steps += delta.volume_steps;
        total.toggle_power ^= delta.toggle_power;
    }
    total
}

#[test]
fn short_presses_step_colors_on_release() {
    let mut controls = ButtonControls::new();

    assert!(poll(&mut controls, true, false, 10).is_empty());
    assert_eq!(poll(&mut controls, false, false, 4).color_steps, 1);
    assert!(poll(&mut controls, false, true, 10).is_empty());
    assert_eq!(poll(&mut controls, false, false, 4).color_steps, -1);
}

#[test]
fn contact_bounce_does_not_create_a_press() {
    let mut controls = ButtonControls::new();

    assert!(controls.update(true, false).is_empty());
    assert!(controls.update(false, false).is_empty());
    assert!(controls.update(true, false).is_empty());
    assert!(controls.update(false, false).is_empty());
    assert!(poll(&mut controls, false, false, 10).is_empty());
}

#[test]
fn hold_repeats_volume_and_suppresses_short_press() {
    let mut controls = ButtonControls::new();
    let held = poll(&mut controls, true, false, 80);

    assert!(held.volume_steps >= 2);
    assert_eq!(held.color_steps, 0);
    let released = poll(&mut controls, false, false, 4);
    assert!(released.is_empty());
}

#[test]
fn holding_both_buttons_toggles_power_once_and_suppresses_other_actions() {
    let mut controls = ButtonControls::new();
    let held = poll(&mut controls, true, true, 100);

    assert!(held.toggle_power);
    assert_eq!(held.color_steps, 0);
    assert_eq!(held.volume_steps, 0);
    assert!(poll(&mut controls, true, true, 100).is_empty());
    assert!(poll(&mut controls, false, false, 4).is_empty());

    assert!(poll(&mut controls, true, true, 100).toggle_power);
}

#[test]
fn is_empty_reports_any_change() {
    assert!(ControlDelta::default().is_empty());
    assert!(!ControlDelta { color_steps: 1, volume_steps: 0, toggle_power: false }.is_empty());
    assert!(!ControlDelta { color_steps: 0, volume_steps: -1, toggle_power: false }.is_empty());
    assert!(!ControlDelta { color_steps: 0, volume_steps: 0, toggle_power: true }.is_empty());
}

#[test]
fn a_press_is_accepted_on_its_fourth_poll() {
    // The debounce law: a level must be read on DEBOUNCE_TICKS + 1 polls.
    let mut controls = ButtonControls::new();
    for _ in 0..3 {
        assert!(controls.update(true, false).is_empty());
    }
    // Released after three polls: the press was never accepted.
    assert!(poll(&mut controls, false, false, 10).is_empty());

    let mut controls = ButtonControls::new();
    assert!(poll(&mut controls, true, false, 4).is_empty());
    // Accepted on the fourth poll, so its release counts as a short press.
    assert_eq!(poll(&mut controls, false, false, 4).color_steps, 1);
}

#[test]
fn first_hold_comes_sixty_polls_after_acceptance_then_every_ten() {
    let mut controls = ButtonControls::new();
    // Four polls to accept the press (the fourth counts as the first held poll).
    let mut holds = Vec::new();
    for poll_index in 1..=100 {
        let delta = controls.update(true, false);
        if delta.volume_steps != 0 {
            assert_eq!(delta.volume_steps, 1);
            holds.push(poll_index);
        }
    }
    assert_eq!(holds, vec![63, 73, 83, 93]);
}

#[test]
fn previous_button_hold_lowers_volume() {
    let mut controls = ButtonControls::new();
    let held = poll(&mut controls, false, true, 63);
    assert_eq!(held.volume_steps, -1);
    assert_eq!(held.color_steps, 0);
}

#[test]
fn chord_release_is_debounced_before_buttons_act_again() {
    let mut controls = ButtonControls::new();
    assert!(poll(&mut controls, true, true, 10).is_empty());
    // Releasing one button of the chord: the chord still owns both buttons
    // until its release is debounced, so nothing happens.
    assert!(poll(&mut controls, true, false, 3).is_empty());
    // The chord's release has now been accepted; the next button alone
    // starts from rest and its release is a short press.
    assert!(poll(&mut controls, true, false, 10).is_empty());
    assert_eq!(poll(&mut controls, false, false, 4).color_steps, 1);
}
