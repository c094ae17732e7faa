//! Button gesture handling shared by the firmware and host tests.

use vstd::prelude::*;

verus! {

/// Interval between two button polls, in milliseconds.
pub const POLL_INTERVAL_MS: u64 = 10;

/// Number of polls after a raw level change before the level is accepted.
pub const DEBOUNCE_TICKS: u8 = 3;

/// Number of polls of a stable press before it counts as a hold.
pub const HOLD_TICKS: u16 = 60;

/// Number of polls between two repeats of a hold.
pub const REPEAT_TICKS: u16 = 10;

/// Parameter changes produced by one poll of the buttons.
#[derive(Clone, Copy, Debug, Default, PartialEq, Eq)]
pub struct ControlDelta {
    pub color_steps: i8,
    pub volume_steps: i8,
    pub toggle_power: bool,
}

impl ControlDelta {
    /// True when the delta asks for no change at all.
    pub fn is_empty(self) -> (empty: bool)
        ensures
            empty == (self.color_steps == 0 && self.volume_steps == 0 && !self.toggle_power),
    {
        self.color_steps == 0 && self.volume_steps == 0 && !self.toggle_power
    }
}

/// What a debounced button reports: a short press on release, or a hold
/// (first after `HOLD_TICKS` polls, then every `REPEAT_TICKS` polls).
#[derive(Clone, Copy, Debug, PartialEq, Eq)]
pub enum Gesture {
    Short,
    Hold,
}

/// The state of one debounced button.
#[derive(Clone, Copy, Debug, PartialEq, Eq)]
pub struct ButtonState {
    /// Level read on the last poll.
    pub raw_pressed: bool,
    /// Debounced level.
    pub stable_pressed: bool,
    /// Polls for which the raw level has differed from the stable one,
    /// not counting the poll on which it changed.
    pub debounce_ticks: u8,
    /// Polls since the stable press began.
    pub held_ticks: u16,
    /// Whether this press has already produced a hold.
    pub hold_started: bool,
}

/// A released, settled button.
pub open spec fn idle_button() -> ButtonState {
    ButtonState {
        raw_pressed: false,
        stable_pressed: false,
        debounce_ticks: 0,
        held_ticks: 0,
        hold_started: false,
    }
}

/// The states a button reaches from `idle_button` by polling.
pub open spec fn button_wf(b: ButtonState) -> bool {
    &&& b.debounce_ticks < DEBOUNCE_TICKS
    &&& b.raw_pressed == b.stable_pressed ==> b.debounce_ticks == 0
    &&& b.hold_started ==> b.held_ticks >= HOLD_TICKS
}

/// The state after the debounce phase of a poll with raw level `pressed`.
pub open spec fn debounced(b: ButtonState, pressed: bool) -> ButtonState {
    if pressed != b.raw_pressed {
        ButtonState { raw_pressed: pressed, debounce_ticks: 0, ..b }
    } else if b.stable_pressed != b.raw_pressed {
        let ticks = if b.debounce_ticks == 255 { 255u8 } else { (b.debounce_ticks + 1) as u8 };
        if ticks >= DEBOUNCE_TICKS {
            if b.raw_pressed {
                ButtonState {
                    stable_pressed: true,
                    debounce_ticks: 0,
                    held_ticks: 0,
                    hold_started: false,
                    ..b
                }
            } else {
                ButtonState { stable_pressed: false, debounce_ticks: 0, ..b }
            }
        } else {
            ButtonState { debounce_ticks: ticks, ..b }
        }
    } else {
        b
    }
}

/// Whether the poll accepts a release of a press that never became a hold.
pub open spec fn short_release(b: ButtonState, pressed: bool) -> bool {
    &&& pressed == b.raw_pressed
    &&& b.stable_pressed && !b.raw_pressed
    &&& b.debounce_ticks + 1 >= DEBOUNCE_TICKS
    &&& !b.hold_started
}

/// One poll of a button with raw level `pressed`: the next state and the
/// gesture the poll reports.
pub open spec fn button_step(b: ButtonState, pressed: bool) -> (ButtonState, Option<Gesture>) {
    let d = debounced(b, pressed);
    if short_release(b, pressed) {
        (d, Some(Gesture::Short))
    } else if !d.stable_pressed || !d.raw_pressed {
        (d, None)
    } else {
        let held: u16 = if d.held_ticks == 65535 { 65535u16 } else { (d.held_ticks + 1) as u16 };
        if held == HOLD_TICKS {
            (ButtonState { held_ticks: held, hold_started: true, ..d }, Some(Gesture::Hold))
        } else if d.hold_started && (held - HOLD_TICKS) % (REPEAT_TICKS as int) == 0 {
            (ButtonState { held_ticks: held, ..d }, Some(Gesture::Hold))
        } else {
            (ButtonState { held_ticks: held, ..d }, None)
        }
    }
}

/// Runs a button through a sequence of polls.
pub open spec fn button_run(b: ButtonState, inputs: Seq<bool>) -> ButtonState
    decreases inputs.len(),
{
    if inputs.len() == 0 {
        b
    } else {
        button_run(button_step(b, inputs[0]).0, inputs.drop_first())
    }
}

/// One debounced button.
#[derive(Clone, Copy, Debug)]
struct Button {
    raw_pressed: bool,
    stable_pressed: bool,
    debounce_ticks: u8,
    held_ticks: u16,
    hold_started: bool,
}

impl View for Button {
    type V = ButtonState;

    closed spec fn view(&self) -> ButtonState {
        ButtonState {
            raw_pressed: self.raw_pressed,
            stable_pressed: self.stable_pressed,
            debounce_ticks: self.debounce_ticks,
            held_ticks: self.held_ticks,
            hold_started: self.hold_started,
        }
    }
}

impl Button {
    fn new() -> (button: Self)
        ensures
            button@ == idle_button(),
        no_unwind
    {
        Self {
            raw_pressed: false,
            stable_pressed: false,
            debounce_ticks: 0,
            held_ticks: 0,
            hold_started: false,
        }
    }

    fn update(&mut self, pressed: bool) -> (gesture: Option<Gesture>)
        requires
            button_wf(old(self)@),
        ensures
            (final(self)@, gesture) == button_step(old(self)@, pressed),
            button_wf(final(self)@),
    {
        if pressed != self.raw_pressed {
            self.raw_pressed = pressed;
            self.debounce_ticks = 0;
        } else if self.stable_pressed != self.raw_pressed {
            self.debounce_ticks = self.debounce_ticks.saturating_add(1);
            if self.debounce_ticks >= DEBOUNCE_TICKS {
                self.stable_pressed = self.raw_pressed;
                self.debounce_ticks = 0;

                if self.stable_pressed {
                    self.held_ticks = 0;
                    self.hold_started = false;
                } else if !self.hold_started {
                    return Some(Gesture::Short);
                }
            }
        }

        // Do not advance the hold timer while a release is being debounced.
        if !self.stable_pressed || !self.raw_pressed {
            return None;
        }

        self.held_ticks = self.held_ticks.saturating_add(1);
        if self.held_ticks == HOLD_TICKS {
            self.hold_started = true;
            Some(Gesture::Hold)
        } else if self.hold_started && (self.held_ticks - HOLD_TICKS).is_multiple_of(REPEAT_TICKS) {
            Some(Gesture::Hold)
        } else {
            None
        }
    }

    fn cancel(&mut self)
        ensures
            final(self)@ == idle_button(),
        no_unwind
    {
        *self = Self::new();
    }
}


/// The state of both buttons and of the chord they form together.
#[derive(Clone, Copy, Debug, PartialEq, Eq)]
pub struct ControlsState {
    pub next: ButtonState,
    pub previous: ButtonState,
    pub chord: ButtonState,
    /// Whether the current chord press has already toggled the power.
    pub chord_triggered: bool,
}

/// The controls as they are before the first poll.
pub open spec fn idle_controls() -> ControlsState {
    ControlsState {
        next: idle_button(),
        previous: idle_button(),
        chord: idle_button(),
        chord_triggered: false,
    }
}

pub open spec fn controls_wf(s: ControlsState) -> bool {
    &&& button_wf(s.next)
    &&& button_wf(s.previous)
    &&& button_wf(s.chord)
}

/// The change one button's gesture contributes: a short press steps the
/// color, a hold steps the volume, each in `direction`.
pub open spec fn gesture_delta(gesture: Option<Gesture>, direction: int, delta: ControlDelta) -> ControlDelta {
    match gesture {
        Some(Gesture::Short) => ControlDelta { color_steps: (delta.color_steps + direction) as i8, ..delta },
        Some(Gesture::Hold) => ControlDelta { volume_steps: (delta.volume_steps + direction) as i8, ..delta },
        None => delta,
    }
}

/// Whether this poll belongs to a chord: both buttons are down, or the
/// chord's debounced release has not completed yet.
pub open spec fn chord_owns(s: ControlsState, next_pressed: bool, previous_pressed: bool) -> bool {
    let chord = button_step(s.chord, next_pressed && previous_pressed).0;
    (next_pressed && previous_pressed) || chord.stable_pressed
}

/// One poll of both buttons: the next state and the change it asks for.
pub open spec fn controls_step(s: ControlsState, next_pressed: bool, previous_pressed: bool) -> (
    ControlsState,
    ControlDelta,
) {
    let both = next_pressed && previous_pressed;
    let (chord, chord_gesture) = button_step(s.chord, both);
    let triggered = if !chord.stable_pressed { false } else { s.chord_triggered };
    let empty = ControlDelta { color_steps: 0, volume_steps: 0, toggle_power: false };
    if both || chord.stable_pressed {
        let fire = chord_gesture == Some(Gesture::Hold) && !triggered;
        (
            ControlsState {
                next: idle_button(),
                previous: idle_button(),
                chord,
                chord_triggered: triggered || fire,
            },
            ControlDelta { toggle_power: fire, ..empty },
        )
    } else {
        let (next, next_gesture) = button_step(s.next, next_pressed);
        let (previous, previous_gesture) = button_step(s.previous, previous_pressed);
        (
            ControlsState { next, previous, chord, chord_triggered: triggered },
            gesture_delta(previous_gesture, -1, gesture_delta(next_gesture, 1, empty)),
        )
    }
}

/// Converts two active-low button levels into semantic parameter changes.
pub struct ButtonControls {
    next: Button,
    previous: Button,
    chord: Button,
    chord_triggered: bool,
}

impl View for ButtonControls {
    type V = ControlsState;

    closed spec fn view(&self) -> ControlsState {
        ControlsState {
            next: self.next@,
            previous: self.previous@,
            chord: self.chord@,
            chord_triggered: self.chord_triggered,
        }
    }
}

impl ButtonControls {
    /// The well-formedness every value of this type keeps.
    #[verifier::type_invariant]
    spec fn wf(&self) -> bool {
        controls_wf(self@)
    }

    /// Both buttons released and settled.
    pub fn new() -> (controls: Self)
        ensures
            controls@ == idle_controls(),
    {
        Self {
            next: Button::new(),
            previous: Button::new(),
            chord: Button::new(),
            chord_triggered: false,
        }
    }

    /// Polls both buttons once (`true` is pressed) and reports the change
    /// the poll asks for.
    pub fn update(&mut self, next_pressed: bool, previous_pressed: bool) -> (delta: ControlDelta)
        ensures
            (final(self)@, delta) == controls_step(old(self)@, next_pressed, previous_pressed),
    {
        proof {
            use_type_invariant(&*self);
        }
        let mut delta = ControlDelta { color_steps: 0, volume_steps: 0, toggle_power: false };
        let both_pressed = next_pressed && previous_pressed;
        let mut chord = self.chord;
        let chord_gesture = chord.update(both_pressed);
        self.chord = chord;

        if !self.chord.stable_pressed {
            self.chord_triggered = false;
        }

        // A chord owns both buttons from the first raw contact through its
        // debounced release, preventing color or volume side effects.
        if both_pressed || self.chord.stable_pressed {
            self.next.cancel();
            self.previous.cancel();
            let is_hold = match chord_gesture {
                Some(Gesture::Hold) => true,
                _ => false,
            };
            if is_hold && !self.chord_triggered {
                self.chord_triggered = true;
                delta.toggle_power = true;
            }
            return delta;
        }

        let mut next = self.next;
        let next_gesture = next.update(next_pressed);
        self.next = next;
        apply_gesture(next_gesture, 1, &mut delta);
        let mut previous = self.previous;
        let previous_gesture = previous.update(previous_pressed);
        self.previous = previous;
        apply_gesture(previous_gesture, -1, &mut delta);
        delta
    }
}

impl Default for ButtonControls {
    fn default() -> (controls: Self)
        ensures
            controls@ == idle_controls(),
    {
        Self::new()
    }
}

fn apply_gesture(gesture: Option<Gesture>, direction: i8, delta: &mut ControlDelta)
    requires
        direction == 1 || direction == -1,
        -1 <= old(delta).color_steps <= 1,
        -1 <= old(delta).volume_steps <= 1,
    ensures
        *final(delta) == gesture_delta(gesture, direction as int, *old(delta)),
{
    match gesture {
        Some(Gesture::Short) => delta.color_steps += direction,
        Some(Gesture::Hold) => delta.volume_steps += direction,
        None => {},
    }
}


/// A poll keeps a button well formed.
pub proof fn lemma_button_step_wf(b: ButtonState, pressed: bool)
    requires
        button_wf(b),
    ensures
        button_wf(button_step(b, pressed).0),
{
}

/// A short press is reported only when the debounced level changes from
/// pressed to released, and only for a press that produced no hold.
pub proof fn lemma_short_only_on_release(b: ButtonState, pressed: bool)
    requires
        button_wf(b),
    ensures
        button_step(b, pressed).1 == Some(Gesture::Short) ==> {
            &&& b.stable_pressed
            &&& !button_step(b, pressed).0.stable_pressed
            &&& !b.hold_started
        },
        b.hold_started ==> button_step(b, pressed).1 != Some(Gesture::Short),
{
}

/// Polling with inputs `inputs` and then `last` is polling with `last`
/// after the others.
pub proof fn lemma_button_run_push(b: ButtonState, inputs: Seq<bool>, last: bool)
    ensures
        button_run(b, inputs.push(last)) == button_step(button_run(b, inputs), last).0,
    decreases inputs.len(),
{
    if inputs.len() == 0 {
        assert(inputs.push(last).drop_first() =~= Seq::<bool>::empty());
        reveal_with_fuel(button_run, 2);
    } else {
        assert(inputs.push(last).drop_first() =~= inputs.drop_first().push(last));
        assert(inputs.push(last)[0] == inputs[0]);
        lemma_button_run_push(button_step(b, inputs[0]).0, inputs.drop_first(), last);
    }
}

/// A level read on `DEBOUNCE_TICKS + 1` consecutive polls becomes the
/// debounced level.
pub proof fn lemma_steady_level_is_adopted(b: ButtonState, level: bool)
    requires
        button_wf(b),
    ensures
        button_run(b, seq![level, level, level, level]).stable_pressed == level,
{
    let inputs = seq![level, level, level, level];
    let b1 = button_step(b, level).0;
    let b2 = button_step(b1, level).0;
    let b3 = button_step(b2, level).0;
    let b4 = button_step(b3, level).0;
    assert(inputs.drop_first() =~= seq![level, level, level]);
    assert(inputs.drop_first().drop_first() =~= seq![level, level]);
    assert(inputs.drop_first().drop_first().drop_first() =~= seq![level]);
    assert(inputs.drop_first().drop_first().drop_first().drop_first() =~= Seq::<bool>::empty());
    reveal_with_fuel(button_run, 5);
    assert(button_run(b, inputs) == b4);
}

/// Whether `inputs` never holds a level other than `level` for more than
/// `DEBOUNCE_TICKS` consecutive polls.
pub open spec fn bounces_only(inputs: Seq<bool>, level: bool) -> bool {
    forall|i: int| 0 <= i && i + 3 < inputs.len() ==> #[trigger] window_has(inputs, i, level)
}

/// Whether one of the polls `i` to `i + DEBOUNCE_TICKS` reads `level`.
pub open spec fn window_has(inputs: Seq<bool>, i: int, level: bool) -> bool {
    exists|j: int| i <= j && j <= i + 3 && #[trigger] inputs[j] == level
}

proof fn lemma_bounces_only_rest(inputs: Seq<bool>, level: bool)
    requires
        bounces_only(inputs, level),
        inputs.len() > 0,
    ensures
        bounces_only(inputs.drop_first(), level),
{
    let rest = inputs.drop_first();
    assert forall|i: int| 0 <= i && i + 3 < rest.len() implies #[trigger] window_has(rest, i, level) by {
        assert(window_has(inputs, i + 1, level));
        let j = choose|j: int| i + 1 <= j && j <= i + 1 + 3 && inputs[j] == level;
        assert(rest[j - 1] == inputs[j]);
    }
}

/// Whether poll `j` reads `level`, or comes after the end of `inputs`.
spec fn level_or_end(inputs: Seq<bool>, j: int, level: bool) -> bool {
    j >= inputs.len() || inputs[j] == level
}

proof fn lemma_bounce_run(b: ButtonState, inputs: Seq<bool>, level: bool, k: int)
    requires
        button_wf(b),
        b.stable_pressed == level,
        0 <= k <= 3,
        (k == 0) == (b.raw_pressed == level),
        k > 0 ==> b.debounce_ticks == k - 1,
        bounces_only(inputs, level),
        k == 0 || exists|j: int| 0 <= j && j < 4 - k && #[trigger] level_or_end(inputs, j, level),
    ensures
        forall|n: int| 0 <= n <= inputs.len() ==> (#[trigger] button_run(b, inputs.take(n))).stable_pressed == level,
    decreases inputs.len(),
{
    if inputs.len() > 0 {
        let rest = inputs.drop_first();
        let b1 = button_step(b, inputs[0]).0;
        lemma_bounces_only_rest(inputs, level);
        if inputs[0] == level {
            lemma_bounce_run(b1, rest, level, 0);
        } else {
            if k == 0 {
                if inputs.len() >= 4 {
                    assert(window_has(inputs, 0, level));
                    let j = choose|j: int| 0 <= j && j <= 0 + 3 && inputs[j] == level;
                    assert(rest[j - 1] == inputs[j]);
                    assert(level_or_end(rest, j - 1, level));
                } else {
                    let j2 = rest.len() as int;
                    assert(0 <= j2 < 3 && level_or_end(rest, j2, level));
                }
            } else {
                let j = choose|j: int| 0 <= j && j < 4 - k && #[trigger] level_or_end(inputs, j, level);
                assert(j != 0);
                if j < inputs.len() {
                    assert(rest[j - 1] == inputs[j]);
                }
                assert(0 <= j - 1 < 4 - (k + 1) && level_or_end(rest, j - 1, level));
            }
            lemma_bounce_run(b1, rest, level, k + 1);
        }
        assert forall|n: int| 0 <= n <= inputs.len() implies (#[trigger] button_run(b, inputs.take(n))).stable_pressed == level by {
            if n > 0 {
                assert(inputs.take(n).drop_first() =~= rest.take(n - 1));
                assert(inputs.take(n)[0] == inputs[0]);
                assert(button_run(b1, rest.take(n - 1)).stable_pressed == level);
                assert(button_run(b, inputs.take(n)) == button_run(b1, rest.take(n - 1)));
            }
        }
    } else {
        assert forall|n: int| 0 <= n <= inputs.len() implies (#[trigger] button_run(b, inputs.take(n))).stable_pressed == level by {
            assert(inputs.take(n).len() == 0);
        }
    }
}

/// Contact bounce is ignored: from a settled button, polls in which the
/// other level never lasts more than `DEBOUNCE_TICKS` consecutive polls
/// never change the debounced level.
pub proof fn lemma_bounce_is_ignored(b: ButtonState, inputs: Seq<bool>)
    requires
        button_wf(b),
        b.raw_pressed == b.stable_pressed,
        bounces_only(inputs, b.stable_pressed),
    ensures
        forall|n: int|
            0 <= n <= inputs.len() ==> (#[trigger] button_run(b, inputs.take(n))).stable_pressed
                == b.stable_pressed,
{
    lemma_bounce_run(b, inputs, b.stable_pressed, 0);
}

/// `n` polls of a pressed button.
pub open spec fn held_inputs(n: nat) -> Seq<bool> {
    Seq::new(n, |i: int| true)
}

proof fn lemma_hold_count(b: ButtonState, n: nat)
    requires
        button_wf(b),
        b.stable_pressed && b.raw_pressed,
        b.held_ticks == 0,
        !b.hold_started,
        n <= 65535,
    ensures
        ({
            let s = button_run(b, held_inputs(n));
            &&& button_wf(s)
            &&& s.stable_pressed && s.raw_pressed
            &&& s.held_ticks == n
            &&& s.hold_started == (n >= HOLD_TICKS)
        }),
    decreases n,
{
    if n > 0 {
        let m = (n - 1) as nat;
        lemma_hold_count(b, m);
        assert(held_inputs(n) =~= held_inputs(m).push(true));
        lemma_button_run_push(b, held_inputs(m), true);
        lemma_button_step_wf(button_run(b, held_inputs(m)), true);
    } else {
        assert(held_inputs(0) =~= Seq::<bool>::empty());
    }
}

/// Holding a button: counting from the poll on which its press was
/// accepted, the `n`-th further poll reports a hold exactly when `n` is
/// `HOLD_TICKS` or a later multiple of `REPEAT_TICKS` past it.
pub proof fn lemma_hold_repeats(b: ButtonState, n: nat)
    requires
        button_wf(b),
        b.stable_pressed && b.raw_pressed,
        b.held_ticks == 0,
        !b.hold_started,
        1 <= n <= 65535,
    ensures
        button_step(button_run(b, held_inputs((n - 1) as nat)), true).1 == (if n >= HOLD_TICKS && (n
            - HOLD_TICKS) % (REPEAT_TICKS as int) == 0 {
            Some(Gesture::Hold)
        } else {
            None
        }),
{
    lemma_hold_count(b, (n - 1) as nat);
}

/// While a chord owns the buttons, a poll never steps the color or the
/// volume; otherwise it never toggles the power.
pub proof fn lemma_chord_owns_the_buttons(s: ControlsState, next_pressed: bool, previous_pressed: bool)
    ensures
        ({
            let delta = controls_step(s, next_pressed, previous_pressed).1;
            &&& chord_owns(s, next_pressed, previous_pressed) ==> delta.color_steps == 0
                && delta.volume_steps == 0
            &&& !chord_owns(s, next_pressed, previous_pressed) ==> !delta.toggle_power
        }),
{
}

/// A chord toggles the power at most once per press: a toggle sets the
/// chord's flag, the flag is cleared only once the chord's release is
/// debounced, and no toggle happens while it is set.
pub proof fn lemma_power_toggles_once_per_chord(
    s: ControlsState,
    next_pressed: bool,
    previous_pressed: bool,
)
    ensures
        ({
            let (t, delta) = controls_step(s, next_pressed, previous_pressed);
            &&& delta.toggle_power ==> !s.chord_triggered && t.chord_triggered
            &&& s.chord_triggered ==> !delta.toggle_power
            &&& s.chord_triggered && t.chord.stable_pressed ==> t.chord_triggered
            &&& t.chord_triggered ==> t.chord.stable_pressed
        }),
{
}

/// A poll moves the color and the volume by at most one step each: a short
/// press of `next` steps forwards, of `previous` backwards, and a hold of
/// either steps the volume the same way.
pub proof fn lemma_steps_are_single(s: ControlsState, next_pressed: bool, previous_pressed: bool)
    requires
        controls_wf(s),
    ensures
        ({
            let delta = controls_step(s, next_pressed, previous_pressed).1;
            &&& -1 <= delta.color_steps <= 1
            &&& -1 <= delta.volume_steps <= 1
        }),
{
}

/// `1` when `gesture` is `kind`, else `0`.
pub open spec fn counts(gesture: Option<Gesture>, kind: Gesture) -> int {
    if gesture == Some(kind) {
        1
    } else {
        0
    }
}

/// Outside a chord each button acts on its own gesture of the poll: a
/// short press steps the color and every hold, the first and each repeat,
/// steps the volume, `next` upwards and `previous` downwards; the power
/// stays as it is.
pub proof fn lemma_buttons_act_on_their_gestures(
    s: ControlsState,
    next_pressed: bool,
    previous_pressed: bool,
)
    requires
        !chord_owns(s, next_pressed, previous_pressed),
    ensures
        ({
            let (t, delta) = controls_step(s, next_pressed, previous_pressed);
            let (next, next_gesture) = button_step(s.next, next_pressed);
            let (previous, previous_gesture) = button_step(s.previous, previous_pressed);
            &&& t.next == next
            &&& t.previous == previous
            &&& delta.color_steps == counts(next_gesture, Gesture::Short) - counts(
                previous_gesture,
                Gesture::Short,
            )
            &&& delta.volume_steps == counts(next_gesture, Gesture::Hold) - counts(
                previous_gesture,
                Gesture::Hold,
            )
            &&& !delta.toggle_power
        }),
{
}

/// The controls with the two buttons swapped.
pub open spec fn mirrored(s: ControlsState) -> ControlsState {
    ControlsState { next: s.previous, previous: s.next, ..s }
}

/// The change with every step turned the other way.
pub open spec fn reversed(d: ControlDelta) -> ControlDelta {
    ControlDelta {
        color_steps: (-d.color_steps) as i8,
        volume_steps: (-d.volume_steps) as i8,
        toggle_power: d.toggle_power,
    }
}

/// The two buttons are mirror images: swapping their states and their
/// levels gives the same poll with every color and volume step reversed.
pub proof fn lemma_buttons_mirror(s: ControlsState, next_pressed: bool, previous_pressed: bool)
    ensures
        controls_step(mirrored(s), previous_pressed, next_pressed).0 == mirrored(
            controls_step(s, next_pressed, previous_pressed).0,
        ),
        controls_step(mirrored(s), previous_pressed, next_pressed).1 == reversed(
            controls_step(s, next_pressed, previous_pressed).1,
        ),
{
}

/// Runs the controls through a sequence of polls, each the levels of
/// `next` and of `previous`.
pub open spec fn controls_run(s: ControlsState, polls: Seq<(bool, bool)>) -> ControlsState
    decreases polls.len(),
{
    if polls.len() == 0 {
        s
    } else {
        let last = polls.last();
        controls_step(controls_run(s, polls.drop_last()), last.0, last.1).0
    }
}

/// `n` polls that hold one button down, `next` when `next_side`, else
/// `previous`, and leave the other up.
pub open spec fn one_button_held(next_side: bool, n: nat) -> Seq<(bool, bool)> {
    Seq::new(n, |i: int| (next_side, !next_side))
}

proof fn lemma_held_step(b: ButtonState, k: nat)
    requires
        k > 0,
    ensures
        button_run(b, held_inputs(k)) == button_step(button_run(b, held_inputs((k - 1) as nat)), true).0,
{
    assert(held_inputs(k) =~= held_inputs((k - 1) as nat).push(true));
    lemma_button_run_push(b, held_inputs((k - 1) as nat), true);
}

/// A button at rest, pressed for `k` polls, keeps the other controls at
/// rest.
proof fn lemma_one_button_run(next_side: bool, k: nat)
    ensures
        ({
            let held = button_run(idle_button(), held_inputs(k));
            controls_run(idle_controls(), one_button_held(next_side, k)) == (ControlsState {
                next: if next_side { held } else { idle_button() },
                previous: if next_side { idle_button() } else { held },
                chord: idle_button(),
                chord_triggered: false,
            })
        }),
    decreases k,
{
    if k == 0 {
        assert(held_inputs(0) =~= Seq::<bool>::empty());
    } else {
        lemma_one_button_run(next_side, (k - 1) as nat);
        assert(one_button_held(next_side, k).drop_last() =~= one_button_held(next_side, (k - 1) as nat));
        lemma_held_step(idle_button(), k);
    }
}

/// The state in which a press has just been accepted.
spec fn accepted_press() -> ButtonState {
    ButtonState {
        raw_pressed: true,
        stable_pressed: true,
        debounce_ticks: 0,
        held_ticks: 0,
        hold_started: false,
    }
}

/// From rest, a held button reports nothing for its first
/// `DEBOUNCE_TICKS + 1` polls, and after `k >= DEBOUNCE_TICKS + 1` polls
/// it is where `k - DEBOUNCE_TICKS` polls take an accepted press.
proof fn lemma_press_from_rest(k: nat)
    ensures
        k <= 3 ==> button_step(button_run(idle_button(), held_inputs(k)), true).1 is None,
        k >= 4 ==> button_run(idle_button(), held_inputs(k)) == button_run(
            accepted_press(),
            held_inputs((k - 3) as nat),
        ),
    decreases k,
{
    let b0 = idle_button();
    assert(held_inputs(0) =~= Seq::<bool>::empty());
    let b1 = button_step(b0, true).0;
    let b2 = button_step(b1, true).0;
    let b3 = button_step(b2, true).0;
    let b4 = button_step(b3, true).0;
    lemma_held_step(b0, 1);
    lemma_held_step(b0, 2);
    lemma_held_step(b0, 3);
    lemma_held_step(b0, 4);
    assert(button_run(b0, held_inputs(1)) == b1);
    assert(button_run(b0, held_inputs(2)) == b2);
    assert(button_run(b0, held_inputs(3)) == b3);
    assert(button_run(b0, held_inputs(4)) == b4);
    assert(button_step(b0, true).1 is None);
    assert(button_step(b1, true).1 is None);
    assert(button_step(b2, true).1 is None);
    assert(button_step(b3, true).1 is None);
    if k >= 4 {
        if k == 4 {
            lemma_held_step(accepted_press(), 1);
            assert(button_run(accepted_press(), held_inputs(1)) == b4);
        } else {
            lemma_press_from_rest((k - 1) as nat);
            lemma_held_step(b0, k);
            lemma_held_step(accepted_press(), (k - 3) as nat);
        }
    }
}

/// Holding one button from rest: the `n`-th poll steps the volume, up for
/// `next` and down for `previous`, exactly when `n` is
/// `DEBOUNCE_TICKS + HOLD_TICKS` or a later multiple of `REPEAT_TICKS` past
/// it; no poll steps the color or toggles the power.
pub proof fn lemma_held_button_repeats(next_side: bool, n: nat)
    requires
        1 <= n <= 65535,
    ensures
        ({
            let before = controls_run(idle_controls(), one_button_held(next_side, (n - 1) as nat));
            let delta = controls_step(before, next_side, !next_side).1;
            let fires = n >= DEBOUNCE_TICKS + HOLD_TICKS && (n - DEBOUNCE_TICKS - HOLD_TICKS) % (
            REPEAT_TICKS as int) == 0;
            &&& delta.volume_steps == (if !fires {
                0
            } else if next_side {
                1
            } else {
                -1
            })
            &&& delta.color_steps == 0
            &&& !delta.toggle_power
        }),
{
    let k = (n - 1) as nat;
    lemma_one_button_run(next_side, k);
    let held = button_run(idle_button(), held_inputs(k));
    let g = button_step(held, true).1;
    lemma_press_from_rest(k);
    if k >= 4 {
        lemma_hold_repeats(accepted_press(), (k - 2) as nat);
        assert((k - 3) as nat == ((k - 2) as nat - 1) as nat);
    }
    assert(g != Some(Gesture::Short));
}

} // verus!
