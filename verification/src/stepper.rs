//! The sequencer of the stepper motor that turns the panel dial.
//!
//! The motor has four coils, energised one at a time in turn. After each
//! step the sequencer waits `delay` busy cycles: it speeds up from
//! `START_DELAY` towards `MIN_DELAY` while most of a sweep lies ahead,
//! brakes back towards `START_DELAY` for the last steps of it, and turns
//! round after `STEPS` steps. Whenever the dial's reference switch closes it
//! starts a clockwise sweep from rest.
use vstd::prelude::*;
use vstd::arithmetic::div_mod::{lemma_fundamental_div_mod, lemma_fundamental_div_mod_converse};

verus! {

/// Number of coils, and so of output pins.
pub const PINS: usize = 4;

/// Busy cycles between steps at rest.
pub const START_DELAY: usize = 3000;

/// Busy cycles between steps at full speed.
pub const MIN_DELAY: usize = 1800;

/// Number of speed changes that braking takes.
pub const BRAKE_STEPS: usize = 200;

/// Steps between two speed changes, less one.
pub const ACC_DELAY: usize = 1;

/// Change of the delay at each speed change.
pub const ACC_STEP: usize = (START_DELAY - MIN_DELAY) / BRAKE_STEPS;

/// Steps in one sweep.
pub const STEPS: usize = 1500;

/// The sequencer's state between two steps.
#[derive(Clone, Copy, Debug, PartialEq, Eq, Structural)]
pub struct Stepper {
    /// The coil energised last.
    pub coil: usize,
    /// Steps taken in the current sweep.
    pub count: usize,
    /// Whether the sweep runs clockwise.
    pub direction: bool,
    /// Busy cycles to wait after the step.
    pub delay: usize,
    /// Steps since the last speed change.
    pub acc_delay_count: usize,
}

/// The states that the sequencer passes through.
pub open spec fn stepper_inv(s: Stepper) -> bool {
    &&& s.coil < PINS
    &&& s.count <= STEPS
    &&& s.acc_delay_count <= ACC_DELAY
    &&& MIN_DELAY <= s.delay <= START_DELAY
    &&& (START_DELAY - s.delay) % (ACC_STEP as int) == 0
}

/// The coil after `coil` in the given direction.
pub open spec fn next_coil(coil: usize, direction: bool) -> usize {
    if direction {
        if coil < PINS - 1 {
            (coil + 1) as usize
        } else {
            0
        }
    } else {
        if coil > 0 {
            (coil - 1) as usize
        } else {
            (PINS - 1) as usize
        }
    }
}

/// The delay after a speed change at step `count` of a sweep: faster while
/// more than the braking distance lies ahead, slower after that, and never
/// beyond `MIN_DELAY` or `START_DELAY`.
pub open spec fn changed_delay(delay: usize, count: int) -> usize {
    if count < STEPS - BRAKE_STEPS * ACC_DELAY {
        if delay >= MIN_DELAY + ACC_STEP {
            (delay - ACC_STEP) as usize
        } else {
            delay
        }
    } else {
        if delay <= START_DELAY - ACC_STEP {
            (delay + ACC_STEP) as usize
        } else {
            delay
        }
    }
}

/// One step of the sequencer, given whether the dial's reference switch is
/// closed (its input low).
pub open spec fn stepper_next(s: Stepper, dial_low: bool) -> Stepper {
    let s = if dial_low {
        Stepper { count: 0, acc_delay_count: 0, direction: true, delay: START_DELAY, ..s }
    } else {
        s
    };
    let coil = next_coil(s.coil, s.direction);
    let count = s.count + 1;
    let acc = s.acc_delay_count + 1;
    let (acc, delay) = if acc > ACC_DELAY {
        (0, changed_delay(s.delay, count))
    } else {
        (acc, s.delay)
    };
    if count > STEPS {
        Stepper {
            coil,
            count: 0,
            direction: !s.direction,
            delay: START_DELAY,
            acc_delay_count: acc as usize,
        }
    } else {
        Stepper {
            coil,
            count: count as usize,
            direction: s.direction,
            delay,
            acc_delay_count: acc as usize,
        }
    }
}

impl Stepper {
    /// The sequencer at power-up: at rest, turning counter-clockwise until
    /// the reference switch is found.
    pub fn new() -> (s: Self)
        ensures
            s == (Stepper { coil: 0, count: 0, direction: false, delay: START_DELAY, acc_delay_count: 0 }),
            stepper_inv(s),
    {
        assert(ACC_STEP == 6);
        Stepper { coil: 0, count: 0, direction: false, delay: START_DELAY, acc_delay_count: 0 }
    }

    /// Takes one step: answers the coil to energise; the delay to wait
    /// after it is then `self.delay`.
    pub fn step(&mut self, dial_low: bool) -> (coil: usize)
        requires
            stepper_inv(*old(self)),
        ensures
            *final(self) == stepper_next(*old(self), dial_low),
            coil == final(self).coil,
            stepper_inv(*final(self)),
    {
        proof {
            lemma_step_keeps_invariant(*old(self), dial_low);
        }
        if dial_low {
            self.count = 0;
            self.acc_delay_count = 0;
            self.direction = true;
            self.delay = START_DELAY;
        }
        if self.direction {
            if self.coil < PINS - 1 {
                self.coil += 1;
            } else {
                self.coil = 0;
            }
        } else {
            if self.coil > 0 {
                self.coil -= 1;
            } else {
                self.coil = PINS - 1;
            }
        }
        self.count += 1;
        self.acc_delay_count += 1;
        if self.acc_delay_count > ACC_DELAY {
            self.acc_delay_count = 0;
            if self.count < STEPS - (BRAKE_STEPS * ACC_DELAY) {
                if self.delay >= MIN_DELAY + ACC_STEP {
                    self.delay -= ACC_STEP;
                }
            } else {
                if self.delay <= START_DELAY - ACC_STEP {
                    self.delay += ACC_STEP;
                }
            }
        }
        if self.count > STEPS {
            self.count = 0;
            self.delay = START_DELAY;
            self.direction = !self.direction;
        }
        self.coil
    }
}

/// Every step energises a neighbour of the last coil: the next one when
/// the sweep runs clockwise (as it always does when the reference switch is
/// closed), the one before it otherwise.
pub proof fn lemma_step_moves_to_neighbour_coil(s: Stepper, dial_low: bool)
    requires
        stepper_inv(s),
    ensures
        stepper_next(s, dial_low).coil == if dial_low || s.direction {
            (s.coil + 1) % (PINS as int)
        } else {
            (s.coil + PINS - 1) % (PINS as int)
        },
{
}

/// A sweep turns round exactly when its step count passes `STEPS`, and the
/// reference switch always starts a clockwise sweep.
pub proof fn lemma_direction_changes(s: Stepper, dial_low: bool)
    requires
        stepper_inv(s),
    ensures
        ({
            let n = stepper_next(s, dial_low);
            let d = dial_low || s.direction;
            let c = if dial_low { 0 } else { s.count as int };
            &&& (c + 1 > STEPS) ==> n.direction == !d && n.count == 0
            &&& (c + 1 <= STEPS) ==> n.direction == d && n.count == c + 1
        }),
{
}

/// Every step keeps the sequencer's invariant.
pub proof fn lemma_step_keeps_invariant(s: Stepper, dial_low: bool)
    requires
        stepper_inv(s),
    ensures
        stepper_inv(stepper_next(s, dial_low)),
{
    assert(ACC_STEP == 6);
    let d = s.delay as int;
    let q = (START_DELAY - d) / 6;
    lemma_fundamental_div_mod(START_DELAY - d, 6);
    lemma_fundamental_div_mod_converse(START_DELAY - (d - 6), 6, q + 1, 0);
    lemma_fundamental_div_mod_converse(START_DELAY - (d + 6), 6, q - 1, 0);
    lemma_fundamental_div_mod_converse(0, 6, 0, 0);
}

/// The sequencer after `n` steps with the reference switch open.
pub open spec fn stepper_run(s: Stepper, n: nat) -> Stepper
    decreases n,
{
    if n == 0 {
        s
    } else {
        stepper_next(stepper_run(s, (n - 1) as nat), false)
    }
}

/// Every state that the sequencer reaches keeps its invariant.
pub proof fn lemma_run_keeps_invariant(s: Stepper, n: nat)
    requires
        stepper_inv(s),
    ensures
        stepper_inv(stepper_run(s, n)),
    decreases n,
{
    if n > 0 {
        lemma_run_keeps_invariant(s, (n - 1) as nat);
        lemma_step_keeps_invariant(stepper_run(s, (n - 1) as nat), false);
    }
}

/// The steps of a sweep that the reference switch starts: the switch step
/// waits `START_DELAY`; it and the next `STEPS - 1` steps turn clockwise,
/// counting `1` to `STEPS`; the step after them still turns clockwise and
/// then reverses the sweep, so that the following step turns
/// counter-clockwise.
pub proof fn lemma_sweep_after_switch(s: Stepper)
    requires
        stepper_inv(s),
    ensures
        stepper_next(s, true).delay == START_DELAY,
        stepper_next(s, true).coil == (s.coil + 1) % (PINS as int),
        forall|k: nat|
            k < STEPS ==> {
                let r = #[trigger] stepper_run(stepper_next(s, true), k);
                &&& r.direction
                &&& r.count == k + 1
            },
        forall|k: nat|
            k < STEPS ==> #[trigger] stepper_run(stepper_next(s, true), k + 1).coil == (stepper_run(
                stepper_next(s, true),
                k,
            ).coil + 1) % (PINS as int),
        !stepper_run(stepper_next(s, true), STEPS as nat).direction,
        stepper_run(stepper_next(s, true), STEPS as nat).count == 0,
        stepper_run(stepper_next(s, true), (STEPS + 1) as nat).coil == (stepper_run(
            stepper_next(s, true),
            STEPS as nat,
        ).coil + PINS - 1) % (PINS as int),
{
    let t = stepper_next(s, true);
    lemma_step_keeps_invariant(s, true);
    assert forall|k: nat| k < STEPS implies {
        let r = #[trigger] stepper_run(t, k);
        &&& r.direction
        &&& r.count == k + 1
    } by {
        lemma_sweep_prefix(s, k);
    }
    assert forall|k: nat| k < STEPS implies #[trigger] stepper_run(t, k + 1).coil == (stepper_run(
        t,
        k,
    ).coil + 1) % (PINS as int) by {
        lemma_sweep_prefix(s, k);
        lemma_run_keeps_invariant(t, k);
    }
    lemma_step_keeps_invariant(s, true);
    lemma_sweep_prefix(s, (STEPS - 1) as nat);
    lemma_run_keeps_invariant(t, (STEPS - 1) as nat);
    lemma_run_keeps_invariant(t, STEPS as nat);
}

/// The first `STEPS` states of a sweep that the switch starts.
proof fn lemma_sweep_prefix(s: Stepper, k: nat)
    requires
        stepper_inv(s),
        k < STEPS,
    ensures
        stepper_run(stepper_next(s, true), k).direction,
        stepper_run(stepper_next(s, true), k).count == k + 1,
    decreases k,
{
    lemma_step_keeps_invariant(s, true);
    if k > 0 {
        lemma_sweep_prefix(s, (k - 1) as nat);
        lemma_run_keeps_invariant(stepper_next(s, true), (k - 1) as nat);
    }
}

/// Whatever the switch does, the delay after every step lies between
/// `MIN_DELAY` and `START_DELAY`, is a whole number of speed steps below
/// `START_DELAY`, and differs from the delay before by at most one speed
/// step unless it is back at `START_DELAY`.
pub proof fn lemma_delay_bounds(s: Stepper, dial_low: bool)
    requires
        stepper_inv(s),
    ensures
        ({
            let n = stepper_next(s, dial_low);
            &&& MIN_DELAY <= n.delay <= START_DELAY
            &&& (START_DELAY - n.delay) % (ACC_STEP as int) == 0
            &&& (n.delay == START_DELAY || s.delay - ACC_STEP <= n.delay <= s.delay + ACC_STEP)
        }),
{
    lemma_step_keeps_invariant(s, dial_low);
}

/// The speed changes of a step, written out: without the switch, a step
/// whose count (after it) is even changes the speed. Below count 1300 it
/// shortens the delay by 6, down to no less than 1800; from count 1300 on
/// the sequencer brakes and lengthens it by 6, up to no more than 3000;
/// an odd count keeps the delay. A count beyond 1500 starts the sweep
/// afresh at 3000.
pub proof fn lemma_speed_changes(s: Stepper)
    requires
        stepper_inv(s),
        s.acc_delay_count == s.count % 2,
    ensures
        ({
            let n = stepper_next(s, false);
            let c = s.count + 1;
            &&& c > 1500 ==> n.delay == 3000
            &&& (c <= 1500 && c % 2 == 1) ==> n.delay == s.delay
            &&& (c <= 1500 && c % 2 == 0 && c < 1300 && s.delay >= 1806) ==> n.delay == s.delay - 6
            &&& (c <= 1500 && c % 2 == 0 && c < 1300 && s.delay < 1806) ==> n.delay == s.delay
            &&& (c <= 1500 && c % 2 == 0 && c >= 1300 && s.delay <= 2994) ==> n.delay == s.delay + 6
            &&& (c <= 1500 && c % 2 == 0 && c >= 1300 && s.delay > 2994) ==> n.delay == s.delay
            &&& c <= 1500 ==> n.acc_delay_count == n.count % 2
        }),
{
    assert(ACC_STEP == 6);
}

/// The delay at count `c` of a sweep that the switch started: one speed
/// change at every even count, faster until count 1300 (but no faster
/// than 1800), slower from then on.
pub open spec fn sweep_delay(c: int) -> int {
    if c < 1300 {
        if 3000 - 6 * (c / 2) < 1800 {
            1800
        } else {
            3000 - 6 * (c / 2)
        }
    } else {
        1800 + 6 * ((c - 1300) / 2 + 1)
    }
}

/// The delays of a sweep that the switch started: after the step that
/// reaches count `c` the delay is `sweep_delay(c)`; so the sweep reaches
/// full speed (1800) at count 400, brakes from count 1300 on, and ends at
/// count 1500 with a delay of 2406.
pub proof fn lemma_sweep_delays(s: Stepper)
    requires
        stepper_inv(s),
    ensures
        forall|k: nat| k < 1500 ==> #[trigger] stepper_run(stepper_next(s, true), k).delay == sweep_delay(k + 1int),
        stepper_run(stepper_next(s, true), 1499).delay == 2406,
        stepper_run(stepper_next(s, true), 399).delay == 1800,
{
    assert forall|k: nat| k < 1500 implies #[trigger] stepper_run(stepper_next(s, true), k).delay == sweep_delay(k + 1int) by {
        lemma_sweep_delay_at(s, k);
    }
    lemma_sweep_delay_at(s, 1499);
    lemma_sweep_delay_at(s, 399);
}

proof fn lemma_sweep_delay_at(s: Stepper, k: nat)
    requires
        stepper_inv(s),
        k < 1500,
    ensures
        stepper_run(stepper_next(s, true), k).delay == sweep_delay(k + 1int),
        stepper_run(stepper_next(s, true), k).count == k + 1,
        stepper_run(stepper_next(s, true), k).acc_delay_count == (k + 1) % 2,
    decreases k,
{
    assert(ACC_STEP == 6);
    lemma_step_keeps_invariant(s, true);
    lemma_sweep_prefix(s, k);
    if k > 0 {
        let t = stepper_next(s, true);
        lemma_sweep_delay_at(s, (k - 1) as nat);
        lemma_run_keeps_invariant(t, (k - 1) as nat);
        let r = stepper_run(t, (k - 1) as nat);
        lemma_speed_changes(r);
        let c = k + 1;
        if c < 1300 {
            if c % 2 == 0 {
                assert((c - 1) / 2 == c / 2 - 1);
            } else {
                assert((c - 1) / 2 == c / 2);
            }
        } else if c == 1300 {
            assert(sweep_delay(1299) == 1800);
        } else {
            if c % 2 == 0 {
                assert((c - 1 - 1300) / 2 == (c - 1300) / 2 - 1);
            } else {
                assert((c - 1 - 1300) / 2 == (c - 1300) / 2);
            }
        }
    }
}

} // verus!
