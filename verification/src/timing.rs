//! The game clock: render frames, simulation steps, and turns in turn-based mode.
use vstd::prelude::*;

verus! {

/// Render frames per simulation step.
pub const RENDER_FRAMES_PER_SIM_STEP: u32 = 8;

/// Whether the world runs on its own or waits for the player's turns.
#[derive(Clone, Copy, Debug, PartialEq, Eq, Structural)]
pub enum TimeMode {
    RealTime,
    TurnBased,
}

/// Sim-time spent by actions and, in real time, by periodic ticks.
pub struct Clock {
    pub time: u64,
    pub mode: TimeMode,
}

/// In turn-based mode the world advances only after the player spends a turn.
#[derive(Default)]
pub struct TurnBasedWorldState {
    pub world_tick_pending: bool,
}

/// `v + 1`, stopping at the largest `u64`.
pub open spec fn sat_inc(v: u64) -> u64 {
    if v == u64::MAX { v } else { (v + 1) as u64 }
}

/// A render frame that starts a simulation step: any but the first of every
/// `RENDER_FRAMES_PER_SIM_STEP`, counting from frame 0 which never does.
pub open spec fn spec_is_sim_frame(frame: u64) -> bool {
    frame > 0 && frame % (RENDER_FRAMES_PER_SIM_STEP as u64) == 0
}

impl Clock {
    /// A clock at time 0, turn-based.
    pub fn new() -> (c: Self)
        ensures
            c.time == 0,
            c.mode == TimeMode::TurnBased,
    {
        Clock { time: 0, mode: TimeMode::TurnBased }
    }

    /// The player spends a turn: time moves on by one, and in turn-based mode the world is due
    /// a tick.
    pub fn spend_turn(&mut self, tb: &mut TurnBasedWorldState)
        ensures
            final(self).time == sat_inc(old(self).time),
            final(self).mode == old(self).mode,
            final(tb).world_tick_pending == (old(self).mode == TimeMode::TurnBased || old(tb).world_tick_pending),
    {
        self.time = self.time.saturating_add(1);
        if self.mode == TimeMode::TurnBased {
            tb.world_tick_pending = true;
        }
    }
}

pub fn is_sim_frame(frame: u64) -> (b: bool)
    ensures
        b == spec_is_sim_frame(frame),
{
    frame > 0 && frame % (RENDER_FRAMES_PER_SIM_STEP as u64) == 0
}

/// One render frame passes; in real time each simulation step ticks the clock.
pub fn bump_render_frame(frame: &mut u64, clock: &mut Clock)
    ensures
        *final(frame) == sat_inc(*old(frame)),
        final(clock).mode == old(clock).mode,
        final(clock).time == if old(clock).mode == TimeMode::RealTime && spec_is_sim_frame(*final(frame)) {
            sat_inc(old(clock).time)
        } else {
            old(clock).time
        },
{
    *frame = frame.saturating_add(1);
    if clock.mode == TimeMode::RealTime && is_sim_frame(*frame) {
        clock.time = clock.time.saturating_add(1);
    }
}

/// The world's systems run on a simulation frame, in real time or when a turn was spent.
pub fn should_run_sim_step(frame: u64, clock: &Clock, tb: &TurnBasedWorldState) -> (b: bool)
    ensures
        b == (spec_is_sim_frame(frame) && (clock.mode == TimeMode::RealTime || tb.world_tick_pending)),
{
    is_sim_frame(frame) && (clock.mode == TimeMode::RealTime || tb.world_tick_pending)
}

} // verus!
