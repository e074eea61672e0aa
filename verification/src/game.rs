//! The game: the world of grass, the clock that paces it, and the pictures
//! it draws with.

use crate::living::grass::Grass;
use crate::world::world::World;
use std::collections::HashMap;
use std::time::Duration;
use std::time::Instant;
use vstd::prelude::*;

verus! {

/// `std::time::Instant`, carried opaquely.
#[verifier::external_type_specification]
#[verifier::external_body]
pub struct ExInstant(Instant);

/// `Instant::now`: the current time. Nothing is promised of it.
#[verifier::external_body]
fn instant_now() -> (now: Instant) {
    Instant::now()
}

/// `Instant::elapsed`: the time passed since `since`. Nothing is promised of
/// it: it rests on the clock.
#[verifier::external_body]
fn instant_elapsed(since: &Instant) -> (elapsed: Duration) {
    since.elapsed()
}

/// `Duration::as_millis`: the whole milliseconds of `d`. The duration is
/// opaque here, so nothing is stated of the result.
#[verifier::external_body]
fn duration_as_millis(d: &Duration) -> (ms: u128) {
    d.as_millis()
}

/// The game state.
pub struct Game {
    /// Milliseconds of game time passed so far.
    pub time: u128,
    /// When the clock was last read.
    pub last_time: Instant,
    /// The world.
    pub world: World<Grass>,
    /// Picture files by name.
    pub lib_pict: HashMap<&'static str, Vec<u8>>,
}

impl Game {
    /// A game at time 0 with an empty world and no pictures.
    pub fn new() -> (game: Game)
        ensures
            game.time == 0,
            game.world.wf(),
            game.world.livings@ == Seq::<usize>::empty(),
            game.world.to_be_added@ == Seq::<usize>::empty(),
            game.world.to_be_removed@ == Seq::<usize>::empty(),
            game.world.objects@ == Seq::<Grass>::empty(),
            game.lib_pict@ == Map::<&'static str, Vec<u8>>::empty(),
    {
        Game { time: 0, world: World::new(), last_time: instant_now(), lib_pict: HashMap::new() }
    }

    /// Moves game time on by `delta` milliseconds.
    pub fn advance_time(&mut self, delta: u128)
        requires
            old(self).time + delta <= u128::MAX,
        ensures
            final(self).time == old(self).time + delta,
            final(self).world == old(self).world,
            final(self).lib_pict@ == old(self).lib_pict@,
            final(self).last_time == old(self).last_time,
    {
        self.time = self.time + delta;
    }

    /// Moves game time on by `delta` milliseconds and returns it, where the
    /// sum stays in the range of `u128`; otherwise returns `None` and changes
    /// nothing.
    pub fn advance_by(&mut self, delta: u128) -> (r: Option<u128>)
        ensures
            r is Some <==> old(self).time + delta <= u128::MAX,
            r is Some ==> r == Some(delta) && final(self).time == old(self).time + delta
                && final(self).world == old(self).world && final(self).lib_pict@ == old(self).lib_pict@
                && final(self).last_time == old(self).last_time,
            r is None ==> *final(self) == *old(self),
    {
        if delta <= u128::MAX - self.time {
            self.advance_time(delta);
            Some(delta)
        } else {
            None
        }
    }

    /// Moves game time on by `elapsed_ms` milliseconds and records `now` as
    /// the last clock reading, where the sum stays in the range of `u128`;
    /// returns the milliseconds added, or `None` and changes nothing.
    pub fn restart_clock(&mut self, elapsed_ms: u128, now: Instant) -> (r: Option<u128>)
        ensures
            r is Some <==> old(self).time + elapsed_ms <= u128::MAX,
            r is Some ==> r == Some(elapsed_ms) && final(self).time == old(self).time + elapsed_ms
                && final(self).last_time == now && final(self).world == old(self).world
                && final(self).lib_pict@ == old(self).lib_pict@,
            r is None ==> *final(self) == *old(self),
    {
        let advanced = self.advance_by(elapsed_ms);
        if advanced.is_some() {
            self.last_time = now;
        }
        advanced
    }

    /// Reads the clock: moves game time on by the milliseconds passed since
    /// the last reading, restarts the clock and returns them; returns `None`
    /// and changes nothing where game time would leave the range of `u128`,
    /// which no reading can make happen at time 0.
    pub fn tick(&mut self) -> (delta: Option<u128>)
        ensures
            final(self).world == old(self).world,
            final(self).lib_pict@ == old(self).lib_pict@,
            match delta {
                Some(d) => final(self).time == old(self).time + d,
                None => *final(self) == *old(self),
            },
            old(self).time == 0 ==> delta is Some,
    {
        let elapsed = instant_elapsed(&self.last_time);
        let delta = duration_as_millis(&elapsed);
        let now = instant_now();
        self.restart_clock(delta, now)
    }
}

} // verus!
