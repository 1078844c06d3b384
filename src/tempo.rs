//! Musical time: ticks, tempo conversions and the transport state machine.

use vstd::prelude::*;

verus! {

/// A position or a duration in ticks, the smallest unit of musical time.
pub type Ticks = i64;

/// Nanoseconds in one millisecond.
pub const NS_PER_MS: u128 = 1_000_000;

/// Milliseconds in one minute.
pub const MS_PER_MINUTE: u128 = 60_000;

/// A time signature: `top` beats of note value `1/bottom` per bar.
#[derive(Clone, Copy, Debug, PartialEq, Eq, Structural)]
pub struct TimeSig {
    pub top: u16,
    pub bottom: u16,
}

/// Ticks reached after `ms` milliseconds at `bpm` beats per minute with
/// `ppqn` ticks per beat, rounded down, and capped at the largest tick.
pub open spec fn ms_to_ticks(ms: nat, bpm: nat, ppqn: nat) -> int {
    let t = (ms * bpm * ppqn) / (MS_PER_MINUTE as nat);
    if t > i64::MAX {
        i64::MAX as int
    } else {
        t as int
    }
}

/// Milliseconds that `ticks` last at `bpm` beats per minute with `ppqn`
/// ticks per beat, rounded down.
pub open spec fn ticks_to_ms(ticks: nat, bpm: nat, ppqn: nat) -> nat
    recommends
        bpm * ppqn > 0,
{
    (ticks * (MS_PER_MINUTE as nat)) / (bpm * ppqn)
}

/// Nanoseconds that `ticks` last: their whole milliseconds, in nanoseconds.
pub open spec fn ticks_to_ns(ticks: nat, bpm: nat, ppqn: nat) -> nat
    recommends
        bpm * ppqn > 0,
{
    ticks_to_ms(ticks, bpm, ppqn) * (NS_PER_MS as nat)
}

/// Converts elapsed milliseconds to ticks.
pub fn ms_to_ticks_exec(ms: u128, bpm: u32, ppqn: u32) -> (r: Ticks)
    ensures
        r == ms_to_ticks(ms as nat, bpm as nat, ppqn as nat),
{
    proof {
        assert((bpm as nat) * (ppqn as nat) <= 0xffff_ffff_ffff_ffff) by (nonlinear_arith)
            requires
                bpm <= 0xffff_ffff,
                ppqn <= 0xffff_ffff,
        ;
    }
    let rate: u128 = (bpm as u128) * (ppqn as u128);
    if rate == 0 {
        proof {
            assert(ms * bpm * ppqn == 0) by (nonlinear_arith)
                requires
                    bpm * ppqn == 0,
            ;
        }
        return 0;
    }
    let q: u128 = ms / MS_PER_MINUTE;
    let rem: u128 = ms % MS_PER_MINUTE;
    if q > i64::MAX as u128 {
        proof {
            assert(ms * bpm * ppqn / 60000 >= q) by (nonlinear_arith)
                requires
                    bpm * ppqn >= 1,
                    q == ms / 60000,
                    ms >= 0,
            ;
        }
        return i64::MAX;
    }
    proof {
        assert(q * rate <= 0x8000_0000_0000_0000 * 0xffff_ffff_ffff_ffff) by (nonlinear_arith)
            requires
                q <= 0x8000_0000_0000_0000,
                rate <= 0xffff_ffff_ffff_ffff,
                q >= 0,
                rate >= 0,
        ;
        assert(rem * rate <= 60000 * 0xffff_ffff_ffff_ffff) by (nonlinear_arith)
            requires
                rem < 60000,
                rate <= 0xffff_ffff_ffff_ffff,
                rem >= 0,
                rate >= 0,
        ;
        assert(ms * bpm * ppqn / 60000 == q * rate + (rem * rate) / 60000) by (nonlinear_arith)
            requires
                rate == bpm * ppqn,
                q == ms / 60000,
                rem == ms % 60000,
                ms >= 0,
                rate >= 0,
        ;
    }
    let t: u128 = q * rate + (rem * rate) / MS_PER_MINUTE;
    if t > i64::MAX as u128 {
        i64::MAX
    } else {
        t as i64
    }
}

/// Nanoseconds that `ticks` last, in whole milliseconds.
pub fn ticks_to_ns_exec(ticks: Ticks, bpm: u32, ppqn: u32) -> (r: u128)
    requires
        ticks >= 0,
        bpm > 0,
        ppqn > 0,
    ensures
        r == ticks_to_ns(ticks as nat, bpm as nat, ppqn as nat),
{
    proof {
        assert((bpm as nat) * (ppqn as nat) <= 0xffff_ffff_ffff_ffff) by (nonlinear_arith)
            requires
                bpm <= 0xffff_ffff,
                ppqn <= 0xffff_ffff,
        ;
        assert((bpm as nat) * (ppqn as nat) >= 1) by (nonlinear_arith)
            requires
                bpm >= 1,
                ppqn >= 1,
        ;
    }
    let rate: u128 = (bpm as u128) * (ppqn as u128);
    let ms: u128 = (ticks as u128) * MS_PER_MINUTE / rate;
    proof {
        assert((ticks as int) * 60000 / (rate as int) <= (ticks as int) * 60000) by (nonlinear_arith)
            requires
                rate >= 1,
                ticks >= 0,
        ;
    }
    ms * NS_PER_MS
}

/// The transport: whether playback runs, where it stands, and the tempo
/// that turns wall-clock time into musical time.
#[derive(Clone, Copy, Debug)]
pub struct Tempo {
    pub current_position: Ticks,
    pub prev_position: Option<Ticks>,
    /// Wall-clock time, in nanoseconds, at which the position was zero (or
    /// the loop start, after a wrap). Set on the first step while playing.
    pub start_time: Option<u128>,
    pub playing: bool,
    pub recording: bool,
    /// The loop region `(start, end)`, when looping.
    pub looping: Option<(Ticks, Ticks)>,
    pub time_signature: TimeSig,
    /// Beats per minute.
    pub bpm: u32,
    /// Ticks per quarter note.
    pub ppqn: u32,
    /// Samples per second.
    pub sample_rate: u32,
}

impl Tempo {
    /// The tempo and the time signature can turn time into ticks.
    pub open spec fn wf(&self) -> bool {
        &&& self.bpm > 0
        &&& self.ppqn > 0
        &&& self.time_signature.bottom > 0
    }

    /// The start time a step at `now` goes by: the latched one, else `now`.
    pub open spec fn start_or(self, now: u128) -> u128 {
        match self.start_time {
            Some(s) => s,
            None => now,
        }
    }

    /// The ticks elapsed at `now` since the start time (none before it).
    pub open spec fn elapsed_ticks(self, now: u128) -> int {
        let start = self.start_or(now);
        let elapsed: nat = if now >= start { (now - start) as nat } else { 0 };
        ms_to_ticks(elapsed / (NS_PER_MS as nat), self.bpm as nat, self.ppqn as nat)
    }

    /// The state after one step at wall-clock time `now`.
    pub open spec fn stepped(self, now: u128) -> Tempo {
        if !self.playing {
            Tempo { start_time: None, ..self }
        } else {
            let start = self.start_or(now);
            let pos = self.elapsed_ticks(now);
            match self.looping {
                Some((ls, le)) if pos >= le => Tempo {
                    prev_position: Some(pos as i64),
                    current_position: ls,
                    start_time: Some(now),
                    ..self
                },
                _ => Tempo {
                    prev_position: Some(self.current_position),
                    current_position: pos as i64,
                    start_time: Some(start),
                    ..self
                },
            }
        }
    }

    /// The defaults, at another sample rate.
    pub open spec fn new_spec(sample_rate: u32) -> Tempo {
        Tempo { sample_rate, ..default_tempo() }
    }

    /// A stopped transport at position zero: 120 beats per minute, 32 ticks
    /// per quarter note, four-four time.
    pub fn new(sample_rate: u32) -> (r: Tempo)
        ensures
            r.wf(),
            r == Tempo::new_spec(sample_rate),
    {
        Tempo {
            current_position: 0,
            prev_position: None,
            start_time: None,
            playing: false,
            recording: false,
            looping: None,
            time_signature: TimeSig { top: 4, bottom: 4 },
            bpm: 120,
            ppqn: 32,
            sample_rate,
        }
    }

    /// Ticks in `val` beats.
    pub fn beats(&self, val: i64) -> (r: Ticks)
        requires
            (val as int) * (self.ppqn as int) <= i64::MAX,
            (val as int) * (self.ppqn as int) >= i64::MIN,
        ensures
            r == (val as int) * (self.ppqn as int),
    {
        val * (self.ppqn as i64)
    }

    /// Ticks in `val` bars of the time signature.
    pub fn bars(&self, val: i64) -> (r: Ticks)
        requires
            self.wf(),
            (val as int) * ticks_per_bar(self.time_signature, self.ppqn as nat) <= i64::MAX,
            (val as int) * ticks_per_bar(self.time_signature, self.ppqn as nat) >= i64::MIN,
        ensures
            r == (val as int) * ticks_per_bar(self.time_signature, self.ppqn as nat),
    {
        let tpb = ticks_per_bar_exec(self.time_signature, self.ppqn);
        val * tpb
    }

    /// `val` ticks.
    pub fn ticks(&self, val: i64) -> (r: Ticks)
        ensures
            r == val,
    {
        val
    }

    /// Advances the transport to wall-clock time `now` (nanoseconds).
    ///
    /// When stopped, only forgets the start time. When playing, the first
    /// step latches the start time; the position is then the ticks elapsed
    /// since it, and reaching the loop end jumps back to the loop start.
    pub fn step(&mut self, now: u128)
        ensures
            *final(self) == old(self).stepped(now),
    {
        if !self.playing {
            self.start_time = None;
            return;
        }
        let start: u128 = match self.start_time {
            Some(s) => s,
            None => now,
        };
        let elapsed: u128 = if now >= start { now - start } else { 0 };
        let pos = ms_to_ticks_exec(elapsed / NS_PER_MS, self.bpm, self.ppqn);
        match self.looping {
            Some((ls, le)) if pos >= le => {
                self.prev_position = Some(pos);
                self.current_position = ls;
                self.start_time = Some(now);
            },
            _ => {
                self.prev_position = Some(self.current_position);
                self.current_position = pos;
                self.start_time = Some(start);
            },
        }
    }
}

/// While playing a loop region that starts at tick zero, every step leaves
/// the position inside the region; the position jumps back to the region's
/// start, restarting the clock, exactly when the ticks elapsed reach its end.
pub proof fn lemma_loop_window(t: Tempo, now: u128, le: Ticks)
    requires
        t.playing,
        t.looping == Some((0i64, le)),
        0 < le,
    ensures
        0 <= t.stepped(now).current_position < le,
        t.elapsed_ticks(now) >= le ==> t.stepped(now).current_position == 0
            && t.stepped(now).start_time == Some(now),
        t.elapsed_ticks(now) < le ==> t.stepped(now).current_position == t.elapsed_ticks(now),
{
    let start = t.start_or(now);
    let elapsed: nat = if now >= start { (now - start) as nat } else { 0 };
    let ms = elapsed / (NS_PER_MS as nat);
    assert(ms * (t.bpm as nat) * (t.ppqn as nat) >= 0) by (nonlinear_arith);
}

/// Ticks in one bar: four quarter notes per whole note, so a bar of
/// `top` notes of value `1/bottom` lasts `4 * top / bottom` beats.
pub open spec fn ticks_per_bar(ts: TimeSig, ppqn: nat) -> nat
    recommends
        ts.bottom > 0,
{
    (4 * (ts.top as nat) * ppqn) / (ts.bottom as nat)
}

/// Computes the ticks in one bar.
pub fn ticks_per_bar_exec(ts: TimeSig, ppqn: u32) -> (r: i64)
    requires
        ts.bottom > 0,
    ensures
        r == ticks_per_bar(ts, ppqn as nat),
{
    proof {
        assert(4 * (ts.top as nat) * (ppqn as nat) <= 4 * 0xffff * 0xffff_ffff) by (nonlinear_arith)
            requires
                ts.top <= 0xffff,
                ppqn <= 0xffff_ffff,
        ;
        assert(4 * (ts.top as nat) * (ppqn as nat) / (ts.bottom as nat) <= 4 * (ts.top as nat) * (ppqn as nat)) by (nonlinear_arith)
            requires
                ts.bottom >= 1,
        ;
    }
    (4 * (ts.top as u64) * (ppqn as u64) / (ts.bottom as u64)) as i64
}

/// The transport's defaults.
pub open spec fn default_tempo() -> Tempo {
    Tempo {
        current_position: 0,
        prev_position: None,
        start_time: None,
        playing: false,
        recording: false,
        looping: None,
        time_signature: TimeSig { top: 4, bottom: 4 },
        bpm: 120,
        ppqn: 32,
        sample_rate: 48_000,
    }
}

impl Default for Tempo {
    fn default() -> (r: Tempo)
        ensures
            r == default_tempo(),
    {
        Tempo::new(48_000)
    }
}

} // verus!
