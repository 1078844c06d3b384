use redaw::tempo::{ms_to_ticks_exec, ticks_per_bar_exec, ticks_to_ns_exec, Tempo, TimeSig};

const MS: u128 = 1_000_000;

#[test]
fn defaults() {
    let t = Tempo::default();
    assert_eq!(t.bpm, 120);
    assert_eq!(t.ppqn, 32);
    assert_eq!(t.time_signature, TimeSig { top: 4, bottom: 4 });
    assert_eq!(t.sample_rate, 48_000);
    assert!(!t.playing);
    assert_eq!(t.current_position, 0);
    assert_eq!(t.prev_position, None);
    assert_eq!(t.start_time, None);
    assert_eq!(Tempo::new(44_100).sample_rate, 44_100);
}

#[test]
fn conversions() {
    assert_eq!(ms_to_ticks_exec(500, 120, 32), 32);
    assert_eq!(ms_to_ticks_exec(1000, 120, 32), 64);
    assert_eq!(ms_to_ticks_exec(15, 120, 32), 0);
    assert_eq!(ms_to_ticks_exec(16, 120, 32), 1);
    assert_eq!(ms_to_ticks_exec(u128::MAX, 120, 32), i64::MAX);
    assert_eq!(ms_to_ticks_exec(1000, 0, 32), 0);
    assert_eq!(ticks_to_ns_exec(32, 120, 32), 500_000_000);
    assert_eq!(ticks_to_ns_exec(1, 120, 32), 15_000_000);
    assert_eq!(ticks_per_bar_exec(TimeSig { top: 4, bottom: 4 }, 32), 128);
    assert_eq!(ticks_per_bar_exec(TimeSig { top: 6, bottom: 8 }, 32), 96);
}

#[test]
fn beats_bars_ticks() {
    let t = Tempo::default();
    assert_eq!(t.beats(2), 64);
    assert_eq!(t.bars(3), 384);
    assert_eq!(t.ticks(5), 5);
}

#[test]
fn stopped_step_forgets_start() {
    let mut t = Tempo::default();
    t.start_time = Some(5);
    t.step(100);
    assert_eq!(t.start_time, None);
    assert_eq!(t.current_position, 0);
}

#[test]
fn playing_step_latches_start_and_moves() {
    let mut t = Tempo::default();
    t.playing = true;
    t.step(1_000 * MS);
    assert_eq!(t.start_time, Some(1_000 * MS));
    assert_eq!(t.current_position, 0);
    assert_eq!(t.prev_position, Some(0));
    t.step(1_500 * MS);
    assert_eq!(t.current_position, 32);
    assert_eq!(t.prev_position, Some(0));
    t.step(1_750 * MS);
    assert_eq!(t.current_position, 48);
    assert_eq!(t.prev_position, Some(32));
}

#[test]
fn loop_wrap_scenario() {
    let mut t = Tempo::default();
    t.looping = Some((0, 64));
    t.playing = true;
    t.step(0);
    let mut now: u128 = 0;
    while now < 1_100 * MS {
        now += 50 * MS;
        t.step(now);
        assert!(t.current_position >= 0 && t.current_position < 64);
    }
    assert_eq!(now, 1_100 * MS);
    assert!(t.current_position >= 0 && t.current_position < 64);
    assert!(t.start_time.unwrap() >= 1_100 * MS - 100 * MS);
}

#[test]
fn wrap_happens_exactly_at_loop_end() {
    let mut t = Tempo::default();
    t.looping = Some((0, 64));
    t.playing = true;
    t.step(0);
    t.step(999 * MS);
    assert_eq!(t.current_position, 63);
    assert_eq!(t.start_time, Some(0));
    t.step(1_000 * MS);
    assert_eq!(t.current_position, 0);
    assert_eq!(t.prev_position, Some(64));
    assert_eq!(t.start_time, Some(1_000 * MS));
}

#[test]
fn timestamp_before_start_counts_as_zero() {
    let mut t = Tempo::default();
    t.playing = true;
    t.start_time = Some(10 * MS);
    t.step(0);
    assert_eq!(t.current_position, 0);
}
