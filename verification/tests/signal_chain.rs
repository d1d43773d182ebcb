use esc::delay::delay_in_samples;
use esc::fixed::ONE;
use esc::Esc;

fn weight_for(sample_rate: u32) -> i32 {
    // A fall of 12 dB, to a quarter, over 150 ms.
    let frames = sample_rate as f64 * 150.0 / 1000.0;
    let weight = 0.25f64.powf(1.0 / frames);
    (weight * ONE as f64) as i32
}

fn chain(channels: usize, sample_rate: u32) -> Esc {
    let mut chain = Esc::default();
    assert!(chain.initialize(channels, sample_rate, weight_for(sample_rate)));
    chain
}

#[test]
fn default_chain_is_not_initialized() {
    let chain = Esc::default();
    assert_eq!(chain.channels(), 0);
    assert_eq!(chain.sample_rate(), 1);
    assert_eq!(chain.peak_meter(), 0);
    assert_eq!(chain.buffer_len(), 0);
}

#[test]
fn initialize_sets_rate_and_channels() {
    let chain = chain(2, 48_000);
    assert_eq!(chain.channels(), 2);
    assert_eq!(chain.sample_rate(), 48_000);
    assert_eq!(chain.buffer_len(), 4_800);
    assert_eq!(chain.peak_meter(), 0);
}

#[test]
fn latency_is_the_delay_in_samples() {
    let chain = chain(1, 48_000);
    assert_eq!(chain.latency_samples(10_000), 480);
    assert_eq!(chain.latency_samples(0), 0);
    assert_eq!(chain.latency_samples(15_000), 720);
    assert_eq!(chain.latency_samples(10), 0);
    assert_eq!(chain.latency_samples(11), 1);
    let chain = self::chain(1, 44_100);
    for delay in [0u32, 1, 99, 100, 1_234, 7_500, 15_000, 4_000_000] {
        assert_eq!(chain.latency_samples(delay) as u64, delay_in_samples(delay, 44_100));
        assert_eq!(chain.latency_samples(delay), chain.latency_samples(delay));
    }
}

#[test]
fn latency_is_capped_at_32_bits() {
    let chain = chain(1, u32::MAX);
    assert_eq!(chain.latency_samples(u32::MAX), u32::MAX);
    assert_eq!(chain.latency_samples(1_000_000), u32::MAX);
    assert_eq!(chain.latency_samples(999_999), 4_294_963_000);
}

#[test]
fn impulse_passes_the_chain_after_480_samples() {
    let mut chain = chain(1, 48_000);
    for n in 0..1_500usize {
        let input = if n == 0 { ONE } else { 0 };
        let output = chain.process_sample(0, input, 0, ONE, 10_000);
        let expected = if n == 480 { ONE } else { 0 };
        assert_eq!(output, expected, "sample {}", n);
    }
}

#[test]
fn impulse_passes_a_frame_at_a_time() {
    let mut chain = chain(1, 48_000);
    for n in 0..1_500usize {
        let mut frame = vec![if n == 0 { ONE } else { 0 }];
        let mut levels = vec![0];
        chain.process(&mut frame, &mut levels, ONE, 10_000, false);
        assert_eq!(frame, vec![if n == 480 { ONE } else { 0 }], "sample {}", n);
    }
}

#[test]
fn control_attenuates_the_delayed_signal() {
    let mut chain = chain(1, 1_000);
    // No delay, so each output is the attenuated input.
    // Level one: silenced.
    assert_eq!(chain.process_sample(0, ONE / 2, ONE, ONE, 0), 0);
    // Level zero: unchanged.
    assert_eq!(chain.process_sample(0, ONE / 2, 0, ONE, 0), ONE / 2);
    assert_eq!(chain.process_sample(0, -ONE / 2, 0, ONE, 0), -ONE / 2);
    // Level one half: a control value of 11/16 leaves 5/16.
    assert_eq!(chain.process_sample(0, ONE, ONE / 2, ONE, 0), ONE / 16 * 5);
    assert_eq!(chain.process_sample(0, -ONE, ONE / 2, ONE, 0), -(ONE / 16 * 5));
    // A gain of two doubles the level before the clipper.
    assert_eq!(chain.process_sample(0, ONE, ONE / 4, 2 * ONE, 0), ONE / 16 * 5);
    // A level far above one is clipped to one.
    assert_eq!(chain.process_sample(0, ONE, i32::MAX, i32::MAX, 0), 0);
}

#[test]
fn negative_control_boosts_and_saturates() {
    let mut chain = chain(1, 1_000);
    // A control value of minus one doubles the signal.
    assert_eq!(chain.process_sample(0, ONE, -ONE, ONE, 0), 2 * ONE);
    assert_eq!(chain.process_sample(0, i32::MAX, -ONE, ONE, 0), i32::MAX);
    assert_eq!(chain.process_sample(0, i32::MIN, -ONE, ONE, 0), i32::MIN);
    assert_eq!(chain.process_sample(0, i32::MIN, ONE, ONE, 0), 0);
}

#[test]
fn ducking_applies_to_what_leaves_the_delay() {
    let mut chain = chain(1, 1_000);
    // Two samples of delay: the level at the time of output counts.
    assert_eq!(chain.process_sample(0, ONE, ONE, ONE, 2_000), 0);
    assert_eq!(chain.process_sample(0, 0, ONE, ONE, 2_000), 0);
    assert_eq!(chain.process_sample(0, 0, 0, ONE, 2_000), ONE);
    assert_eq!(chain.process_sample(0, 0, 0, ONE, 2_000), 0);
}

#[test]
fn frame_runs_every_channel() {
    let mut chain = chain(2, 1_000);
    let mut frame = vec![ONE, -ONE];
    chain.process(&mut frame, &mut vec![0, ONE / 2], ONE, 1_000, false);
    assert_eq!(frame, vec![0, 0]);
    let mut frame = vec![ONE / 2, ONE / 4];
    chain.process(&mut frame, &mut vec![0, ONE / 2], ONE, 1_000, false);
    assert_eq!(frame, vec![ONE, -(ONE / 16 * 5)]);
    let mut frame = vec![0, 0];
    chain.process(&mut frame, &mut vec![ONE, 0], ONE, 1_000, false);
    assert_eq!(frame, vec![0, ONE / 4]);
}

#[test]
fn frame_turns_levels_into_control_values() {
    let mut chain = chain(2, 1_000);
    let mut frame = vec![ONE, ONE];
    let mut levels = vec![ONE / 2, ONE / 4];
    chain.process(&mut frame, &mut levels, 2 * ONE, 0, false);
    assert_eq!(levels, vec![ONE, ONE / 16 * 11]);
    assert_eq!(frame, vec![0, ONE / 16 * 5]);
    let mut frame = vec![ONE];
    let mut levels = vec![0, 77];
    chain.process(&mut frame, &mut levels, ONE, 0, false);
    assert_eq!(levels, vec![0, 77]);
    assert_eq!(frame, vec![ONE]);
}

#[test]
fn frame_leaves_channels_without_a_partner_alone() {
    let mut chain = chain(2, 1_000);
    let mut frame = vec![ONE, 123];
    chain.process(&mut frame, &mut vec![0], ONE, 0, false);
    assert_eq!(frame, vec![ONE, 123]);
    let mut frame = vec![ONE / 2];
    chain.process(&mut frame, &mut vec![ONE, 0, 0], ONE, 0, false);
    assert_eq!(frame, vec![0]);
    let mut frame: Vec<i32> = Vec::new();
    chain.process(&mut frame, &mut vec![ONE], ONE, 0, true);
    assert_eq!(frame, Vec::<i32>::new());
    assert_eq!(chain.peak_meter(), 0);
}

#[test]
fn meter_is_left_alone_while_the_editor_is_closed() {
    let mut chain = chain(1, 1_000);
    let mut frame = vec![ONE];
    chain.process(&mut frame, &mut vec![0], ONE, 0, false);
    assert_eq!(chain.peak_meter(), 0);
    let mut frame = vec![ONE];
    chain.process(&mut frame, &mut vec![0], ONE, 0, true);
    assert_eq!(chain.peak_meter(), ONE);
    let mut frame = vec![0];
    chain.process(&mut frame, &mut vec![0], ONE, 0, false);
    assert_eq!(chain.peak_meter(), ONE);
}

#[test]
fn meter_follows_the_magnitude_of_the_mean() {
    let mut chain = chain(2, 1_000);
    let mut frame = vec![ONE / 2, -ONE / 4];
    chain.process(&mut frame, &mut vec![0, 0], ONE, 0, true);
    assert_eq!(chain.peak_meter(), ONE / 8);
    let mut frame = vec![-ONE, -ONE / 2];
    chain.process(&mut frame, &mut vec![0, 0], ONE, 0, true);
    assert_eq!(chain.peak_meter(), ONE / 4 * 3);
    // Only the first channel has a partner; the mean is over both.
    let mut frame = vec![4 * ONE, 0];
    chain.process(&mut frame, &mut vec![0], ONE, 0, true);
    assert_eq!(chain.peak_meter(), 2 * ONE);
}

#[test]
fn meter_rises_at_once_and_falls_by_the_weight() {
    let mut chain = Esc::default();
    chain.initialize(1, 1_000, ONE / 2);
    chain.update_peak_meter(ONE);
    assert_eq!(chain.peak_meter(), ONE);
    chain.update_peak_meter(ONE / 2);
    // 1 * 1/2 + 1/2 * 1/2.
    assert_eq!(chain.peak_meter(), ONE / 4 * 3);
    chain.update_peak_meter(0);
    assert_eq!(chain.peak_meter(), ONE / 8 * 3);
    chain.update_peak_meter(ONE / 8 * 3);
    assert_eq!(chain.peak_meter(), ONE / 8 * 3);
    chain.update_peak_meter(2 * ONE);
    assert_eq!(chain.peak_meter(), 2 * ONE);
    chain.update_peak_meter(i32::MAX);
    assert_eq!(chain.peak_meter(), i32::MAX);
}

#[test]
fn meter_rounds_the_mean_toward_zero_once() {
    let mut chain = Esc::default();
    chain.initialize(1, 1_000, ONE / 4 * 3);
    chain.update_peak_meter(7);
    assert_eq!(chain.peak_meter(), 7);
    // 7 * 3/4 + 5 * 1/4 = 6.5.
    chain.update_peak_meter(5);
    assert_eq!(chain.peak_meter(), 6);
    chain.update_peak_meter(0);
    assert_eq!(chain.peak_meter(), 4);
    chain.update_peak_meter(0);
    assert_eq!(chain.peak_meter(), 3);
    chain.update_peak_meter(0);
    chain.update_peak_meter(0);
    chain.update_peak_meter(0);
    assert_eq!(chain.peak_meter(), 0);
}

#[test]
fn meter_never_falls_below_the_amplitude() {
    let mut chain = Esc::default();
    chain.initialize(1, 1_000, ONE / 2);
    chain.update_peak_meter(1);
    assert_eq!(chain.peak_meter(), 1);
    // 1 * 1/2 + 1 * 1/2 = 1.
    chain.update_peak_meter(1);
    assert_eq!(chain.peak_meter(), 1);
    chain.update_peak_meter(3);
    chain.update_peak_meter(2);
    // 3 * 1/2 + 2 * 1/2 = 2.5.
    assert_eq!(chain.peak_meter(), 2);
    chain.update_peak_meter(2);
    assert_eq!(chain.peak_meter(), 2);
}

#[test]
fn meter_falls_12_db_in_150_ms_of_silence() {
    for sample_rate in [44_100u32, 48_000, 96_000] {
        let mut chain = chain(1, sample_rate);
        chain.update_peak_meter(ONE);
        let frames = sample_rate as u64 * 150 / 1000;
        let mut last = chain.peak_meter();
        for _ in 0..frames {
            chain.update_peak_meter(0);
            assert!(chain.peak_meter() <= last);
            last = chain.peak_meter();
        }
        let level = chain.peak_meter() as f64 / ONE as f64;
        assert!((level - 0.25).abs() < 0.005, "{} at {} Hz", level, sample_rate);
    }
}

#[test]
fn initialize_keeps_the_meter_and_clears_the_delay() {
    let mut chain = chain(1, 1_000);
    chain.update_peak_meter(ONE);
    chain.process_sample(0, ONE, 0, ONE, 3_000);
    chain.initialize(2, 2_000, ONE / 2);
    assert_eq!(chain.peak_meter(), ONE);
    assert_eq!(chain.channels(), 2);
    assert_eq!(chain.buffer_len(), 200);
    for _ in 0..10 {
        assert_eq!(chain.process_sample(0, 0, 0, ONE, 3_000), 0);
    }
}
