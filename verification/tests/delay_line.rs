use esc::delay::{delay_in_samples, RingBuffer};
use esc::fixed::ONE;

fn line(channels: usize, sample_rate: u32) -> RingBuffer {
    let mut line = RingBuffer::default();
    line.initialize(channels, sample_rate);
    line
}

#[test]
fn default_line_has_no_channels() {
    let line = RingBuffer::default();
    assert_eq!(line.channels(), 0);
    assert_eq!(line.buffer_len(), 0);
}

#[test]
fn buffer_holds_a_tenth_of_a_second() {
    assert_eq!(line(2, 48_000).buffer_len(), 4_800);
    assert_eq!(line(2, 44_100).buffer_len(), 4_410);
    assert_eq!(line(1, 44_109).buffer_len(), 4_410);
    assert_eq!(line(1, 9).buffer_len(), 0);
    assert_eq!(line(3, 48_000).channels(), 3);
}

#[test]
fn delay_rounds_to_the_nearest_sample() {
    assert_eq!(delay_in_samples(10_000, 48_000), 480);
    assert_eq!(delay_in_samples(0, 48_000), 0);
    assert_eq!(delay_in_samples(1_000, 44_100), 44);
    assert_eq!(delay_in_samples(15_000, 44_100), 662);
    assert_eq!(delay_in_samples(1, 499_999), 0);
    assert_eq!(delay_in_samples(1, 500_000), 1);
    assert_eq!(delay_in_samples(3, 500_000), 2);
    assert_eq!(delay_in_samples(u32::MAX, u32::MAX), 18_446_744_065_120);
}

#[test]
fn impulse_comes_out_after_the_delay() {
    let mut line = line(1, 48_000);
    for n in 0..2_000usize {
        let input = if n == 0 { ONE } else { 0 };
        let output = line.process(0, input, 10_000);
        let expected = if n == 480 { ONE } else { 0 };
        assert_eq!(output, expected, "sample {}", n);
    }
}

#[test]
fn constant_delay_returns_the_earlier_input() {
    let mut line = line(1, 1_000);
    assert_eq!(line.buffer_len(), 100);
    // 37 ms at 1 kHz: 37 samples.
    for n in 0..1_000i32 {
        let output = line.process(0, 1_000 + n, 37_000);
        if n < 37 {
            assert_eq!(output, 0);
        } else {
            assert_eq!(output, 1_000 + n - 37);
        }
    }
}

#[test]
fn zero_delay_returns_the_input_at_once() {
    let mut line = line(1, 1_000);
    for n in 0..250i32 {
        assert_eq!(line.process(0, n - 100, 0), n - 100);
    }
}

#[test]
fn channels_are_independent() {
    let mut line = line(2, 1_000);
    for n in 0..300i32 {
        let left = line.process(0, n, 5_000);
        let right = line.process(1, -n, 20_000);
        assert_eq!(left, if n < 5 { 0 } else { n - 5 });
        assert_eq!(right, if n < 20 { 0 } else { -(n - 20) });
    }
}

#[test]
fn feeding_ten_buffers_wraps_without_leaving_the_buffer() {
    let mut line = line(1, 480);
    let len = line.buffer_len();
    assert_eq!(len, 48);
    // The longest delay that fits: 47 samples.
    let delay_us = 97_917;
    assert_eq!(delay_in_samples(delay_us, 480), 47);
    for n in 0..(len as i32 * 10) {
        let output = line.process(0, n + 1, delay_us);
        assert_eq!(output, if n < 47 { 0 } else { n + 1 - 47 });
    }
}

#[test]
fn delay_of_a_whole_buffer_aliases_to_none() {
    let mut line = line(1, 100);
    assert_eq!(line.buffer_len(), 10);
    assert_eq!(delay_in_samples(100_000, 100), 10);
    for n in 0..35i32 {
        assert_eq!(line.process(0, 7 * n, 100_000), 7 * n);
    }
    // Thirteen samples alias to three.
    let mut line = self::line(1, 100);
    assert_eq!(delay_in_samples(130_000, 100), 13);
    for n in 0..35i32 {
        assert_eq!(line.process(0, n + 1, 130_000), if n < 3 { 0 } else { n + 1 - 3 });
    }
}

#[test]
fn changing_delay_moves_the_write_position() {
    let mut line = line(1, 100);
    // One sample of delay, then three: the second input lands two ahead.
    assert_eq!(line.process(0, 11, 10_000), 0);
    assert_eq!(line.process(0, 22, 30_000), 11);
    assert_eq!(line.process(0, 33, 30_000), 0);
    assert_eq!(line.process(0, 44, 30_000), 0);
    assert_eq!(line.process(0, 55, 30_000), 22);
    assert_eq!(line.process(0, 66, 30_000), 33);
}

#[test]
fn initialize_clears_the_buffers_and_rewinds() {
    let mut line = line(1, 100);
    for n in 0..7i32 {
        line.process(0, 900 + n, 50_000);
    }
    line.initialize(1, 100);
    for n in 0..30i32 {
        let output = line.process(0, n + 1, 50_000);
        assert_eq!(output, if n < 5 { 0 } else { n + 1 - 5 });
    }
}

#[test]
fn reset_leaves_the_line_as_it_is() {
    let mut line = line(1, 100);
    for n in 0..4i32 {
        line.process(0, n + 1, 40_000);
    }
    line.reset();
    assert_eq!(line.channels(), 1);
    assert_eq!(line.buffer_len(), 10);
    assert_eq!(line.process(0, 5, 40_000), 1);
    assert_eq!(line.process(0, 6, 40_000), 2);
}
