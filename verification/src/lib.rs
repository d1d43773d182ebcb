//! The signal chain of a sidechain ducker on fixed-point samples.
//!
//! For each frame the main signal runs through a delay line, and a control
//! value derived from the smoothed sidechain level attenuates what comes
//! out of it: zero leaves the delayed signal as it is, one silences it. A
//! decaying peak meter follows the output while an editor is open.
//!
//! Samples, levels, gains and weights are fixed-point values with 24
//! fractional bits (see [`fixed`]). Times are whole microseconds or
//! milliseconds, sample rates whole hertz.

use vstd::prelude::*;

pub mod delay;
pub mod envelope;
pub mod fixed;
pub mod meter;
pub mod peakhold;

use crate::delay::{buffer_capacity, delay_in_samples, delay_samples, Line, RingBuffer};
use crate::envelope::{control, lemma_soft_clip_bounded, soft_clip};
use crate::fixed::{
    lemma_div_brackets, lemma_sample_product_bounds, mul_fixed, multiply, saturate, saturating, ONE,
};
use crate::meter::{frame_amplitude, frame_sum, lemma_next_peak_bounds, next_peak};

verus! {

/// The delayed sample attenuated by the control value: `delayed * (1 -
/// control)`, clamped to the range of a sample.
pub open spec fn ducked(delayed: int, control: int) -> int {
    saturate(delayed - mul_fixed(delayed, control))
}

/// The number of channels of a frame that have both a sample and a level.
pub open spec fn paired(samples: usize, levels: usize) -> usize {
    if samples < levels {
        samples
    } else {
        levels
    }
}

/// The latency, in samples, that a delay introduces: the delay in samples,
/// capped at what 32 bits hold.
pub open spec fn latency(delay_us: u32, sample_rate: u32) -> int {
    if delay_samples(delay_us, sample_rate) > u32::MAX {
        u32::MAX as int
    } else {
        delay_samples(delay_us, sample_rate) as int
    }
}

/// A control value of zero leaves the delayed sample as it is, and a
/// control value of one silences it.
pub proof fn lemma_duck_extremes(delayed: int)
    requires
        i32::MIN <= delayed <= i32::MAX,
    ensures
        ducked(delayed, 0) == delayed,
        ducked(delayed, ONE as int) == 0,
{
    let s = ONE as int;
    lemma_div_brackets(0, s);
    assert(delayed * 0 == 0) by (nonlinear_arith);
    let m = if delayed < 0 {
        -delayed
    } else {
        delayed
    };
    assert((m * s) / s == m) by (nonlinear_arith)
        requires
            s > 0,
            m >= 0,
    ;
    assert(delayed * s >= 0 <==> delayed >= 0) by (nonlinear_arith)
        requires
            s > 0,
    ;
    assert(-(delayed * s) == (-delayed) * s) by (nonlinear_arith);
}

/// A control value between zero and one only ever attenuates: the output
/// has the sign of the delayed sample and no more than its magnitude.
pub proof fn lemma_duck_attenuates(delayed: int, control: int)
    requires
        i32::MIN <= delayed <= i32::MAX,
        0 <= control <= ONE,
    ensures
        delayed >= 0 ==> 0 <= ducked(delayed, control) <= delayed,
        delayed <= 0 ==> delayed <= ducked(delayed, control) <= 0,
{
    let s = ONE as int;
    let m = if delayed < 0 {
        -delayed
    } else {
        delayed
    };
    let p = m * control;
    assert(0 <= p <= m * s) by (nonlinear_arith)
        requires
            p == m * control,
            m >= 0,
            0 <= control <= s,
    ;
    lemma_div_brackets(p, s);
    let q = p / s;
    assert(q <= m) by (nonlinear_arith)
        requires
            s > 0,
            s * q <= p,
            p <= m * s,
    ;
    assert(delayed * control == if delayed < 0 {
        -p
    } else {
        p
    }) by (nonlinear_arith)
        requires
            p == m * control,
            m == if delayed < 0 {
                -delayed
            } else {
                delayed
            },
    ;
    if p == 0 {
        assert(q == 0);
    }
}

/// The state of the signal chain: the sample rate, the peak meter with its
/// decay weight, and the delay line.
#[derive(Debug)]
pub struct Esc {
    sample_rate: u32,
    peak_meter_decay_weight: i32,
    peak_meter: i32,
    delay: RingBuffer,
}

impl Esc {
    /// The sample rate that the chain was last initialized with.
    pub closed spec fn rate(&self) -> u32 {
        self.sample_rate
    }

    /// The weight that the peak meter keeps of its level from one frame of
    /// silence to the next.
    pub closed spec fn weight(&self) -> i32 {
        self.peak_meter_decay_weight
    }

    /// The level of the peak meter.
    pub closed spec fn meter(&self) -> i32 {
        self.peak_meter
    }

    /// The number of channels of the delay line.
    pub closed spec fn spec_channels(&self) -> usize {
        self.delay.spec_channels()
    }

    /// Channel `c` of the delay line.
    pub closed spec fn line(&self, c: int) -> Line {
        self.delay.line(c)
    }

    /// The delay line is well-formed and runs at the chain's sample rate,
    /// the meter is not negative, and the decay weight lies above zero and
    /// not above one.
    pub closed spec fn wf(&self) -> bool {
        &&& self.delay.wf()
        &&& self.delay.spec_channels() > 0 ==> self.delay.rate() == self.sample_rate
        &&& 0 <= self.peak_meter
        &&& 0 < self.peak_meter_decay_weight <= ONE
    }

    /// The length of each channel's delay buffer.
    pub open spec fn spec_buffer_len(&self) -> usize {
        buffer_capacity(self.rate()) as usize
    }

    /// A well-formed chain has a meter that is not negative and a weight
    /// above zero and not above one.
    pub proof fn lemma_state(&self)
        requires
            self.wf(),
        ensures
            0 <= self.meter(),
            0 < self.weight() <= ONE,
    {
    }

    /// Each channel of a well-formed chain's delay line has a buffer of
    /// the same length and, where that is not zero, a cursor that is a
    /// valid index.
    pub proof fn lemma_line(&self, c: int)
        requires
            self.wf(),
            0 <= c < self.spec_channels(),
        ensures
            self.line(c).samples.len() == self.spec_buffer_len(),
            self.spec_buffer_len() > 0 ==> self.line(c).wf(),
    {
        self.delay.lemma_lines(c);
    }

    /// The number of channels of the delay line.
    #[verifier::when_used_as_spec(spec_channels)]
    pub fn channels(&self) -> (n: usize)
        ensures
            n == self.spec_channels(),
    {
        self.delay.channels()
    }

    /// The length of each channel's delay buffer, in samples.
    #[verifier::when_used_as_spec(spec_buffer_len)]
    pub fn buffer_len(&self) -> (len: usize)
        ensures
            len == self.spec_buffer_len(),
    {
        (self.sample_rate / 10) as usize
    }

    /// The level of the peak meter.
    pub fn peak_meter(&self) -> (level: i32)
        ensures
            level == self.meter(),
    {
        self.peak_meter
    }

    /// The sample rate that the chain was last initialized with.
    pub fn sample_rate(&self) -> (rate: u32)
        ensures
            rate == self.rate(),
    {
        self.sample_rate
    }

    /// Sets the chain up for `num_channels` channels at `sample_rate`
    /// hertz: the delay line is silent, and the meter keeps its level and
    /// decays by `decay_weight` per frame from now on.
    pub fn initialize(
        &mut self,
        num_channels: usize,
        sample_rate: u32,
        decay_weight: i32,
    ) -> (ready: bool)
        requires
            old(self).wf(),
            num_channels >= 1,
            sample_rate > 0,
            0 < decay_weight < ONE,
        ensures
            ready,
            final(self).wf(),
            final(self).rate() == sample_rate,
            final(self).weight() == decay_weight,
            final(self).meter() == old(self).meter(),
            final(self).spec_channels() == num_channels,
            forall|c: int|
                0 <= c < num_channels ==> #[trigger] final(self).line(c) == Line::silent(
                    buffer_capacity(sample_rate),
                ),
    {
        self.sample_rate = sample_rate;
        self.peak_meter_decay_weight = decay_weight;
        self.delay.initialize(num_channels, sample_rate);
        true
    }

    /// The latency that the chain reports for a delay of `delay_time`
    /// microseconds: the number of samples by which the delay line delays.
    pub fn latency_samples(&self, delay_time: u32) -> (samples: u32)
        ensures
            samples == latency(delay_time, self.rate()),
    {
        let delay: u64 = delay_in_samples(delay_time, self.sample_rate);
        if delay > u32::MAX as u64 {
            u32::MAX
        } else {
            delay as u32
        }
    }

    /// The cubic soft clipper: `(x - x^3/3) * 3/2` from minus one to one,
    /// and the nearer of the two outside. It takes a wide value, so that a
    /// product of a level and a gain needs no narrowing first.
    pub fn softclip(&self, x: i64) -> (clipped: i32)
        ensures
            clipped == soft_clip(x as int),
            -ONE <= clipped <= ONE,
    {
        proof {
            lemma_soft_clip_bounded(x as int);
        }
        if x < -(ONE as i64) {
            -ONE
        } else if x > ONE as i64 {
            ONE
        } else {
            let scale: u128 = ONE as u128;
            let size: u128 = if x < 0 {
                (-x) as u128
            } else {
                x as u128
            };
            assert(size * size <= scale * scale && scale * scale == 0x1_0000_0000_0000)
                by (nonlinear_arith)
                requires
                    0 <= size <= scale,
                    scale == 0x0100_0000,
            ;
            let square: u128 = scale * scale;
            let slope: u128 = 3 * square - size * size;
            assert(size * slope <= 0x0100_0000 * 0x3_0000_0000_0000) by (nonlinear_arith)
                requires
                    0 <= size <= 0x0100_0000,
                    0 <= slope <= 0x3_0000_0000_0000,
            ;
            let quotient: u128 = (size * slope) / (2 * square);
            proof {
                let xi = x as int;
                let s = ONE as int;
                assert(2 * square == 2 * s * s) by (nonlinear_arith)
                    requires
                        square == scale * scale,
                        scale == s,
                ;
                assert(size * slope == if xi < 0 {
                    -(xi * (3 * s * s - xi * xi))
                } else {
                    xi * (3 * s * s - xi * xi)
                }) by (nonlinear_arith)
                    requires
                        size == if xi < 0 {
                            -xi
                        } else {
                            xi
                        },
                        slope == 3 * square - size * size,
                        square == scale * scale,
                        scale == s,
                ;
                assert(xi * (3 * s * s - xi * xi) >= 0 <==> xi >= 0) by (nonlinear_arith)
                    requires
                        -s <= xi <= s,
                        s > 0,
                ;
                if xi == 0 {
                    lemma_div_brackets(0, 2 * s * s);
                }
            }
            if x < 0 {
                -(quotient as i32)
            } else {
                quotient as i32
            }
        }
    }

    /// The control value for a smoothed sidechain level and a gain: their
    /// product, soft-clipped.
    pub fn control_value(&self, level: i32, gain: i32) -> (value: i32)
        ensures
            value == control(level as int, gain as int),
            -ONE <= value <= ONE,
    {
        self.softclip(multiply(level, gain))
    }

    /// Moves the meter by one frame of amplitude `amplitude`: up to the
    /// amplitude at once, or down toward it by the decay weight, never
    /// below it.
    pub fn update_peak_meter(&mut self, amplitude: i32)
        requires
            old(self).wf(),
            amplitude >= 0,
        ensures
            final(self).wf(),
            final(self).meter() == next_peak(
                old(self).meter() as int,
                amplitude as int,
                old(self).weight() as int,
            ),
            final(self).rate() == old(self).rate(),
            final(self).weight() == old(self).weight(),
            final(self).spec_channels() == old(self).spec_channels(),
            forall|c: int| #[trigger] final(self).line(c) == old(self).line(c),
    {
        proof {
            lemma_next_peak_bounds(
                self.peak_meter as int,
                amplitude as int,
                self.peak_meter_decay_weight as int,
            );
            lemma_sample_product_bounds(self.peak_meter as int, self.peak_meter_decay_weight as int);
            lemma_sample_product_bounds(
                amplitude as int,
                (ONE - self.peak_meter_decay_weight) as int,
            );
        }
        if amplitude > self.peak_meter {
            self.peak_meter = amplitude;
        } else {
            let kept: i64 = (self.peak_meter as i64) * (self.peak_meter_decay_weight as i64);
            let added: i64 = (amplitude as i64) * ((ONE - self.peak_meter_decay_weight) as i64);
            self.peak_meter = ((kept + added) / (ONE as i64)) as i32;
        }
    }

    /// Runs one sample of one channel through the chain: the sample goes
    /// into the delay line, and what comes out of it is attenuated by the
    /// control value that `level` and `gain` give.
    pub fn process_sample(
        &mut self,
        channel_idx: usize,
        sample: i32,
        level: i32,
        gain: i32,
        delay_time: u32,
    ) -> (output: i32)
        requires
            old(self).wf(),
            channel_idx < old(self).spec_channels(),
            old(self).spec_buffer_len() > 0,
        ensures
            final(self).wf(),
            final(self).rate() == old(self).rate(),
            final(self).weight() == old(self).weight(),
            final(self).meter() == old(self).meter(),
            final(self).spec_channels() == old(self).spec_channels(),
            final(self).line(channel_idx as int) == old(self).line(channel_idx as int).step(
                sample,
                delay_samples(delay_time, old(self).rate()),
            ),
            forall|c: int|
                0 <= c < old(self).spec_channels() && c != channel_idx
                    ==> #[trigger] final(self).line(c) == old(self).line(c),
            output == ducked(
                old(self).line(channel_idx as int).output(
                    sample,
                    delay_samples(delay_time, old(self).rate()),
                ) as int,
                control(level as int, gain as int),
            ),
    {
        let value: i32 = self.control_value(level, gain);
        self.duck(channel_idx, sample, value, delay_time)
    }

    /// Puts the sample into the channel's delay line and attenuates what
    /// comes out of it by the control value.
    fn duck(&mut self, channel_idx: usize, sample: i32, value: i32, delay_time: u32) -> (output:
        i32)
        requires
            old(self).wf(),
            channel_idx < old(self).spec_channels(),
            old(self).spec_buffer_len() > 0,
        ensures
            final(self).wf(),
            final(self).rate() == old(self).rate(),
            final(self).weight() == old(self).weight(),
            final(self).meter() == old(self).meter(),
            final(self).spec_channels() == old(self).spec_channels(),
            final(self).line(channel_idx as int) == old(self).line(channel_idx as int).step(
                sample,
                delay_samples(delay_time, old(self).rate()),
            ),
            forall|c: int|
                0 <= c < old(self).spec_channels() && c != channel_idx
                    ==> #[trigger] final(self).line(c) == old(self).line(c),
            output == ducked(
                old(self).line(channel_idx as int).output(
                    sample,
                    delay_samples(delay_time, old(self).rate()),
                ) as int,
                value as int,
            ),
    {
        let delayed: i32 = self.delay.process(channel_idx, sample, delay_time);
        let removed: i64 = multiply(delayed, value);
        saturating(delayed as i64 - removed)
    }

    /// Runs one frame through the chain: one sample per channel, each with
    /// the smoothed sidechain level of its channel, all with the same gain
    /// and delay. Each sample is replaced by its channel's output, and each
    /// level by the control value that it gave. Where the frame has more
    /// samples than levels, or more levels than samples, the channels
    /// without a partner are left out.
    ///
    /// While the editor is open the peak meter follows the frame's
    /// amplitude; while it is closed the meter is left alone.
    pub fn process(
        &mut self,
        samples: &mut Vec<i32>,
        levels: &mut Vec<i32>,
        gain: i32,
        delay_time: u32,
        editor_open: bool,
    )
        requires
            old(self).wf(),
            paired(old(samples).len(), old(levels).len()) <= old(self).spec_channels(),
            paired(old(samples).len(), old(levels).len()) > 0 ==> old(self).spec_buffer_len() > 0,
        ensures
            final(self).wf(),
            final(self).rate() == old(self).rate(),
            final(self).weight() == old(self).weight(),
            final(self).spec_channels() == old(self).spec_channels(),
            final(samples).len() == old(samples).len(),
            final(levels).len() == old(levels).len(),
            forall|c: int|
                0 <= c < paired(old(samples).len(), old(levels).len()) ==> #[trigger] final(levels)[c] == control(old(levels)[c] as int, gain as int),
            forall|c: int|
                0 <= c < paired(old(samples).len(), old(levels).len()) ==> #[trigger] final(samples)[c] == ducked(
                    old(self).line(c).output(
                        old(samples)[c],
                        delay_samples(delay_time, old(self).rate()),
                    ) as int,
                    control(old(levels)[c] as int, gain as int),
                ),
            forall|c: int|
                0 <= c < paired(old(samples).len(), old(levels).len()) ==> #[trigger] final(self).line(c) == old(self).line(c).step(
                    old(samples)[c],
                    delay_samples(delay_time, old(self).rate()),
                ),
            forall|c: int|
                paired(old(samples).len(), old(levels).len()) <= c < old(samples).len()
                    ==> #[trigger] final(samples)[c] == old(samples)[c],
            forall|c: int|
                paired(old(samples).len(), old(levels).len()) <= c < old(levels).len()
                    ==> #[trigger] final(levels)[c] == old(levels)[c],
            forall|c: int|
                paired(old(samples).len(), old(levels).len()) <= c < old(self).spec_channels()
                    ==> #[trigger] final(self).line(c) == old(self).line(c),
            editor_open ==> final(self).meter() == next_peak(
                old(self).meter() as int,
                frame_amplitude(
                    final(samples)@.take(paired(old(samples).len(), old(levels).len()) as int),
                    old(samples).len() as nat,
                ),
                old(self).weight() as int,
            ),
            !editor_open ==> final(self).meter() == old(self).meter(),
    {
        let count: usize = if samples.len() < levels.len() {
            samples.len()
        } else {
            levels.len()
        };
        let ghost delay = delay_samples(delay_time, self.rate());
        let mut total: i128 = 0;
        let mut channel: usize = 0;
        while channel < count
            invariant
                channel <= count,
                count == paired(old(samples).len(), old(levels).len()),
                count <= self.spec_channels(),
                count > 0 ==> self.spec_buffer_len() > 0,
                delay == delay_samples(delay_time, old(self).rate()),
                self.wf(),
                self.rate() == old(self).rate(),
                self.weight() == old(self).weight(),
                self.meter() == old(self).meter(),
                self.spec_channels() == old(self).spec_channels(),
                samples.len() == old(samples).len(),
                levels.len() == old(levels).len(),
                forall|c: int|
                    0 <= c < channel ==> #[trigger] levels[c] == control(
                        old(levels)[c] as int,
                        gain as int,
                    ),
                forall|c: int|
                    0 <= c < channel ==> #[trigger] samples[c] == ducked(
                        old(self).line(c).output(old(samples)[c], delay) as int,
                        control(old(levels)[c] as int, gain as int),
                    ),
                forall|c: int|
                    0 <= c < channel ==> #[trigger] self.line(c) == old(self).line(c).step(
                        old(samples)[c],
                        delay,
                    ),
                forall|c: int|
                    channel <= c < old(samples).len() ==> #[trigger] samples[c] == old(samples)[c],
                forall|c: int|
                    channel <= c < old(levels).len() ==> #[trigger] levels[c] == old(levels)[c],
                forall|c: int|
                    channel <= c < old(self).spec_channels()
                        ==> #[trigger] self.line(c) == old(self).line(c),
                total == frame_sum(samples@.take(channel as int)),
                -0x8000_0000 * channel <= total <= 0x8000_0000 * channel,
            decreases count - channel,
        {
            let ghost done = samples@;
            let ghost given = levels@;
            let ghost lines = *self;
            let value: i32 = self.control_value(levels[channel], gain);
            let output: i32 = self.duck(channel, samples[channel], value, delay_time);
            levels[channel] = value;
            samples[channel] = output;
            total = total + output as i128;
            proof {
                let grown = samples@.take(channel + 1);
                assert(grown.drop_last() == done.take(channel as int));
                assert(grown.last() == output);
                assert forall|c: int| 0 <= c < channel + 1 implies #[trigger] levels[c] == control(
                    old(levels)[c] as int,
                    gain as int,
                ) by {
                    if c < channel {
                        assert(levels[c] == given[c]);
                    }
                }
                assert forall|c: int| 0 <= c < channel + 1 implies #[trigger] samples[c] == ducked(
                    old(self).line(c).output(old(samples)[c], delay) as int,
                    control(old(levels)[c] as int, gain as int),
                ) by {
                    if c < channel {
                        assert(samples[c] == done[c]);
                    }
                }
                assert forall|c: int| 0 <= c < channel + 1 implies #[trigger] self.line(c)
                    == old(self).line(c).step(old(samples)[c], delay) by {
                    if c < channel {
                        assert(self.line(c) == lines.line(c));
                    }
                }
                assert forall|c: int|
                    channel + 1 <= c < old(self).spec_channels() implies #[trigger] self.line(c)
                    == old(self).line(c) by {
                    assert(self.line(c) == lines.line(c));
                }
            }
            channel += 1;
        }
        if editor_open {
            let mut amplitude: i32 = 0;
            if samples.len() > 0 {
                let mean: i128 = total / (samples.len() as i128);
                let size: i128 = if mean < 0 {
                    -mean
                } else {
                    mean
                };
                amplitude = if size > i32::MAX as i128 {
                    i32::MAX
                } else {
                    size as i32
                };
            }
            let ghost lines = *self;
            self.update_peak_meter(amplitude);
            proof {
                assert forall|c: int| 0 <= c < self.spec_channels() implies #[trigger] self.line(c)
                    == lines.line(c) by {}
            }
        }
    }
}

impl Default for Esc {
    /// A chain that has not been initialized: no channels, a sample rate
    /// of one hertz, a silent meter and a decay weight of one.
    fn default() -> (chain: Self)
        ensures
            chain.wf(),
            chain.rate() == 1,
            chain.weight() == ONE,
            chain.meter() == 0,
            chain.spec_channels() == 0,
    {
        Esc {
            sample_rate: 1,
            peak_meter_decay_weight: ONE,
            peak_meter: 0,
            delay: RingBuffer::default(),
        }
    }
}

} // verus!

