//! The delay line: one circular buffer per channel, written ahead of a
//! cursor by the requested delay and read at the cursor.
//!
//! Each buffer holds a tenth of a second of audio. The delay is given in
//! microseconds and is turned into a whole number of samples on every call,
//! so it may change from one sample to the next. A delay of a buffer's
//! length or more wraps around and aliases to a shorter one.

use vstd::prelude::*;
use vstd::arithmetic::div_mod::{
    lemma_add_mod_noop_right, lemma_fundamental_div_mod, lemma_mod_bound, lemma_mod_multiples_vanish,
    lemma_mod_self_0, lemma_small_mod,
};

verus! {

/// The number of samples that a delay of `delay_us` microseconds spans at
/// `sample_rate` hertz, rounded to the nearest sample (halves round up).
pub open spec fn delay_samples(delay_us: u32, sample_rate: u32) -> nat {
    ((delay_us as nat * sample_rate as nat + 500_000) / 1_000_000) as nat
}

/// The length of each channel's buffer: a tenth of a second, rounded down.
pub open spec fn buffer_capacity(sample_rate: u32) -> nat {
    (sample_rate as nat) / 10
}

/// One channel of the delay line as a mathematical value: the buffer's
/// contents and the position that is read next.
pub struct Line {
    pub samples: Seq<i32>,
    pub cursor: nat,
}

impl Line {
    /// A buffer of `len` zeros with the cursor at its start.
    pub open spec fn silent(len: nat) -> Line {
        Line { samples: Seq::new(len, |i: int| 0i32), cursor: 0 }
    }

    /// The cursor is a valid index into the buffer.
    pub open spec fn wf(self) -> bool {
        self.cursor < self.samples.len()
    }

    /// Where a sample delayed by `delay` samples is written.
    pub open spec fn write_index(self, delay: nat) -> int {
        ((self.cursor + delay) as int) % (self.samples.len() as int)
    }

    /// Where input `m` of a run with a constant delay is written.
    pub open spec fn slot(self, m: int, delay: nat) -> int {
        (self.cursor + m + delay) % (self.samples.len() as int)
    }

    /// The line after one sample: the input is stored at the write index and
    /// the cursor moves on by one, wrapping at the end of the buffer.
    pub open spec fn step(self, input: i32, delay: nat) -> Line {
        Line {
            samples: self.samples.update(self.write_index(delay), input),
            cursor: (((self.cursor + 1) as int) % (self.samples.len() as int)) as nat,
        }
    }

    /// The sample that the step returns: the buffer's value at the cursor,
    /// read after the input has been stored.
    pub open spec fn output(self, input: i32, delay: nat) -> i32 {
        self.samples.update(self.write_index(delay), input)[self.cursor as int]
    }

    /// The line after a run of inputs, all with the same delay.
    pub open spec fn run(self, inputs: Seq<i32>, delay: nat) -> Line
        decreases inputs.len(),
    {
        if inputs.len() == 0 {
            self
        } else {
            self.run(inputs.drop_last(), delay).step(inputs.last(), delay)
        }
    }

    /// The sample returned for input `n` of a run with a constant delay.
    pub open spec fn output_at(self, inputs: Seq<i32>, delay: nat, n: int) -> i32 {
        self.run(inputs.take(n), delay).output(inputs[n], delay)
    }
}

proof fn lemma_mod_close(a: int, b: int, m: int)
    requires
        m > 0,
        a % m == b % m,
        0 <= b - a < m,
    ensures
        a == b,
{
    lemma_fundamental_div_mod(a, m);
    lemma_fundamental_div_mod(b, m);
    let qa = a / m;
    let qb = b / m;
    assert(qa == qb) by (nonlinear_arith)
        requires
            m > 0,
            0 <= m * qb - m * qa < m,
    ;
}

proof fn lemma_mod_succ(a: int, m: int)
    requires
        a >= 0,
        m > 0,
    ensures
        ((a % m) + 1) % m == (a + 1) % m,
{
    lemma_add_mod_noop_right(1, a, m);
    assert(1 + (a % m) == (a % m) + 1);
    assert(1 + a == a + 1);
}

proof fn lemma_mod_shift(a: int, d: int, m: int)
    requires
        m > 0,
    ensures
        ((a % m) + d) % m == (a + d) % m,
        (a + d % m) % m == (a + d) % m,
{
    lemma_add_mod_noop_right(d, a, m);
    assert(d + (a % m) == (a % m) + d);
    assert(d + a == a + d);
    lemma_add_mod_noop_right(a, d, m);
}

/// The state of a line after a run: the cursor has advanced by the number
/// of inputs, and each of the last inputs, up to the buffer's length, sits
/// where it was written.
proof fn lemma_run_state(line: Line, inputs: Seq<i32>, delay: nat)
    requires
        line.wf(),
    ensures
        line.run(inputs, delay).samples.len() == line.samples.len(),
        line.run(inputs, delay).cursor == ((line.cursor + inputs.len()) as int) % (
            line.samples.len() as int),
        line.run(inputs, delay).wf(),
        forall|m: int|
            0 <= m < inputs.len() && inputs.len() - line.samples.len() <= m ==> line.run(
                inputs,
                delay,
            ).samples[line.slot(m, delay)] == #[trigger] inputs[m],
    decreases inputs.len(),
{
    let len = line.samples.len() as int;
    let k = inputs.len() as int;
    if inputs.len() == 0 {
        lemma_small_mod(line.cursor, line.samples.len());
    } else {
        let head = inputs.drop_last();
        let before = line.run(head, delay);
        let after = line.run(inputs, delay);
        lemma_run_state(line, head, delay);
        lemma_mod_succ(line.cursor + k - 1, len);
        lemma_mod_bound(line.cursor + k, len);
        lemma_mod_shift(line.cursor + k - 1, delay as int, len);
        let written = before.write_index(delay);
        assert(written == (line.cursor + (k - 1) + delay) % len);
        lemma_mod_bound(line.cursor + (k - 1) + delay, len);
        assert forall|m: int| 0 <= m < k && k - len <= m implies after.samples[line.slot(
            m,
            delay,
        )] == #[trigger] inputs[m] by {
            lemma_mod_bound(line.cursor + m + delay, len);
            if m == k - 1 {
            } else {
                assert(head[m] == inputs[m]);
                if (line.cursor + m + delay) % len == written {
                    lemma_mod_close(line.cursor + m + delay, line.cursor + (k - 1) + delay, len);
                }
            }
        }
    }
}

/// A position that no input of a run was written to still holds what it
/// held before the run.
proof fn lemma_run_untouched(line: Line, inputs: Seq<i32>, delay: nat, p: int)
    requires
        line.wf(),
        0 <= p < line.samples.len(),
        forall|m: int| 0 <= m < inputs.len() ==> #[trigger] line.slot(m, delay) != p,
    ensures
        line.run(inputs, delay).samples[p] == line.samples[p],
    decreases inputs.len(),
{
    let len = line.samples.len() as int;
    let k = inputs.len() as int;
    if inputs.len() > 0 {
        let head = inputs.drop_last();
        lemma_run_state(line, head, delay);
        assert forall|m: int| 0 <= m < head.len() implies #[trigger] line.slot(m, delay) != p by {
            assert(0 <= m < inputs.len());
        }
        lemma_run_untouched(line, head, delay, p);
        lemma_mod_shift(line.cursor + k - 1, delay as int, len);
        assert(line.slot(k - 1, delay) != p);
    }
}

/// With a constant delay, every output from the delay onward is the input
/// of that many samples before. A delay of the buffer's length or more
/// aliases to its remainder by the buffer's length.
pub proof fn lemma_constant_delay(line: Line, inputs: Seq<i32>, delay: nat, n: int)
    requires
        line.wf(),
        0 <= n < inputs.len(),
        delay % line.samples.len() <= n,
    ensures
        line.output_at(inputs, delay, n) == inputs[n - delay % line.samples.len()],
        delay < line.samples.len() ==> line.output_at(inputs, delay, n) == inputs[n - delay],
{
    if delay < line.samples.len() {
        lemma_small_mod(delay, line.samples.len());
    }
    let len = line.samples.len() as int;
    let lag = (delay as int) % len;
    let head = inputs.take(n);
    let before = line.run(head, delay);
    lemma_run_state(line, head, delay);
    lemma_mod_bound(delay as int, len);
    lemma_mod_bound(line.cursor + n, len);
    lemma_fundamental_div_mod(delay as int, len);
    lemma_mod_shift(line.cursor + n, delay as int, len);
    let written = before.write_index(delay);
    assert(written == (line.cursor + n + delay) % len);
    assert(written == (line.cursor + n + lag) % len);
    lemma_mod_bound(line.cursor + n + lag, len);
    if lag == 0 {
        assert(written == before.cursor);
    } else {
        if written == before.cursor {
            lemma_mod_close(line.cursor + n, line.cursor + n + lag, len);
        }
        let m = n - lag;
        assert(head[m] == inputs[m]);
        assert(head.len() == n);
        assert(line.cursor + m + delay == len * (delay as int / len) + (line.cursor + n)) by {
            assert(delay as int == len * (delay as int / len) + lag);
        }
        lemma_mod_multiples_vanish(delay as int / len, line.cursor + n, len);
        assert(before.samples[(line.cursor + m + delay) % len] == head[m]);
    }
}

/// With a constant delay, an output that comes before the delay has
/// elapsed is what the buffer held, ahead of the cursor, before the run.
pub proof fn lemma_before_delay(line: Line, inputs: Seq<i32>, delay: nat, n: int)
    requires
        line.wf(),
        0 <= n < inputs.len(),
        n < delay % line.samples.len(),
    ensures
        line.output_at(inputs, delay, n) == line.samples[(line.cursor + n) % (
        line.samples.len() as int)],
{
    let len = line.samples.len() as int;
    let lag = (delay as int) % len;
    let head = inputs.take(n);
    let before = line.run(head, delay);
    let p = (line.cursor + n) % len;
    lemma_run_state(line, head, delay);
    lemma_mod_bound(delay as int, len);
    lemma_mod_bound(line.cursor + n, len);
    assert forall|m: int| 0 <= m <= n implies #[trigger] line.slot(m, delay) != p by {
        lemma_mod_shift(line.cursor + m, delay as int, len);
        assert(line.slot(m, delay) == (line.cursor + m + lag) % len);
        if (line.cursor + m + lag) % len == p {
            lemma_mod_close(line.cursor + n, line.cursor + m + lag, len);
        }
    }
    lemma_run_untouched(line, head, delay, p);
    lemma_mod_shift(line.cursor + n, delay as int, len);
    assert(before.write_index(delay) == line.slot(n, delay));
}

/// After initialization every output that comes before the delay has
/// elapsed is silence.
pub proof fn lemma_silent_start(len: nat, inputs: Seq<i32>, delay: nat, n: int)
    requires
        len > 0,
        0 <= n < inputs.len(),
        n < delay % len,
    ensures
        Line::silent(len).output_at(inputs, delay, n) == 0,
{
    let line = Line::silent(len);
    lemma_before_delay(line, inputs, delay, n);
    lemma_mod_bound(line.cursor + n, len as int);
}

/// Turns a delay in microseconds into a whole number of samples.
pub fn delay_in_samples(delay_us: u32, sample_rate: u32) -> (samples: u64)
    ensures
        samples == delay_samples(delay_us, sample_rate),
        samples < 0x1_0000_0000_0000,
{
    assert(delay_us * sample_rate + 500_000 <= 0xffff_ffff_0000_0000) by (nonlinear_arith)
        requires
            0 <= delay_us <= 0xffff_ffff,
            0 <= sample_rate <= 0xffff_ffff,
    ;
    let scaled: u64 = (delay_us as u64) * (sample_rate as u64) + 500_000;
    scaled / 1_000_000
}

/// A multi-channel delay line with a tenth of a second of capacity per
/// channel. Each channel has a buffer and a cursor of its own.
#[derive(Debug)]
pub struct RingBuffer {
    sample_rate: u32,
    audio_buffers: Vec<Vec<i32>>,
    read_sample_pos: Vec<usize>,
}

impl RingBuffer {
    /// The sample rate that the line was last initialized with.
    pub closed spec fn rate(&self) -> u32 {
        self.sample_rate
    }

    /// The number of channels.
    pub closed spec fn spec_channels(&self) -> usize {
        self.audio_buffers.len()
    }

    /// The buffer and the cursor of channel `c`.
    pub closed spec fn line(&self, c: int) -> Line {
        Line { samples: self.audio_buffers[c]@, cursor: self.read_sample_pos[c] as nat }
    }

    /// Every channel has a buffer of the capacity that the sample rate
    /// gives and a cursor of its own, which is a valid index where the
    /// buffer is not empty.
    pub closed spec fn wf(&self) -> bool {
        &&& self.read_sample_pos.len() == self.audio_buffers.len()
        &&& forall|c: int|
            0 <= c < self.audio_buffers.len() ==> {
                &&& (#[trigger] self.audio_buffers[c]).len() == buffer_capacity(self.sample_rate)
                &&& self.read_sample_pos[c] <= self.audio_buffers[c].len()
                &&& self.audio_buffers[c].len() > 0 ==> self.read_sample_pos[c]
                    < self.audio_buffers[c].len()
            }
    }

    /// The length of each channel's buffer.
    pub open spec fn spec_buffer_len(&self) -> usize {
        buffer_capacity(self.rate()) as usize
    }

    /// A well-formed line's channels all have the same buffer length, and
    /// where that is not zero each cursor is a valid index.
    pub proof fn lemma_lines(&self, c: int)
        requires
            self.wf(),
            0 <= c < self.spec_channels(),
        ensures
            self.line(c).samples.len() == self.spec_buffer_len(),
            self.spec_buffer_len() > 0 ==> self.line(c).wf(),
    {
        assert(self.audio_buffers[c].len() == buffer_capacity(self.sample_rate));
    }

    /// The number of channels.
    #[verifier::when_used_as_spec(spec_channels)]
    pub fn channels(&self) -> (n: usize)
        ensures
            n == self.spec_channels(),
    {
        self.audio_buffers.len()
    }

    /// The length of each channel's buffer, in samples.
    #[verifier::when_used_as_spec(spec_buffer_len)]
    pub fn buffer_len(&self) -> (len: usize)
        ensures
            len == self.spec_buffer_len(),
    {
        (self.sample_rate / 10) as usize
    }

    /// Allocates a zeroed buffer of a tenth of a second for each channel
    /// and puts every cursor at the start.
    pub fn initialize(&mut self, num_channels: usize, sample_rate: u32)
        requires
            num_channels >= 1,
            sample_rate > 0,
        ensures
            final(self).wf(),
            final(self).rate() == sample_rate,
            final(self).spec_channels() == num_channels,
            forall|c: int|
                0 <= c < num_channels ==> #[trigger] final(self).line(c) == Line::silent(
                    buffer_capacity(sample_rate),
                ),
    {
        let buffer_len: usize = (sample_rate / 10) as usize;
        let mut buffers: Vec<Vec<i32>> = Vec::new();
        let mut positions: Vec<usize> = Vec::new();
        let mut channel: usize = 0;
        while channel < num_channels
            invariant
                channel <= num_channels,
                buffer_len == buffer_capacity(sample_rate),
                buffers.len() == channel,
                positions.len() == channel,
                forall|c: int|
                    0 <= c < channel ==> (#[trigger] buffers[c])@ == Seq::new(
                        buffer_len as nat,
                        |i: int| 0i32,
                    ) && positions[c] == 0,
            decreases num_channels - channel,
        {
            let mut buffer: Vec<i32> = Vec::with_capacity(buffer_len);
            let mut filled: usize = 0;
            while filled < buffer_len
                invariant
                    filled <= buffer_len,
                    buffer.len() == filled,
                    forall|i: int| 0 <= i < filled ==> buffer[i] == 0,
                decreases buffer_len - filled,
            {
                buffer.push(0);
                filled += 1;
            }
            assert(buffer@ =~= Seq::new(buffer_len as nat, |i: int| 0i32));
            buffers.push(buffer);
            positions.push(0);
            channel += 1;
        }
        self.sample_rate = sample_rate;
        self.audio_buffers = buffers;
        self.read_sample_pos = positions;
        assert forall|c: int| 0 <= c < num_channels implies #[trigger] self.line(c)
            == Line::silent(buffer_capacity(sample_rate)) by {
            assert(self.audio_buffers[c]@ == Seq::new(buffer_len as nat, |i: int| 0i32));
        }
    }

    /// Leaves the line as it is: the buffers are always initialized before
    /// they are used, so there is nothing to clear.
    pub fn reset(&mut self)
        ensures
            *final(self) == *old(self),
    {
    }

    /// Stores `input_sample` the given delay ahead of the channel's cursor,
    /// returns the sample at the cursor, and moves the cursor on by one.
    /// The other channels are left as they are.
    pub fn process(&mut self, channel_idx: usize, input_sample: i32, delay_time: u32) -> (output:
        i32)
        requires
            old(self).wf(),
            channel_idx < old(self).spec_channels(),
            old(self).spec_buffer_len() > 0,
        ensures
            final(self).wf(),
            final(self).rate() == old(self).rate(),
            final(self).spec_channels() == old(self).spec_channels(),
            final(self).line(channel_idx as int) == old(self).line(channel_idx as int).step(
                input_sample,
                delay_samples(delay_time, old(self).rate()),
            ),
            output == old(self).line(channel_idx as int).output(
                input_sample,
                delay_samples(delay_time, old(self).rate()),
            ),
            forall|c: int|
                0 <= c < old(self).spec_channels() && c != channel_idx
                    ==> #[trigger] final(self).line(c) == old(self).line(c),
    {
        let len: usize = self.audio_buffers[channel_idx].len();
        let delay: u64 = delay_in_samples(delay_time, self.sample_rate);
        let read: usize = self.read_sample_pos[channel_idx];
        let write: usize = ((read as u64 + delay) % (len as u64)) as usize;
        proof {
            lemma_mod_bound((read + delay) as int, len as int);
        }
        self.audio_buffers[channel_idx][write] = input_sample;
        let output: i32 = self.audio_buffers[channel_idx][read];
        let mut next: usize = read + 1;
        if next == len {
            next = 0;
        }
        proof {
            if read + 1 == len {
                lemma_mod_self_0(len as int);
            } else {
                lemma_small_mod((read + 1) as nat, len as nat);
            }
        }
        self.read_sample_pos[channel_idx] = next;
        proof {
            assert(self.audio_buffers[channel_idx as int]@ == old(self).audio_buffers[channel_idx as int]@.update(
                write as int,
                input_sample,
            ));
            assert forall|c: int| 0 <= c < self.audio_buffers.len() implies {
                &&& (#[trigger] self.audio_buffers[c]).len() == buffer_capacity(self.sample_rate)
                &&& self.read_sample_pos[c] <= self.audio_buffers[c].len()
                &&& self.audio_buffers[c].len() > 0 ==> self.read_sample_pos[c]
                    < self.audio_buffers[c].len()
            } by {
                assert(old(self).audio_buffers[c].len() == buffer_capacity(self.sample_rate));
                if c != channel_idx {
                    assert(self.audio_buffers[c] == old(self).audio_buffers[c]);
                }
            }
            assert forall|c: int|
                0 <= c < old(self).spec_channels() && c != channel_idx implies #[trigger] self.line(
                c,
            ) == old(self).line(c) by {
                assert(self.audio_buffers[c] == old(self).audio_buffers[c]);
            }
        }
        output
    }
}

impl Default for RingBuffer {
    /// A line with no channels: it has to be initialized before it is used.
    fn default() -> (line: Self)
        ensures
            line.wf(),
            line.rate() == 0,
            line.spec_channels() == 0,
    {
        RingBuffer { sample_rate: 0, audio_buffers: Vec::new(), read_sample_pos: Vec::new() }
    }
}

} // verus!
