//! The peak tracker: the largest sample within a trailing window, per
//! channel, in constant amortized time per sample.
//!
//! Each channel keeps the window itself, oldest sample first: the current
//! sample and as many before it as the hold time spans. Beside it stands a
//! queue of candidates: the samples of the window that no later, strictly
//! larger sample follows. The candidates are in non-increasing order, so the
//! first of them is the largest sample of the window.
//!
//! A tracker starts with a window of zeros and a queue that is one zero
//! shorter: the zero that the queue lacks is the one that leaves the window
//! with the first sample. From the first sample on the queue holds exactly
//! the candidates of the window.

use vstd::prelude::*;
use std::collections::VecDeque;

verus! {

/// The number of samples in a window of `hold_time_ms` milliseconds at
/// `sample_rate` hertz, rounded down.
pub open spec fn hold_samples(sample_rate: u32, hold_time_ms: u32) -> nat {
    (sample_rate as nat * hold_time_ms as nat) / 1000
}

/// The largest sample of a window; zero for the empty window.
pub open spec fn window_peak(window: Seq<i32>) -> i32
    decreases window.len(),
{
    if window.len() == 0 {
        0
    } else if window.len() == 1 {
        window[0]
    } else if window.last() > window_peak(window.drop_last()) {
        window.last()
    } else {
        window_peak(window.drop_last())
    }
}

/// The window after one more sample: the sample enters at the back and the
/// oldest sample leaves at the front.
pub open spec fn slide(window: Seq<i32>, input: i32) -> Seq<i32> {
    window.push(input).drop_first()
}

/// The window after a run of samples.
pub open spec fn feed(window: Seq<i32>, inputs: Seq<i32>) -> Seq<i32>
    decreases inputs.len(),
{
    if inputs.len() == 0 {
        window
    } else {
        slide(feed(window, inputs.drop_last()), inputs.last())
    }
}

/// A sequence of `len` zeros.
pub open spec fn silence(len: nat) -> Seq<i32> {
    Seq::new(len, |i: int| 0i32)
}

/// No sample is followed by a larger one.
pub open spec fn non_increasing(queue: Seq<i32>) -> bool {
    forall|i: int, j: int| 0 <= i <= j < queue.len() ==> queue[i] >= queue[j]
}

/// A queue of candidates without the samples at its back that are strictly
/// smaller than `input`.
pub open spec fn prune(queue: Seq<i32>, input: i32) -> Seq<i32>
    decreases queue.len(),
{
    if queue.len() > 0 && queue.last() < input {
        prune(queue.drop_last(), input)
    } else {
        queue
    }
}

/// The candidates of a window: its samples that no later, strictly larger
/// sample follows, in the order of the window.
pub open spec fn candidates(window: Seq<i32>) -> Seq<i32>
    decreases window.len(),
{
    if window.len() == 0 {
        Seq::empty()
    } else {
        prune(candidates(window.drop_last()), window.last()).push(window.last())
    }
}

/// The peak of a window that is not empty is one of its samples, and none
/// of its samples is larger.
pub proof fn lemma_window_peak(window: Seq<i32>)
    requires
        window.len() > 0,
    ensures
        exists|i: int| 0 <= i < window.len() && window[i] == window_peak(window),
        forall|i: int| 0 <= i < window.len() ==> window[i] <= window_peak(window),
    decreases window.len(),
{
    if window.len() == 1 {
        assert(window[0] == window_peak(window));
    } else {
        let rest = window.drop_last();
        lemma_window_peak(rest);
        let at = choose|i: int| 0 <= i < rest.len() && rest[i] == window_peak(rest);
        if window.last() > window_peak(rest) {
            assert(window[window.len() - 1] == window_peak(window));
        } else {
            assert(window[at] == window_peak(window));
        }
        assert forall|i: int| 0 <= i < window.len() implies window[i] <= window_peak(window) by {
            if i < rest.len() {
                assert(rest[i] == window[i]);
            }
        }
    }
}

/// What pruning leaves is the front part of the queue; it ends in a sample
/// that is no smaller than the input; and it is empty exactly if every
/// sample of the queue is smaller than the input.
proof fn lemma_prune(queue: Seq<i32>, input: i32)
    ensures
        prune(queue, input).len() <= queue.len(),
        prune(queue, input) == queue.subrange(0, prune(queue, input).len() as int),
        prune(queue, input).len() > 0 ==> prune(queue, input).last() >= input,
        prune(queue, input).len() == 0 <==> forall|i: int|
            0 <= i < queue.len() ==> queue[i] < input,
    decreases queue.len(),
{
    if queue.len() > 0 && queue.last() < input {
        let rest = queue.drop_last();
        lemma_prune(rest, input);
        let kept = prune(rest, input);
        assert(kept == queue.subrange(0, kept.len() as int));
        if kept.len() == 0 {
            assert forall|i: int| 0 <= i < queue.len() implies queue[i] < input by {
                if i < rest.len() {
                    assert(rest[i] == queue[i]);
                }
            }
        } else {
            assert(rest[kept.len() - 1] == queue[kept.len() - 1]);
            assert(kept[kept.len() - 1] == rest.subrange(0, kept.len() as int)[kept.len() - 1]);
        }
    } else {
        assert(queue == queue.subrange(0, queue.len() as int));
        if queue.len() > 0 {
            assert(queue[queue.len() - 1] >= input);
        }
    }
}

/// Pruning never touches a front sample that is no smaller than the input.
proof fn lemma_prune_keeps_front(queue: Seq<i32>, input: i32)
    requires
        queue.len() > 0,
        queue[0] >= input,
    ensures
        prune(queue, input).len() > 0,
        prune(queue, input)[0] == queue[0],
        prune(queue, input).drop_first() == prune(queue.drop_first(), input),
    decreases queue.len(),
{
    if queue.last() < input {
        let rest = queue.drop_last();
        assert(rest.len() > 0);
        assert(rest[0] == queue[0]);
        lemma_prune_keeps_front(rest, input);
        assert(rest.drop_first() == queue.drop_first().drop_last());
        assert(queue.drop_first().last() == queue.last());
    } else {
        if queue.len() > 1 {
            assert(queue.drop_first().last() == queue.last());
        }
    }
}

/// The candidates of a window are in non-increasing order, are no more
/// than the samples of the window, and begin with the window's peak.
pub proof fn lemma_candidates(window: Seq<i32>)
    ensures
        non_increasing(candidates(window)),
        candidates(window).len() <= window.len(),
        window.len() > 0 ==> candidates(window).len() > 0 && candidates(window)[0] == window_peak(
            window,
        ),
    decreases window.len(),
{
    if window.len() > 0 {
        let rest = window.drop_last();
        let input = window.last();
        let before = candidates(rest);
        let kept = prune(before, input);
        lemma_candidates(rest);
        lemma_prune(before, input);
        assert forall|i: int, j: int| 0 <= i <= j < kept.push(input).len() implies kept.push(
            input,
        )[i] >= kept.push(input)[j] by {
            if j < kept.len() {
                assert(kept[i] == before[i] && kept[j] == before[j]);
            } else if i < kept.len() {
                assert(kept[i] == before[i]);
                assert(kept[kept.len() - 1] == before[kept.len() - 1]);
            }
        }
        if rest.len() > 0 {
            if kept.len() > 0 {
                assert(kept[0] == before[0]);
                assert(kept[kept.len() - 1] == before[kept.len() - 1]);
            } else {
                assert(before[0] < input);
            }
        }
    }
}

/// When the oldest sample leaves a window, it leaves the candidates too
/// exactly if it equals the first of them.
proof fn lemma_candidates_drop_first(window: Seq<i32>)
    requires
        window.len() > 0,
    ensures
        candidates(window).len() > 0,
        window[0] == candidates(window)[0] ==> candidates(window.drop_first()) == candidates(
            window,
        ).drop_first(),
        window[0] != candidates(window)[0] ==> candidates(window.drop_first()) == candidates(
            window,
        ),
    decreases window.len(),
{
    let input = window.last();
    let rest = window.drop_last();
    let before = candidates(rest);
    if window.len() == 1 {
        assert(rest.len() == 0);
        assert(candidates(window) =~= seq![input]);
        assert(window.drop_first().len() == 0);
        assert(candidates(window).drop_first() =~= Seq::<i32>::empty());
    } else {
        let tail = window.drop_first();
        assert(tail.drop_last() == rest.drop_first());
        assert(tail.last() == input);
        assert(rest[0] == window[0]);
        lemma_candidates_drop_first(rest);
        lemma_candidates(rest);
        lemma_window_peak(rest);
        lemma_prune(before, input);
        let kept = prune(before, input);
        if window[0] == before[0] {
            if before[0] < input {
                assert forall|i: int| 0 <= i < before.len() implies before[i] < input by {
                    assert(before[0] >= before[i]);
                }
                assert(kept.len() == 0);
                lemma_prune(before.drop_first(), input);
                assert forall|i: int| 0 <= i < before.drop_first().len() implies before.drop_first()[i]
                    < input by {
                    assert(before.drop_first()[i] == before[i + 1]);
                }
                assert(prune(before.drop_first(), input).len() == 0);
                assert(candidates(tail) =~= candidates(window));
            } else {
                lemma_prune_keeps_front(before, input);
                assert(candidates(window)[0] == before[0]);
                assert(candidates(window).drop_first() =~= kept.drop_first().push(input));
            }
        } else {
            assert(candidates(tail) == candidates(window));
            if kept.len() > 0 {
                assert(kept[0] == before[0]);
                assert(candidates(window)[0] == before[0]);
            } else {
                assert(before[0] < input);
                assert(candidates(window)[0] == input);
                assert(window[0] <= window_peak(rest));
            }
        }
    }
}

/// A window of zeros has all of its samples as candidates.
proof fn lemma_candidates_of_silence(len: nat)
    ensures
        candidates(silence(len)) == silence(len),
    decreases len,
{
    let window = silence(len);
    if len > 0 {
        let rest = silence((len - 1) as nat);
        assert(window.drop_last() == rest);
        lemma_candidates_of_silence((len - 1) as nat);
        if rest.len() > 0 {
            assert(rest.last() == 0);
        }
        assert(prune(rest, 0) == rest);
        assert(rest.push(0) == window);
    } else {
        assert(window == Seq::<i32>::empty());
    }
}

/// Feeding a run of samples leaves the window holding the last samples
/// among those it held before and those of the run, as many as it held.
pub proof fn lemma_feed(window: Seq<i32>, inputs: Seq<i32>)
    ensures
        feed(window, inputs) == (window + inputs).subrange(
            inputs.len() as int,
            (inputs.len() + window.len()) as int,
        ),
    decreases inputs.len(),
{
    if inputs.len() == 0 {
        assert(window + inputs == window);
        assert(window == window.subrange(0, window.len() as int));
    } else {
        let head = inputs.drop_last();
        lemma_feed(window, head);
        let before = feed(window, head);
        assert(feed(window, inputs) =~= (window + inputs).subrange(
            inputs.len() as int,
            (inputs.len() + window.len()) as int,
        )) by {
            assert forall|i: int| 0 <= i < before.len() implies before[i] == (window + head)[head.len()
                + i] by {}
            assert forall|i: int| 0 <= i < head.len() + window.len() implies (window + head)[i] == (
            window + inputs)[i] by {}
        }
    }
}

/// The peak that is returned for input `n` of a run.
pub open spec fn peak_at(window: Seq<i32>, inputs: Seq<i32>, n: int) -> i32 {
    window_peak(feed(window, inputs.take(n + 1)))
}

/// Once a run is at least as long as the window, the window holds the last
/// samples of the run.
pub proof fn lemma_trailing_window(window: Seq<i32>, inputs: Seq<i32>)
    requires
        inputs.len() >= window.len(),
    ensures
        feed(window, inputs) == inputs.subrange(
            inputs.len() - window.len(),
            inputs.len() as int,
        ),
{
    lemma_feed(window, inputs);
    assert((window + inputs).subrange(inputs.len() as int, (inputs.len() + window.len()) as int)
        =~= inputs.subrange(inputs.len() - window.len(), inputs.len() as int));
}

/// Whatever the inputs are: from the input on that fills the window, the
/// peak returned for input `n` is the largest of the inputs of the trailing
/// window that ends with input `n`, the current input and as many before it
/// as the window had samples less one. It is one of them, and none of them
/// is larger.
pub proof fn lemma_trailing_peak(window: Seq<i32>, inputs: Seq<i32>, n: int)
    requires
        0 <= n < inputs.len(),
        0 < window.len() <= n + 1,
    ensures
        peak_at(window, inputs, n) == window_peak(inputs.subrange(n + 1 - window.len(), n + 1)),
        exists|i: int| n - window.len() < i <= n && inputs[i] == peak_at(window, inputs, n),
        forall|i: int| n - window.len() < i <= n ==> inputs[i] <= peak_at(window, inputs, n),
{
    let head = inputs.take(n + 1);
    let first = n + 1 - window.len();
    let trailing = inputs.subrange(first, n + 1);
    lemma_trailing_window(window, head);
    assert(head.subrange(head.len() - window.len(), head.len() as int) =~= trailing);
    lemma_window_peak(trailing);
    let at = choose|i: int| 0 <= i < trailing.len() && trailing[i] == window_peak(trailing);
    assert(inputs[first + at] == trailing[at]);
    assert forall|i: int| n - window.len() < i <= n implies inputs[i] <= peak_at(
        window,
        inputs,
        n,
    ) by {
        assert(inputs[i] == trailing[i - first]);
    }
}

/// Until the inputs fill the window, the peak returned for input `n` is
/// the largest among the inputs so far and the samples that the window
/// held before and has not yet let go.
pub proof fn lemma_early_peak(window: Seq<i32>, inputs: Seq<i32>, n: int)
    requires
        0 <= n < inputs.len(),
        n + 1 <= window.len(),
    ensures
        peak_at(window, inputs, n) == window_peak(
            window.subrange(n + 1, window.len() as int) + inputs.take(n + 1),
        ),
{
    let head = inputs.take(n + 1);
    lemma_feed(window, head);
    assert((window + head).subrange(head.len() as int, (head.len() + window.len()) as int)
        =~= window.subrange(n + 1, window.len() as int) + head);
}

/// After initialization for a hold of `hold` samples, and until the
/// inputs fill the window, the peak returned for input `n` is the largest
/// among the inputs so far and zeros in place of the missing ones.
pub proof fn lemma_warm_up_peak(hold: nat, inputs: Seq<i32>, n: int)
    requires
        0 <= n < inputs.len(),
        n < hold,
    ensures
        peak_at(silence(hold + 1), inputs, n) == window_peak(
            silence((hold - n) as nat) + inputs.take(n + 1),
        ),
{
    let window = silence(hold + 1);
    lemma_early_peak(window, inputs, n);
    assert(window.subrange(n + 1, window.len() as int) =~= silence((hold - n) as nat));
}

/// After initialization for a hold of `hold` samples, whatever the inputs
/// are: from input `hold` on, the peak returned for input `n` is the
/// largest of input `n` and the `hold` inputs before it.
pub proof fn lemma_held_peak(hold: nat, inputs: Seq<i32>, n: int)
    requires
        hold <= n < inputs.len(),
    ensures
        peak_at(silence(hold + 1), inputs, n) == window_peak(inputs.subrange(n - hold, n + 1)),
{
    lemma_trailing_peak(silence(hold + 1), inputs, n);
}

/// The peak of a window is never below its newest sample, and is that
/// sample where none of the others exceeds it.
pub proof fn lemma_peak_covers_newest(window: Seq<i32>)
    requires
        window.len() > 0,
    ensures
        window_peak(window) >= window.last(),
        (forall|i: int| 0 <= i < window.len() ==> window[i] <= window.last()) ==> window_peak(
            window,
        ) == window.last(),
{
    lemma_window_peak(window);
}

/// The peak is monotone: a window whose samples are each no smaller has a
/// peak that is no smaller.
pub proof fn lemma_peak_monotonic(lower: Seq<i32>, upper: Seq<i32>)
    requires
        lower.len() == upper.len(),
        forall|i: int| 0 <= i < lower.len() ==> lower[i] <= upper[i],
    ensures
        window_peak(lower) <= window_peak(upper),
{
    if lower.len() > 0 {
        lemma_window_peak(lower);
        lemma_window_peak(upper);
        let at = choose|i: int| 0 <= i < lower.len() && lower[i] == window_peak(lower);
        assert(lower[at] <= upper[at]);
    }
}

/// The peak scales with the samples: a window whose samples are each `scale`
/// times as large, for a scale that is not negative, has a peak `scale`
/// times as large.
pub proof fn lemma_peak_scales(window: Seq<i32>, scaled: Seq<i32>, scale: int)
    requires
        scale >= 0,
        scaled.len() == window.len(),
        forall|i: int| 0 <= i < window.len() ==> scaled[i] == scale * window[i],
    ensures
        window_peak(scaled) == scale * window_peak(window),
{
    if window.len() > 0 {
        lemma_window_peak(window);
        lemma_window_peak(scaled);
        let peak = window_peak(window) as int;
        let at = choose|i: int| 0 <= i < window.len() && window[i] == window_peak(window);
        let over = choose|i: int| 0 <= i < scaled.len() && scaled[i] == window_peak(scaled);
        assert(scaled[at] == scale * peak);
        let sample = window[over] as int;
        assert(scale * sample <= scale * peak) by (nonlinear_arith)
            requires
                scale >= 0,
                sample <= peak,
        ;
    } else {
        assert(scale * 0 == 0) by (nonlinear_arith);
    }
}

/// A multi-channel tracker of the peak within a trailing window: the
/// current sample and those of the hold time before it. Before the first
/// samples have filled a window, zeros stand for the samples that are
/// missing.
#[derive(Debug)]
pub struct PeakHold {
    sample_rate: u32,
    hold_time: u32,
    deques: Vec<VecDeque<i32>>,
    audio_buffers: Vec<VecDeque<i32>>,
    /// Whether the channel has taken a sample since it was initialized.
    started: Vec<bool>,
}

impl PeakHold {
    /// The sample rate that the tracker was last initialized with.
    pub closed spec fn rate(&self) -> u32 {
        self.sample_rate
    }

    /// The hold time, in milliseconds, that the tracker was last
    /// initialized with.
    pub closed spec fn hold(&self) -> u32 {
        self.hold_time
    }

    /// The number of channels.
    pub closed spec fn spec_channels(&self) -> usize {
        self.audio_buffers.len()
    }

    /// The window of channel `c`, oldest sample first.
    pub closed spec fn window(&self, c: int) -> Seq<i32> {
        self.audio_buffers[c]@
    }

    /// The queue of candidates of channel `c`.
    pub closed spec fn queue(&self, c: int) -> Seq<i32> {
        self.deques[c]@
    }

    /// Every channel has a window of one sample more than the sample rate
    /// and the hold time give. Its queue holds the candidates of the
    /// window; only in a channel that has not taken a sample yet the
    /// window is all zeros and the queue is one zero shorter.
    pub closed spec fn wf(&self) -> bool {
        &&& self.deques.len() == self.audio_buffers.len()
        &&& self.started.len() == self.audio_buffers.len()
        &&& forall|c: int|
            0 <= c < self.audio_buffers.len() ==> {
                &&& (#[trigger] self.audio_buffers[c])@.len() == hold_samples(
                    self.sample_rate,
                    self.hold_time,
                ) + 1
                &&& self.started[c] ==> self.deques[c]@ == candidates(self.audio_buffers[c]@)
                &&& !self.started[c] ==> self.audio_buffers[c]@ == silence(
                    hold_samples(self.sample_rate, self.hold_time) + 1,
                ) && self.deques[c]@ == silence(hold_samples(self.sample_rate, self.hold_time))
            }
    }

    /// In a well-formed tracker each window holds one sample more than the
    /// hold time spans. Each queue holds the candidates of its window, or
    /// one zero less than a window of zeros; it is in non-increasing order
    /// and no longer than the window.
    pub proof fn lemma_channel(&self, c: int)
        requires
            self.wf(),
            0 <= c < self.spec_channels(),
        ensures
            self.window(c).len() == hold_samples(self.rate(), self.hold()) + 1,
            self.queue(c) == candidates(self.window(c)) || (self.window(c) == silence(
                hold_samples(self.rate(), self.hold()) + 1,
            ) && self.queue(c) == silence(hold_samples(self.rate(), self.hold()))),
            non_increasing(self.queue(c)),
            self.queue(c).len() <= self.window(c).len(),
    {
        assert(self.audio_buffers[c]@.len() == hold_samples(self.sample_rate, self.hold_time) + 1);
        lemma_candidates(self.window(c));
    }

    /// The number of channels.
    #[verifier::when_used_as_spec(spec_channels)]
    pub fn channels(&self) -> (n: usize)
        ensures
            n == self.spec_channels(),
    {
        self.audio_buffers.len()
    }

    /// Gives each channel a window of zeros, one sample longer than
    /// `hold_time` milliseconds span, and a queue of zeros that is one
    /// shorter than the window. The window and one more sample, at four
    /// bytes each, have to fit in what the machine can address.
    pub fn initialize(&mut self, num_channels: usize, sample_rate: u32, hold_time: u32)
        requires
            num_channels >= 1,
            sample_rate > 0,
            4 * (hold_samples(sample_rate, hold_time) + 2) <= isize::MAX,
        ensures
            final(self).wf(),
            final(self).rate() == sample_rate,
            final(self).hold() == hold_time,
            final(self).spec_channels() == num_channels,
            forall|c: int|
                0 <= c < num_channels ==> #[trigger] final(self).window(c) == silence(
                    hold_samples(sample_rate, hold_time) + 1,
                ),
            forall|c: int|
                0 <= c < num_channels ==> #[trigger] final(self).queue(c) == silence(
                    hold_samples(sample_rate, hold_time),
                ),
    {
        assert(sample_rate * hold_time <= u64::MAX) by (nonlinear_arith)
            requires
                0 <= sample_rate <= 0xffff_ffff,
                0 <= hold_time <= 0xffff_ffff,
        ;
        let deque_len: usize = ((sample_rate as u64) * (hold_time as u64) / 1000) as usize;
        let buffer_len: usize = deque_len + 1;
        let mut queues: Vec<VecDeque<i32>> = Vec::new();
        let mut windows: Vec<VecDeque<i32>> = Vec::new();
        let mut started: Vec<bool> = Vec::new();
        let mut channel: usize = 0;
        while channel < num_channels
            invariant
                channel <= num_channels,
                buffer_len == deque_len + 1,
                buffer_len < usize::MAX,
                queues.len() == channel,
                windows.len() == channel,
                started.len() == channel,
                forall|c: int|
                    0 <= c < channel ==> (#[trigger] windows[c])@ == silence(buffer_len as nat)
                        && queues[c]@ == silence(deque_len as nat) && !started[c],
            decreases num_channels - channel,
        {
            let mut queue: VecDeque<i32> = VecDeque::with_capacity(buffer_len);
            let mut window: VecDeque<i32> = VecDeque::with_capacity(buffer_len + 1);
            let mut filled: usize = 0;
            while filled < deque_len
                invariant
                    filled <= deque_len,
                    window@ == silence(filled as nat),
                    queue@ == window@,
                decreases deque_len - filled,
            {
                queue.push_back(0);
                window.push_back(0);
                filled += 1;
                assert(window@ =~= silence(filled as nat));
            }
            window.push_back(0);
            assert(window@ =~= silence(buffer_len as nat));
            let ghost filled_windows = windows@;
            let ghost filled_queues = queues@;
            let ghost filled_started = started@;
            queues.push(queue);
            windows.push(window);
            started.push(false);
            assert forall|c: int| 0 <= c < channel + 1 implies (#[trigger] windows[c])@ == silence(
                buffer_len as nat,
            ) && queues[c]@ == silence(deque_len as nat) && !started[c] by {
                if c < channel {
                    assert(windows[c] == filled_windows[c]);
                    assert(queues[c] == filled_queues[c]);
                    assert(started[c] == filled_started[c]);
                }
            }
            channel += 1;
        }
        self.sample_rate = sample_rate;
        self.hold_time = hold_time;
        self.deques = queues;
        self.audio_buffers = windows;
        self.started = started;
        proof {
            assert forall|c: int| 0 <= c < num_channels implies #[trigger] self.window(c)
                == silence(buffer_len as nat) by {
                assert(self.audio_buffers[c]@ == silence(buffer_len as nat));
            }
            assert forall|c: int| 0 <= c < num_channels implies #[trigger] self.queue(c)
                == silence(deque_len as nat) by {
                assert(self.audio_buffers[c]@ == silence(buffer_len as nat));
            }
        }
    }

    /// Takes one sample into the channel's window, lets the oldest sample
    /// leave it, and returns the largest sample that the window now holds:
    /// the largest of the current sample and those of the hold time before
    /// it. The other channels are left as they are.
    pub fn process(&mut self, channel_idx: usize, input_sample: i32) -> (peak: i32)
        requires
            old(self).wf(),
            channel_idx < old(self).spec_channels(),
        ensures
            final(self).wf(),
            final(self).rate() == old(self).rate(),
            final(self).hold() == old(self).hold(),
            final(self).spec_channels() == old(self).spec_channels(),
            final(self).window(channel_idx as int) == slide(
                old(self).window(channel_idx as int),
                input_sample,
            ),
            final(self).queue(channel_idx as int) == candidates(
                final(self).window(channel_idx as int),
            ),
            peak == window_peak(final(self).window(channel_idx as int)),
            peak >= input_sample,
            forall|c: int|
                0 <= c < old(self).spec_channels() && c != channel_idx
                    ==> #[trigger] final(self).window(c) == old(self).window(c),
            forall|c: int|
                0 <= c < old(self).spec_channels() && c != channel_idx
                    ==> #[trigger] final(self).queue(c) == old(self).queue(c),
    {
        let ghost before = self.audio_buffers[channel_idx as int]@;
        let ghost queued = self.deques[channel_idx as int]@;
        let ghost grown = before.push(input_sample);
        let ghost hold = hold_samples(self.sample_rate, self.hold_time);
        proof {
            assert(before.len() == hold + 1);
        }
        // Drop the candidates that the new sample overtakes.
        loop
            invariant
                channel_idx < self.deques.len(),
                self.deques.len() == old(self).deques.len(),
                self.audio_buffers == old(self).audio_buffers,
                self.started == old(self).started,
                self.sample_rate == old(self).sample_rate,
                self.hold_time == old(self).hold_time,
                forall|c: int|
                    0 <= c < self.deques.len() && c != channel_idx
                        ==> self.deques[c] == old(self).deques[c],
                prune(self.deques[channel_idx as int]@, input_sample) == prune(
                    queued,
                    input_sample,
                ),
            ensures
                self.deques[channel_idx as int]@ == prune(queued, input_sample),
            decreases self.deques[channel_idx as int]@.len(),
        {
            let len: usize = self.deques[channel_idx].len();
            if len == 0 {
                break ;
            }
            let back: i32 = self.deques[channel_idx][len - 1];
            if back < input_sample {
                self.deques[channel_idx].pop_back();
            } else {
                break ;
            }
        }
        self.deques[channel_idx].push_back(input_sample);
        self.audio_buffers[channel_idx].push_back(input_sample);
        // The oldest sample leaves the window.
        let oldest: Option<i32> = self.audio_buffers[channel_idx].pop_front();
        if self.started[channel_idx] {
            // It leaves the queue too where it is the first candidate.
            proof {
                assert(grown.drop_last() == before);
                lemma_candidates_drop_first(grown);
            }
            let front: i32 = self.deques[channel_idx][0];
            if oldest == Some(front) {
                self.deques[channel_idx].pop_front();
            }
        } else {
            // The zero that leaves first is the one that the queue never
            // held.
            proof {
                let rest = silence(hold);
                lemma_candidates_of_silence(hold);
                assert(slide(before, input_sample) =~= rest.push(input_sample));
                assert(rest.push(input_sample).drop_last() == rest);
            }
            self.started[channel_idx] = true;
        }
        let mut peak: i32 = 0;
        if self.deques[channel_idx].len() > 0 {
            peak = self.deques[channel_idx][0];
        }
        proof {
            let after = slide(before, input_sample);
            assert(self.audio_buffers[channel_idx as int]@ == after);
            assert(self.deques[channel_idx as int]@ == candidates(after));
            lemma_candidates(after);
            lemma_peak_covers_newest(after);
            assert(after.last() == input_sample);
            assert forall|c: int| 0 <= c < self.audio_buffers.len() implies {
                &&& (#[trigger] self.audio_buffers[c])@.len() == hold + 1
                &&& self.started[c] ==> self.deques[c]@ == candidates(self.audio_buffers[c]@)
                &&& !self.started[c] ==> self.audio_buffers[c]@ == silence(hold + 1)
                    && self.deques[c]@ == silence(hold)
            } by {
                assert(old(self).audio_buffers[c]@.len() == hold + 1);
                if c != channel_idx {
                    assert(self.audio_buffers[c] == old(self).audio_buffers[c]);
                    assert(self.deques[c] == old(self).deques[c]);
                    assert(self.started[c] == old(self).started[c]);
                }
            }
            assert forall|c: int|
                0 <= c < old(self).spec_channels() && c != channel_idx implies #[trigger] self.window(
                c,
            ) == old(self).window(c) by {
                assert(self.audio_buffers[c] == old(self).audio_buffers[c]);
            }
            assert forall|c: int|
                0 <= c < old(self).spec_channels() && c != channel_idx implies #[trigger] self.queue(
                c,
            ) == old(self).queue(c) by {
                assert(self.audio_buffers[c] == old(self).audio_buffers[c]);
                assert(self.deques[c] == old(self).deques[c]);
            }
        }
        peak
    }
}

impl Default for PeakHold {
    /// A tracker with no channels: it has to be initialized before it is
    /// used.
    fn default() -> (tracker: Self)
        ensures
            tracker.wf(),
            tracker.rate() == 0,
            tracker.hold() == 0,
            tracker.spec_channels() == 0,
    {
        PeakHold {
            sample_rate: 0,
            hold_time: 0,
            deques: Vec::new(),
            audio_buffers: Vec::new(),
            started: Vec::new(),
        }
    }
}

} // verus!
