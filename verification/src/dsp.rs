//! The signal analyzer: once per tick it takes the samples that have come in
//! out of the ring and computes their loudness and, if asked, their pitch.

use crate::audio_bridge::{drain, seen_samples, starts_with, BUFFER_SIZE, SAMPLE_RATE};
use crate::level::{rms, rms_of};
use crate::note::{freq_to_note, note_text, semitone_of};
use crate::pitch::{autocorrelation, pitch_of, MAX_WINDOW};
use crate::ring::{after_pop_block, block_of, AudioRingBuffer};
use vstd::prelude::*;

verus! {

/// The frequency reported for `window`: its pitch where pitch detection is
/// asked for, none otherwise.
pub open spec fn frequency_of(window: Seq<i16>, sample_rate: u32, detect_pitch: bool) -> Option<
    int,
> {
    if detect_pitch {
        pitch_of(window, sample_rate)
    } else {
        None
    }
}

/// The note reported with `frequency`: the name of the nearest note, none
/// where there is no frequency.
pub open spec fn note_of(frequency: Option<int>) -> Option<Seq<char>> {
    match frequency {
        Some(f) => Some(note_text(semitone_of(f))),
        None => None,
    }
}

/// `window` thinned out to `n` samples: every `window.len() / n`-th sample,
/// from the first on. A window of at most `n` samples stays as it is.
pub open spec fn downsampled(window: Seq<i16>, n: nat) -> Seq<i16> {
    if window.len() <= n {
        window
    } else if n == 0 {
        Seq::empty()
    } else {
        Seq::new(n, |i: int| window[i * (window.len() / n) as int])
    }
}

/// An empty window thins out to nothing, a window no longer than `n` to
/// itself, and a longer one to exactly `n` samples.
pub proof fn lemma_downsampled_len(window: Seq<i16>, n: nat)
    ensures
        window.len() == 0 ==> downsampled(window, n) == Seq::<i16>::empty(),
        window.len() <= n ==> downsampled(window, n) == window,
        window.len() > n ==> downsampled(window, n).len() == n,
{
    if window.len() == 0 {
        assert(window =~= Seq::<i16>::empty());
    }
}

/// `buffer` thinned out to `n` samples.
pub fn downsample(buffer: &[i16], n: usize) -> (out: Vec<i16>)
    ensures
        out@ == downsampled(buffer@, n as nat),
{
    let len = buffer.len();
    let mut out: Vec<i16> = Vec::new();
    if len <= n {
        let mut k: usize = 0;
        while k < len
            invariant
                len == buffer@.len(),
                k <= len,
                out@ == buffer@.take(k as int),
            decreases len - k,
        {
            out.push(buffer[k]);
            assert(out@ =~= buffer@.take(k + 1));
            k = k + 1;
        }
        assert(buffer@.take(len as int) =~= buffer@);
        return out;
    }
    if n == 0 {
        return out;
    }
    let stride = len / n;
    let mut i: usize = 0;
    while i < n
        invariant
            len == buffer@.len(),
            0 < n < len,
            stride == len / n,
            i <= n,
            out@.len() == i,
            out@ == downsampled(buffer@, n as nat).take(i as int),
        decreases n - i,
    {
        proof {
            assert(n * stride <= len && stride >= 1) by (nonlinear_arith)
                requires
                    0 < n < len,
                    stride == len / n,
            ;
            assert(i * stride + stride <= n * stride) by (nonlinear_arith)
                requires
                    i + 1 <= n,
                    stride >= 0,
            ;
        }
        out.push(buffer[i * stride]);
        assert(out@ =~= downsampled(buffer@, n as nat).take(i + 1));
        i = i + 1;
    }
    assert(out@ =~= downsampled(buffer@, n as nat));
    out
}

/// What an analysis holds, as plain values.
pub struct AnalysisView {
    /// The window that was analyzed.
    pub window: Seq<i16>,
    /// Its loudness.
    pub rms: nat,
    /// Its fundamental frequency in millihertz, if one was detected.
    pub frequency: Option<int>,
    /// The name of the note nearest to that frequency.
    pub note: Option<Seq<char>>,
}

/// A window of samples with what was computed from it.
pub struct Analysis {
    window: Vec<i16>,
    rms: u16,
    frequency: Option<u64>,
    note: Option<String>,
}

impl View for Analysis {
    type V = AnalysisView;

    closed spec fn view(&self) -> AnalysisView {
        AnalysisView {
            window: self.window@,
            rms: self.rms as nat,
            frequency: match self.frequency {
                Some(f) => Some(f as int),
                None => None,
            },
            note: match self.note {
                Some(name) => Some(name@),
                None => None,
            },
        }
    }
}

impl Analysis {
    #[verifier::type_invariant]
    spec fn inv(self) -> bool {
        &&& self.rms == rms_of(self.window@)
        &&& self@.note == note_of(self@.frequency)
        &&& self.frequency matches Some(f) ==> f > 0
    }

    /// The analysis of no samples: no loudness, no pitch.
    pub fn empty() -> (analysis: Analysis)
        ensures
            analysis@ == (AnalysisView {
                window: Seq::empty(),
                rms: 0,
                frequency: None,
                note: None,
            }),
    {
        Analysis { window: Vec::new(), rms: 0, frequency: None, note: None }
    }

    /// The analysis of `window`: its loudness and, where `detect_pitch` is
    /// set, its pitch at `sample_rate` hertz with the note nearest to it.
    pub fn of(window: Vec<i16>, sample_rate: u32, detect_pitch: bool) -> (analysis: Analysis)
        requires
            window@.len() <= MAX_WINDOW,
        ensures
            analysis@.window == window@,
            analysis@.rms == rms_of(window@),
            analysis@.frequency == frequency_of(window@, sample_rate, detect_pitch),
            analysis@.note == note_of(analysis@.frequency),
    {
        let level = rms(window.as_slice());
        let frequency = if detect_pitch {
            autocorrelation(window.as_slice(), sample_rate)
        } else {
            None
        };
        let note = match frequency {
            Some(f) => Some(freq_to_note(f)),
            None => None,
        };
        Analysis { window, rms: level, frequency, note }
    }

    /// One tick on a channel: takes the oldest samples off `channel`, up to
    /// `BUFFER_SIZE` of them, and analyzes them.
    pub fn tick(channel: &mut AudioRingBuffer, sample_rate: u32, detect_pitch: bool) -> (analysis:
        Analysis)
        ensures
            analysis@.window == block_of(old(channel)@, BUFFER_SIZE as nat),
            final(channel)@ == after_pop_block(old(channel)@, BUFFER_SIZE as nat),
            final(channel).limit() == old(channel).limit(),
            analysis@.rms == rms_of(analysis@.window),
            analysis@.frequency == frequency_of(analysis@.window, sample_rate, detect_pitch),
            analysis@.note == note_of(analysis@.frequency),
    {
        let queued = channel.len();
        let take = if queued <= BUFFER_SIZE {
            queued
        } else {
            BUFFER_SIZE
        };
        let mut window: Vec<i16> = vec![0i16; take];
        channel.pop_block(window.as_mut_slice());
        assert(window@ =~= block_of(old(channel)@, BUFFER_SIZE as nat));
        assert(channel@ =~= after_pop_block(old(channel)@, BUFFER_SIZE as nat));
        Analysis::of(window, sample_rate, detect_pitch)
    }

    /// The loudness of the window.
    pub fn get_rms(&self) -> (level: u16)
        ensures
            level == self@.rms,
            level == rms_of(self@.window),
    {
        proof {
            use_type_invariant(self);
        }
        self.rms
    }

    /// The fundamental frequency of the window in millihertz, if one was
    /// detected.
    pub fn get_frequency(&self) -> (frequency: Option<u64>)
        ensures
            match frequency {
                Some(f) => f > 0 && self@.frequency == Some(f as int),
                None => self@.frequency is None,
            },
    {
        proof {
            use_type_invariant(self);
        }
        self.frequency
    }

    /// The name of the note nearest to the detected frequency.
    pub fn get_note(&self) -> (note: Option<String>)
        ensures
            match note {
                Some(name) => self@.note == Some(name@),
                None => self@.note is None,
            },
            self@.note == note_of(self@.frequency),
    {
        proof {
            use_type_invariant(self);
        }
        match &self.note {
            Some(name) => Some(name.clone()),
            None => None,
        }
    }

    /// The window thinned out to `n` samples, for display.
    pub fn get_samples(&self, n: usize) -> (samples: Vec<i16>)
        ensures
            samples@ == downsampled(self@.window, n as nat),
    {
        downsample(self.window.as_slice(), n)
    }
}

/// The analyzer at the consumer end of the ring.
pub struct DigitalSignalProcessor {
    consumer: rtrb::Consumer<i16>,
    analysis: Analysis,
    sample_rate: u32,
    detect_pitch: bool,
}

impl DigitalSignalProcessor {
    /// What the last tick computed.
    pub closed spec fn analysis(&self) -> AnalysisView {
        self.analysis@
    }

    /// The sample rate that pitches are computed at, in hertz.
    pub closed spec fn rate(&self) -> u32 {
        self.sample_rate
    }

    /// Whether a tick detects the pitch.
    pub closed spec fn detects_pitch(&self) -> bool {
        self.detect_pitch
    }

    /// The consumer end of the ring that the ticks read from.
    pub closed spec fn consumer_end(&self) -> rtrb::Consumer<i16> {
        self.consumer
    }

    /// An analyzer that reads from `consumer`. It has analyzed nothing yet,
    /// assumes `SAMPLE_RATE`, and does not detect the pitch.
    pub fn new(consumer: rtrb::Consumer<i16>) -> (dsp: Self)
        ensures
            dsp.analysis() == (AnalysisView {
                window: Seq::empty(),
                rms: 0,
                frequency: None,
                note: None,
            }),
            dsp.rate() == SAMPLE_RATE,
            !dsp.detects_pitch(),
            dsp.consumer_end() == consumer,
    {
        DigitalSignalProcessor {
            consumer,
            analysis: Analysis::empty(),
            sample_rate: SAMPLE_RATE,
            detect_pitch: false,
        }
    }

    /// Sets the sample rate of the samples to come, once the capture backend
    /// knows it.
    pub fn set_sample_rate(&mut self, sample_rate: u32)
        ensures
            final(self).rate() == sample_rate,
            final(self).analysis() == old(self).analysis(),
            final(self).detects_pitch() == old(self).detects_pitch(),
            final(self).consumer_end() == old(self).consumer_end(),
    {
        self.sample_rate = sample_rate;
    }

    /// Asks the ticks to come to detect the pitch, or not to.
    pub fn set_pitch_detection(&mut self, detect_pitch: bool)
        ensures
            final(self).detects_pitch() == detect_pitch,
            final(self).analysis() == old(self).analysis(),
            final(self).rate() == old(self).rate(),
            final(self).consumer_end() == old(self).consumer_end(),
    {
        self.detect_pitch = detect_pitch;
    }

    /// One tick: takes up to `BUFFER_SIZE` samples out of the ring and
    /// analyzes them. Nothing of the tick before is kept: with no samples the
    /// loudness is 0 and there is no pitch. The samples that the consumer end
    /// had seen queued are the first of the window, in their order; where
    /// they fill the window the rest of them stays seen, and a window that
    /// is not full leaves the end having seen the ring empty.
    pub fn update(&mut self)
        ensures
            final(self).analysis().window.len() <= BUFFER_SIZE,
            starts_with(
                final(self).analysis().window,
                block_of(seen_samples(old(self).consumer_end()), BUFFER_SIZE as nat),
            ),
            BUFFER_SIZE <= seen_samples(old(self).consumer_end()).len() ==> seen_samples(
                final(self).consumer_end(),
            ) == after_pop_block(seen_samples(old(self).consumer_end()), BUFFER_SIZE as nat),
            final(self).analysis().window.len() < BUFFER_SIZE ==> seen_samples(
                final(self).consumer_end(),
            ).len() == 0,
            final(self).analysis().rms == rms_of(final(self).analysis().window),
            final(self).analysis().frequency == frequency_of(
                final(self).analysis().window,
                old(self).rate(),
                old(self).detects_pitch(),
            ),
            final(self).analysis().note == note_of(final(self).analysis().frequency),
            final(self).rate() == old(self).rate(),
            final(self).detects_pitch() == old(self).detects_pitch(),
    {
        let window = drain(&mut self.consumer, BUFFER_SIZE);
        self.analysis = Analysis::of(window, self.sample_rate, self.detect_pitch);
    }

    /// One tick on samples that did not come through the ring: analyzes the
    /// first `BUFFER_SIZE` samples of `block`.
    pub fn process_block(&mut self, block: &[i16])
        ensures
            final(self).analysis().window == block@.take(
                if block@.len() <= BUFFER_SIZE {
                    block@.len() as int
                } else {
                    BUFFER_SIZE as int
                },
            ),
            final(self).analysis().rms == rms_of(final(self).analysis().window),
            final(self).analysis().frequency == frequency_of(
                final(self).analysis().window,
                old(self).rate(),
                old(self).detects_pitch(),
            ),
            final(self).analysis().note == note_of(final(self).analysis().frequency),
            final(self).rate() == old(self).rate(),
            final(self).detects_pitch() == old(self).detects_pitch(),
            final(self).consumer_end() == old(self).consumer_end(),
    {
        let len = if block.len() <= BUFFER_SIZE {
            block.len()
        } else {
            BUFFER_SIZE
        };
        let mut window: Vec<i16> = Vec::new();
        let mut k: usize = 0;
        while k < len
            invariant
                len <= block@.len(),
                k <= len,
                window@ == block@.take(k as int),
            decreases len - k,
        {
            window.push(block[k]);
            assert(window@ =~= block@.take(k + 1));
            k = k + 1;
        }
        self.analysis = Analysis::of(window, self.sample_rate, self.detect_pitch);
    }

    /// The loudness of the last tick's window.
    pub fn get_rms(&self) -> (level: u16)
        ensures
            level == self.analysis().rms,
            level == rms_of(self.analysis().window),
    {
        self.analysis.get_rms()
    }

    /// The fundamental frequency of the last tick's window in millihertz, if
    /// one was detected.
    pub fn get_frequency(&self) -> (frequency: Option<u64>)
        ensures
            match frequency {
                Some(f) => f > 0 && self.analysis().frequency == Some(f as int),
                None => self.analysis().frequency is None,
            },
    {
        self.analysis.get_frequency()
    }

    /// The name of the note nearest to the detected frequency.
    pub fn get_note(&self) -> (note: Option<String>)
        ensures
            match note {
                Some(name) => self.analysis().note == Some(name@),
                None => self.analysis().note is None,
            },
            self.analysis().note == note_of(self.analysis().frequency),
    {
        self.analysis.get_note()
    }

    /// The last tick's window thinned out to `n` samples, for display.
    pub fn get_samples(&self, n: usize) -> (samples: Vec<i16>)
        ensures
            samples@ == downsampled(self.analysis().window, n as nat),
    {
        self.analysis.get_samples(n)
    }
}

} // verus!
