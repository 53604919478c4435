//! What the analysis core asks of the party that captures audio.

use vstd::prelude::*;

verus! {

/// A capture backend: it owns the producer end of a ring and feeds it while
/// it runs.
pub trait AudioBackend {
    /// Starts the capture, or says why it cannot. A backend that runs stays
    /// running; one that fails stays stopped.
    fn start(&mut self) -> Result<(), String>;

    /// Stops the capture. Stopping a stopped backend does nothing.
    fn stop(&mut self);
}

/// A source of audio with a fixed format.
pub trait AudioSource {
    /// The sample rate of the source, in hertz.
    fn sample_rate(&self) -> u32;

    /// The number of interleaved channels of the source.
    fn channels(&self) -> usize;

    /// Starts the source.
    fn start(&mut self);

    /// Stops the source.
    fn stop(&mut self);
}

} // verus!
