//! Reading the loudness straight off a channel.

use crate::level::{rms, rms_of};
use crate::ring::AudioRingBuffer;
use vstd::prelude::*;

verus! {

/// Something that samples are queued in and whose loudness can be read.
pub trait RingReader {
    /// The loudness of what is queued.
    fn get_rms(&mut self) -> u16;
}

impl RingReader for AudioRingBuffer {
    /// The loudness of the queued samples, which stay queued.
    fn get_rms(&mut self) -> (level: u16)
        ensures
            level == rms_of(old(self)@),
            final(self)@ == old(self)@,
            final(self).limit() == old(self).limit(),
    {
        let n = self.len();
        let mut window: Vec<i16> = vec![0i16; n];
        let read = self.peek_block(window.as_mut_slice());
        assert(window@ =~= self@);
        rms(window.as_slice())
    }
}

} // verus!
