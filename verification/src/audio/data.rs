use crate::float::number::{Double, Single};
use std::sync::Arc;
use vstd::prelude::*;

verus! {

/// Decoded audio.
pub struct AudioData {
    /// Interleaved: the samples of one frame, one per channel, stand together.
    pub samples: Arc<Vec<Single>>,
    pub channels: usize,
    pub sample_rate: u32,
    pub total_frames: u64,
    pub duration_secs: Double,
}

/// Another handle to the same samples: `std::sync::Arc::clone`, which copies the
/// pointer and leaves the allocation it points to as it is.
#[verifier::external_body]
pub(crate) fn share_samples(samples: &Arc<Vec<Single>>) -> (r: Arc<Vec<Single>>)
    ensures
        r == *samples,
{
    Arc::clone(samples)
}

impl Clone for AudioData {
    /// The same audio; the samples are shared, not copied.
    fn clone(&self) -> (r: AudioData)
        ensures
            r == *self,
    {
        AudioData {
            samples: share_samples(&self.samples),
            channels: self.channels,
            sample_rate: self.sample_rate,
            total_frames: self.total_frames,
            duration_secs: self.duration_secs,
        }
    }
}

} // verus!
