//! What the pipeline fixes of its two resamplers.
//!
//! The processing core runs at 48 kHz on one channel. One resampler brings
//! the capture device's rate to the core's, the other brings the core's rate
//! to the playback device's. Both are fed fixed chunks of 960 frames.

use crate::codec::CORE_RATE;
use vstd::prelude::*;

verus! {

/// The number of frames that a resampler is fed in one step.
pub const RESAMPLE_CHUNK: usize = 960;

/// The number of channels of the processing core.
pub const CORE_CHANNELS: usize = 1;

/// The parameters that a fixed-input resampler is made with.
#[derive(Clone, Copy, Debug, PartialEq, Eq, Structural)]
pub struct ResamplerPlan {
    pub from_rate: usize,
    pub to_rate: usize,
    pub chunk: usize,
    pub sub_chunks: usize,
    pub channels: usize,
}

impl ResamplerPlan {
    /// The resampler between a capture device at `device_rate` and the core.
    pub open spec fn toward_core(device_rate: u32) -> ResamplerPlan {
        ResamplerPlan {
            from_rate: device_rate as usize,
            to_rate: CORE_RATE as usize,
            chunk: RESAMPLE_CHUNK,
            sub_chunks: 1,
            channels: CORE_CHANNELS,
        }
    }

    /// The resampler between the core and a playback device at `device_rate`.
    pub open spec fn from_core(device_rate: u32) -> ResamplerPlan {
        ResamplerPlan {
            from_rate: CORE_RATE as usize,
            to_rate: device_rate as usize,
            chunk: RESAMPLE_CHUNK,
            sub_chunks: 1,
            channels: CORE_CHANNELS,
        }
    }

    /// Whether input and output run at the same rate.
    pub open spec fn matched(self) -> bool {
        self.from_rate == self.to_rate
    }

    /// Plans the resampler that follows capture.
    pub fn capture_side(device_rate: u32) -> (plan: ResamplerPlan)
        ensures
            plan == ResamplerPlan::toward_core(device_rate),
            plan.matched() <==> device_rate == CORE_RATE,
    {
        ResamplerPlan {
            from_rate: device_rate as usize,
            to_rate: CORE_RATE as usize,
            chunk: RESAMPLE_CHUNK,
            sub_chunks: 1,
            channels: CORE_CHANNELS,
        }
    }

    /// Plans the resampler that precedes playback.
    pub fn playback_side(device_rate: u32) -> (plan: ResamplerPlan)
        ensures
            plan == ResamplerPlan::from_core(device_rate),
            plan.matched() <==> device_rate == CORE_RATE,
    {
        ResamplerPlan {
            from_rate: CORE_RATE as usize,
            to_rate: device_rate as usize,
            chunk: RESAMPLE_CHUNK,
            sub_chunks: 1,
            channels: CORE_CHANNELS,
        }
    }
}

} // verus!
