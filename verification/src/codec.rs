//! What the pipeline fixes of the speech codec.
//!
//! Both peers run the codec at 48 kHz on frames of 20 ms, one encoded frame
//! to a datagram. The codec knows mono and stereo and nothing beyond.

use vstd::prelude::*;

verus! {

/// The sample rate of the processing core and of the codec, in Hz.
pub const CORE_RATE: u32 = 48000;

/// The number of samples in one codec frame: 20 ms at the core rate.
pub const CODEC_FRAME: usize = 960;

/// The room, in bytes, that is kept for one encoded frame.
pub const PACKET_ROOM: usize = 960;

/// The channel layouts of the codec.
#[derive(Clone, Copy, Debug, PartialEq, Eq, Structural)]
pub enum CodecChannels {
    Mono,
    Stereo,
}

/// Why a codec cannot be made.
#[derive(Clone, Copy, Debug, PartialEq, Eq, Structural)]
pub enum CodecError {
    /// More channels were asked for than the codec has.
    TooManyChannels,
}

/// The layout that the codec runs in for a count of channels.
pub open spec fn layout_for(channels: nat) -> Result<CodecChannels, CodecError> {
    if channels > 2 {
        Err(CodecError::TooManyChannels)
    } else if channels == 2 {
        Ok(CodecChannels::Stereo)
    } else {
        Ok(CodecChannels::Mono)
    }
}

/// Chooses the codec's layout: stereo for two channels, mono below, and an
/// error above.
pub fn codec_channels(channels: usize) -> (layout: Result<CodecChannels, CodecError>)
    ensures
        layout == layout_for(channels as nat),
        layout is Err <==> channels > 2,
{
    if channels > 2 {
        Err(CodecError::TooManyChannels)
    } else if channels == 2 {
        Ok(CodecChannels::Stereo)
    } else {
        Ok(CodecChannels::Mono)
    }
}

} // verus!
