//! Plain settings of the capture device.
use vstd::prelude::*;

use crate::text::push_str;

verus! {

/// How the screen mirror is started.
#[derive(Debug)]
pub struct ScrcpyConfig {
    pub max_size: u16,
    pub max_fps: u16,
    pub video_bit_rate: String,
    pub video_codec: String,
    pub launch_app: String,
}

fn owned(s: &str) -> (r: String)
    ensures
        r@ == s@,
{
    let mut out = String::new();
    push_str(&mut out, s);
    proof {
        assert(out@ =~= s@);
    }
    out
}

impl Default for ScrcpyConfig {
    fn default() -> (r: Self)
        ensures
            r.max_size == 800,
            r.max_fps == 15,
            r.video_bit_rate@ == "2M"@,
            r.video_codec@ == "h264"@,
            r.launch_app@ == "com.no1ornothing.color.water.sort.woody.puzzle"@,
    {
        Self {
            max_size: 800,
            max_fps: 15,
            video_bit_rate: owned("2M"),
            video_codec: owned("h264"),
            launch_app: owned("com.no1ornothing.color.water.sort.woody.puzzle"),
        }
    }
}

/// The size of the mirrored screen, in pixels.
#[derive(Debug, Clone, Copy, PartialEq, Eq, Structural)]
pub struct StreamDimensions {
    pub width: usize,
    pub height: usize,
}

/// The number a big-endian 32-bit field gives.
pub open spec fn be_u32(b0: u8, b1: u8, b2: u8, b3: u8) -> int {
    b0 * 16777216 + b1 * 65536 + b2 * 256 + b3
}

fn read_be_u32(b0: u8, b1: u8, b2: u8, b3: u8) -> (r: u32)
    ensures
        r as int == be_u32(b0, b1, b2, b3),
{
    (b0 as u32) * 16777216 + (b1 as u32) * 65536 + (b2 as u32) * 256 + (b3 as u32)
}

/// The id of the H.264 codec in the stream header, `h264` in ASCII.
pub const H264_CODEC_ID: u32 = 0x6832_3634;

/// Why a video stream header is refused.
#[derive(Debug, Clone, Copy, PartialEq, Eq, Structural)]
pub enum VideoHeaderError {
    /// The stream is not H.264; the codec id it gives.
    UnexpectedCodec(u32),
    /// The stream gives no picture: its width and height.
    InvalidDimensions(u32, u32),
}

/// Reads the 12-byte header that opens the mirrored video stream: the codec
/// id, then the width and the height, each a big-endian 32-bit number. The
/// codec must be H.264 and both sizes non-zero.
pub fn read_video_codec_header(header: &[u8; 12]) -> (r: Result<StreamDimensions, VideoHeaderError>)
    ensures
        ({
            let h = header@;
            let codec = be_u32(h[0], h[1], h[2], h[3]);
            let width = be_u32(h[4], h[5], h[6], h[7]);
            let height = be_u32(h[8], h[9], h[10], h[11]);
            if codec != H264_CODEC_ID {
                r matches Err(VideoHeaderError::UnexpectedCodec(c)) && c == codec
            } else if width == 0 || height == 0 {
                r matches Err(VideoHeaderError::InvalidDimensions(w, v)) && w == width && v == height
            } else {
                r matches Ok(d) && d.width == width && d.height == height
            }
        }),
{
    let codec = read_be_u32(header[0], header[1], header[2], header[3]);
    if codec != H264_CODEC_ID {
        return Err(VideoHeaderError::UnexpectedCodec(codec));
    }
    let width = read_be_u32(header[4], header[5], header[6], header[7]);
    let height = read_be_u32(header[8], header[9], header[10], header[11]);
    if width == 0 || height == 0 {
        return Err(VideoHeaderError::InvalidDimensions(width, height));
    }
    Ok(StreamDimensions { width: width as usize, height: height as usize })
}

} // verus!
