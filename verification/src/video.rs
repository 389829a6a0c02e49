//! The payload of a video tag: a one-byte sub-header and an opaque block.

use vstd::prelude::*;
use crate::error::{parsed, parsed_view, FormatError, ParseError, Parsed};
use crate::primitive::{be_u8, take};

verus! {

/// The kind of frame, from the high four bits of the sub-header.
#[derive(Clone, Copy, Debug, PartialEq, Eq)]
pub enum FrameType {
    /// Code 1: a key frame, at which a decoder can start.
    Key,
    /// Code 2: an inter frame.
    Inter,
    /// Code 3: a disposable inter frame.
    DisposableInter,
    /// Code 4: a generated key frame.
    Generated,
    /// Code 5: a video info or command frame.
    Command,
}

/// The codec of the video data, from the low four bits of the sub-header.
#[derive(Clone, Copy, Debug, PartialEq, Eq)]
pub enum CodecID {
    /// Code 1.
    JPEG,
    /// Code 2: Sorenson H.263.
    H263,
    /// Code 3: screen video.
    Screen,
    /// Code 4: On2 VP6.
    VP6,
    /// Code 5: On2 VP6 with an alpha channel.
    VP6A,
    /// Code 6: screen video, version 2.
    Screen2,
    /// Code 7.
    AVC,
}

/// The sub-header of a video tag, decoded from the first byte of its payload.
#[derive(Clone, Copy, Debug, PartialEq, Eq)]
pub struct VideoTagHeader {
    /// Bits 7 to 4.
    pub frame_type: FrameType,
    /// Bits 3 to 0.
    pub codec_id: CodecID,
}

/// The payload of a video tag.
#[derive(Clone, Copy, Debug, PartialEq, Eq)]
pub struct VideoTag<'a> {
    /// The decoded sub-header.
    pub header: VideoTagHeader,
    /// The coded video behind the sub-header, borrowed from the input.
    pub data: &'a [u8],
}

/// The mathematical content of a [`VideoTag`].
pub struct VideoTagView {
    pub header: VideoTagHeader,
    pub data: Seq<u8>,
}

impl<'a> View for VideoTag<'a> {
    type V = VideoTagView;

    open spec fn view(&self) -> VideoTagView {
        VideoTagView { header: self.header, data: self.data@ }
    }
}

/// The frame type that a four-bit code stands for; only 1 to 5 are defined.
pub open spec fn spec_frame_type(code: u8) -> Option<FrameType> {
    if code == 1 {
        Some(FrameType::Key)
    } else if code == 2 {
        Some(FrameType::Inter)
    } else if code == 3 {
        Some(FrameType::DisposableInter)
    } else if code == 4 {
        Some(FrameType::Generated)
    } else if code == 5 {
        Some(FrameType::Command)
    } else {
        None
    }
}

/// The codec that a four-bit code stands for; only 1 to 7 are defined.
pub open spec fn spec_codec_id(code: u8) -> Option<CodecID> {
    if code == 1 {
        Some(CodecID::JPEG)
    } else if code == 2 {
        Some(CodecID::H263)
    } else if code == 3 {
        Some(CodecID::Screen)
    } else if code == 4 {
        Some(CodecID::VP6)
    } else if code == 5 {
        Some(CodecID::VP6A)
    } else if code == 6 {
        Some(CodecID::Screen2)
    } else if code == 7 {
        Some(CodecID::AVC)
    } else {
        None
    }
}

/// What the sub-header byte `b` encodes: the frame type is looked at first,
/// then the codec.
pub open spec fn spec_video_header_of(b: u8) -> Result<VideoTagHeader, FormatError> {
    match spec_frame_type(b >> 4) {
        None => Err(FormatError::UnknownFrameType),
        Some(frame_type) => match spec_codec_id(b & 0x0f) {
            None => Err(FormatError::UnknownCodecId),
            Some(codec_id) => Ok(VideoTagHeader { frame_type, codec_id }),
        },
    }
}

/// The outcome of decoding a video sub-header from the front of `s`.
pub open spec fn spec_video_header(s: Seq<u8>) -> Parsed<VideoTagHeader> {
    if s.len() < 1 {
        Err(ParseError::Incomplete(1))
    } else {
        match spec_video_header_of(s[0]) {
            Ok(header) => Ok((header, s.skip(1))),
            Err(kind) => Err(ParseError::Format(kind)),
        }
    }
}

/// The outcome of decoding a video payload of `size` bytes from the front of `s`.
///
/// Fewer than `size` bytes are a shortage. Otherwise the first `size` bytes
/// are the payload: one sub-header byte, then the coded video.
pub open spec fn spec_video_tag(s: Seq<u8>, size: nat) -> Parsed<VideoTagView> {
    if s.len() < size {
        Err(ParseError::Incomplete((size - s.len()) as usize))
    } else if size < 1 {
        Err(ParseError::Format(FormatError::PayloadTooShort))
    } else {
        match spec_video_header_of(s[0]) {
            Ok(header) => Ok(
                (VideoTagView { header, data: s.subrange(1, size as int) }, s.skip(size as int)),
            ),
            Err(kind) => Err(ParseError::Format(kind)),
        }
    }
}

impl FrameType {
    /// Decodes a frame-type code; `None` for every code but 1 to 5.
    pub fn from_code(code: u8) -> (r: Option<FrameType>)
        ensures
            r == spec_frame_type(code),
    {
        match code {
            1 => Some(FrameType::Key),
            2 => Some(FrameType::Inter),
            3 => Some(FrameType::DisposableInter),
            4 => Some(FrameType::Generated),
            5 => Some(FrameType::Command),
            _ => None,
        }
    }
}

impl CodecID {
    /// Decodes a codec code; `None` for every code but 1 to 7.
    pub fn from_code(code: u8) -> (r: Option<CodecID>)
        ensures
            r == spec_codec_id(code),
    {
        match code {
            1 => Some(CodecID::JPEG),
            2 => Some(CodecID::H263),
            3 => Some(CodecID::Screen),
            4 => Some(CodecID::VP6),
            5 => Some(CodecID::VP6A),
            6 => Some(CodecID::Screen2),
            7 => Some(CodecID::AVC),
            _ => None,
        }
    }
}

impl VideoTagHeader {
    /// Decodes the one-byte sub-header at the front of `input`.
    pub fn parse(input: &[u8]) -> (r: Result<(&[u8], VideoTagHeader), ParseError>)
        ensures
            parsed(r) == spec_video_header(input@),
    {
        let (rest, b) = be_u8(input)?;
        let frame_type = match FrameType::from_code(b >> 4) {
            Some(t) => t,
            None => {
                return Err(ParseError::Format(FormatError::UnknownFrameType));
            },
        };
        let codec_id = match CodecID::from_code(b & 0x0f) {
            Some(c) => c,
            None => {
                return Err(ParseError::Format(FormatError::UnknownCodecId));
            },
        };
        Ok((rest, VideoTagHeader { frame_type, codec_id }))
    }
}

impl<'a> VideoTag<'a> {
    /// Decodes a video payload of `size` bytes at the front of `input`.
    ///
    /// On success exactly `size` bytes are consumed: the sub-header byte and
    /// `size - 1` bytes of coded video, which are borrowed, not copied.
    pub fn parse(input: &'a [u8], size: usize) -> (r: Result<(&'a [u8], VideoTag<'a>), ParseError>)
        ensures
            parsed_view(r) == spec_video_tag(input@, size as nat),
            r matches Ok((rest, tag)) ==> rest@ == input@.skip(size as int) && 1 + tag.data@.len()
                == size,
            r matches Err(ParseError::Incomplete(_)) ==> input@.len() < size,
    {
        let (rest, payload) = take(input, size)?;
        match VideoTagHeader::parse(payload) {
            Ok((data, header)) => {
                proof {
                    assert(input@.take(size as int).skip(1) =~= input@.subrange(1, size as int));
                }
                Ok((rest, VideoTag { header, data }))
            },
            Err(e) => Err(e.within_payload()),
        }
    }
}

} // verus!
