//! The payload of an audio tag: a one-byte sub-header and an opaque block.

use vstd::prelude::*;
use crate::error::{parsed, parsed_view, FormatError, ParseError, Parsed};
use crate::primitive::{be_u8, take};

verus! {

/// The coding of the audio data, from the high four bits of the sub-header.
#[allow(non_camel_case_types)]
#[derive(Clone, Copy, Debug, PartialEq, Eq)]
pub enum SoundFormat {
    /// Code 0: linear PCM in the byte order of the recording platform.
    PcmPlatformEndian,
    /// Code 1.
    ADPCM,
    /// Code 2.
    MP3,
    /// Code 3: linear PCM, little endian.
    PcmLittleEndian,
    /// Code 4: Nellymoser, 16 kHz mono.
    Nellymoser16kHzMono,
    /// Code 5: Nellymoser, 8 kHz mono.
    Nellymoser8kHzMono,
    /// Code 6.
    Nellymoser,
    /// Code 7: G.711 A-law logarithmic PCM.
    PcmALaw,
    /// Code 8: G.711 mu-law logarithmic PCM.
    PcmMuLaw,
    /// Code 9, which the format reserves.
    Reserved,
    /// Code 10.
    AAC,
    /// Code 11.
    Speex,
    /// Code 14: MP3 at 8 kHz.
    MP3_8kHz,
    /// Code 15: a device-specific sound.
    DeviceSpecific,
}

/// The sampling rate, from bits 3 and 2 of the sub-header.
#[allow(non_camel_case_types)]
#[derive(Clone, Copy, Debug, PartialEq, Eq)]
pub enum SoundRate {
    /// Code 0: 5.5 kHz.
    _5_5KHZ,
    /// Code 1: 11 kHz.
    _11KHZ,
    /// Code 2: 22 kHz.
    _22KHZ,
    /// Code 3: 44 kHz.
    _44KHZ,
}

/// The size of one sample, from bit 1 of the sub-header.
#[allow(non_camel_case_types)]
#[derive(Clone, Copy, Debug, PartialEq, Eq)]
pub enum SoundSize {
    /// Bit clear: 8-bit samples.
    _8Bit,
    /// Bit set: 16-bit samples.
    _16Bit,
}

/// The channel layout, from bit 0 of the sub-header.
#[derive(Clone, Copy, Debug, PartialEq, Eq)]
pub enum SoundType {
    /// Bit clear: one channel.
    Mono,
    /// Bit set: two channels.
    Stereo,
}

/// The sub-header of an audio tag, decoded from the first byte of its payload.
#[derive(Clone, Copy, Debug, PartialEq, Eq)]
pub struct AudioTagHeader {
    /// Bits 7 to 4.
    pub sound_format: SoundFormat,
    /// Bits 3 and 2.
    pub sound_rate: SoundRate,
    /// Bit 1.
    pub sound_size: SoundSize,
    /// Bit 0.
    pub sound_type: SoundType,
}

/// The payload of an audio tag.
#[derive(Clone, Copy, Debug, PartialEq, Eq)]
pub struct AudioTag<'a> {
    /// The decoded sub-header.
    pub header: AudioTagHeader,
    /// The coded audio behind the sub-header, borrowed from the input.
    pub data: &'a [u8],
}

/// The mathematical content of an [`AudioTag`].
pub struct AudioTagView {
    pub header: AudioTagHeader,
    pub data: Seq<u8>,
}

impl<'a> View for AudioTag<'a> {
    type V = AudioTagView;

    open spec fn view(&self) -> AudioTagView {
        AudioTagView { header: self.header, data: self.data@ }
    }
}

/// The sound format that a four-bit code stands for; codes 12 and 13 stand for none.
pub open spec fn spec_sound_format(code: u8) -> Option<SoundFormat> {
    if code == 0 {
        Some(SoundFormat::PcmPlatformEndian)
    } else if code == 1 {
        Some(SoundFormat::ADPCM)
    } else if code == 2 {
        Some(SoundFormat::MP3)
    } else if code == 3 {
        Some(SoundFormat::PcmLittleEndian)
    } else if code == 4 {
        Some(SoundFormat::Nellymoser16kHzMono)
    } else if code == 5 {
        Some(SoundFormat::Nellymoser8kHzMono)
    } else if code == 6 {
        Some(SoundFormat::Nellymoser)
    } else if code == 7 {
        Some(SoundFormat::PcmALaw)
    } else if code == 8 {
        Some(SoundFormat::PcmMuLaw)
    } else if code == 9 {
        Some(SoundFormat::Reserved)
    } else if code == 10 {
        Some(SoundFormat::AAC)
    } else if code == 11 {
        Some(SoundFormat::Speex)
    } else if code == 14 {
        Some(SoundFormat::MP3_8kHz)
    } else if code == 15 {
        Some(SoundFormat::DeviceSpecific)
    } else {
        None
    }
}

/// The sampling rate that the sub-header byte `b` states.
pub open spec fn spec_sound_rate(b: u8) -> SoundRate {
    let code = (b >> 2) & 3;
    if code == 0 {
        SoundRate::_5_5KHZ
    } else if code == 1 {
        SoundRate::_11KHZ
    } else if code == 2 {
        SoundRate::_22KHZ
    } else {
        SoundRate::_44KHZ
    }
}

/// The sample size that the sub-header byte `b` states.
pub open spec fn spec_sound_size(b: u8) -> SoundSize {
    if b & 2 == 0 {
        SoundSize::_8Bit
    } else {
        SoundSize::_16Bit
    }
}

/// The channel layout that the sub-header byte `b` states.
pub open spec fn spec_sound_type(b: u8) -> SoundType {
    if b & 1 == 0 {
        SoundType::Mono
    } else {
        SoundType::Stereo
    }
}

/// The sub-header that the byte `b` encodes, if its format code is defined.
pub open spec fn spec_audio_header_of(b: u8) -> Option<AudioTagHeader> {
    match spec_sound_format(b >> 4) {
        Some(sound_format) => Some(
            AudioTagHeader {
                sound_format,
                sound_rate: spec_sound_rate(b),
                sound_size: spec_sound_size(b),
                sound_type: spec_sound_type(b),
            },
        ),
        None => None,
    }
}

/// The outcome of decoding an audio sub-header from the front of `s`.
pub open spec fn spec_audio_header(s: Seq<u8>) -> Parsed<AudioTagHeader> {
    if s.len() < 1 {
        Err(ParseError::Incomplete(1))
    } else {
        match spec_audio_header_of(s[0]) {
            Some(header) => Ok((header, s.skip(1))),
            None => Err(ParseError::Format(FormatError::UnknownSoundFormat)),
        }
    }
}

/// The outcome of decoding an audio payload of `size` bytes from the front of `s`.
///
/// Fewer than `size` bytes are a shortage. Otherwise the first `size` bytes
/// are the payload: one sub-header byte, then the coded audio.
pub open spec fn spec_audio_tag(s: Seq<u8>, size: nat) -> Parsed<AudioTagView> {
    if s.len() < size {
        Err(ParseError::Incomplete((size - s.len()) as usize))
    } else if size < 1 {
        Err(ParseError::Format(FormatError::PayloadTooShort))
    } else {
        match spec_audio_header_of(s[0]) {
            Some(header) => Ok(
                (AudioTagView { header, data: s.subrange(1, size as int) }, s.skip(size as int)),
            ),
            None => Err(ParseError::Format(FormatError::UnknownSoundFormat)),
        }
    }
}

impl SoundFormat {
    /// Decodes a format code; `None` for 12, 13 and everything above 15.
    pub fn from_code(code: u8) -> (r: Option<SoundFormat>)
        ensures
            r == spec_sound_format(code),
    {
        match code {
            0 => Some(SoundFormat::PcmPlatformEndian),
            1 => Some(SoundFormat::ADPCM),
            2 => Some(SoundFormat::MP3),
            3 => Some(SoundFormat::PcmLittleEndian),
            4 => Some(SoundFormat::Nellymoser16kHzMono),
            5 => Some(SoundFormat::Nellymoser8kHzMono),
            6 => Some(SoundFormat::Nellymoser),
            7 => Some(SoundFormat::PcmALaw),
            8 => Some(SoundFormat::PcmMuLaw),
            9 => Some(SoundFormat::Reserved),
            10 => Some(SoundFormat::AAC),
            11 => Some(SoundFormat::Speex),
            14 => Some(SoundFormat::MP3_8kHz),
            15 => Some(SoundFormat::DeviceSpecific),
            _ => None,
        }
    }
}

impl AudioTagHeader {
    /// Decodes the one-byte sub-header at the front of `input`.
    pub fn parse(input: &[u8]) -> (r: Result<(&[u8], AudioTagHeader), ParseError>)
        ensures
            parsed(r) == spec_audio_header(input@),
    {
        let (rest, b) = be_u8(input)?;
        let sound_format = match SoundFormat::from_code(b >> 4) {
            Some(f) => f,
            None => {
                return Err(ParseError::Format(FormatError::UnknownSoundFormat));
            },
        };
        let rate_code: u8 = (b >> 2) & 3;
        let sound_rate = if rate_code == 0 {
            SoundRate::_5_5KHZ
        } else if rate_code == 1 {
            SoundRate::_11KHZ
        } else if rate_code == 2 {
            SoundRate::_22KHZ
        } else {
            SoundRate::_44KHZ
        };
        let sound_size = if b & 2 == 0 {
            SoundSize::_8Bit
        } else {
            SoundSize::_16Bit
        };
        let sound_type = if b & 1 == 0 {
            SoundType::Mono
        } else {
            SoundType::Stereo
        };
        Ok((rest, AudioTagHeader { sound_format, sound_rate, sound_size, sound_type }))
    }
}

impl<'a> AudioTag<'a> {
    /// Decodes an audio payload of `size` bytes at the front of `input`.
    ///
    /// On success exactly `size` bytes are consumed: the sub-header byte and
    /// `size - 1` bytes of coded audio, which are borrowed, not copied.
    pub fn parse(input: &'a [u8], size: usize) -> (r: Result<(&'a [u8], AudioTag<'a>), ParseError>)
        ensures
            parsed_view(r) == spec_audio_tag(input@, size as nat),
            r matches Ok((rest, tag)) ==> rest@ == input@.skip(size as int) && 1 + tag.data@.len()
                == size,
            r matches Err(ParseError::Incomplete(_)) ==> input@.len() < size,
    {
        let (rest, payload) = take(input, size)?;
        match AudioTagHeader::parse(payload) {
            Ok((data, header)) => {
                proof {
                    assert(input@.take(size as int).skip(1) =~= input@.subrange(1, size as int));
                }
                Ok((rest, AudioTag { header, data }))
            },
            Err(e) => Err(e.within_payload()),
        }
    }
}

} // verus!
