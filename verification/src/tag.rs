//! Tags: the records of the body stream.

use vstd::prelude::*;
use crate::audio::{spec_audio_tag, AudioTag, AudioTagView};
use crate::error::{parsed, parsed_view, FormatError, ParseError, Parsed};
use crate::primitive::{be_u24, be_u8, be_value};
use crate::script::{
    lemma_value_error_kinds, spec_script_tag, spec_string, ScriptTag, ScriptTagView,
};
use crate::video::{spec_video_tag, VideoTag, VideoTagView};

verus! {

/// The kind of payload that a tag carries.
#[derive(Clone, Copy, Debug, PartialEq, Eq)]
pub enum FlvTagType {
    /// Audio data, type code 8.
    Audio,
    /// Video data, type code 9.
    Video,
    /// Script data, type code 18.
    Script,
}

impl FlvTagType {
    /// The tag type that a type code stands for, if any.
    pub open spec fn spec_from_code(code: u8) -> Option<FlvTagType> {
        if code == 8 {
            Some(FlvTagType::Audio)
        } else if code == 9 {
            Some(FlvTagType::Video)
        } else if code == 18 {
            Some(FlvTagType::Script)
        } else {
            None
        }
    }

    /// The type code under which the format stores this tag type.
    pub open spec fn spec_code(self) -> u8 {
        match self {
            FlvTagType::Audio => 8,
            FlvTagType::Video => 9,
            FlvTagType::Script => 18,
        }
    }

    /// Decodes a type code; `None` for every code but 8, 9 and 18.
    pub fn from_code(code: u8) -> (r: Option<FlvTagType>)
        ensures
            r == Self::spec_from_code(code),
            r matches Some(t) ==> t.spec_code() == code,
    {
        if code == 8 {
            Some(FlvTagType::Audio)
        } else if code == 9 {
            Some(FlvTagType::Video)
        } else if code == 18 {
            Some(FlvTagType::Script)
        } else {
            None
        }
    }

    /// The type code of this tag type.
    pub fn code(self) -> (c: u8)
        ensures
            c == self.spec_code(),
            Self::spec_from_code(c) == Some(self),
    {
        match self {
            FlvTagType::Audio => 8,
            FlvTagType::Video => 9,
            FlvTagType::Script => 18,
        }
    }
}

/// The fixed eleven-byte header in front of every tag's payload.
#[derive(Clone, Copy, Debug, PartialEq, Eq)]
pub struct FlvTagHeader {
    /// The kind of payload that follows.
    pub tag_type: FlvTagType,
    /// The length of the payload in bytes; 24 bits on the wire.
    pub data_size: u32,
    /// The time of the tag in milliseconds: 24 bits on the wire, extended
    /// by a further byte that supplies bits 24 to 31.
    pub timestamp: u32,
    /// The stream that the tag belongs to; 24 bits on the wire.
    pub stream_id: u32,
}

/// The 32-bit timestamp that a 24-bit field and its extension byte denote.
pub open spec fn spec_timestamp(low: u32, extension: u8) -> u32 {
    ((extension as u32) << 24) | low
}

/// With at least one and fewer than eleven bytes at hand, the number of bytes
/// that are missing up to the end of the field that is cut short. The fields
/// end at offsets 4, 7, 8 and 11.
pub open spec fn tag_header_shortfall(len: nat) -> usize {
    if len < 4 {
        (4 - len) as usize
    } else if len < 7 {
        (7 - len) as usize
    } else if len < 8 {
        1
    } else {
        (11 - len) as usize
    }
}

/// The outcome of decoding a tag header from the front of `s`.
pub open spec fn spec_tag_header(s: Seq<u8>) -> Parsed<FlvTagHeader> {
    if s.len() < 1 {
        Err(ParseError::Incomplete(1))
    } else if FlvTagType::spec_from_code(s[0]) is None {
        Err(ParseError::Format(FormatError::UnknownTagType))
    } else if s.len() < 11 {
        Err(ParseError::Incomplete(tag_header_shortfall(s.len())))
    } else {
        Ok(
            (
                FlvTagHeader {
                    tag_type: FlvTagType::spec_from_code(s[0]).unwrap(),
                    data_size: be_value(s.subrange(1, 4)) as u32,
                    timestamp: spec_timestamp(be_value(s.subrange(4, 7)) as u32, s[7]),
                    stream_id: be_value(s.subrange(8, 11)) as u32,
                },
                s.skip(11),
            ),
        )
    }
}

/// The extension byte supplies the high-order byte of the timestamp: the
/// combined value is the 24-bit field plus the extension times `2^24`.
pub proof fn lemma_timestamp_value(low: u32, extension: u8)
    requires
        low < 0x100_0000,
    ensures
        spec_timestamp(low, extension) == extension * 0x100_0000 + low,
{
    let high = extension as u32;
    assert((high << 24) | low == high * 0x100_0000 + low) by (bit_vector)
        requires
            high < 0x100,
            low < 0x100_0000,
    ;
}

impl FlvTagHeader {
    /// Decodes the eleven-byte tag header at the front of `input`.
    ///
    /// A type code other than 8, 9 and 18 is a format error, whatever follows
    /// it; otherwise the header is decoded as soon as eleven bytes are there.
    pub fn parse(input: &[u8]) -> (r: Result<(&[u8], FlvTagHeader), ParseError>)
        ensures
            parsed(r) == spec_tag_header(input@),
            r matches Ok((_, h)) ==> h.data_size < 0x100_0000 && h.stream_id < 0x100_0000,
    {
        let (rest, code) = be_u8(input)?;
        let tag_type = match FlvTagType::from_code(code) {
            Some(t) => t,
            None => {
                return Err(ParseError::Format(FormatError::UnknownTagType));
            },
        };
        let (rest, data_size) = be_u24(rest)?;
        let (rest, low) = be_u24(rest)?;
        let (rest, extension) = be_u8(rest)?;
        let (rest, stream_id) = be_u24(rest)?;
        proof {
            let s = input@;
            assert(s.skip(1).take(3) =~= s.subrange(1, 4));
            assert(s.skip(1).skip(3).take(3) =~= s.subrange(4, 7));
            assert(s.skip(1).skip(3).skip(3) =~= s.skip(7));
            assert(s.skip(7).skip(1).take(3) =~= s.subrange(8, 11));
            assert(s.skip(7).skip(1).skip(3) =~= s.skip(11));
        }
        Ok(
            (
                rest,
                FlvTagHeader {
                    tag_type,
                    data_size,
                    timestamp: ((extension as u32) << 24) | low,
                    stream_id,
                },
            ),
        )
    }
}

/// The payload of a tag, decoded according to the tag's type.
#[derive(Clone, Debug, PartialEq)]
pub enum FlvTagData<'a> {
    /// The payload of an audio tag.
    Audio(AudioTag<'a>),
    /// The payload of a video tag.
    Video(VideoTag<'a>),
    /// The payload of a script tag.
    Script(ScriptTag<'a>),
}

/// The mathematical content of a [`FlvTagData`].
pub enum FlvTagDataView {
    Audio(AudioTagView),
    Video(VideoTagView),
    Script(ScriptTagView),
}

impl<'a> View for FlvTagData<'a> {
    type V = FlvTagDataView;

    open spec fn view(&self) -> FlvTagDataView {
        match self {
            FlvTagData::Audio(tag) => FlvTagDataView::Audio(tag@),
            FlvTagData::Video(tag) => FlvTagDataView::Video(tag@),
            FlvTagData::Script(tag) => FlvTagDataView::Script(tag@),
        }
    }
}

impl FlvTagDataView {
    /// True when the payload is of the kind that `tag_type` names, fills
    /// `size` bytes where its length is on record, and holds no mapping with
    /// a name twice.
    pub open spec fn matches_header(self, tag_type: FlvTagType, size: nat) -> bool {
        match self {
            FlvTagDataView::Audio(tag) => tag_type == FlvTagType::Audio && 1 + tag.data.len()
                == size,
            FlvTagDataView::Video(tag) => tag_type == FlvTagType::Video && 1 + tag.data.len()
                == size,
            FlvTagDataView::Script(tag) => tag_type == FlvTagType::Script
                && tag.value.well_formed(),
        }
    }
}

/// The outcome of decoding a payload of `size` bytes and of the kind
/// `tag_type` from the front of `s`.
pub open spec fn spec_tag_data(s: Seq<u8>, tag_type: FlvTagType, size: nat) -> Parsed<
    FlvTagDataView,
> {
    match tag_type {
        FlvTagType::Audio => match spec_audio_tag(s, size) {
            Ok((tag, rest)) => Ok((FlvTagDataView::Audio(tag), rest)),
            Err(e) => Err(e),
        },
        FlvTagType::Video => match spec_video_tag(s, size) {
            Ok((tag, rest)) => Ok((FlvTagDataView::Video(tag), rest)),
            Err(e) => Err(e),
        },
        FlvTagType::Script => match spec_script_tag(s, size) {
            Ok((tag, rest)) => Ok((FlvTagDataView::Script(tag), rest)),
            Err(e) => Err(e),
        },
    }
}

impl<'a> FlvTagData<'a> {
    /// Decodes a payload of `size` bytes and of the kind `tag_type` at the
    /// front of `input`.
    ///
    /// Fewer than `size` bytes are a shortage, and the only one. On success
    /// exactly `size` bytes are consumed, whatever the payload's own grammar
    /// would take, and the variant of the result is the one `tag_type` names.
    pub fn parse(input: &'a [u8], tag_type: FlvTagType, size: usize) -> (r: Result<
        (&'a [u8], FlvTagData<'a>),
        ParseError,
    >)
        ensures
            parsed_view(r) == spec_tag_data(input@, tag_type, size as nat),
            r matches Ok((rest, data)) ==> rest@ == input@.skip(size as int)
                && data@.matches_header(tag_type, size as nat),
            r matches Err(e) ==> (e is Incomplete <==> input@.len() < size),
    {
        match tag_type {
            FlvTagType::Audio => match AudioTag::parse(input, size) {
                Ok((rest, tag)) => Ok((rest, FlvTagData::Audio(tag))),
                Err(e) => Err(e),
            },
            FlvTagType::Video => match VideoTag::parse(input, size) {
                Ok((rest, tag)) => Ok((rest, FlvTagData::Video(tag))),
                Err(e) => Err(e),
            },
            FlvTagType::Script => match ScriptTag::parse(input, size) {
                Ok((rest, tag)) => Ok((rest, FlvTagData::Script(tag))),
                Err(e) => Err(e),
            },
        }
    }
}

/// One record of the body stream: a header and the payload it announces.
#[derive(Clone, Debug, PartialEq)]
pub struct FlvTag<'a> {
    /// The fixed header.
    pub header: FlvTagHeader,
    /// The payload, of the kind and length that the header states.
    pub data: FlvTagData<'a>,
}

/// The mathematical content of a [`FlvTag`].
pub struct FlvTagView {
    pub header: FlvTagHeader,
    pub data: FlvTagDataView,
}

impl<'a> View for FlvTag<'a> {
    type V = FlvTagView;

    open spec fn view(&self) -> FlvTagView {
        FlvTagView { header: self.header, data: self.data@ }
    }
}

impl FlvTagView {
    /// True when the payload is the one that the header announces.
    pub open spec fn well_formed(self) -> bool {
        self.data.matches_header(self.header.tag_type, self.header.data_size as nat)
    }
}

/// The outcome of decoding one tag from the front of `s`: the header, then a
/// payload of the header's kind and length.
pub open spec fn spec_tag(s: Seq<u8>) -> Parsed<FlvTagView> {
    match spec_tag_header(s) {
        Ok((header, after_header)) => match spec_tag_data(
            after_header,
            header.tag_type,
            header.data_size as nat,
        ) {
            Ok((data, rest)) => Ok((FlvTagView { header, data }, rest)),
            Err(e) => Err(e),
        },
        Err(e) => Err(e),
    }
}

/// A tag that decodes from `s` takes a header and the payload it announces,
/// and leaves the rest of `s`.
pub proof fn lemma_tag_extent(s: Seq<u8>)
    requires
        spec_tag(s) is Ok,
    ensures
        11 + spec_tag(s)->Ok_0.0.header.data_size <= s.len(),
        spec_tag(s)->Ok_0.1 == s.skip(11 + spec_tag(s)->Ok_0.0.header.data_size),
        spec_tag(s)->Ok_0.0.header == spec_tag_header(s)->Ok_0.0,
{
    let header = spec_tag_header(s)->Ok_0.0;
    let size = header.data_size as int;
    assert(s.skip(11).skip(size) =~= s.skip(11 + size));
}

/// What a tag decodes to does not depend on the bytes behind it: if `s`
/// holds a tag in front, then so does `s + more`, and it is the same tag.
pub proof fn lemma_tag_ignores_what_follows(s: Seq<u8>, more: Seq<u8>)
    requires
        spec_tag(s) is Ok,
    ensures
        spec_tag(s + more) == Ok::<_, ParseError>(
            (spec_tag(s)->Ok_0.0, spec_tag(s)->Ok_0.1 + more),
        ),
{
    let long = s + more;
    let header = spec_tag_header(s)->Ok_0.0;
    let size = header.data_size as int;
    assert(long.subrange(1, 4) =~= s.subrange(1, 4));
    assert(long.subrange(4, 7) =~= s.subrange(4, 7));
    assert(long.subrange(8, 11) =~= s.subrange(8, 11));
    assert(long.skip(11) =~= s.skip(11) + more);
    assert(spec_tag_header(long) == Ok::<_, ParseError>((header, s.skip(11) + more)));
    let payload = s.skip(11);
    let long_payload = payload + more;
    assert(size <= payload.len());
    assert(long_payload.subrange(1, size) =~= payload.subrange(1, size));
    assert(long_payload.take(size) =~= payload.take(size));
    assert(long_payload.skip(size) =~= payload.skip(size) + more);
}

/// A malformed tag stays malformed: the format error that `s` yields is the
/// one that `s + more` yields.
pub proof fn lemma_tag_error_is_permanent(s: Seq<u8>, more: Seq<u8>)
    requires
        spec_tag(s) is Err,
        spec_tag(s)->Err_0 is Format,
    ensures
        spec_tag(s + more) == spec_tag(s),
{
    let long = s + more;
    if spec_tag_header(s) is Ok {
        let header = spec_tag_header(s)->Ok_0.0;
        let size = header.data_size as int;
        assert(long.subrange(1, 4) =~= s.subrange(1, 4));
        assert(long.subrange(4, 7) =~= s.subrange(4, 7));
        assert(long.subrange(8, 11) =~= s.subrange(8, 11));
        assert(long.skip(11) =~= s.skip(11) + more);
        let payload = s.skip(11);
        assert(size <= payload.len());
        assert((payload + more).take(size) =~= payload.take(size));
    }
}

/// A tag is never malformed for want of the file's signature: that
/// malformation belongs to the file header alone.
pub proof fn lemma_tag_error_kinds(s: Seq<u8>)
    ensures
        spec_tag(s) matches Err(ParseError::Format(kind)) ==> kind != FormatError::BadSignature,
{
    if spec_tag_header(s) is Ok {
        let header = spec_tag_header(s)->Ok_0.0;
        let payload = s.skip(11);
        let size = header.data_size as nat;
        if header.tag_type == FlvTagType::Script && payload.len() >= size {
            let inner = payload.take(size as int);
            if inner.len() >= 1 && inner[0] == 2 && spec_string(inner.skip(1)) is Ok {
                lemma_value_error_kinds(spec_string(inner.skip(1))->Ok_0.1);
            }
        }
    }
}

impl<'a> FlvTag<'a> {
    /// Decodes one tag at the front of `input`.
    ///
    /// On success the tag takes eleven bytes for the header and
    /// `header.data_size` bytes for the payload, no more and no fewer.
    pub fn parse(input: &'a [u8]) -> (r: Result<(&'a [u8], FlvTag<'a>), ParseError>)
        ensures
            parsed_view(r) == spec_tag(input@),
            r matches Ok((rest, tag)) ==> tag@.well_formed() && rest@ == input@.skip(
                11 + tag.header.data_size,
            ) && 11 + tag.header.data_size <= input@.len(),
    {
        let (after_header, header) = FlvTagHeader::parse(input)?;
        let (rest, data) = FlvTagData::parse(after_header, header.tag_type, header.data_size as usize)?;
        proof {
            assert(input@.skip(11).skip(header.data_size as int) =~= input@.skip(
                11 + header.data_size,
            ));
        }
        Ok((rest, FlvTag { header, data }))
    }
}

} // verus!
