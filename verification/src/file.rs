//! The file as a whole: its nine-byte header and the stream of tags behind it.

use vstd::prelude::*;
use crate::error::{parsed, parsed_view, FormatError, ParseError, Parsed};
use crate::primitive::{
    be_u32, be_u8, be_value, lemma_readers_ignore_what_follows, spec_be_u32,
};
use crate::tag::{
    lemma_tag_error_is_permanent, lemma_tag_error_kinds, lemma_tag_extent,
    lemma_tag_ignores_what_follows, spec_tag, spec_tag_header, FlvTag, FlvTagHeader, FlvTagType,
    FlvTagView,
};

verus! {

/// The header of a file.
#[derive(Clone, Copy, Debug, PartialEq, Eq)]
pub struct FlvFileHeader {
    /// The signature, which is always `FLV`: `46 4c 56`.
    pub signature: [u8; 3],
    /// The version of the format.
    pub version: u8,
    /// The flags byte as it stands in the file.
    pub flags: u8,
    /// Bit 2 of the flags: the file holds audio tags.
    pub has_audio: bool,
    /// Bit 0 of the flags: the file holds video tags.
    pub has_video: bool,
    /// The length of the header in bytes, which is where the body begins.
    pub data_offset: u32,
}

/// The three bytes with which every file begins.
pub open spec fn signature() -> Seq<u8> {
    seq![0x46u8, 0x4cu8, 0x56u8]
}

/// True when `s` begins with the signature.
pub open spec fn has_signature(s: Seq<u8>) -> bool {
    s.len() >= 3 && s[0] == 0x46 && s[1] == 0x4c && s[2] == 0x56
}

impl FlvFileHeader {
    /// True when the signature is the format's and the two booleans say what
    /// the flags byte says.
    pub open spec fn well_formed(self) -> bool {
        &&& self.signature@ == signature()
        &&& self.has_audio == (self.flags & 4 != 0)
        &&& self.has_video == (self.flags & 1 != 0)
    }
}

/// The outcome of decoding a file header from the front of `s`.
///
/// Without the signature in front the outcome is a format error, however
/// short `s` is. With it, the header is decoded as soon as nine bytes are
/// there: version and flags are single bytes, so that a shortage in front of
/// either is of one byte, and the offset is a 32-bit field that ends at 9.
pub open spec fn spec_file_header(s: Seq<u8>) -> Parsed<FlvFileHeader> {
    if !has_signature(s) {
        Err(ParseError::Format(FormatError::BadSignature))
    } else if s.len() < 5 {
        Err(ParseError::Incomplete(1))
    } else if s.len() < 9 {
        Err(ParseError::Incomplete((9 - s.len()) as usize))
    } else {
        Ok(
            (
                FlvFileHeader {
                    signature: [0x46u8, 0x4cu8, 0x56u8],
                    version: s[3],
                    flags: s[4],
                    has_audio: s[4] & 4 != 0,
                    has_video: s[4] & 1 != 0,
                    data_offset: be_value(s.subrange(5, 9)) as u32,
                },
                s.skip(9),
            ),
        )
    }
}

impl FlvFileHeader {
    /// Decodes the nine-byte file header at the front of `input`.
    ///
    /// An input that does not begin with the signature is malformed, and is
    /// never reported as short, not even when it is empty.
    pub fn parse(input: &[u8]) -> (r: Result<(&[u8], FlvFileHeader), ParseError>)
        ensures
            parsed(r) == spec_file_header(input@),
            r is Ok <==> has_signature(input@) && input@.len() >= 9,
            !has_signature(input@) <==> r == Err::<(&[u8], FlvFileHeader), _>(
                ParseError::Format(FormatError::BadSignature),
            ),
            r matches Ok((rest, header)) ==> {
                &&& header.well_formed()
                &&& header.flags == input@[4]
                &&& header.has_audio == (input@[4] & 4 != 0)
                &&& header.has_video == (input@[4] & 1 != 0)
                &&& rest@ == input@.skip(9)
            },
    {
        if !(input.len() >= 3 && input[0] == 0x46 && input[1] == 0x4c && input[2] == 0x56) {
            return Err(ParseError::Format(FormatError::BadSignature));
        }
        let (_, after_signature) = input.split_at(3);
        let (after_version, version) = be_u8(after_signature)?;
        let (after_flags, flags) = be_u8(after_version)?;
        let (rest, data_offset) = be_u32(after_flags)?;
        let header = FlvFileHeader {
            signature: [0x46, 0x4c, 0x56],
            version,
            flags,
            has_audio: flags & 4 != 0,
            has_video: flags & 1 != 0,
            data_offset,
        };
        proof {
            let s = input@;
            assert(s.subrange(3, s.len() as int).skip(1).skip(1) =~= s.skip(5));
            assert(s.skip(5).take(4) =~= s.subrange(5, 9));
            assert(s.skip(5).skip(4) =~= s.skip(9));
            assert(header.signature@ =~= signature());
        }
        Ok((rest, header))
    }
}

/// The body of a file: the stream of tags behind the header.
#[derive(Clone, Debug, PartialEq)]
pub struct FlvFileBody<'a> {
    /// The 32-bit field in front of the first tag. It is zero by convention,
    /// which is not checked.
    pub first_previous_tag_size: u32,
    /// The tags in the order of the file, each with the 32-bit field that
    /// follows it. The field repeats the length of the tag in front of it
    /// for readers that walk backwards; it is not compared with that length.
    pub tags: Vec<(FlvTag<'a>, u32)>,
}

/// The mathematical content of a [`FlvFileBody`].
pub struct FlvFileBodyView {
    pub first_previous_tag_size: u32,
    pub tags: Seq<(FlvTagView, u32)>,
}

/// The mathematical content of a list of tags with their trailing sizes.
pub open spec fn tags_view(tags: Seq<(FlvTag, u32)>) -> Seq<(FlvTagView, u32)> {
    Seq::new(tags.len(), |i: int| (tags[i].0@, tags[i].1))
}

impl<'a> View for FlvFileBody<'a> {
    type V = FlvFileBodyView;

    open spec fn view(&self) -> FlvFileBodyView {
        FlvFileBodyView {
            first_previous_tag_size: self.first_previous_tag_size,
            tags: tags_view(self.tags@),
        }
    }
}

impl FlvFileBodyView {
    /// True when every tag holds the payload that its header announces.
    pub open spec fn well_formed(self) -> bool {
        forall|i: int| 0 <= i < self.tags.len() ==> (#[trigger] self.tags[i]).0.well_formed()
    }
}

/// The outcome of decoding one tag and the 32-bit size that trails it.
pub open spec fn spec_tag_entry(s: Seq<u8>) -> Parsed<(FlvTagView, u32)> {
    match spec_tag(s) {
        Ok((tag, after_tag)) => match spec_be_u32(after_tag) {
            Ok((size, rest)) => Ok(((tag, size), rest)),
            Err(e) => Err(e),
        },
        Err(e) => Err(e),
    }
}

/// The tags at the front of `s`, with the bytes behind the last of them.
///
/// Tags are taken for as long as a tag and its trailing size can be decoded.
/// An attempt that fails for want of bytes ends the stream where it began,
/// and is no failure of the stream: what is there is a whole stream, cut
/// short. An attempt that fails for a malformation fails the stream, and
/// the tags in front of it are not handed out.
pub open spec fn spec_tag_stream(s: Seq<u8>) -> Parsed<Seq<(FlvTagView, u32)>>
    decreases s.len(),
{
    match spec_tag_entry(s) {
        Ok((entry, rest)) => match spec_tag_stream(rest) {
            Ok((more, end)) => Ok((seq![entry] + more, end)),
            Err(e) => Err(e),
        },
        Err(ParseError::Incomplete(_)) => Ok((Seq::empty(), s)),
        Err(ParseError::Format(kind)) => Err(ParseError::Format(kind)),
    }
}

/// The failure that ends the stream at the front of `s`: that of the first
/// attempt at a tag and its trailing size that fails.
pub open spec fn spec_stream_failure(s: Seq<u8>) -> ParseError
    decreases s.len(),
{
    match spec_tag_entry(s) {
        Ok((_, rest)) => spec_stream_failure(rest),
        Err(e) => e,
    }
}

/// The outcome of decoding a file body from the front of `s`: the first
/// 32-bit size, then the stream of tags.
pub open spec fn spec_file_body(s: Seq<u8>) -> Parsed<FlvFileBodyView> {
    match spec_be_u32(s) {
        Ok((first_previous_tag_size, after_size)) => match spec_tag_stream(after_size) {
            Ok((tags, rest)) => Ok((FlvFileBodyView { first_previous_tag_size, tags }, rest)),
            Err(e) => Err(e),
        },
        Err(e) => Err(e),
    }
}

/// A stream is decoded exactly when the attempt that ends it fails for want
/// of bytes, and the remaining input then begins at that attempt. Else the
/// stream fails with the malformation of that attempt, which is never that
/// of a missing signature.
#[verifier::rlimit(50)]
pub proof fn lemma_stream_outcome(s: Seq<u8>)
    ensures
        match spec_tag_stream(s) {
            Ok((_, rest)) => spec_stream_failure(s) is Incomplete && spec_tag_entry(rest)
                == Err::<((FlvTagView, u32), Seq<u8>), _>(spec_stream_failure(s)),
            Err(e) => e == spec_stream_failure(s) && e is Format,
        },
        spec_stream_failure(s) != ParseError::Format(FormatError::BadSignature),
    decreases s.len(),
{
    match spec_tag_entry(s) {
        Ok((_, rest)) => {
            lemma_tag_extent(s);
            lemma_stream_outcome(rest);
        },
        Err(_) => {
            lemma_tag_error_kinds(s);
        },
    }
}

/// The outcome `behind` with the entries `front` put in front of its tags.
pub open spec fn with_tags_in_front(
    front: Seq<(FlvTagView, u32)>,
    behind: Parsed<Seq<(FlvTagView, u32)>>,
) -> Parsed<Seq<(FlvTagView, u32)>> {
    match behind {
        Ok((more, end)) => Ok((front + more, end)),
        Err(e) => Err(e),
    }
}

/// The stream at the front of `s`, told by the first attempt: a tag and its
/// size are followed by the stream behind them, a shortage ends the stream
/// with no tag, and a malformation fails it.
#[verifier::rlimit(50)]
pub proof fn lemma_stream_step(s: Seq<u8>)
    ensures
        match spec_tag_entry(s) {
            Ok((entry, rest)) => spec_tag_stream(s) == with_tags_in_front(
                seq![entry],
                spec_tag_stream(rest),
            ),
            Err(ParseError::Incomplete(_)) => spec_tag_stream(s) == Ok::<_, ParseError>(
                (Seq::<(FlvTagView, u32)>::empty(), s),
            ),
            Err(ParseError::Format(kind)) => spec_tag_stream(s) == Err::<
                (Seq<(FlvTagView, u32)>, Seq<u8>),
                _,
            >(ParseError::Format(kind)),
        },
{
}

/// Putting tags in front of an outcome in two steps is putting them there
/// at once.
pub proof fn lemma_tags_in_front_twice(
    first: Seq<(FlvTagView, u32)>,
    second: Seq<(FlvTagView, u32)>,
    behind: Parsed<Seq<(FlvTagView, u32)>>,
)
    ensures
        with_tags_in_front(first, with_tags_in_front(second, behind)) == with_tags_in_front(
            first + second,
            behind,
        ),
        with_tags_in_front(Seq::empty(), behind) == behind,
{
    match behind {
        Ok((more, end)) => {
            assert(first + (second + more) =~= (first + second) + more);
            assert(Seq::<(FlvTagView, u32)>::empty() + more =~= more);
        },
        Err(_) => {},
    }
}

/// Decodes one tag and the 32-bit size that trails it.
#[verifier::rlimit(50)]
fn parse_entry<'a>(input: &'a [u8]) -> (r: Result<(&'a [u8], (FlvTag<'a>, u32)), ParseError>)
    ensures
        match r {
            Ok((rest, entry)) => spec_tag_entry(input@) == Ok::<_, ParseError>(
                ((entry.0@, entry.1), rest@),
            ) && entry.0@.well_formed() && rest@.len() < input@.len(),
            Err(e) => spec_tag_entry(input@) == Err::<((FlvTagView, u32), Seq<u8>), _>(e),
        },
{
    let (after_tag, tag) = FlvTag::parse(input)?;
    let (rest, size) = be_u32(after_tag)?;
    Ok((rest, (tag, size)))
}

impl<'a> FlvFileBody<'a> {
    /// Decodes the body of a file at the front of `input`.
    ///
    /// The body is the first size and the tags behind it, as many as the
    /// input holds whole. A tag that is cut short ends the list and stays in
    /// the remaining input. A tag that is malformed fails the body with the
    /// tag's own error, and no part of the body is handed out.
    pub fn parse(input: &'a [u8]) -> (r: Result<(&'a [u8], FlvFileBody<'a>), ParseError>)
        ensures
            parsed_view(r) == spec_file_body(input@),
            r matches Err(ParseError::Incomplete(_)) <==> input@.len() < 4,
            r is Ok <==> input@.len() >= 4 && spec_stream_failure(input@.skip(4)) is Incomplete,
            (r is Err && r->Err_0 is Format) <==> input@.len() >= 4 && spec_stream_failure(
                input@.skip(4),
            ) is Format,
            r matches Err(ParseError::Format(kind)) ==> spec_stream_failure(input@.skip(4))
                == ParseError::Format(kind) && kind != FormatError::BadSignature,
            r matches Ok((rest, body)) ==> body@.well_formed() && spec_tag_entry(
                rest@,
            ) matches Err(ParseError::Incomplete(_)),
    {
        proof {
            if input@.len() >= 4 {
                lemma_stream_outcome(input@.skip(4));
            }
        }
        let (first, first_previous_tag_size) = be_u32(input)?;
        let (rest, tags) = Self::parse_tags(first)?;
        let body = FlvFileBody { first_previous_tag_size, tags };
        proof {
            assert forall|i: int| 0 <= i < body@.tags.len() implies (
            #[trigger] body@.tags[i]).0.well_formed() by {
                assert(body@.tags[i].0 == tags@[i].0@);
            }
        }
        Ok((rest, body))
    }

    /// Decodes the stream of tags at the front of `input`.
    #[verifier::rlimit(50)]
    fn parse_tags(input: &'a [u8]) -> (r: Result<(&'a [u8], Vec<(FlvTag<'a>, u32)>), ParseError>)
        ensures
            match r {
                Ok((rest, tags)) => spec_tag_stream(input@) == Ok::<_, ParseError>(
                    (tags_view(tags@), rest@),
                ) && forall|i: int|
                    0 <= i < tags@.len() ==> (#[trigger] tags@[i]).0@.well_formed(),
                Err(e) => spec_tag_stream(input@) == Err::<(Seq<(FlvTagView, u32)>, Seq<u8>), _>(
                    e,
                ),
            },
    {
        let mut tags: Vec<(FlvTag<'a>, u32)> = Vec::new();
        let mut cursor = input;
        proof {
            lemma_tags_in_front_twice(Seq::empty(), Seq::empty(), spec_tag_stream(input@));
            assert(tags_view(tags@) =~= Seq::empty());
        }
        loop
            invariant
                spec_tag_stream(input@) == with_tags_in_front(
                    tags_view(tags@),
                    spec_tag_stream(cursor@),
                ),
                forall|i: int| 0 <= i < tags@.len() ==> (#[trigger] tags@[i]).0@.well_formed(),
            decreases cursor@.len(),
        {
            proof {
                lemma_stream_step(cursor@);
            }
            match parse_entry(cursor) {
                Ok((rest, entry)) => {
                    let ghost done = tags_view(tags@);
                    let ghost before = tags@;
                    proof {
                        lemma_tags_in_front_twice(
                            done,
                            seq![(entry.0@, entry.1)],
                            spec_tag_stream(rest@),
                        );
                    }
                    tags.push(entry);
                    proof {
                        assert(tags_view(tags@) =~= done + seq![(entry.0@, entry.1)]);
                    }
                    cursor = rest;
                },
                Err(ParseError::Incomplete(_)) => {
                    proof {
                        assert(tags_view(tags@) + Seq::<(FlvTagView, u32)>::empty() =~= tags_view(
                            tags@,
                        ));
                    }
                    return Ok((cursor, tags));
                },
                Err(ParseError::Format(kind)) => {
                    return Err(ParseError::Format(kind));
                },
            }
        }
    }
}

/// True when `record` is one tag and its trailing size, with no byte left over.
pub open spec fn is_record(record: Seq<u8>) -> bool {
    spec_tag_entry(record) matches Ok((_, rest)) && rest.len() == 0
}

/// The records one after the other, as they stand in a body.
pub open spec fn joined(records: Seq<Seq<u8>>) -> Seq<u8>
    decreases records.len(),
{
    if records.len() == 0 {
        Seq::empty()
    } else {
        records[0] + joined(records.drop_first())
    }
}

/// What each of the records decodes to, in their order.
pub open spec fn entries_of(records: Seq<Seq<u8>>) -> Seq<(FlvTagView, u32)> {
    Seq::new(records.len(), |i: int| spec_tag_entry(records[i])->Ok_0.0)
}

/// What a tag and its trailing size decode to does not depend on the bytes
/// behind them.
#[verifier::rlimit(50)]
pub proof fn lemma_entry_ignores_what_follows(s: Seq<u8>, more: Seq<u8>)
    requires
        spec_tag_entry(s) is Ok,
    ensures
        spec_tag_entry(s + more) == Ok::<_, ParseError>(
            (spec_tag_entry(s)->Ok_0.0, spec_tag_entry(s)->Ok_0.1 + more),
        ),
        spec_tag_entry(s)->Ok_0.1.len() + 15 <= s.len(),
{
    lemma_tag_ignores_what_follows(s, more);
    lemma_tag_extent(s);
    lemma_readers_ignore_what_follows(spec_tag(s)->Ok_0.1, more);
}

/// A malformed tag stays malformed whatever is appended, and so does the
/// attempt at the tag and its trailing size.
#[verifier::rlimit(50)]
pub proof fn lemma_entry_error_is_permanent(s: Seq<u8>, more: Seq<u8>)
    requires
        spec_tag_entry(s) matches Err(ParseError::Format(_)),
    ensures
        spec_tag_entry(s + more) == spec_tag_entry(s),
{
    lemma_tag_error_is_permanent(s, more);
}

/// A stream that begins with a whole record decodes to the entry of that
/// record, followed by what the bytes behind the record decode to, and
/// fails where those fail.
#[verifier::rlimit(50)]
pub proof fn lemma_stream_after_record(record: Seq<u8>, behind: Seq<u8>)
    requires
        is_record(record),
    ensures
        spec_tag_stream(record + behind) == with_tags_in_front(
            seq![spec_tag_entry(record)->Ok_0.0],
            spec_tag_stream(behind),
        ),
{
    lemma_entry_ignores_what_follows(record, behind);
    assert(Seq::<u8>::empty() + behind =~= behind);
    assert(spec_tag_entry(record)->Ok_0.1 =~= Seq::<u8>::empty());
}

/// The entries of a list of records are the entry of the first record and
/// the entries of the others, and the records joined are the first record
/// and the others joined.
proof fn lemma_records_split(records: Seq<Seq<u8>>, tail: Seq<u8>)
    requires
        records.len() > 0,
    ensures
        entries_of(records) == seq![spec_tag_entry(records[0])->Ok_0.0] + entries_of(
            records.drop_first(),
        ),
        joined(records) + tail == records[0] + (joined(records.drop_first()) + tail),
{
    let others = records.drop_first();
    assert forall|i: int| 0 < i < records.len() implies entries_of(records)[i] == entries_of(
        others,
    )[i - 1] by {
        assert(others[i - 1] == records[i]);
    }
    assert(entries_of(records) =~= seq![spec_tag_entry(records[0])->Ok_0.0] + entries_of(others));
    assert(joined(records) + tail =~= records[0] + (joined(others) + tail));
}

/// A stream that begins with whole records decodes to those records in
/// their order, followed by what the bytes behind them decode to, and fails
/// where those fail.
#[verifier::rlimit(50)]
pub proof fn lemma_stream_of_records(records: Seq<Seq<u8>>, tail: Seq<u8>)
    requires
        forall|i: int| 0 <= i < records.len() ==> is_record(#[trigger] records[i]),
    ensures
        spec_tag_stream(joined(records) + tail) == with_tags_in_front(
            entries_of(records),
            spec_tag_stream(tail),
        ),
    decreases records.len(),
{
    let behind_all = spec_tag_stream(tail);
    if records.len() == 0 {
        assert(joined(records) + tail =~= tail);
        assert(entries_of(records) =~= Seq::empty());
        if behind_all is Ok {
            assert(Seq::<(FlvTagView, u32)>::empty() + behind_all->Ok_0.0 =~= behind_all->Ok_0.0);
        }
    } else {
        let first = records[0];
        let others = records.drop_first();
        assert forall|i: int| 0 <= i < others.len() implies is_record(#[trigger] others[i]) by {
            assert(others[i] == records[i + 1]);
        }
        lemma_stream_of_records(others, tail);
        lemma_stream_after_record(first, joined(others) + tail);
        lemma_records_split(records, tail);
        if behind_all is Ok {
            let one = seq![spec_tag_entry(first)->Ok_0.0];
            assert(one + (entries_of(others) + behind_all->Ok_0.0) =~= (one + entries_of(others))
                + behind_all->Ok_0.0);
        }
    }
}

/// Appending bytes to a stream loses no tag and mends no malformation. The
/// tags of a stream that was decoded stay, and what follows them is what
/// the longer input holds from the place where the shorter one stopped. A
/// stream that failed fails in the same way.
#[verifier::rlimit(50)]
pub proof fn lemma_stream_grows(s: Seq<u8>, more: Seq<u8>)
    ensures
        match spec_tag_stream(s) {
            Ok((tags, stopped)) => spec_tag_stream(s + more) == with_tags_in_front(
                tags,
                spec_tag_stream(stopped + more),
            ),
            Err(e) => spec_tag_stream(s + more) == Err::<(Seq<(FlvTagView, u32)>, Seq<u8>), _>(e),
        },
    decreases s.len(),
{
    match spec_tag_entry(s) {
        Ok((entry, rest)) => {
            lemma_entry_ignores_what_follows(s, more);
            lemma_stream_grows(rest, more);
            match spec_tag_stream(rest) {
                Ok((tags, stopped)) => {
                    let further = spec_tag_stream(stopped + more);
                    if further is Ok {
                        assert(seq![entry] + (tags + further->Ok_0.0) =~= (seq![entry] + tags)
                            + further->Ok_0.0);
                    }
                },
                Err(_) => {},
            }
        },
        Err(ParseError::Incomplete(_)) => {
            let further = spec_tag_stream(s + more);
            if further is Ok {
                assert(Seq::<(FlvTagView, u32)>::empty() + further->Ok_0.0 =~= further->Ok_0.0);
            }
        },
        Err(ParseError::Format(_)) => {
            lemma_entry_error_is_permanent(s, more);
        },
    }
}

/// Joining byte strings does not depend on where one begins, and the first
/// four bytes of a joined string can be cut off again.
proof fn lemma_joining(first: Seq<u8>, middle: Seq<u8>, last: Seq<u8>)
    ensures
        first + middle + last == first + (middle + last),
        first.len() == 4 ==> (first + middle).take(4) == first && (first + middle).skip(4)
            == middle,
        middle + Seq::<u8>::empty() == middle,
{
    assert(first + middle + last =~= first + (middle + last));
    assert(middle + Seq::<u8>::empty() =~= middle);
    if first.len() == 4 {
        assert((first + middle).take(4) =~= first);
        assert((first + middle).skip(4) =~= middle);
    }
}

/// A body is its first size and the stream behind it: it decodes to the
/// tags of the stream, and fails where the stream fails.
#[verifier::rlimit(50)]
pub proof fn lemma_body_of_stream(first: Seq<u8>, stream: Seq<u8>)
    requires
        first.len() == 4,
    ensures
        spec_file_body(first + stream) == match spec_tag_stream(stream) {
            Ok((tags, rest)) => Ok(
                (FlvFileBodyView { first_previous_tag_size: be_value(first) as u32, tags }, rest),
            ),
            Err(e) => Err(e),
        },
{
    lemma_joining(first, stream, Seq::empty());
}

/// A body made of the first size and of whole, well-formed tags, each with
/// its trailing size, decodes to exactly as many tags as it was made of, in
/// the order in which they stand, with nothing left over. The trailing
/// sizes are handed on as they are, whatever they say.
#[verifier::rlimit(50)]
pub proof fn lemma_body_keeps_count_and_order(first: Seq<u8>, records: Seq<Seq<u8>>)
    requires
        first.len() == 4,
        forall|i: int| 0 <= i < records.len() ==> is_record(#[trigger] records[i]),
    ensures
        spec_file_body(first + joined(records)) matches Ok((body, rest)) && {
            &&& body.tags.len() == records.len()
            &&& body.tags == entries_of(records)
            &&& body.first_previous_tag_size == be_value(first) as u32
            &&& rest.len() == 0
        },
{
    let empty = Seq::<u8>::empty();
    lemma_joining(first, joined(records), empty);
    lemma_stream_step(empty);
    lemma_stream_of_records(records, empty);
    lemma_tags_in_front_twice(entries_of(records), Seq::empty(), spec_tag_stream(empty));
    assert(entries_of(records) + Seq::<(FlvTagView, u32)>::empty() =~= entries_of(records));
    lemma_body_of_stream(first, joined(records));
}

/// A body whose last tag announces more payload than the input holds
/// decodes, without failing, to the whole tags in front of that tag, and the
/// remaining input begins at that tag.
#[verifier::rlimit(50)]
pub proof fn lemma_body_tolerates_truncation(
    first: Seq<u8>,
    records: Seq<Seq<u8>>,
    tail: Seq<u8>,
)
    requires
        first.len() == 4,
        forall|i: int| 0 <= i < records.len() ==> is_record(#[trigger] records[i]),
        spec_tag_header(tail) matches Ok((header, payload)) && header.data_size > payload.len(),
    ensures
        spec_file_body(first + joined(records) + tail) matches Ok((body, rest)) && {
            &&& body.tags == entries_of(records)
            &&& rest == tail
        },
{
    assert(spec_tag_entry(tail) matches Err(ParseError::Incomplete(_))) by {
        assert(spec_tag(tail) matches Err(ParseError::Incomplete(_)));
    }
    lemma_body_ends_at_short_tag(first, records, tail);
}

/// A body whose last tag is cut short, anywhere, decodes to the whole tags
/// in front of that tag, and the remaining input begins at that tag.
#[verifier::rlimit(50)]
pub proof fn lemma_body_ends_at_short_tag(first: Seq<u8>, records: Seq<Seq<u8>>, tail: Seq<u8>)
    requires
        first.len() == 4,
        forall|i: int| 0 <= i < records.len() ==> is_record(#[trigger] records[i]),
        spec_tag_entry(tail) matches Err(ParseError::Incomplete(_)),
    ensures
        spec_file_body(first + joined(records) + tail) matches Ok((body, rest)) && {
            &&& body.tags == entries_of(records)
            &&& rest == tail
        },
{
    lemma_joining(first, joined(records), tail);
    lemma_stream_step(tail);
    lemma_stream_of_records(records, tail);
    assert(entries_of(records) + Seq::<(FlvTagView, u32)>::empty() =~= entries_of(records));
    lemma_body_of_stream(first, joined(records) + tail);
}

/// A malformed tag fails the body with the tag's own error, however many
/// whole tags stand in front of it.
#[verifier::rlimit(50)]
pub proof fn lemma_body_fails_at_malformed_tag(
    first: Seq<u8>,
    records: Seq<Seq<u8>>,
    tail: Seq<u8>,
    kind: FormatError,
)
    requires
        first.len() == 4,
        forall|i: int| 0 <= i < records.len() ==> is_record(#[trigger] records[i]),
        spec_tag_entry(tail) == Err::<((FlvTagView, u32), Seq<u8>), _>(ParseError::Format(kind)),
    ensures
        spec_file_body(first + joined(records) + tail) == Err::<(FlvFileBodyView, Seq<u8>), _>(
            ParseError::Format(kind),
        ),
{
    lemma_joining(first, joined(records), tail);
    lemma_stream_step(tail);
    lemma_stream_of_records(records, tail);
    lemma_body_of_stream(first, joined(records) + tail);
}

/// A tag whose type code is none of 8, 9 and 18 is a format error where it
/// stands, and it fails the body that holds it with that error, whatever
/// stands behind the type code: the tags in front of it are not handed out.
#[verifier::rlimit(50)]
pub proof fn lemma_body_fails_at_unknown_tag_type(
    first: Seq<u8>,
    records: Seq<Seq<u8>>,
    tail: Seq<u8>,
)
    requires
        first.len() == 4,
        forall|i: int| 0 <= i < records.len() ==> is_record(#[trigger] records[i]),
        tail.len() >= 1,
        FlvTagType::spec_from_code(tail[0]) is None,
    ensures
        spec_tag_header(tail) == Err::<(FlvTagHeader, Seq<u8>), _>(
            ParseError::Format(FormatError::UnknownTagType),
        ),
        spec_tag(tail) == Err::<(FlvTagView, Seq<u8>), _>(
            ParseError::Format(FormatError::UnknownTagType),
        ),
        spec_file_body(first + joined(records) + tail) == Err::<(FlvFileBodyView, Seq<u8>), _>(
            ParseError::Format(FormatError::UnknownTagType),
        ),
{
    assert(spec_tag_entry(tail) == Err::<((FlvTagView, u32), Seq<u8>), _>(
        ParseError::Format(FormatError::UnknownTagType),
    )) by {
        assert(spec_tag_header(tail) == Err::<(FlvTagHeader, Seq<u8>), _>(
            ParseError::Format(FormatError::UnknownTagType),
        ));
    }
    lemma_body_fails_at_malformed_tag(first, records, tail, FormatError::UnknownTagType);
}

/// A file: the header and the body behind it.
#[derive(Clone, Debug, PartialEq)]
pub struct FlvFile<'a> {
    /// The header of the file.
    pub header: FlvFileHeader,
    /// The body of the file.
    pub body: FlvFileBody<'a>,
}

/// The mathematical content of a [`FlvFile`].
pub struct FlvFileView {
    pub header: FlvFileHeader,
    pub body: FlvFileBodyView,
}

impl<'a> View for FlvFile<'a> {
    type V = FlvFileView;

    open spec fn view(&self) -> FlvFileView {
        FlvFileView { header: self.header, body: self.body@ }
    }
}

/// The outcome of decoding a file from the front of `s`: the header, then
/// the body in the bytes that follow the header directly.
pub open spec fn spec_file(s: Seq<u8>) -> Parsed<FlvFileView> {
    match spec_file_header(s) {
        Ok((header, after_header)) => match spec_file_body(after_header) {
            Ok((body, rest)) => Ok((FlvFileView { header, body }, rest)),
            Err(e) => Err(e),
        },
        Err(e) => Err(e),
    }
}

/// Where the header, the first size and the stream stand in a buffer of
/// thirteen bytes or more, and in the same buffer with bytes appended.
proof fn lemma_file_layout(s: Seq<u8>, more: Seq<u8>)
    requires
        s.len() >= 13,
    ensures
        has_signature(s + more) == has_signature(s),
        (s + more)[3] == s[3],
        (s + more)[4] == s[4],
        (s + more).subrange(5, 9) == s.subrange(5, 9),
        (s + more).skip(9).take(4) == s.skip(9).take(4),
        (s + more).skip(9).skip(4) == s.skip(9).skip(4) + more,
{
    let long = s + more;
    assert(long.subrange(5, 9) =~= s.subrange(5, 9));
    assert(long.skip(9).take(4) =~= s.skip(9).take(4));
    assert(long.skip(9).skip(4) =~= s.skip(9).skip(4) + more);
}

/// Appending bytes to a buffer that decodes to a file loses nothing: where
/// the longer buffer decodes, it has the same header, and every tag of the
/// shorter one in its place, with the tags that the new bytes complete
/// behind them. It fails only where the new bytes bring a malformed tag.
#[verifier::rlimit(50)]
pub proof fn lemma_file_grows(s: Seq<u8>, more: Seq<u8>)
    requires
        spec_file(s) is Ok,
    ensures
        match spec_file(s + more) {
            Ok((longer, _)) => {
                let shorter = spec_file(s)->Ok_0.0;
                &&& longer.header == shorter.header
                &&& longer.body.first_previous_tag_size == shorter.body.first_previous_tag_size
                &&& shorter.body.tags.is_prefix_of(longer.body.tags)
            },
            Err(e) => e is Format && spec_tag_stream(spec_file(s)->Ok_0.1 + more) == Err::<
                (Seq<(FlvTagView, u32)>, Seq<u8>),
                _,
            >(e),
        },
{
    lemma_file_layout(s, more);
    let stream = s.skip(9).skip(4);
    lemma_stream_grows(stream, more);
    lemma_stream_outcome(spec_tag_stream(stream)->Ok_0.1 + more);
    if spec_file(s + more) is Ok {
        let shorter = spec_file(s)->Ok_0.0;
        let longer = spec_file(s + more)->Ok_0.0;
        assert(longer.body.tags.subrange(0, shorter.body.tags.len() as int)
            =~= shorter.body.tags);
    }
}

/// A format error is permanent once the buffer is as long as the signature:
/// the buffer with bytes appended yields the same error.
#[verifier::rlimit(50)]
pub proof fn lemma_file_error_is_permanent(s: Seq<u8>, more: Seq<u8>)
    requires
        s.len() >= 3,
        spec_file(s) matches Err(ParseError::Format(_)),
    ensures
        spec_file(s + more) == spec_file(s),
{
    if has_signature(s) {
        lemma_file_layout(s, more);
        lemma_stream_grows(s.skip(9).skip(4), more);
    }
}

impl<'a> FlvFile<'a> {
    /// Decodes a file at the front of `input`.
    ///
    /// The result is the format error of a missing signature exactly when
    /// the signature is missing, and a shortage exactly when the signature
    /// is there but fewer than the thirteen bytes of the header and the
    /// first size. Behind these the tags decide: a tag that is cut short
    /// ends the file, and the remaining input begins at it; a malformed tag
    /// fails the file with the tag's own error.
    pub fn parse(input: &'a [u8]) -> (r: Result<(&'a [u8], FlvFile<'a>), ParseError>)
        ensures
            parsed_view(r) == spec_file(input@),
            !has_signature(input@) <==> r == Err::<(&'a [u8], FlvFile<'a>), _>(
                ParseError::Format(FormatError::BadSignature),
            ),
            r matches Err(ParseError::Incomplete(_)) <==> has_signature(input@) && input@.len()
                < 13,
            r is Ok <==> has_signature(input@) && input@.len() >= 13 && spec_stream_failure(
                input@.skip(13),
            ) is Incomplete,
            (r is Err && r->Err_0 is Format) <==> !has_signature(input@) || (input@.len() >= 13
                && spec_stream_failure(input@.skip(13)) is Format),
            r matches Err(ParseError::Format(kind)) ==> kind == FormatError::BadSignature || (
            has_signature(input@) && spec_stream_failure(input@.skip(13)) == ParseError::Format(
                kind,
            )),
            r matches Ok((rest, file)) ==> file.header.well_formed() && file.body@.well_formed()
                && spec_tag_entry(rest@) matches Err(ParseError::Incomplete(_)),
    {
        proof {
            if input@.len() >= 13 {
                assert(input@.skip(9).skip(4) =~= input@.skip(13));
            }
        }
        let (after_header, header) = FlvFileHeader::parse(input)?;
        let (rest, body) = FlvFileBody::parse(after_header)?;
        Ok((rest, FlvFile { header, body }))
    }
}

} // verus!
