//! The payload of a script tag: a name and a self-describing value.

use vstd::prelude::*;
use vstd::string::StringSliceAdditionalSpecFns;
use vstd::utf8::{decode_utf8, encode_utf8_decode_utf8, valid_utf8};
use crate::error::{parsed, parsed_view, FormatError, ParseError, Parsed};
use crate::mapping::{
    distinct_names, has_name, lemma_merged_distinct, lemma_merged_well_formed,
    lemma_upsert_well_formed, merged, upsert, values_well_formed,
};
use crate::primitive::{
    be_u16, be_u32, be_u64, be_u8, be_value, lemma_readers_ignore_what_follows, spec_be_u16,
    spec_be_u32, spec_be_u64, spec_be_u8, take,
};

verus! {

/// A point in time as the script grammar stores it.
#[derive(Clone, Copy, Debug, PartialEq, Eq)]
pub struct ScriptDataDate {
    /// Milliseconds since the first of January 1970, UTC: the bit pattern of
    /// an IEEE 754 double.
    pub date_time: u64,
    /// The offset of local time from UTC in minutes.
    pub local_date_time_offset: i16,
}

/// A value of the script grammar. Strings borrow from the input.
#[derive(Debug, PartialEq)]
pub enum ScriptDataValue<'a> {
    /// Marker 0: a number, kept as the bit pattern of an IEEE 754 double.
    Number(u64),
    /// Marker 1.
    Boolean(bool),
    /// Marker 2: a string with a 16-bit length.
    String(&'a str),
    /// Marker 3: properties up to an end marker.
    Object(Vec<ScriptDataObjectProperty<'a>>),
    /// Marker 4: the path of a movie clip.
    MovieClip(&'a str),
    /// Marker 5.
    Null,
    /// Marker 6.
    Undefined,
    /// Marker 7.
    Reference(u16),
    /// Marker 8: an approximate count, then properties up to an end marker.
    ECMAArray(Vec<ScriptDataObjectProperty<'a>>),
    /// Marker 10: a count, then that many values.
    StrictArray(Vec<ScriptDataValue<'a>>),
    /// Marker 11.
    Date(ScriptDataDate),
    /// Marker 12: a string with a 32-bit length.
    LongString(&'a str),
}

/// One entry of an object or of an ECMA array.
#[derive(Clone, Debug, PartialEq)]
pub struct ScriptDataObjectProperty<'a> {
    /// The name of the entry, which may be empty.
    pub name: &'a str,
    /// The value that goes by the name.
    pub value: ScriptDataValue<'a>,
}

/// The payload of a script tag: a name and the value that goes by it.
#[derive(Clone, Debug, PartialEq)]
pub struct ScriptTag<'a> {
    /// The name, which is `onMetaData` for the metadata of a file.
    pub name: &'a str,
    /// The value, as a rule an ECMA array of metadata.
    pub value: ScriptDataValue<'a>,
}

/// The mathematical content of a [`ScriptTag`].
pub struct ScriptTagView {
    pub name: Seq<char>,
    pub value: ScriptValue,
}

impl<'a> View for ScriptTag<'a> {
    type V = ScriptTagView;

    open spec fn view(&self) -> ScriptTagView {
        ScriptTagView { name: self.name@, value: self.value@ }
    }
}

/// The mathematical content of a [`ScriptDataValue`].
pub enum ScriptValue {
    Number(u64),
    Boolean(bool),
    String(Seq<char>),
    Object(Seq<ScriptProperty>),
    MovieClip(Seq<char>),
    Null,
    Undefined,
    Reference(u16),
    ECMAArray(Seq<ScriptProperty>),
    StrictArray(Seq<ScriptValue>),
    Date(ScriptDataDate),
    LongString(Seq<char>),
}

/// The mathematical content of a [`ScriptDataObjectProperty`].
pub struct ScriptProperty {
    pub name: Seq<char>,
    pub value: ScriptValue,
}

impl<'a> View for ScriptDataValue<'a> {
    type V = ScriptValue;

    open spec fn view(&self) -> ScriptValue
        decreases self,
    {
        match self {
            ScriptDataValue::Number(bits) => ScriptValue::Number(*bits),
            ScriptDataValue::Boolean(b) => ScriptValue::Boolean(*b),
            ScriptDataValue::String(s) => ScriptValue::String(s@),
            ScriptDataValue::Object(props) => ScriptValue::Object(properties_view(props@)),
            ScriptDataValue::MovieClip(s) => ScriptValue::MovieClip(s@),
            ScriptDataValue::Null => ScriptValue::Null,
            ScriptDataValue::Undefined => ScriptValue::Undefined,
            ScriptDataValue::Reference(r) => ScriptValue::Reference(*r),
            ScriptDataValue::ECMAArray(props) => ScriptValue::ECMAArray(properties_view(props@)),
            ScriptDataValue::StrictArray(items) => ScriptValue::StrictArray(values_view(items@)),
            ScriptDataValue::Date(d) => ScriptValue::Date(*d),
            ScriptDataValue::LongString(s) => ScriptValue::LongString(s@),
        }
    }
}

impl<'a> View for ScriptDataObjectProperty<'a> {
    type V = ScriptProperty;

    open spec fn view(&self) -> ScriptProperty {
        ScriptProperty { name: self.name@, value: self.value@ }
    }
}

/// `core::str::Utf8Error`, the error of `core::str::from_utf8`. It is never
/// looked into.
#[verifier::external_type_specification]
#[verifier::external_body]
pub struct ExUtf8Error(core::str::Utf8Error);

/// `core::str::from_utf8` accepts exactly the byte strings that are valid
/// UTF-8, and the string slice that it returns has the bytes it was given.
pub assume_specification[ core::str::from_utf8 ](v: &[u8]) -> (r: Result<
    &str,
    core::str::Utf8Error,
>)
    ensures
        r.is_ok() <==> valid_utf8(v@),
        r matches Ok(s) ==> s.spec_bytes() == v@,
;

/// The outcome of reading `count` bytes of UTF-8 text from the front of `s`.
pub open spec fn spec_text(s: Seq<u8>, count: nat) -> Parsed<Seq<char>> {
    if s.len() < count {
        Err(ParseError::Incomplete((count - s.len()) as usize))
    } else if !valid_utf8(s.take(count as int)) {
        Err(ParseError::Format(FormatError::InvalidUtf8))
    } else {
        Ok((decode_utf8(s.take(count as int)), s.skip(count as int)))
    }
}

/// The outcome of reading a string with a 16-bit length prefix.
pub open spec fn spec_string(s: Seq<u8>) -> Parsed<Seq<char>> {
    match spec_be_u16(s) {
        Ok((count, rest)) => spec_text(rest, count as nat),
        Err(e) => Err(e),
    }
}

/// The outcome of reading a string with a 32-bit length prefix.
pub open spec fn spec_long_string(s: Seq<u8>) -> Parsed<Seq<char>> {
    match spec_be_u32(s) {
        Ok((count, rest)) => spec_text(rest, count as nat),
        Err(e) => Err(e),
    }
}

/// The mathematical content of a list of properties: that of each entry, in
/// the same order.
pub open spec fn properties_view(props: Seq<ScriptDataObjectProperty>) -> Seq<ScriptProperty>
    decreases props,
{
    if props.len() == 0 {
        Seq::empty()
    } else {
        properties_view(props.drop_last()).push(
            ScriptProperty { name: props.last().name@, value: props.last().value.view() },
        )
    }
}

/// The mathematical content of a list of values: that of each value, in the
/// same order.
pub open spec fn values_view(items: Seq<ScriptDataValue>) -> Seq<ScriptValue>
    decreases items,
{
    if items.len() == 0 {
        Seq::empty()
    } else {
        values_view(items.drop_last()).push(items.last().view())
    }
}

/// The content of a list of properties has the length of the list and holds
/// at each place the content of the entry at that place.
pub proof fn lemma_properties_view(props: Seq<ScriptDataObjectProperty>)
    ensures
        properties_view(props).len() == props.len(),
        forall|i: int| 0 <= i < props.len() ==> #[trigger] properties_view(props)[i] == props[i]@,
    decreases props.len(),
{
    if props.len() > 0 {
        let front = props.drop_last();
        lemma_properties_view(front);
        let last = ScriptProperty { name: props.last().name@, value: props.last().value.view() };
        assert(properties_view(props) == properties_view(front).push(last));
        assert forall|i: int| 0 <= i < props.len() implies #[trigger] properties_view(props)[i]
            == props[i]@ by {
            if i < front.len() {
                assert(properties_view(front)[i] == front[i]@);
                assert(front[i] == props[i]);
            } else {
                assert(props.last() == props[i]);
            }
        }
    } else {
        assert(properties_view(props).len() == 0);
    }
}

/// The content of a list of values has the length of the list and holds at
/// each place the content of the value at that place.
pub proof fn lemma_values_view(items: Seq<ScriptDataValue>)
    ensures
        values_view(items).len() == items.len(),
        forall|i: int| 0 <= i < items.len() ==> #[trigger] values_view(items)[i] == items[i]@,
    decreases items.len(),
{
    if items.len() > 0 {
        let front = items.drop_last();
        lemma_values_view(front);
        assert(values_view(items) == values_view(front).push(items.last().view()));
        assert forall|i: int| 0 <= i < items.len() implies #[trigger] values_view(items)[i]
            == items[i]@ by {
            if i < front.len() {
                assert(values_view(front)[i] == front[i]@);
                assert(front[i] == items[i]);
            } else {
                assert(items.last() == items[i]);
            }
        }
    } else {
        assert(values_view(items).len() == 0);
    }
}

/// The result of a parser of properties as the models speak of it.
pub open spec fn parsed_properties(
    r: Result<(&[u8], Vec<ScriptDataObjectProperty>), ParseError>,
) -> Parsed<Seq<ScriptProperty>> {
    match r {
        Ok((rest, props)) => Ok((properties_view(props@), rest@)),
        Err(e) => Err(e),
    }
}

/// The result of a parser of values as the models speak of it.
pub open spec fn parsed_values(r: Result<(&[u8], Vec<ScriptDataValue>), ParseError>) -> Parsed<
    Seq<ScriptValue>,
> {
    match r {
        Ok((rest, items)) => Ok((values_view(items@), rest@)),
        Err(e) => Err(e),
    }
}

impl ScriptValue {
    /// True when, at every depth, no mapping holds a name twice.
    pub open spec fn well_formed(self) -> bool
        decreases self,
    {
        match self {
            ScriptValue::Object(props) => distinct_names(props) && forall|i: int|
                0 <= i < props.len() ==> (#[trigger] props[i]).value.well_formed(),
            ScriptValue::ECMAArray(props) => distinct_names(props) && forall|i: int|
                0 <= i < props.len() ==> (#[trigger] props[i]).value.well_formed(),
            ScriptValue::StrictArray(items) => forall|i: int|
                0 <= i < items.len() ==> (#[trigger] items[i]).well_formed(),
            _ => true,
        }
    }
}

/// True when `s` begins with the three bytes that close a list of properties.
pub open spec fn at_end_marker(s: Seq<u8>) -> bool {
    s.len() >= 3 && s[0] == 0 && s[1] == 0 && s[2] == 9
}

/// The outcome of decoding one value from the front of `s`: a type marker,
/// then the body that the marker calls for.
///
pub open spec fn spec_value(s: Seq<u8>) -> Parsed<ScriptValue>
    decreases s.len(), 0nat,
{
    if s.len() < 1 {
        Err(ParseError::Incomplete(1))
    } else {
        let marker = s[0];
        let body = s.skip(1);
        if marker == 0 {
            match spec_be_u64(body) {
                Ok((bits, rest)) => Ok((ScriptValue::Number(bits), rest)),
                Err(e) => Err(e),
            }
        } else if marker == 1 {
            match spec_be_u8(body) {
                Ok((b, rest)) => Ok((ScriptValue::Boolean(b != 0), rest)),
                Err(e) => Err(e),
            }
        } else if marker == 2 {
            match spec_string(body) {
                Ok((text, rest)) => Ok((ScriptValue::String(text), rest)),
                Err(e) => Err(e),
            }
        } else if marker == 3 {
            match spec_object(body) {
                Ok((props, rest)) => Ok((ScriptValue::Object(props), rest)),
                Err(e) => Err(e),
            }
        } else if marker == 4 {
            match spec_string(body) {
                Ok((text, rest)) => Ok((ScriptValue::MovieClip(text), rest)),
                Err(e) => Err(e),
            }
        } else if marker == 5 {
            Ok((ScriptValue::Null, body))
        } else if marker == 6 {
            Ok((ScriptValue::Undefined, body))
        } else if marker == 7 {
            match spec_be_u16(body) {
                Ok((r, rest)) => Ok((ScriptValue::Reference(r), rest)),
                Err(e) => Err(e),
            }
        } else if marker == 8 {
            match spec_ecma_array(body) {
                Ok((props, rest)) => Ok((ScriptValue::ECMAArray(props), rest)),
                Err(e) => Err(e),
            }
        } else if marker == 10 {
            match spec_strict_array(body) {
                Ok((values, rest)) => Ok((ScriptValue::StrictArray(values), rest)),
                Err(e) => Err(e),
            }
        } else if marker == 11 {
            match spec_be_u64(body) {
                Ok((date_time, zone)) => match spec_be_u16(zone) {
                    Ok((offset, rest)) => Ok(
                        (
                            ScriptValue::Date(
                                ScriptDataDate {
                                    date_time,
                                    local_date_time_offset: offset as i16,
                                },
                            ),
                            rest,
                        ),
                    ),
                    Err(e) => Err(e),
                },
                Err(e) => Err(e),
            }
        } else if marker == 12 {
            match spec_long_string(body) {
                Ok((text, rest)) => Ok((ScriptValue::LongString(text), rest)),
                Err(e) => Err(e),
            }
        } else {
            Err(ParseError::Format(FormatError::UnknownValueType))
        }
    }
}

/// The outcome of decoding the body of an object from the front of `s`: its
/// entries up to the end marker, stored with each name once, see [`merged`].
pub open spec fn spec_object(s: Seq<u8>) -> Parsed<Seq<ScriptProperty>>
    decreases s.len(), 2nat,
{
    match spec_properties(s) {
        Ok((raw, rest)) => Ok((merged(raw), rest)),
        Err(e) => Err(e),
    }
}

/// The outcome of decoding the body of an ECMA array from the front of `s`.
///
/// The 32-bit count in front is approximate by definition and is skipped:
/// the entries run up to the end marker, as an object's do.
pub open spec fn spec_ecma_array(s: Seq<u8>) -> Parsed<Seq<ScriptProperty>>
    decreases s.len(), 3nat,
{
    match spec_be_u32(s) {
        Ok((_, entries)) => spec_object(entries),
        Err(e) => Err(e),
    }
}

/// The outcome of decoding the body of a strict array from the front of `s`:
/// a 32-bit count, then that many values.
pub open spec fn spec_strict_array(s: Seq<u8>) -> Parsed<Seq<ScriptValue>>
    decreases s.len(), 3nat,
{
    match spec_be_u32(s) {
        Ok((count, items)) => spec_values(items, count as nat),
        Err(e) => Err(e),
    }
}

/// The outcome of decoding the entries of a mapping from the front of `s`,
/// in the order and number in which they stand there: either the end marker,
/// or a name, a value and further entries.
///
/// The comparison of lengths in the middle always succeeds, since a value
/// takes at least its marker; it is what makes the recursion well-founded.
pub open spec fn spec_properties(s: Seq<u8>) -> Parsed<Seq<ScriptProperty>>
    decreases s.len(), 1nat,
{
    if at_end_marker(s) {
        Ok((Seq::empty(), s.skip(3)))
    } else {
        match spec_string(s) {
            Ok((name, after_name)) => match spec_value(after_name) {
                Ok((value, after_value)) => if after_value.len() < s.len() {
                    match spec_properties(after_value) {
                        Ok((more, rest)) => Ok(
                            (seq![ScriptProperty { name, value }] + more, rest),
                        ),
                        Err(e) => Err(e),
                    }
                } else {
                    Err(ParseError::Format(FormatError::UnknownValueType))
                },
                Err(e) => Err(e),
            },
            Err(e) => Err(e),
        }
    }
}

/// The outcome of decoding `count` values in a row from the front of `s`.
///
/// The comparison of lengths always succeeds, as in [`spec_properties`].
pub open spec fn spec_values(s: Seq<u8>, count: nat) -> Parsed<Seq<ScriptValue>>
    decreases s.len(), 1nat,
{
    if count == 0 {
        Ok((Seq::empty(), s))
    } else {
        match spec_value(s) {
            Ok((value, after_value)) => if after_value.len() < s.len() {
                match spec_values(after_value, (count - 1) as nat) {
                    Ok((more, rest)) => Ok((seq![value] + more, rest)),
                    Err(e) => Err(e),
                }
            } else {
                Err(ParseError::Format(FormatError::UnknownValueType))
            },
            Err(e) => Err(e),
        }
    }
}

/// The outcome of decoding a name and a value from the front of `s`: the
/// marker of a string, the name as a string, then the value.
pub open spec fn spec_script_body(s: Seq<u8>) -> Parsed<ScriptTagView> {
    match spec_be_u8(s) {
        Ok((marker, after_marker)) => if marker != 2 {
            Err(ParseError::Format(FormatError::BadScriptName))
        } else {
            match spec_string(after_marker) {
                Ok((name, after_name)) => match spec_value(after_name) {
                    Ok((value, rest)) => Ok((ScriptTagView { name, value }, rest)),
                    Err(e) => Err(e),
                },
                Err(e) => Err(e),
            }
        },
        Err(e) => Err(e),
    }
}

/// The outcome of decoding a script payload of `size` bytes from the front of `s`.
///
/// Fewer than `size` bytes are a shortage. Otherwise the first `size` bytes
/// are the payload, and the name and the value are decoded from these bytes
/// alone: what they leave over is skipped, and a shortage inside them is a
/// format error, since the payload cannot grow.
pub open spec fn spec_script_tag(s: Seq<u8>, size: nat) -> Parsed<ScriptTagView> {
    if s.len() < size {
        Err(ParseError::Incomplete((size - s.len()) as usize))
    } else {
        match spec_script_body(s.take(size as int)) {
            Ok((tag, _)) => Ok((tag, s.skip(size as int))),
            Err(e) => Err(e.spec_within_payload()),
        }
    }
}

/// Reads `count` bytes and checks that they are UTF-8 text.
fn parse_text(input: &[u8], count: usize) -> (r: Result<(&[u8], &str), ParseError>)
    ensures
        parsed_view(r) == spec_text(input@, count as nat),
        r matches Ok((rest, _)) ==> rest@.len() + count == input@.len(),
{
    let (rest, bytes) = take(input, count)?;
    match core::str::from_utf8(bytes) {
        Ok(text) => {
            proof {
                encode_utf8_decode_utf8(text@);
            }
            Ok((rest, text))
        },
        Err(_) => Err(ParseError::Format(FormatError::InvalidUtf8)),
    }
}

/// The offset of a date is the 16-bit field read as a two's complement
/// number: fields from `0x8000` on stand for the negative offsets.
pub proof fn lemma_date_offset(field: u16)
    ensures
        field < 0x8000 ==> field as i16 == field,
        field >= 0x8000 ==> field as i16 == field - 0x1_0000,
{
    assert(field < 0x8000 ==> field as i16 == field) by (bit_vector);
    assert(field >= 0x8000 ==> (field as i16) as int == field as int - 0x1_0000) by (bit_vector);
}

/// A length prefix of zero stands for the empty string, whatever follows,
/// and is no failure.
pub proof fn lemma_empty_string(rest: Seq<u8>)
    ensures
        spec_string(seq![0u8, 0u8] + rest) == Ok::<_, ParseError>((Seq::<char>::empty(), rest)),
        spec_value(seq![2u8, 0u8, 0u8] + rest) == Ok::<_, ParseError>(
            (ScriptValue::String(Seq::empty()), rest),
        ),
{
    let s = seq![0u8, 0u8] + rest;
    let none = Seq::<u8>::empty();
    reveal_with_fuel(be_value, 3);
    reveal_with_fuel(vstd::utf8::valid_utf8, 2);
    reveal_with_fuel(vstd::utf8::decode_utf8, 2);
    assert(s.take(2) =~= seq![0u8, 0u8]);
    assert(be_value(seq![0u8, 0u8]) == 0) by {
        assert(seq![0u8, 0u8].drop_last() =~= seq![0u8]);
        assert(seq![0u8].drop_last() =~= none);
    }
    assert(s.skip(2) =~= rest);
    assert(rest.take(0) =~= none);
    assert(rest.skip(0) =~= rest);
    assert(decode_utf8(none) =~= Seq::<char>::empty());
    assert((seq![2u8, 0u8, 0u8] + rest).skip(1) =~= s);
}

/// What a string decodes to does not depend on the bytes behind it.
pub proof fn lemma_strings_ignore_what_follows(s: Seq<u8>, more: Seq<u8>)
    ensures
        spec_string(s) matches Ok((text, rest)) ==> spec_string(s + more) == Ok::<_, ParseError>(
            (text, rest + more),
        ),
        spec_long_string(s) matches Ok((text, rest)) ==> spec_long_string(s + more) == Ok::<
            _,
            ParseError,
        >((text, rest + more)),
{
    lemma_readers_ignore_what_follows(s, more);
    if spec_string(s) is Ok {
        let count = spec_be_u16(s)->Ok_0.0 as int;
        let body = s.skip(2);
        assert((body + more).take(count) =~= body.take(count));
        assert((body + more).skip(count) =~= body.skip(count) + more);
    }
    if spec_long_string(s) is Ok {
        let count = spec_be_u32(s)->Ok_0.0 as int;
        let body = s.skip(4);
        assert((body + more).take(count) =~= body.take(count));
        assert((body + more).skip(count) =~= body.skip(count) + more);
    }
}

/// What a value decodes to does not depend on the bytes behind it: where
/// `s` holds a value in front, `s + more` holds the same value, and `more`
/// comes behind what the value left.
pub proof fn lemma_value_ignores_what_follows(s: Seq<u8>, more: Seq<u8>)
    requires
        spec_value(s) is Ok,
    ensures
        spec_value(s + more) == Ok::<_, ParseError>(
            (spec_value(s)->Ok_0.0, spec_value(s)->Ok_0.1 + more),
        ),
    decreases s.len(), 0nat,
{
    let marker = s[0];
    let body = s.skip(1);
    assert((s + more).skip(1) =~= body + more);
    lemma_readers_ignore_what_follows(body, more);
    lemma_strings_ignore_what_follows(body, more);
    if marker == 3 {
        lemma_properties_ignore_what_follows(body, more);
    } else if marker == 8 {
        lemma_properties_ignore_what_follows(body.skip(4), more);
    } else if marker == 10 {
        lemma_values_ignore_what_follows(body.skip(4), spec_be_u32(body)->Ok_0.0 as nat, more);
    } else if marker == 11 {
        lemma_readers_ignore_what_follows(body.skip(8), more);
    }
}

/// What the entries of a mapping decode to does not depend on the bytes
/// behind their end marker.
pub proof fn lemma_properties_ignore_what_follows(s: Seq<u8>, more: Seq<u8>)
    requires
        spec_properties(s) is Ok,
    ensures
        spec_properties(s + more) == Ok::<_, ParseError>(
            (spec_properties(s)->Ok_0.0, spec_properties(s)->Ok_0.1 + more),
        ),
    decreases s.len(), 1nat,
{
    let long = s + more;
    lemma_properties_advance(s);
    assert(long[0] == s[0] && long[1] == s[1] && long[2] == s[2]);
    if at_end_marker(s) {
        assert(long.skip(3) =~= s.skip(3) + more);
    } else {
        lemma_strings_ignore_what_follows(s, more);
        let after_name = spec_string(s)->Ok_0.1;
        lemma_value_advances(after_name);
        lemma_value_ignores_what_follows(after_name, more);
        let after_value = spec_value(after_name)->Ok_0.1;
        lemma_properties_ignore_what_follows(after_value, more);
    }
}

/// What values in a row decode to does not depend on the bytes behind them.
pub proof fn lemma_values_ignore_what_follows(s: Seq<u8>, count: nat, more: Seq<u8>)
    requires
        spec_values(s, count) is Ok,
    ensures
        spec_values(s + more, count) == Ok::<_, ParseError>(
            (spec_values(s, count)->Ok_0.0, spec_values(s, count)->Ok_0.1 + more),
        ),
    decreases s.len(), 1nat,
{
    if count > 0 {
        lemma_value_advances(s);
        lemma_value_ignores_what_follows(s, more);
        let after_value = spec_value(s)->Ok_0.1;
        lemma_values_ignore_what_follows(after_value, (count - 1) as nat, more);
    }
}

/// True for the two malformations that the value grammar knows.
pub open spec fn is_value_error(kind: FormatError) -> bool {
    kind == FormatError::UnknownValueType || kind == FormatError::InvalidUtf8
}

/// A value is malformed in one of two ways only: by a type marker outside
/// the grammar, or by a string that is not UTF-8.
pub proof fn lemma_value_error_kinds(s: Seq<u8>)
    ensures
        spec_value(s) matches Err(ParseError::Format(kind)) ==> is_value_error(kind),
    decreases s.len(), 0nat,
{
    if s.len() >= 1 {
        let marker = s[0];
        let body = s.skip(1);
        if marker == 3 {
            lemma_properties_error_kinds(body);
        } else if marker == 8 {
            if spec_be_u32(body) is Ok {
                lemma_properties_error_kinds(body.skip(4));
            }
        } else if marker == 10 {
            if spec_be_u32(body) is Ok {
                lemma_values_error_kinds(body.skip(4), spec_be_u32(body)->Ok_0.0 as nat);
            }
        }
    }
}

/// As [`lemma_value_error_kinds`], for the entries of a mapping.
pub proof fn lemma_properties_error_kinds(s: Seq<u8>)
    ensures
        spec_properties(s) matches Err(ParseError::Format(kind)) ==> is_value_error(kind),
    decreases s.len(), 1nat,
{
    if !at_end_marker(s) {
        if spec_string(s) is Ok {
            let after_name = spec_string(s)->Ok_0.1;
            lemma_value_error_kinds(after_name);
            if spec_value(after_name) is Ok {
                let after_value = spec_value(after_name)->Ok_0.1;
                if after_value.len() < s.len() {
                    lemma_properties_error_kinds(after_value);
                }
            }
        }
    }
}

/// As [`lemma_value_error_kinds`], for values in a row.
pub proof fn lemma_values_error_kinds(s: Seq<u8>, count: nat)
    ensures
        spec_values(s, count) matches Err(ParseError::Format(kind)) ==> is_value_error(kind),
    decreases s.len(), 1nat,
{
    if count > 0 {
        lemma_value_error_kinds(s);
        if spec_value(s) is Ok {
            let after_value = spec_value(s)->Ok_0.1;
            if after_value.len() < s.len() {
                lemma_values_error_kinds(after_value, (count - 1) as nat);
            }
        }
    }
}

/// True when `rest` is what remains of `s` behind some of its bytes.
pub open spec fn is_tail_of(rest: Seq<u8>, s: Seq<u8>) -> bool {
    rest.len() <= s.len() && rest == s.skip(s.len() - rest.len())
}

/// A value that decodes takes at least its marker and is followed by the
/// rest of the input; it holds no mapping with a name twice.
#[verifier::rlimit(50)]
pub proof fn lemma_value_advances(s: Seq<u8>)
    requires
        spec_value(s) is Ok,
    ensures
        spec_value(s)->Ok_0.1.len() < s.len(),
        is_tail_of(spec_value(s)->Ok_0.1, s),
        spec_value(s)->Ok_0.0.well_formed(),
    decreases s.len(), 0nat,
{
    let marker = s[0];
    let body = s.skip(1);
    let rest = spec_value(s)->Ok_0.1;
    if marker == 3 {
        lemma_properties_advance(body);
        lemma_merged_well_formed(spec_properties(body)->Ok_0.0);
    } else if marker == 8 {
        lemma_properties_advance(body.skip(4));
        lemma_merged_well_formed(spec_properties(body.skip(4))->Ok_0.0);
    } else if marker == 10 {
        lemma_values_advance(body.skip(4), spec_be_u32(body)->Ok_0.0 as nat);
    }
    assert(rest =~= s.skip(s.len() - rest.len()));
}

/// The entries of a mapping that decode are followed by the rest of the
/// input, behind their end marker, and hold well-formed values.
pub proof fn lemma_properties_advance(s: Seq<u8>)
    requires
        spec_properties(s) is Ok,
    ensures
        spec_properties(s)->Ok_0.1.len() + 3 <= s.len(),
        is_tail_of(spec_properties(s)->Ok_0.1, s),
        values_well_formed(spec_properties(s)->Ok_0.0),
    decreases s.len(), 1nat,
{
    let rest = spec_properties(s)->Ok_0.1;
    if !at_end_marker(s) {
        let after_name = spec_string(s)->Ok_0.1;
        let name = spec_string(s)->Ok_0.0;
        lemma_value_advances(after_name);
        let value = spec_value(after_name)->Ok_0.0;
        let after_value = spec_value(after_name)->Ok_0.1;
        lemma_properties_advance(after_value);
        let more = spec_properties(after_value)->Ok_0.0;
        let all = seq![ScriptProperty { name, value }] + more;
        assert forall|i: int| 0 <= i < all.len() implies (#[trigger] all[i]).value.well_formed() by {
            if i > 0 {
                assert(all[i] == more[i - 1]);
            }
        }
    }
    assert(rest =~= s.skip(s.len() - rest.len()));
}

/// Values that decode in a row are as many as were asked for, take at least
/// a byte each and are followed by the rest of the input.
pub proof fn lemma_values_advance(s: Seq<u8>, count: nat)
    requires
        spec_values(s, count) is Ok,
    ensures
        spec_values(s, count)->Ok_0.0.len() == count,
        spec_values(s, count)->Ok_0.1.len() + count <= s.len(),
        is_tail_of(spec_values(s, count)->Ok_0.1, s),
        forall|i: int|
            0 <= i < count ==> (#[trigger] spec_values(s, count)->Ok_0.0[i]).well_formed(),
    decreases s.len(), 1nat,
{
    let rest = spec_values(s, count)->Ok_0.1;
    if count > 0 {
        lemma_value_advances(s);
        let value = spec_value(s)->Ok_0.0;
        let after_value = spec_value(s)->Ok_0.1;
        lemma_values_advance(after_value, (count - 1) as nat);
        let more = spec_values(after_value, (count - 1) as nat)->Ok_0.0;
        let all = seq![value] + more;
        assert forall|i: int| 0 <= i < count implies (#[trigger] all[i]).well_formed() by {
            if i > 0 {
                assert(all[i] == more[i - 1]);
            }
        }
    }
    assert(rest =~= s.skip(s.len() - rest.len()));
}

/// Tells whether two string slices hold the same text, by comparing their bytes.
fn same_text(a: &str, b: &str) -> (r: bool)
    ensures
        r == (a@ == b@),
{
    let x = a.as_bytes();
    let y = b.as_bytes();
    proof {
        encode_utf8_decode_utf8(a@);
        encode_utf8_decode_utf8(b@);
    }
    if x.len() != y.len() {
        return false;
    }
    let mut i: usize = 0;
    while i < x.len()
        invariant
            i <= x.len(),
            x.len() == y.len(),
            x@ == a.spec_bytes(),
            y@ == b.spec_bytes(),
            forall|j: int| 0 <= j < i ==> x@[j] == y@[j],
        decreases x.len() - i,
    {
        if x[i] != y[i] {
            return false;
        }
        i += 1;
    }
    proof {
        assert(x@ =~= y@);
    }
    true
}

/// Stores an entry in a list of properties whose names are distinct: an
/// entry of the same name takes the new value, a new name is appended.
fn store_property<'a>(
    props: &mut Vec<ScriptDataObjectProperty<'a>>,
    name: &'a str,
    value: ScriptDataValue<'a>,
)
    requires
        distinct_names(properties_view(old(props)@)),
    ensures
        properties_view(final(props)@) == upsert(
            properties_view(old(props)@),
            ScriptProperty { name: name@, value: value@ },
        ),
{
    let ghost before = properties_view(props@);
    let ghost p = ScriptProperty { name: name@, value: value@ };
    proof {
        lemma_properties_view(props@);
    }
    let mut i: usize = 0;
    while i < props.len()
        invariant
            i <= props.len(),
            props@ == old(props)@,
            properties_view(old(props)@) == before,
            before.len() == props@.len(),
            forall|j: int| 0 <= j < before.len() ==> #[trigger] before[j] == props@[j]@,
            distinct_names(before),
            p == (ScriptProperty { name: name@, value: value@ }),
            forall|j: int| 0 <= j < i ==> (#[trigger] before[j]).name != p.name,
        decreases props.len() - i,
    {
        if same_text(props[i].name, name) {
            props.set(i, ScriptDataObjectProperty { name, value });
            proof {
                lemma_properties_view(props@);
                assert(before[i as int].name == p.name);
                assert(has_name(before, p.name));
                assert(properties_view(props@) =~= upsert(before, p));
            }
            return ;
        }
        assert(before[i as int].name != p.name);
        i += 1;
    }
    props.push(ScriptDataObjectProperty { name, value });
    proof {
        lemma_properties_view(props@);
        assert(!has_name(before, p.name));
        assert(properties_view(props@) =~= upsert(before, p));
    }
}

impl<'a> ScriptDataValue<'a> {
    /// Decodes one value at the front of `input`.
    ///
    /// The value begins with a type marker; a marker outside the grammar is a
    /// format error. At least the marker is consumed, so that repeated calls
    /// always advance. In the result no mapping holds a name twice.
    pub fn parse(input: &'a [u8]) -> (r: Result<(&'a [u8], ScriptDataValue<'a>), ParseError>)
        ensures
            parsed_view(r) == spec_value(input@),
            r matches Ok((rest, value)) ==> rest@.len() < input@.len() && value@.well_formed(),
        decreases input@.len(), 0nat,
    {
        let (body, marker) = be_u8(input)?;
        match marker {
            0 => {
                let (rest, bits) = be_u64(body)?;
                Ok((rest, ScriptDataValue::Number(bits)))
            },
            1 => {
                let (rest, b) = be_u8(body)?;
                Ok((rest, ScriptDataValue::Boolean(b != 0)))
            },
            2 => {
                let (rest, text) = Self::parse_string(body)?;
                Ok((rest, ScriptDataValue::String(text)))
            },
            3 => {
                let (rest, props) = Self::parse_object(body)?;
                let value = ScriptDataValue::Object(props);
                assert(value@ == ScriptValue::Object(properties_view(props@)));
                Ok((rest, value))
            },
            4 => {
                let (rest, text) = Self::parse_string(body)?;
                Ok((rest, ScriptDataValue::MovieClip(text)))
            },
            5 => Ok((body, ScriptDataValue::Null)),
            6 => Ok((body, ScriptDataValue::Undefined)),
            7 => {
                let (rest, r) = be_u16(body)?;
                Ok((rest, ScriptDataValue::Reference(r)))
            },
            8 => {
                let (rest, props) = Self::parse_ecma_array(body)?;
                let value = ScriptDataValue::ECMAArray(props);
                assert(value@ == ScriptValue::ECMAArray(properties_view(props@)));
                Ok((rest, value))
            },
            10 => {
                let (rest, items) = Self::parse_strict_array(body)?;
                let value = ScriptDataValue::StrictArray(items);
                assert(value@ == ScriptValue::StrictArray(values_view(items@)));
                proof {
                    lemma_values_view(items@);
                }
                Ok((rest, value))
            },
            11 => {
                let (zone, date_time) = be_u64(body)?;
                let (rest, offset) = be_u16(zone)?;
                Ok(
                    (
                        rest,
                        ScriptDataValue::Date(
                            ScriptDataDate { date_time, local_date_time_offset: offset as i16 },
                        ),
                    ),
                )
            },
            12 => {
                let (rest, text) = Self::parse_long_string(body)?;
                Ok((rest, ScriptDataValue::LongString(text)))
            },
            _ => Err(ParseError::Format(FormatError::UnknownValueType)),
        }
    }

    /// Decodes the body of an object: entries of a name and a value each, up
    /// to the end marker `00 00 09`.
    ///
    /// Where the stream holds a name more than once, the mapping keeps the
    /// last value, at the place of the first occurrence.
    pub fn parse_object(input: &'a [u8]) -> (r: Result<
        (&'a [u8], Vec<ScriptDataObjectProperty<'a>>),
        ParseError,
    >)
        ensures
            parsed_properties(r) == spec_object(input@),
            r matches Ok((rest, props)) ==> {
                &&& rest@.len() + 3 <= input@.len()
                &&& distinct_names(properties_view(props@))
                &&& values_well_formed(properties_view(props@))
            },
        decreases input@.len(), 2nat,
    {
        let mut props: Vec<ScriptDataObjectProperty<'a>> = Vec::new();
        let mut cursor = input;
        let ghost mut raw: Seq<ScriptProperty> = Seq::empty();
        loop
            invariant
                cursor@.len() <= input@.len(),
                properties_view(props@) == merged(raw),
                values_well_formed(properties_view(props@)),
                spec_properties(input@) == match spec_properties(cursor@) {
                    Ok((more, rest)) => Ok((raw + more, rest)),
                    Err(e) => Err(e),
                },
            decreases cursor@.len(),
        {
            if cursor.len() >= 3 && cursor[0] == 0 && cursor[1] == 0 && cursor[2] == 9 {
                let (_, rest) = cursor.split_at(3);
                proof {
                    assert(raw + Seq::<ScriptProperty>::empty() =~= raw);
                    lemma_merged_distinct(raw);
                }
                return Ok((rest, props));
            }
            let (after_name, name) = Self::parse_string(cursor)?;
            let (after_value, value) = Self::parse(after_name)?;
            proof {
                let p = ScriptProperty { name: name@, value: value@ };
                let next = raw.push(p);
                assert(next.drop_last() =~= raw);
                lemma_merged_distinct(raw);
                assert forall|more: Seq<ScriptProperty>| raw + (seq![p] + more) == next + more by {
                    assert(raw + (seq![p] + more) =~= next + more);
                }
                raw = next;
            }
            let ghost before = properties_view(props@);
            store_property(&mut props, name, value);
            proof {
                lemma_upsert_well_formed(before, ScriptProperty { name: name@, value: value@ });
            }
            cursor = after_value;
        }
    }

    /// Decodes the body of an ECMA array: a 32-bit count, then entries as in
    /// an object. The count is approximate by definition and is not used.
    pub fn parse_ecma_array(input: &'a [u8]) -> (r: Result<
        (&'a [u8], Vec<ScriptDataObjectProperty<'a>>),
        ParseError,
    >)
        ensures
            parsed_properties(r) == spec_ecma_array(input@),
            r matches Ok((rest, props)) ==> {
                &&& rest@.len() + 7 <= input@.len()
                &&& distinct_names(properties_view(props@))
                &&& values_well_formed(properties_view(props@))
            },
        decreases input@.len(), 3nat,
    {
        let (entries, _) = be_u32(input)?;
        Self::parse_object(entries)
    }

    /// Decodes the body of a strict array: a 32-bit count, then that many
    /// values in a row.
    pub fn parse_strict_array(input: &'a [u8]) -> (r: Result<
        (&'a [u8], Vec<ScriptDataValue<'a>>),
        ParseError,
    >)
        ensures
            parsed_values(r) == spec_strict_array(input@),
            r matches Ok((rest, items)) ==> {
                &&& rest@.len() + 4 <= input@.len()
                &&& forall|i: int|
                    0 <= i < items@.len() ==> (#[trigger] values_view(items@)[i]).well_formed()
            },
        decreases input@.len(), 3nat,
    {
        let (first, count) = be_u32(input)?;
        let mut items: Vec<ScriptDataValue<'a>> = Vec::new();
        let mut cursor = first;
        let mut left: u32 = count;
        while left > 0
            invariant
                cursor@.len() <= first@.len(),
                first@.len() + 4 == input@.len(),
                spec_be_u32(input@) == Ok::<_, ParseError>((count, first@)),
                forall|i: int|
                    0 <= i < items@.len() ==> (#[trigger] values_view(items@)[i]).well_formed(),
                spec_values(first@, count as nat) == match spec_values(cursor@, left as nat) {
                    Ok((more, rest)) => Ok((values_view(items@) + more, rest)),
                    Err(e) => Err(e),
                },
            decreases left,
        {
            let (after_value, value) = Self::parse(cursor)?;
            proof {
                let done = values_view(items@);
                assert forall|more: Seq<ScriptValue>| done + (seq![value@] + more) == done.push(
                    value@,
                ) + more by {
                    assert(done + (seq![value@] + more) =~= done.push(value@) + more);
                }
            }
            let ghost before = items@;
            items.push(value);
            proof {
                assert(items@.drop_last() =~= before);
                lemma_values_view(before);
                lemma_values_view(items@);
            }
            cursor = after_value;
            left = left - 1;
        }
        proof {
            assert(values_view(items@) + Seq::<ScriptValue>::empty() =~= values_view(items@));
        }
        Ok((cursor, items))
    }

    /// Reads a string with a 16-bit length prefix: the length in bytes, then
    /// that many bytes of UTF-8. A length of zero yields the empty string.
    pub fn parse_string(input: &'a [u8]) -> (r: Result<(&'a [u8], &'a str), ParseError>)
        ensures
            parsed_view(r) == spec_string(input@),
            r matches Ok((rest, _)) ==> rest@.len() + 2 <= input@.len(),
    {
        let (rest, count) = be_u16(input)?;
        parse_text(rest, count as usize)
    }

    /// Reads a string with a 32-bit length prefix.
    pub fn parse_long_string(input: &'a [u8]) -> (r: Result<(&'a [u8], &'a str), ParseError>)
        ensures
            parsed_view(r) == spec_long_string(input@),
            r matches Ok((rest, _)) ==> rest@.len() + 4 <= input@.len(),
    {
        let (rest, count) = be_u32(input)?;
        parse_text(rest, count as usize)
    }
}

impl<'a> Clone for ScriptDataValue<'a> {
    /// A copy of the value with vectors of its own; its strings borrow from
    /// the same input.
    #[verifier::loop_isolation(false)]
    fn clone(&self) -> (r: Self)
        ensures
            r@ == self@,
        decreases self,
    {
        match self {
            ScriptDataValue::Number(bits) => ScriptDataValue::Number(*bits),
            ScriptDataValue::Boolean(b) => ScriptDataValue::Boolean(*b),
            ScriptDataValue::String(text) => ScriptDataValue::String(*text),
            ScriptDataValue::Object(props) => {
                let copy = clone_properties(props);
                ScriptDataValue::Object(copy)
            },
            ScriptDataValue::MovieClip(text) => ScriptDataValue::MovieClip(*text),
            ScriptDataValue::Null => ScriptDataValue::Null,
            ScriptDataValue::Undefined => ScriptDataValue::Undefined,
            ScriptDataValue::Reference(r) => ScriptDataValue::Reference(*r),
            ScriptDataValue::ECMAArray(props) => {
                let copy = clone_properties(props);
                ScriptDataValue::ECMAArray(copy)
            },
            ScriptDataValue::StrictArray(items) => {
                let mut copy: Vec<ScriptDataValue<'a>> = Vec::new();
                let mut i: usize = 0;
                while i < items.len()
                    invariant
                        i <= items.len(),
                        copy@.len() == i,
                        forall|j: int| 0 <= j < i ==> (#[trigger] copy@[j])@ == items@[j]@,
                    decreases items.len() - i,
                {
                    let value = items[i].clone();
                    copy.push(value);
                    i += 1;
                }
                proof {
                    lemma_values_view(copy@);
                    lemma_values_view(items@);
                    assert(values_view(copy@) =~= values_view(items@));
                }
                ScriptDataValue::StrictArray(copy)
            },
            ScriptDataValue::Date(date) => ScriptDataValue::Date(*date),
            ScriptDataValue::LongString(text) => ScriptDataValue::LongString(*text),
        }
    }
}

/// Copies a list of properties, entry by entry.
fn clone_properties<'a>(props: &Vec<ScriptDataObjectProperty<'a>>) -> (copy: Vec<
    ScriptDataObjectProperty<'a>,
>)
    ensures
        properties_view(copy@) == properties_view(props@),
    decreases props,
{
    let mut copy: Vec<ScriptDataObjectProperty<'a>> = Vec::new();
    let mut i: usize = 0;
    while i < props.len()
        invariant
            i <= props.len(),
            copy@.len() == i,
            forall|j: int| 0 <= j < i ==> (#[trigger] copy@[j])@ == props@[j]@,
        decreases props.len() - i,
    {
        let value = props[i].value.clone();
        copy.push(ScriptDataObjectProperty { name: props[i].name, value });
        i += 1;
    }
    proof {
        lemma_properties_view(copy@);
        lemma_properties_view(props@);
        assert(properties_view(copy@) =~= properties_view(props@));
    }
    copy
}

impl<'a> ScriptTag<'a> {
    /// Decodes a name and a value at the front of `input`.
    fn parse_body(input: &'a [u8]) -> (r: Result<(&'a [u8], ScriptTag<'a>), ParseError>)
        ensures
            parsed_view(r) == spec_script_body(input@),
            r matches Ok((_, tag)) ==> tag.value@.well_formed(),
    {
        let (after_marker, marker) = be_u8(input)?;
        if marker != 2 {
            return Err(ParseError::Format(FormatError::BadScriptName));
        }
        let (after_name, name) = ScriptDataValue::parse_string(after_marker)?;
        let (rest, value) = ScriptDataValue::parse(after_name)?;
        Ok((rest, ScriptTag { name, value }))
    }

    /// Decodes a script payload of `size` bytes at the front of `input`.
    ///
    /// On success exactly `size` bytes are consumed. The result is never a
    /// shortage once `size` bytes are there.
    pub fn parse(input: &'a [u8], size: usize) -> (r: Result<
        (&'a [u8], ScriptTag<'a>),
        ParseError,
    >)
        ensures
            parsed_view(r) == spec_script_tag(input@, size as nat),
            r matches Ok((rest, tag)) ==> rest@ == input@.skip(size as int)
                && tag.value@.well_formed(),
            r matches Err(ParseError::Incomplete(_)) ==> input@.len() < size,
    {
        let (rest, payload) = take(input, size)?;
        match Self::parse_body(payload) {
            Ok((_, tag)) => Ok((rest, tag)),
            Err(e) => Err(e.within_payload()),
        }
    }
}

} // verus!
