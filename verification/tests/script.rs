use flvparse::{
    FlvTagData, FlvTagType, FormatError, ParseError, ScriptDataDate, ScriptDataObjectProperty,
    ScriptDataValue, ScriptTag,
};

fn named(name: &str, value: &[u8]) -> Vec<u8> {
    let mut bytes = (name.len() as u16).to_be_bytes().to_vec();
    bytes.extend_from_slice(name.as_bytes());
    bytes.extend_from_slice(value);
    bytes
}

fn number_bytes(value: f64) -> Vec<u8> {
    let mut bytes = vec![0u8];
    bytes.extend_from_slice(&value.to_be_bytes());
    bytes
}

const END: [u8; 3] = [0, 0, 9];

#[test]
fn number_keeps_the_bits_of_the_double() {
    let bytes = number_bytes(10.0);
    assert_eq!(bytes[1..], [0x40, 0x24, 0, 0, 0, 0, 0, 0]);
    let (rest, value) = ScriptDataValue::parse(&bytes).unwrap();
    assert!(rest.is_empty());
    assert_eq!(value, ScriptDataValue::Number(0x4024_0000_0000_0000));
    match value {
        ScriptDataValue::Number(bits) => assert_eq!(f64::from_bits(bits), 10.0),
        other => panic!("unexpected {:?}", other),
    }
    let encoded = number_bytes(-0.5);
    let (_, negative) = ScriptDataValue::parse(&encoded).unwrap();
    assert_eq!(negative, ScriptDataValue::Number((-0.5f64).to_bits()));
}

#[test]
fn boolean_is_true_for_any_non_zero_byte() {
    assert_eq!(ScriptDataValue::parse(&[1, 0]), Ok((&[][..], ScriptDataValue::Boolean(false))));
    assert_eq!(ScriptDataValue::parse(&[1, 1]), Ok((&[][..], ScriptDataValue::Boolean(true))));
    assert_eq!(ScriptDataValue::parse(&[1, 0xff, 7]), Ok((&[7u8][..], ScriptDataValue::Boolean(true))));
}

#[test]
fn string_with_sixteen_bit_length() {
    let input = [2, 0, 3, b'a', b'b', b'c', 0x55];
    assert_eq!(ScriptDataValue::parse(&input), Ok((&[0x55u8][..], ScriptDataValue::String("abc"))));
    assert_eq!(ScriptDataValue::parse_string(&input[1..]), Ok((&[0x55u8][..], "abc")));
}

#[test]
fn string_borrows_from_the_input() {
    let input = [2, 0, 3, b'a', b'b', b'c'];
    match ScriptDataValue::parse(&input) {
        Ok((_, ScriptDataValue::String(text))) => {
            assert!(std::ptr::eq(text.as_ptr(), input[3..].as_ptr()));
        }
        other => panic!("unexpected {:?}", other),
    }
}

#[test]
fn empty_string_decodes_to_the_empty_string() {
    assert_eq!(ScriptDataValue::parse(&[2, 0, 0]), Ok((&[][..], ScriptDataValue::String(""))));
    assert_eq!(ScriptDataValue::parse_string(&[0, 0, 9]), Ok((&[9u8][..], "")));
    assert_eq!(ScriptDataValue::parse(&[12, 0, 0, 0, 0]), Ok((&[][..], ScriptDataValue::LongString(""))));
    assert_eq!(ScriptDataValue::parse(&[4, 0, 0]), Ok((&[][..], ScriptDataValue::MovieClip(""))));
}

#[test]
fn string_of_several_bytes_per_character() {
    let text = "h\u{e9}llo \u{4e16}\u{754c} \u{1f600}";
    let mut input = vec![2];
    input.extend_from_slice(&named(text, &[]));
    assert_eq!(ScriptDataValue::parse(&input), Ok((&[][..], ScriptDataValue::String(text))));
}

#[test]
fn invalid_utf8_is_a_format_error() {
    let invalid = Err(ParseError::Format(FormatError::InvalidUtf8));
    assert_eq!(ScriptDataValue::parse(&[2, 0, 1, 0xff]), invalid);
    assert_eq!(ScriptDataValue::parse(&[2, 0, 2, 0xc3, 0x28]), invalid);
    // a character cut in the middle
    assert_eq!(ScriptDataValue::parse(&[2, 0, 1, 0xc3, 0xa9]), invalid);
    // an overlong form and a surrogate
    assert_eq!(ScriptDataValue::parse(&[2, 0, 2, 0xc0, 0x80]), invalid);
    assert_eq!(ScriptDataValue::parse(&[2, 0, 3, 0xed, 0xa0, 0x80]), invalid);
    assert_eq!(ScriptDataValue::parse(&[12, 0, 0, 0, 1, 0x80]), invalid);
}

#[test]
fn string_shortage() {
    assert_eq!(ScriptDataValue::parse(&[2]), Err(ParseError::Incomplete(2)));
    assert_eq!(ScriptDataValue::parse(&[2, 0]), Err(ParseError::Incomplete(1)));
    assert_eq!(ScriptDataValue::parse(&[2, 0, 5, b'a']), Err(ParseError::Incomplete(4)));
    assert_eq!(ScriptDataValue::parse(&[12, 0, 0, 1, 0, b'a']), Err(ParseError::Incomplete(255)));
    assert_eq!(ScriptDataValue::parse(&[12, 0, 0]), Err(ParseError::Incomplete(2)));
}

#[test]
fn long_string_and_movie_clip() {
    assert_eq!(
        ScriptDataValue::parse(&[12, 0, 0, 0, 2, b'h', b'i', 1]),
        Ok((&[1u8][..], ScriptDataValue::LongString("hi")))
    );
    assert_eq!(ScriptDataValue::parse_long_string(&[0, 0, 0, 1, b'x']), Ok((&[][..], "x")));
    assert_eq!(
        ScriptDataValue::parse(&[4, 0, 2, b'_', b'r']),
        Ok((&[][..], ScriptDataValue::MovieClip("_r")))
    );
}

#[test]
fn null_undefined_and_reference() {
    assert_eq!(ScriptDataValue::parse(&[5, 1]), Ok((&[1u8][..], ScriptDataValue::Null)));
    assert_eq!(ScriptDataValue::parse(&[6]), Ok((&[][..], ScriptDataValue::Undefined)));
    assert_eq!(ScriptDataValue::parse(&[7, 0x12, 0x34]), Ok((&[][..], ScriptDataValue::Reference(0x1234))));
    assert_eq!(ScriptDataValue::parse(&[7, 0x12]), Err(ParseError::Incomplete(1)));
}

#[test]
fn date_with_offsets_east_and_west() {
    let mut input = vec![11];
    input.extend_from_slice(&1.5e12f64.to_be_bytes());
    input.extend_from_slice(&120i16.to_be_bytes());
    assert_eq!(
        ScriptDataValue::parse(&input),
        Ok((
            &[][..],
            ScriptDataValue::Date(ScriptDataDate {
                date_time: 1.5e12f64.to_bits(),
                local_date_time_offset: 120,
            })
        ))
    );
    let mut west = vec![11];
    west.extend_from_slice(&0f64.to_be_bytes());
    west.extend_from_slice(&[0xfe, 0x20]);
    assert_eq!(
        ScriptDataValue::parse(&west),
        Ok((
            &[][..],
            ScriptDataValue::Date(ScriptDataDate { date_time: 0, local_date_time_offset: -480 })
        ))
    );
    let mut lowest = vec![11];
    lowest.extend_from_slice(&[0; 8]);
    lowest.extend_from_slice(&[0x80, 0x00]);
    match ScriptDataValue::parse(&lowest) {
        Ok((_, ScriptDataValue::Date(date))) => assert_eq!(date.local_date_time_offset, i16::MIN),
        other => panic!("unexpected {:?}", other),
    }
    assert_eq!(ScriptDataValue::parse(&west[..10]), Err(ParseError::Incomplete(1)));
    assert_eq!(ScriptDataValue::parse(&west[..4]), Err(ParseError::Incomplete(5)));
}

#[test]
fn unknown_value_type_is_a_format_error() {
    let unknown = Err(ParseError::Format(FormatError::UnknownValueType));
    assert_eq!(ScriptDataValue::parse(&[9]), unknown);
    assert_eq!(ScriptDataValue::parse(&[13, 0, 0]), unknown);
    assert_eq!(ScriptDataValue::parse(&[0xff]), unknown);
    assert_eq!(ScriptDataValue::parse(&[]), Err(ParseError::Incomplete(1)));
}

#[test]
fn object_runs_to_the_end_marker() {
    let mut input = vec![3];
    input.extend_from_slice(&named("a", &[1, 1]));
    input.extend_from_slice(&named("bc", &[5]));
    input.extend_from_slice(&END);
    input.push(0x42);
    assert_eq!(
        ScriptDataValue::parse(&input),
        Ok((
            &[0x42u8][..],
            ScriptDataValue::Object(vec![
                ScriptDataObjectProperty { name: "a", value: ScriptDataValue::Boolean(true) },
                ScriptDataObjectProperty { name: "bc", value: ScriptDataValue::Null },
            ])
        ))
    );
    assert_eq!(ScriptDataValue::parse(&[3, 0, 0, 9]), Ok((&[][..], ScriptDataValue::Object(vec![]))));
}

#[test]
fn object_without_end_marker_needs_more_data() {
    let mut input = vec![3];
    input.extend_from_slice(&named("a", &[1, 1]));
    assert_eq!(ScriptDataValue::parse(&input), Err(ParseError::Incomplete(2)));
    input.extend_from_slice(&[0, 0]);
    assert_eq!(ScriptDataValue::parse(&input), Err(ParseError::Incomplete(1)));
    input.push(9);
    assert!(ScriptDataValue::parse(&input).is_ok());
}

#[test]
fn object_entry_with_an_empty_name() {
    // an empty name in front of a value is an entry, in front of marker 9 the end
    let input = [3, 0, 0, 5, 0, 0, 9];
    assert_eq!(
        ScriptDataValue::parse(&input),
        Ok((
            &[][..],
            ScriptDataValue::Object(vec![ScriptDataObjectProperty {
                name: "",
                value: ScriptDataValue::Null
            }])
        ))
    );
}

#[test]
fn duplicate_keys_last_writer_wins() {
    let mut input = vec![3];
    input.extend_from_slice(&named("a", &[7, 0, 1]));
    input.extend_from_slice(&named("b", &[7, 0, 2]));
    input.extend_from_slice(&named("a", &[7, 0, 3]));
    input.extend_from_slice(&named("c", &[7, 0, 4]));
    input.extend_from_slice(&named("b", &[5]));
    input.extend_from_slice(&named("a", &[7, 0, 6]));
    input.extend_from_slice(&END);
    assert_eq!(
        ScriptDataValue::parse(&input),
        Ok((
            &[][..],
            ScriptDataValue::Object(vec![
                ScriptDataObjectProperty { name: "a", value: ScriptDataValue::Reference(6) },
                ScriptDataObjectProperty { name: "b", value: ScriptDataValue::Null },
                ScriptDataObjectProperty { name: "c", value: ScriptDataValue::Reference(4) },
            ])
        ))
    );
}

#[test]
fn duplicate_keys_in_an_ecma_array() {
    let mut input = vec![8, 0, 0, 0, 2];
    input.extend_from_slice(&named("k", &[1, 0]));
    input.extend_from_slice(&named("k", &[1, 1]));
    input.extend_from_slice(&END);
    assert_eq!(
        ScriptDataValue::parse(&input),
        Ok((
            &[][..],
            ScriptDataValue::ECMAArray(vec![ScriptDataObjectProperty {
                name: "k",
                value: ScriptDataValue::Boolean(true)
            }])
        ))
    );
}

#[test]
fn names_that_differ_are_kept_apart() {
    let mut input = vec![3];
    input.extend_from_slice(&named("ab", &[5]));
    input.extend_from_slice(&named("a", &[6]));
    input.extend_from_slice(&named("abc", &[5]));
    input.extend_from_slice(&named("Ab", &[6]));
    input.extend_from_slice(&END);
    match ScriptDataValue::parse(&input) {
        Ok((_, ScriptDataValue::Object(props))) => {
            let names: Vec<&str> = props.iter().map(|p| p.name).collect();
            assert_eq!(names, vec!["ab", "a", "abc", "Ab"]);
        }
        other => panic!("unexpected {:?}", other),
    }
}

#[test]
fn ecma_array_count_is_not_binding() {
    for count in [0u32, 1, 2, 1000, u32::MAX] {
        let mut input = vec![8];
        input.extend_from_slice(&count.to_be_bytes());
        input.extend_from_slice(&named("x", &number_bytes(1.0)));
        input.extend_from_slice(&named("y", &number_bytes(2.0)));
        input.extend_from_slice(&END);
        assert_eq!(
            ScriptDataValue::parse(&input),
            Ok((
                &[][..],
                ScriptDataValue::ECMAArray(vec![
                    ScriptDataObjectProperty {
                        name: "x",
                        value: ScriptDataValue::Number(1.0f64.to_bits())
                    },
                    ScriptDataObjectProperty {
                        name: "y",
                        value: ScriptDataValue::Number(2.0f64.to_bits())
                    },
                ])
            ))
        );
    }
    assert_eq!(ScriptDataValue::parse(&[8, 0, 0]), Err(ParseError::Incomplete(2)));
}

#[test]
fn strict_array_holds_as_many_values_as_it_says() {
    let input = [10, 0, 0, 0, 3, 5, 1, 1, 7, 0, 9, 0xaa];
    assert_eq!(
        ScriptDataValue::parse(&input),
        Ok((
            &[0xaau8][..],
            ScriptDataValue::StrictArray(vec![
                ScriptDataValue::Null,
                ScriptDataValue::Boolean(true),
                ScriptDataValue::Reference(9),
            ])
        ))
    );
    assert_eq!(
        ScriptDataValue::parse(&[10, 0, 0, 0, 0, 5]),
        Ok((&[5u8][..], ScriptDataValue::StrictArray(vec![])))
    );
    assert_eq!(
        ScriptDataValue::parse_strict_array(&[0, 0, 0, 1, 6]),
        Ok((&[][..], vec![ScriptDataValue::Undefined]))
    );
}

#[test]
fn strict_array_shortage_and_bad_element() {
    assert_eq!(ScriptDataValue::parse(&[10, 0, 0, 0, 2, 5]), Err(ParseError::Incomplete(1)));
    assert_eq!(ScriptDataValue::parse(&[10, 0xff, 0xff, 0xff, 0xff]), Err(ParseError::Incomplete(1)));
    assert_eq!(ScriptDataValue::parse(&[10, 0, 0]), Err(ParseError::Incomplete(2)));
    assert_eq!(
        ScriptDataValue::parse(&[10, 0, 0, 0, 2, 5, 9]),
        Err(ParseError::Format(FormatError::UnknownValueType))
    );
}

#[test]
fn values_nest() {
    // { "list": [ { "n": null }, "s" ], "flag": true }
    let mut inner = vec![3];
    inner.extend_from_slice(&named("n", &[5]));
    inner.extend_from_slice(&END);
    let mut list = vec![10, 0, 0, 0, 2];
    list.extend_from_slice(&inner);
    list.extend_from_slice(&[2, 0, 1, b's']);
    let mut input = vec![3];
    input.extend_from_slice(&named("list", &list));
    input.extend_from_slice(&named("flag", &[1, 1]));
    input.extend_from_slice(&END);
    assert_eq!(
        ScriptDataValue::parse(&input),
        Ok((
            &[][..],
            ScriptDataValue::Object(vec![
                ScriptDataObjectProperty {
                    name: "list",
                    value: ScriptDataValue::StrictArray(vec![
                        ScriptDataValue::Object(vec![ScriptDataObjectProperty {
                            name: "n",
                            value: ScriptDataValue::Null
                        }]),
                        ScriptDataValue::String("s"),
                    ])
                },
                ScriptDataObjectProperty { name: "flag", value: ScriptDataValue::Boolean(true) },
            ])
        ))
    );
}

#[test]
fn deep_nesting_ends() {
    let depth = 200;
    let mut input = Vec::new();
    for _ in 0..depth {
        input.extend_from_slice(&[10, 0, 0, 0, 1]);
    }
    input.push(5);
    let (rest, mut value) = ScriptDataValue::parse(&input).unwrap();
    assert!(rest.is_empty());
    for _ in 0..depth {
        value = match value {
            ScriptDataValue::StrictArray(mut items) => {
                assert_eq!(items.len(), 1);
                items.pop().unwrap()
            }
            other => panic!("unexpected {:?}", other),
        };
    }
    assert_eq!(value, ScriptDataValue::Null);
}

#[test]
fn error_inside_an_entry_is_the_error_of_the_object() {
    let mut input = vec![3];
    input.extend_from_slice(&named("a", &[13]));
    input.extend_from_slice(&END);
    assert_eq!(ScriptDataValue::parse(&input), Err(ParseError::Format(FormatError::UnknownValueType)));
    assert_eq!(
        ScriptDataValue::parse(&[3, 0, 1, 0xff, 5, 0, 0, 9]),
        Err(ParseError::Format(FormatError::InvalidUtf8))
    );
}

fn on_meta_data() -> Vec<u8> {
    let mut payload = vec![2];
    payload.extend_from_slice(&named("onMetaData", &[8, 0, 0, 0, 2]));
    payload.extend_from_slice(&named("duration", &number_bytes(10.0)));
    payload.extend_from_slice(&named("stereo", &[1, 1]));
    payload.extend_from_slice(&END);
    payload
}

#[test]
fn script_tag_is_a_name_and_a_value() {
    let payload = on_meta_data();
    let mut input = payload.clone();
    input.extend_from_slice(&[0xde, 0xad]);
    assert_eq!(
        ScriptTag::parse(&input, payload.len()),
        Ok((
            &[0xdeu8, 0xad][..],
            ScriptTag {
                name: "onMetaData",
                value: ScriptDataValue::ECMAArray(vec![
                    ScriptDataObjectProperty {
                        name: "duration",
                        value: ScriptDataValue::Number(10.0f64.to_bits())
                    },
                    ScriptDataObjectProperty {
                        name: "stereo",
                        value: ScriptDataValue::Boolean(true)
                    },
                ])
            }
        ))
    );
}

#[test]
fn script_tag_skips_what_its_value_leaves() {
    let input = [2, 0, 1, b'n', 5, 0xaa, 0xbb, 0xcc, 0x11];
    assert_eq!(
        ScriptTag::parse(&input, 8),
        Ok((&[0x11u8][..], ScriptTag { name: "n", value: ScriptDataValue::Null }))
    );
}

#[test]
fn script_tag_does_not_read_past_its_size() {
    // the bytes of the value are there, but behind the payload
    let input = [2, 0, 1, b'n', 7, 0x12, 0x34];
    assert!(ScriptTag::parse(&input, 7).is_ok());
    let short = Err(ParseError::Format(FormatError::PayloadTooShort));
    assert_eq!(ScriptTag::parse(&input, 6), short);
    assert_eq!(ScriptTag::parse(&input, 4), short);
    assert_eq!(ScriptTag::parse(&input, 2), short);
    assert_eq!(ScriptTag::parse(&input, 0), short);
}

#[test]
fn script_tag_shortage() {
    let input = [2, 0, 1, b'n', 5];
    assert_eq!(ScriptTag::parse(&input, 9), Err(ParseError::Incomplete(4)));
    assert_eq!(ScriptTag::parse(&[], 1), Err(ParseError::Incomplete(1)));
}

#[test]
fn script_tag_name_must_be_a_string() {
    let bad = Err(ParseError::Format(FormatError::BadScriptName));
    assert_eq!(ScriptTag::parse(&[5, 0, 1, b'n', 5], 5), bad);
    assert_eq!(ScriptTag::parse(&[12, 0, 0, 0, 1, b'n', 5], 7), bad);
    assert_eq!(ScriptTag::parse(&[0], 1), bad);
}

#[test]
fn script_tag_errors_of_the_grammar() {
    assert_eq!(
        ScriptTag::parse(&[2, 0, 1, b'n', 14], 5),
        Err(ParseError::Format(FormatError::UnknownValueType))
    );
    assert_eq!(
        ScriptTag::parse(&[2, 0, 1, 0x80, 5], 5),
        Err(ParseError::Format(FormatError::InvalidUtf8))
    );
}

#[test]
fn script_payload_through_the_dispatcher() {
    let payload = on_meta_data();
    match FlvTagData::parse(&payload, FlvTagType::Script, payload.len()) {
        Ok((rest, FlvTagData::Script(tag))) => {
            assert!(rest.is_empty());
            assert_eq!(tag.name, "onMetaData");
        }
        other => panic!("unexpected {:?}", other),
    }
}

#[test]
fn clone_of_a_nested_value_is_equal() {
    let mut inner = vec![3];
    inner.extend_from_slice(&named("n", &[5]));
    inner.extend_from_slice(&named("m", &number_bytes(2.5)));
    inner.extend_from_slice(&END);
    let mut list = vec![10, 0, 0, 0, 3];
    list.extend_from_slice(&inner);
    list.extend_from_slice(&[2, 0, 1, b's']);
    list.extend_from_slice(&[8, 0, 0, 0, 0, 0, 0, 9]);
    let (_, value) = ScriptDataValue::parse(&list).unwrap();
    let copy = value.clone();
    assert_eq!(copy, value);
    match (&copy, &value) {
        (ScriptDataValue::StrictArray(a), ScriptDataValue::StrictArray(b)) => {
            assert_eq!(a.len(), 3);
            assert!(!std::ptr::eq(a.as_ptr(), b.as_ptr()));
        }
        other => panic!("unexpected {:?}", other),
    }
    for simple in [
        ScriptDataValue::Number(7),
        ScriptDataValue::Boolean(true),
        ScriptDataValue::String("x"),
        ScriptDataValue::MovieClip("y"),
        ScriptDataValue::Null,
        ScriptDataValue::Undefined,
        ScriptDataValue::Reference(3),
        ScriptDataValue::Date(ScriptDataDate { date_time: 1, local_date_time_offset: -2 }),
        ScriptDataValue::LongString("z"),
    ] {
        assert_eq!(simple.clone(), simple);
    }
}
