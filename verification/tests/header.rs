use flvparse::{FlvFileHeader, FormatError, ParseError};

fn header_bytes(version: u8, flags: u8, offset: u32) -> Vec<u8> {
    let mut bytes = vec![0x46, 0x4c, 0x56, version, flags];
    bytes.extend_from_slice(&offset.to_be_bytes());
    bytes
}

#[test]
fn file_header_decodes_every_field() {
    let mut bytes = header_bytes(1, 0b0000_0101, 9);
    bytes.extend_from_slice(&[0xaa, 0xbb]);
    let (rest, header) = FlvFileHeader::parse(&bytes).unwrap();
    assert_eq!(
        header,
        FlvFileHeader {
            signature: [0x46, 0x4c, 0x56],
            version: 1,
            flags: 5,
            has_audio: true,
            has_video: true,
            data_offset: 9,
        }
    );
    assert_eq!(rest, &[0xaa, 0xbb]);
}

#[test]
fn file_header_flags_for_all_256_values() {
    for flags in 0..=255u8 {
        let bytes = header_bytes(1, flags, 9);
        let (rest, header) = FlvFileHeader::parse(&bytes).unwrap();
        assert_eq!(header.flags, flags);
        assert_eq!(header.has_audio, flags & 4 != 0);
        assert_eq!(header.has_video, flags & 1 != 0);
        assert!(rest.is_empty());
    }
}

#[test]
fn file_header_audio_only_and_video_only() {
    let (_, audio_only) = FlvFileHeader::parse(&header_bytes(1, 4, 9)).unwrap();
    assert!(audio_only.has_audio && !audio_only.has_video);
    let (_, video_only) = FlvFileHeader::parse(&header_bytes(1, 1, 9)).unwrap();
    assert!(!video_only.has_audio && video_only.has_video);
    let (_, neither) = FlvFileHeader::parse(&header_bytes(1, 0b1111_1010, 9)).unwrap();
    assert!(!neither.has_audio && !neither.has_video);
}

#[test]
fn file_header_offset_is_big_endian() {
    let (_, header) = FlvFileHeader::parse(&header_bytes(3, 0, 0x0102_0304)).unwrap();
    assert_eq!(header.version, 3);
    assert_eq!(header.data_offset, 0x0102_0304);
}

#[test]
fn magic_mismatch_is_a_format_error_at_every_length() {
    let bad = Err(ParseError::Format(FormatError::BadSignature));
    assert_eq!(FlvFileHeader::parse(&[]), bad);
    assert_eq!(FlvFileHeader::parse(&[0x46]), bad);
    assert_eq!(FlvFileHeader::parse(&[0x46, 0x4c]), bad);
    assert_eq!(FlvFileHeader::parse(&[0x46, 0x4c, 0x57]), bad);
    assert_eq!(FlvFileHeader::parse(&[0x00, 0x4c, 0x56, 1, 5, 0, 0, 0, 9]), bad);
    assert_eq!(FlvFileHeader::parse(b"flv\x01\x05\x00\x00\x00\x09"), bad);
    assert_eq!(FlvFileHeader::parse(&[0u8; 64]), bad);
}

#[test]
fn short_file_header_with_magic_needs_more_data() {
    let bytes = header_bytes(1, 5, 9);
    assert_eq!(FlvFileHeader::parse(&bytes[..3]), Err(ParseError::Incomplete(1)));
    assert_eq!(FlvFileHeader::parse(&bytes[..4]), Err(ParseError::Incomplete(1)));
    assert_eq!(FlvFileHeader::parse(&bytes[..5]), Err(ParseError::Incomplete(4)));
    assert_eq!(FlvFileHeader::parse(&bytes[..6]), Err(ParseError::Incomplete(3)));
    assert_eq!(FlvFileHeader::parse(&bytes[..8]), Err(ParseError::Incomplete(1)));
    assert!(FlvFileHeader::parse(&bytes[..9]).is_ok());
}
