use pri::{PriError, SectionData, UnknownSection};

#[test]
fn opaque_payload_is_reproduced() {
    let identifier = *b"zzzzzzzzzzzzzzzz";
    let input = [1u8, 2, 3, 4, 5, 6, 7];
    let u = UnknownSection::read(identifier, 5, &input).unwrap();
    assert_eq!(u.identifier, identifier);
    assert_eq!(u.data, vec![1, 2, 3, 4, 5]);
    let mut out = vec![9u8];
    u.write(&mut out);
    assert_eq!(out, vec![9, 1, 2, 3, 4, 5]);
}

#[test]
fn opaque_payload_needs_its_length() {
    let identifier = *b"zzzzzzzzzzzzzzzz";
    assert_eq!(UnknownSection::read(identifier, 8, &[0u8; 7]), Err(PriError::UnexpectedEnd));
    assert_eq!(SectionData::read(identifier, 8, &[0u8; 7]), Err(PriError::UnexpectedEnd));
}

#[test]
fn dispatch_keeps_unknown_identifier() {
    let identifier = *b"[mrm_unheard_of]";
    let d = SectionData::read(identifier, 3, b"abcdef").unwrap();
    assert_eq!(d.section_identifier(), identifier);
    assert_eq!(d, SectionData::Unknown(UnknownSection { identifier, data: b"abc".to_vec() }));
    let mut out = Vec::new();
    d.write(&mut out);
    assert_eq!(out, b"abc".to_vec());
}

#[test]
fn toc_entry_layout() {
    let e = pri::TocEntry {
        section_identifier: *b"0123456789abcdef",
        flags: 0x0201,
        section_flags: 0x0403,
        section_qualifier: 0x0807_0605,
        section_offset: 0x0c0b_0a09,
        section_length: 0x100f_0e0d,
    };
    let mut out = vec![0xaau8];
    e.write(&mut out);
    assert_eq!(out.len(), 33);
    assert_eq!(&out[1..17], b"0123456789abcdef");
    assert_eq!(&out[17..], &[1, 2, 3, 4, 5, 6, 7, 8, 9, 10, 11, 12, 13, 14, 15, 16]);
    assert_eq!(pri::TocEntry::read(&out, 1), Ok(e));
    out.extend_from_slice(&[0xbb; 5]);
    assert_eq!(pri::TocEntry::read(&out, 1), Ok(e));
}

#[test]
fn toc_entry_short_input_fails() {
    assert_eq!(pri::TocEntry::read(&[0u8; 31], 0), Err(PriError::UnexpectedEnd));
    assert_eq!(pri::TocEntry::read(&[0u8; 40], 9), Err(PriError::UnexpectedEnd));
    assert_eq!(pri::TocEntry::read(&[0u8; 4], 10), Err(PriError::UnexpectedEnd));
    assert!(pri::TocEntry::read(&[0u8; 40], 8).is_ok());
}
