use pri::{PriError, PriFile, Section, SectionData, UnknownSection};

fn unknown(identifier: &[u8; 16], payload: &[u8], qualifier: u32, flags: u16) -> Section {
    Section {
        section_qualifier: qualifier,
        flags,
        section_flags: flags ^ 0x0101,
        data: SectionData::Unknown(UnknownSection {
            identifier: *identifier,
            data: payload.to_vec(),
        }),
    }
}

fn sample() -> PriFile {
    let mut pri = PriFile::new();
    pri.add_section(unknown(b"[mrm_pridescex]\0", b"descriptor", 0, 1));
    pri.add_section(unknown(b"[mrm_hschemaex] ", &[7u8; 33], 1, 2));
    pri.add_section(unknown(b"[mrm_decn_info]\0", b"", 2, 3));
    pri.add_section(unknown(b"[mrm_resmap2]\0\0\0", &[0xde, 0xfa, 0xf5, 0xde], 0xffff_ffff, 4));
    pri.add_section(unknown(b"[mrm_dataitem] \0", b"items", 5, 0xffff));
    pri
}

fn u32_at(b: &[u8], i: usize) -> u32 {
    u32::from_le_bytes([b[i], b[i + 1], b[i + 2], b[i + 3]])
}

#[test]
fn test_parse_gen_parse() {
    let resources = sample().write().unwrap();
    let pri = PriFile::read(&resources).unwrap();
    let buf = pri.write().unwrap();
    let pri2 = PriFile::read(&buf).unwrap();
    assert_eq!(pri.num_sections(), pri2.num_sections());
    for i in 0..pri.num_sections() {
        let s1 = pri.section(i).unwrap();
        let s2 = pri2.section(i).unwrap();
        assert_eq!(s1, s2);
    }
}

#[test]
fn round_trip_keeps_sections_in_order() {
    let original = sample();
    let bytes = original.write().unwrap();
    let read = PriFile::read(&bytes).unwrap();
    assert_eq!(read, original);
    assert_eq!(read.write().unwrap(), bytes);
}

#[test]
fn one_unknown_section_scenario() {
    let mut identifier = [0u8; 16];
    identifier.copy_from_slice(b"test0000000000\0\0");
    let mut pri = PriFile::new();
    pri.add_section(Section {
        section_qualifier: 0,
        flags: 0,
        section_flags: 0,
        data: SectionData::Unknown(UnknownSection { identifier, data: b"hello".to_vec() }),
    });
    let bytes = pri.write().unwrap();
    let read = PriFile::read(&bytes).unwrap();
    assert_eq!(read.num_sections(), 1);
    let expected = SectionData::Unknown(UnknownSection { identifier, data: b"hello".to_vec() });
    assert_eq!(read.section(0).unwrap().data, expected);
    let again = PriFile::read(&read.write().unwrap()).unwrap();
    assert_eq!(again.num_sections(), 1);
    assert_eq!(again.section(0).unwrap().data, expected);
    assert!(again.section(1).is_none());
}

#[test]
fn stripped_footer_fails() {
    let bytes = sample().write().unwrap();
    let stripped = &bytes[..bytes.len() - 16];
    assert_eq!(PriFile::read(stripped), Err(PriError::FooterMismatch));
}

#[test]
fn empty_container_bytes() {
    let bytes = PriFile::new().write().unwrap();
    let mut expected: Vec<u8> = b"mrm_pri2".to_vec();
    expected.extend_from_slice(&[0, 0, 1, 0, 48, 0, 0, 0, 30, 0, 0, 0, 30, 0, 0, 0]);
    expected.extend_from_slice(&[0, 0, 0xff, 0xff, 0, 0, 0, 0]);
    expected.extend_from_slice(&[0xde, 0xfa, 0xff, 0xde, 48, 0, 0, 0]);
    expected.extend_from_slice(b"mrm_pri2");
    assert_eq!(bytes, expected);
    assert_eq!(PriFile::read(&bytes).unwrap().num_sections(), 0);
}

#[test]
fn one_section_layout() {
    let mut pri = PriFile::new();
    pri.add_section(unknown(b"abcdefghijklmnop", b"xyz", 0x0403_0201, 0x0605));
    let b = pri.write().unwrap();
    // header 32, one entry 32, section 40 + 3, footer 16
    assert_eq!(b.len(), 123);
    assert_eq!(u32_at(&b, 12), 123);
    assert_eq!(u32_at(&b, 16), 30);
    assert_eq!(u32_at(&b, 20), 62);
    assert_eq!(&b[24..26], &[1, 0]);
    // the entry is written from byte 32; offset and length are patched at 30 + 24
    assert_eq!(&b[32..48], b"abcdefghijklmnop");
    assert_eq!(&b[48..50], &[0x05, 0x06]);
    assert_eq!(&b[50..52], &[0x04, 0x07]);
    assert_eq!(&b[52..54], &[0x01, 0x02]);
    assert_eq!(u32_at(&b, 54), 2);
    assert_eq!(u32_at(&b, 58), 43);
    assert_eq!(&b[62..64], &[0, 0]);
    // section envelope, at the declared start 62 plus the recorded offset 2
    assert_eq!(&b[64..80], b"abcdefghijklmnop");
    assert_eq!(u32_at(&b, 80), 0x0403_0201);
    assert_eq!(u32_at(&b, 88), 43);
    assert_eq!(u32_at(&b, 92), 0);
    assert_eq!(&b[96..99], b"xyz");
    assert_eq!(u32_at(&b, 99), 0xdef5_fade);
    assert_eq!(u32_at(&b, 103), 43);
    // footer
    assert_eq!(u32_at(&b, 107), 0xdeff_fade);
    assert_eq!(u32_at(&b, 111), 123);
    assert_eq!(&b[115..123], b"mrm_pri2");
}

#[test]
fn second_section_offset_counts_from_declared_start() {
    let mut pri = PriFile::new();
    pri.add_section(unknown(b"aaaaaaaaaaaaaaaa", b"12345", 0, 0));
    pri.add_section(unknown(b"bbbbbbbbbbbbbbbb", b"6", 0, 0));
    let b = pri.write().unwrap();
    assert_eq!(u32_at(&b, 16), 30);
    assert_eq!(u32_at(&b, 20), 94);
    assert_eq!(u32_at(&b, 30 + 24), 2);
    assert_eq!(u32_at(&b, 30 + 28), 45);
    assert_eq!(u32_at(&b, 30 + 32 + 24), 47);
    assert_eq!(u32_at(&b, 30 + 32 + 28), 41);
    assert_eq!(&b[96..112], b"aaaaaaaaaaaaaaaa");
    assert_eq!(&b[141..157], b"bbbbbbbbbbbbbbbb");
}

#[test]
fn version_tags() {
    assert_eq!(PriFile::MRM_PRI0, "mrm_pri0");
    assert_eq!(PriFile::MRM_PRI1, "mrm_pri1");
    assert_eq!(PriFile::MRM_PRI2, "mrm_pri2");
    assert_eq!(PriFile::MRM_PRIF, "mrm_prif");
    let bytes = PriFile::new().write().unwrap();
    assert_eq!(&bytes[..8], PriFile::MRM_PRI2.as_bytes());
}

#[test]
fn reserved_header_fields_are_strict() {
    let bytes = sample().write().unwrap();
    for i in [8usize, 9, 10, 11, 26, 27, 28, 29, 30, 31] {
        let mut corrupt = bytes.clone();
        corrupt[i] ^= 0x10;
        assert_eq!(PriFile::read(&corrupt), Err(PriError::ReservedFieldMismatch));
    }
}

#[test]
fn section_reserved_field_is_strict() {
    let mut pri = PriFile::new();
    pri.add_section(unknown(b"abcdefghijklmnop", b"xyz", 0, 0));
    let mut b = pri.write().unwrap();
    b[64 + 29] = 1;
    assert_eq!(PriFile::read(&b), Err(PriError::ReservedFieldMismatch));
}

#[test]
fn footer_sizes_must_agree() {
    let bytes = sample().write().unwrap();
    let n = bytes.len();
    let mut header = bytes.clone();
    header[12] ^= 1;
    assert_eq!(PriFile::read(&header), Err(PriError::FooterMismatch));
    let mut footer = bytes.clone();
    footer[n - 12] ^= 1;
    assert_eq!(PriFile::read(&footer), Err(PriError::FooterMismatch));
    let mut marker = bytes.clone();
    marker[n - 16] ^= 1;
    assert_eq!(PriFile::read(&marker), Err(PriError::FooterMismatch));
    let mut magic = bytes.clone();
    magic[n - 1] = b'1';
    assert_eq!(PriFile::read(&magic), Err(PriError::FooterMismatch));
    let mut longer = bytes.clone();
    longer.push(0);
    assert_eq!(PriFile::read(&longer), Err(PriError::FooterMismatch));
}

#[test]
fn section_footer_length_must_agree() {
    let mut pri = PriFile::new();
    pri.add_section(unknown(b"abcdefghijklmnop", b"xyz", 0, 0));
    let mut b = pri.write().unwrap();
    b[103] = 44;
    assert_eq!(PriFile::read(&b), Err(PriError::SectionLengthMismatch));
    let mut m = pri.write().unwrap();
    m[99] ^= 1;
    assert_eq!(PriFile::read(&m), Err(PriError::FooterMismatch));
    let mut short = pri.write().unwrap();
    short[88] = 39;
    assert_eq!(PriFile::read(&short), Err(PriError::SectionLengthMismatch));
}

#[test]
fn older_version_is_written_as_newest() {
    for v in [b'0', b'1', b'2', b'f'] {
        let mut bytes = sample().write().unwrap();
        let n = bytes.len();
        bytes[7] = v;
        bytes[n - 1] = v;
        let pri = PriFile::read(&bytes).unwrap();
        let out = pri.write().unwrap();
        assert_eq!(&out[..8], b"mrm_pri2");
        assert_eq!(&out[out.len() - 8..], b"mrm_pri2");
    }
}

#[test]
fn unrecognized_magic_fails() {
    let mut bytes = sample().write().unwrap();
    bytes[7] = b'3';
    assert_eq!(PriFile::read(&bytes), Err(PriError::UnrecognizedMagic));
    assert_eq!(PriFile::read(b"not a pri file at all, clearly not"), Err(PriError::UnrecognizedMagic));
}

#[test]
fn truncated_data_fails() {
    assert_eq!(PriFile::read(b""), Err(PriError::UnexpectedEnd));
    assert_eq!(PriFile::read(b"mrm_pri"), Err(PriError::UnexpectedEnd));
    let bytes = sample().write().unwrap();
    assert_eq!(PriFile::read(&bytes[..20]), Err(PriError::UnexpectedEnd));
}

#[test]
fn toc_past_end_fails() {
    let mut bytes = PriFile::new().write().unwrap();
    bytes[24] = 1;
    assert_eq!(PriFile::read(&bytes), Err(PriError::UnexpectedEnd));
}

#[test]
fn section_offset_past_end_fails() {
    let mut pri = PriFile::new();
    pri.add_section(unknown(b"abcdefghijklmnop", b"xyz", 0, 0));
    let mut b = pri.write().unwrap();
    b[56] = 200;
    assert_ne!(u32_at(&b, 54), 2);
    assert_eq!(PriFile::read(&b), Err(PriError::UnexpectedEnd));
}

#[test]
fn too_many_sections_cannot_be_written() {
    let mut pri = PriFile::new();
    for _ in 0..0x1_0000u32 {
        pri.add_section(unknown(b"abcdefghijklmnop", b"", 0, 0));
    }
    assert_eq!(pri.write(), Err(PriError::TooLarge));
}

#[test]
fn largest_section_count_is_written() {
    let mut pri = PriFile::new();
    for _ in 0..0xffffu32 {
        pri.add_section(unknown(b"abcdefghijklmnop", b"", 0, 0));
    }
    let bytes = pri.write().unwrap();
    assert_eq!(&bytes[24..26], &[0xff, 0xff]);
    assert_eq!(PriFile::read(&bytes).unwrap().num_sections(), 0xffff);
}

#[test]
fn section_read_then_written_gives_same_bytes() {
    let bytes = sample().write().unwrap();
    let mut seen = 0;
    for k in 0..5usize {
        let pos = u32_at(&bytes, 20) as usize + u32_at(&bytes, 30 + 32 * k + 24) as usize;
        let len = u32_at(&bytes, pos + 24) as usize;
        let s = Section::read(&bytes, pos).unwrap();
        let mut out = Vec::new();
        s.write(&mut out).unwrap();
        assert_eq!(&out[..], &bytes[pos..pos + len]);
        seen += 1;
    }
    assert_eq!(seen, 5);
}
