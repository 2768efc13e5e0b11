//! One framed section: its payload, the opaque payload codec and the envelope.
use crate::error::PriError;
use crate::le::{le16, le32, push_u16, push_u32, patch_u32, read_u16, read_u32, u16_at, u32_at};
use vstd::prelude::*;

verus! {

/// Size of the envelope around a payload: a 32-byte header and an 8-byte footer.
pub const SECTION_OVERHEAD: u32 = 40;

/// Marker at the start of every section footer.
pub const SECTION_FOOTER_MARKER: u32 = 0xdef5fade;

/// A payload whose kind this library does not interpret, kept byte for byte.
#[derive(Clone, Debug, PartialEq, Eq)]
pub struct UnknownSection {
    pub identifier: [u8; 16],
    pub data: Vec<u8>,
}

/// The mathematical content of a payload.
pub enum SectionDataView {
    Unknown { identifier: Seq<u8>, data: Seq<u8> },
}

/// The payload of a section, one variant per payload kind.
#[derive(Clone, Debug, PartialEq, Eq)]
pub enum SectionData {
    Unknown(UnknownSection),
}

/// The mathematical content of a section.
pub struct SectionView {
    pub section_qualifier: u32,
    pub flags: u16,
    pub section_flags: u16,
    pub data: SectionDataView,
}

/// One section: a payload with its qualifier and two flag fields.
#[derive(Clone, Debug, PartialEq, Eq)]
pub struct Section {
    pub section_qualifier: u32,
    pub flags: u16,
    pub section_flags: u16,
    pub data: SectionData,
}

impl View for UnknownSection {
    type V = SectionDataView;

    open spec fn view(&self) -> SectionDataView {
        SectionDataView::Unknown { identifier: self.identifier@, data: self.data@ }
    }
}

impl View for SectionData {
    type V = SectionDataView;

    open spec fn view(&self) -> SectionDataView {
        match self {
            SectionData::Unknown(u) => u@,
        }
    }
}

impl View for Section {
    type V = SectionView;

    open spec fn view(&self) -> SectionView {
        SectionView {
            section_qualifier: self.section_qualifier,
            flags: self.flags,
            section_flags: self.section_flags,
            data: self.data@,
        }
    }
}

/// The 16-byte tag under which a payload is filed.
pub open spec fn identifier_of(d: SectionDataView) -> Seq<u8> {
    match d {
        SectionDataView::Unknown { identifier, .. } => identifier,
    }
}

/// The payload bytes that encode `d`.
pub open spec fn encode_data(d: SectionDataView) -> Seq<u8> {
    match d {
        SectionDataView::Unknown { data, .. } => data,
    }
}

/// The payload decoded from `payload` filed under `identifier`: no tag has a codec
/// of its own, so every payload is kept opaque.
pub open spec fn decode_data(identifier: Seq<u8>, payload: Seq<u8>) -> SectionDataView {
    SectionDataView::Unknown { identifier, data: payload }
}

/// A section whose identifier has the width of the identifier field.
pub open spec fn section_wf(s: SectionView) -> bool {
    identifier_of(s.data).len() == 16
}

/// The length field of the encoding of `s`: the payload plus the envelope.
pub open spec fn section_length(s: SectionView) -> int {
    encode_data(s.data).len() + SECTION_OVERHEAD
}

/// The first 32 bytes of the encoding of a section, with `length` in its length field.
pub open spec fn section_header(s: SectionView, length: int) -> Seq<u8> {
    identifier_of(s.data) + le32(s.section_qualifier as int) + le16(s.flags as int) + le16(
        s.section_flags as int,
    ) + le32(length) + le32(0)
}

/// The full encoding of a section: header, payload and footer.
#[verifier::opaque]
pub open spec fn encode_section(s: SectionView) -> Seq<u8> {
    section_header(s, section_length(s)) + encode_data(s.data) + le32(
        SECTION_FOOTER_MARKER as int,
    ) + le32(section_length(s))
}

/// The section that starts at `pos` in `b`, or why there is none.
#[verifier::opaque]
pub open spec fn parse_section(b: Seq<u8>, pos: int) -> Result<SectionView, PriError> {
    if pos < 0 || pos + 32 > b.len() {
        Err(PriError::UnexpectedEnd)
    } else if u32_at(b, pos + 28) != 0 {
        Err(PriError::ReservedFieldMismatch)
    } else {
        let length = u32_at(b, pos + 24);
        if length < SECTION_OVERHEAD {
            Err(PriError::SectionLengthMismatch)
        } else if pos + length > b.len() {
            Err(PriError::UnexpectedEnd)
        } else if u32_at(b, pos + length - 8) != SECTION_FOOTER_MARKER {
            Err(PriError::FooterMismatch)
        } else if u32_at(b, pos + length - 4) != length {
            Err(PriError::SectionLengthMismatch)
        } else {
            Ok(
                SectionView {
                    section_qualifier: u32_at(b, pos + 16) as u32,
                    flags: u16_at(b, pos + 20) as u16,
                    section_flags: u16_at(b, pos + 22) as u16,
                    data: decode_data(
                        b.subrange(pos, pos + 16),
                        b.subrange(pos + 32, pos + length - 8),
                    ),
                },
            )
        }
    }
}

/// The encoding of a section is as long as its length field says.
pub proof fn lemma_encode_section_len(s: SectionView)
    requires
        section_wf(s),
    ensures
        encode_section(s).len() == section_length(s),
{
    reveal(encode_section);
}

/// No section starts where fewer than 32 bytes are left.
pub proof fn lemma_parse_section_past_end(b: Seq<u8>, pos: int)
    requires
        pos + 32 > b.len(),
    ensures
        parse_section(b, pos) == Err::<SectionView, PriError>(PriError::UnexpectedEnd),
{
    reveal(parse_section);
}

/// Copies `b[from..to]` into a new vector.
fn copy_range(b: &[u8], from: usize, to: usize) -> (r: Vec<u8>)
    requires
        from <= to <= b@.len(),
    ensures
        r@ == b@.subrange(from as int, to as int),
{
    let mut r: Vec<u8> = Vec::with_capacity(to - from);
    let mut i: usize = from;
    while i < to
        invariant
            from <= i <= to <= b@.len(),
            r@ == b@.subrange(from as int, i as int),
        decreases to - i,
    {
        r.push(b[i]);
        i = i + 1;
        assert(r@ =~= b@.subrange(from as int, i as int));
    }
    r
}

/// Reads the 16-byte identifier at `b[pos..pos + 16]`.
pub(crate) fn read_identifier(b: &[u8], pos: usize) -> (r: [u8; 16])
    requires
        pos + 16 <= b@.len(),
    ensures
        r@ == b@.subrange(pos as int, pos + 16),
{
    let n = b.len();
    let mut r: [u8; 16] = [0u8; 16];
    let mut i: usize = 0;
    while i < 16
        invariant
            n == b@.len(),
            pos + 16 <= b@.len(),
            i <= 16,
            r@.len() == 16,
            forall|j: int| 0 <= j < i ==> r@[j] == b@[pos + j],
        decreases 16 - i,
    {
        r[i] = b[pos + i];
        i = i + 1;
    }
    assert(r@ =~= b@.subrange(pos as int, pos + 16));
    r
}

/// Appends the bytes of `a`.
pub(crate) fn push_bytes(out: &mut Vec<u8>, a: &[u8])
    ensures
        final(out)@ == old(out)@ + a@,
{
    let mut i: usize = 0;
    while i < a.len()
        invariant
            i <= a@.len(),
            out@ == old(out)@ + a@.subrange(0, i as int),
        decreases a@.len() - i,
    {
        out.push(a[i]);
        i = i + 1;
        assert(out@ =~= old(out)@ + a@.subrange(0, i as int));
    }
    assert(a@.subrange(0, a@.len() as int) =~= a@);
}

impl UnknownSection {
    /// Takes the first `length` bytes of `r` verbatim as a payload filed under `identifier`.
    pub fn read(identifier: [u8; 16], length: u32, r: &[u8]) -> (res: Result<Self, PriError>)
        ensures
            length <= r@.len() <==> res is Ok,
            res is Ok ==> res->Ok_0@ == decode_data(identifier@, r@.subrange(0, length as int)),
            res is Err ==> res->Err_0 == PriError::UnexpectedEnd,
    {
        if (length as usize) > r.len() {
            return Err(PriError::UnexpectedEnd);
        }
        let data = copy_range(r, 0, length as usize);
        Ok(UnknownSection { identifier, data })
    }

    /// Appends the kept payload unchanged.
    pub fn write(&self, out: &mut Vec<u8>)
        ensures
            final(out)@ == old(out)@ + self.data@,
    {
        push_bytes(out, self.data.as_slice());
    }
}

impl SectionData {
    /// The 16-byte tag under which this payload is filed.
    pub fn section_identifier(&self) -> (r: [u8; 16])
        ensures
            r@ == identifier_of(self@),
    {
        match self {
            SectionData::Unknown(u) => u.identifier,
        }
    }

    /// Decodes the first `length` bytes of `r` as the payload kind that `identifier` names.
    pub fn read(identifier: [u8; 16], length: u32, r: &[u8]) -> (res: Result<Self, PriError>)
        ensures
            length <= r@.len() <==> res is Ok,
            res is Ok ==> res->Ok_0@ == decode_data(identifier@, r@.subrange(0, length as int)),
            res is Err ==> res->Err_0 == PriError::UnexpectedEnd,
    {
        match UnknownSection::read(identifier, length, r) {
            Ok(u) => Ok(SectionData::Unknown(u)),
            Err(e) => Err(e),
        }
    }

    /// Appends the encoded payload.
    pub fn write(&self, out: &mut Vec<u8>)
        ensures
            final(out)@ == old(out)@ + encode_data(self@),
    {
        match self {
            SectionData::Unknown(u) => u.write(out),
        }
    }
}

impl Section {
    /// Reads the section that starts at `pos` in `b`, checking its envelope.
    pub fn read(b: &[u8], pos: usize) -> (res: Result<Self, PriError>)
        ensures
            match parse_section(b@, pos as int) {
                Ok(s) => res is Ok && res->Ok_0@ == s,
                Err(e) => res == Err::<Self, PriError>(e),
            },
    {
        reveal(parse_section);
        let n = b.len();
        if pos > n || n - pos < 32 {
            return Err(PriError::UnexpectedEnd);
        }
        if read_u32(b, pos + 28) != 0 {
            return Err(PriError::ReservedFieldMismatch);
        }
        let section_length = read_u32(b, pos + 24);
        if section_length < SECTION_OVERHEAD {
            return Err(PriError::SectionLengthMismatch);
        }
        if n - pos < section_length as usize {
            return Err(PriError::UnexpectedEnd);
        }
        let end = pos + section_length as usize;
        if read_u32(b, end - 8) != SECTION_FOOTER_MARKER {
            return Err(PriError::FooterMismatch);
        }
        if read_u32(b, end - 4) != section_length {
            return Err(PriError::SectionLengthMismatch);
        }
        let identifier = read_identifier(b, pos);
        let section_qualifier = read_u32(b, pos + 16);
        let flags = read_u16(b, pos + 20);
        let section_flags = read_u16(b, pos + 22);
        let payload_length = section_length - SECTION_OVERHEAD;
        let rest = &b[pos + 32..n];
        match SectionData::read(identifier, payload_length, rest) {
            Ok(data) => {
                assert(rest@.subrange(0, payload_length as int) =~= b@.subrange(
                    pos + 32,
                    end - 8,
                ));
                Ok(Section { section_qualifier, flags, section_flags, data })
            },
            Err(e) => Err(e),
        }
    }

    /// Appends the framed section: the header with a placeholder length, the payload,
    /// the footer, and then the measured length patched into the header.
    pub fn write(&self, out: &mut Vec<u8>) -> (res: Result<(), PriError>)
        ensures
            section_length(self@) <= u32::MAX <==> res is Ok,
            res is Ok ==> final(out)@ == old(out)@ + encode_section(self@),
            res is Err ==> final(out)@ == old(out)@ && res->Err_0 == PriError::TooLarge,
    {
        reveal(encode_section);
        let base = out.len();
        let identifier = self.data.section_identifier();
        push_bytes(out, identifier.as_slice());
        push_u32(out, self.section_qualifier);
        push_u16(out, self.flags);
        push_u16(out, self.section_flags);
        push_u32(out, 0);
        push_u32(out, 0);
        let start = out.len();
        self.data.write(out);
        let end = out.len();
        let payload_length = end - start;
        if payload_length > (u32::MAX - SECTION_OVERHEAD) as usize {
            out.truncate(base);
            assert(out@ =~= old(out)@);
            return Err(PriError::TooLarge);
        }
        let section_length = payload_length as u32 + SECTION_OVERHEAD;
        push_u32(out, SECTION_FOOTER_MARKER);
        push_u32(out, section_length);
        patch_u32(out, start - 8, section_length);
        assert(out@ =~= old(out)@ + encode_section(self@));
        Ok(())
    }
}

} // verus!
