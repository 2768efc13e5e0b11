//! The container: file header, table of contents, sections and file footer.
use crate::error::PriError;
use crate::le::{
    le16, le32, overwrite32, patch_u32, push_u16, push_u32, read_u16, read_u32, u16_at, u32_at,
};
use crate::section::{
    encode_section, identifier_of, lemma_encode_section_len, lemma_parse_section_past_end,
    parse_section, push_bytes, read_identifier, section_length, section_wf, Section, SectionData, SectionView,
};
use vstd::prelude::*;

verus! {

/// Size of the fixed-layout file header.
pub const HEADER_SIZE: u32 = 32;

/// The table-of-contents offset that the header declares. The entries themselves
/// are written right after the 32-byte header; each entry's offset and length are
/// patched in at `TOC_OFFSET + 32 * i + 24`, which is where a reader that follows
/// the declared offset finds them.
pub const TOC_OFFSET: u32 = 30;

/// Size of one table-of-contents entry.
pub const TOC_ENTRY_SIZE: u32 = 32;

/// Marker at the start of the file footer.
pub const FILE_FOOTER_MARKER: u32 = 0xdefffade;

/// Size of the file footer.
pub const FILE_FOOTER_SIZE: u32 = 16;

/// Fixed value of the reserved 16-bit header field that follows the section count.
pub const HEADER_SENTINEL: u16 = 0xffff;

/// The version tag `mrm_pri` followed by the byte `v`.
pub open spec fn version_magic(v: u8) -> Seq<u8> {
    seq![0x6d, 0x72, 0x6d, 0x5f, 0x70, 0x72, 0x69, v]
}

/// The last byte of a recognized version tag: `0`, `1`, `2` or `f`.
pub open spec fn is_version_digit(v: u8) -> bool {
    v == 0x30 || v == 0x31 || v == 0x32 || v == 0x66
}

/// One of the four recognized version tags.
pub open spec fn is_version_magic(m: Seq<u8>) -> bool {
    m.len() == 8 && is_version_digit(m[7]) && m == version_magic(m[7])
}

/// The version tag that is written: the newest one, `mrm_pri2`.
pub open spec fn newest_magic() -> Seq<u8> {
    version_magic(0x32)
}

/// The sections read through the first `k` entries of the table of contents at
/// `toc`, whose offsets count from `start`; or the first failure among them.
pub open spec fn parse_sections(b: Seq<u8>, start: int, toc: int, k: nat) -> Result<
    Seq<SectionView>,
    PriError,
>
    decreases k,
{
    if k == 0 {
        Ok(Seq::empty())
    } else {
        match parse_sections(b, start, toc, (k - 1) as nat) {
            Err(e) => Err(e),
            Ok(prev) => match parse_section(
                b,
                start + u32_at(b, toc + TOC_ENTRY_SIZE * (k - 1) + 24),
            ) {
                Err(e) => Err(e),
                Ok(s) => Ok(prev.push(s)),
            },
        }
    }
}

/// Whether the header's reserved fields hold their fixed values.
pub open spec fn header_reserved_ok(b: Seq<u8>) -> bool {
    u16_at(b, 8) == 0 && u16_at(b, 10) == 1 && u16_at(b, 26) == HEADER_SENTINEL && u32_at(b, 28)
        == 0
}

/// Whether the file footer agrees with the header and with the length of `b`.
pub open spec fn footer_ok(b: Seq<u8>) -> bool {
    &&& u32_at(b, 12) == b.len()
    &&& u32_at(b, b.len() - 16) == FILE_FOOTER_MARKER
    &&& u32_at(b, b.len() - 12) == b.len()
    &&& b.subrange(b.len() - 8, b.len() as int) == b.subrange(0, 8)
}

/// The sections of the container stored in `b`, or the first failure met.
pub open spec fn parse_file(b: Seq<u8>) -> Result<Seq<SectionView>, PriError> {
    if b.len() < 8 {
        Err(PriError::UnexpectedEnd)
    } else if !is_version_magic(b.subrange(0, 8)) {
        Err(PriError::UnrecognizedMagic)
    } else if b.len() < HEADER_SIZE {
        Err(PriError::UnexpectedEnd)
    } else if !header_reserved_ok(b) {
        Err(PriError::ReservedFieldMismatch)
    } else if !footer_ok(b) {
        Err(PriError::FooterMismatch)
    } else if u32_at(b, 16) + TOC_ENTRY_SIZE * u16_at(b, 24) > b.len() {
        Err(PriError::UnexpectedEnd)
    } else {
        parse_sections(b, u32_at(b, 20), u32_at(b, 16), u16_at(b, 24) as nat)
    }
}

/// The section bodies of `s`, one after another.
pub open spec fn body(s: Seq<SectionView>) -> Seq<u8>
    decreases s.len(),
{
    if s.len() == 0 {
        Seq::empty()
    } else {
        body(s.drop_last()) + encode_section(s.last())
    }
}

/// Where the body of section `k` starts, counted from the first section body.
pub open spec fn section_offset(s: Seq<SectionView>, k: int) -> int {
    body(s.take(k)).len() as int
}

/// The offset recorded for section `k`: counted from the declared start of the
/// sections, `TOC_OFFSET + 32 * n`, which lies two bytes before the first body.
pub open spec fn entry_offset(s: Seq<SectionView>, k: int) -> int {
    HEADER_SIZE - TOC_OFFSET + section_offset(s, k)
}

/// A table-of-contents entry for `s` as first written, with offset and length zero.
#[verifier::opaque]
pub open spec fn toc_placeholder(s: SectionView) -> Seq<u8> {
    identifier_of(s.data) + le16(s.flags as int) + le16(s.section_flags as int) + le32(
        s.section_qualifier as int,
    ) + le32(0) + le32(0)
}

/// The 32 bytes that the writer leaves for `s` in the table of contents once the
/// offset and length are patched at byte 22 of the placeholder: the low half of the
/// qualifier stays, and the last two bytes stay zero.
#[verifier::opaque]
pub open spec fn toc_entry(s: SectionView, offset: int, length: int) -> Seq<u8> {
    identifier_of(s.data) + le16(s.flags as int) + le16(s.section_flags as int) + le32(
        s.section_qualifier as int,
    ).subrange(0, 2) + le32(offset) + le32(length) + seq![0u8, 0u8]
}

/// The first `k` entries of the table of contents of `s`.
pub open spec fn toc(s: Seq<SectionView>, k: int) -> Seq<u8>
    decreases k,
{
    if k <= 0 {
        Seq::empty()
    } else {
        toc(s, k - 1) + toc_entry(s[k - 1], entry_offset(s, k - 1), section_length(s[k - 1]))
    }
}

/// Table-of-contents entries for `s` with offset and length still zero.
pub open spec fn toc_placeholders(s: Seq<SectionView>) -> Seq<u8>
    decreases s.len(),
{
    if s.len() == 0 {
        Seq::empty()
    } else {
        toc_placeholders(s.drop_last()) + toc_placeholder(s.last())
    }
}

/// The declared start of the sections in a file of `n` sections.
pub open spec fn sections_start(n: int) -> int {
    TOC_OFFSET + TOC_ENTRY_SIZE * n
}

/// Where the first section body is written in a file of `n` sections: after the
/// header and the entries.
pub open spec fn body_start(n: int) -> int {
    HEADER_SIZE + TOC_ENTRY_SIZE * n
}

/// The length of the encoding of a container of sections `s`.
pub open spec fn file_length(s: Seq<SectionView>) -> int {
    body_start(s.len() as int) + body(s).len() + FILE_FOOTER_SIZE
}

/// The file header for `n` sections in a file of `total` bytes.
#[verifier::opaque]
pub open spec fn file_header(n: int, total: int) -> Seq<u8> {
    newest_magic() + le16(0) + le16(1) + le32(total) + le32(TOC_OFFSET as int) + le32(
        sections_start(n),
    ) + le16(n) + le16(HEADER_SENTINEL as int) + le32(0)
}

/// The file footer of a file of `total` bytes.
#[verifier::opaque]
pub open spec fn file_footer(total: int) -> Seq<u8> {
    le32(FILE_FOOTER_MARKER as int) + le32(total) + newest_magic()
}

/// The encoding of a container of sections `s`.
pub open spec fn encode_file(s: Seq<SectionView>) -> Seq<u8> {
    file_header(s.len() as int, file_length(s)) + toc(s, s.len() as int) + body(s) + file_footer(
        file_length(s),
    )
}

/// Whether the section count and every length and offset fit their fields.
pub open spec fn fits(s: Seq<SectionView>) -> bool {
    s.len() <= 0xffff && file_length(s) <= u32::MAX
}

/// Every section of `s` has an identifier of the width of the identifier field.
pub open spec fn sections_wf(s: Seq<SectionView>) -> bool {
    forall|k: int| 0 <= k < s.len() ==> section_wf(#[trigger] s[k])
}

/// One entry of the table of contents: how a section is filed and where it lies.
#[derive(Clone, Copy, Debug, PartialEq, Eq)]
pub struct TocEntry {
    pub section_identifier: [u8; 16],
    pub flags: u16,
    pub section_flags: u16,
    pub section_qualifier: u32,
    pub section_offset: u32,
    pub section_length: u32,
}

/// The 32 bytes that encode `e`.
pub open spec fn toc_entry_bytes(e: TocEntry) -> Seq<u8> {
    e.section_identifier@ + le16(e.flags as int) + le16(e.section_flags as int) + le32(
        e.section_qualifier as int,
    ) + le32(e.section_offset as int) + le32(e.section_length as int)
}

impl TocEntry {
    /// Decodes the entry stored at `b[at..at + 32]`, or fails where fewer than 32
    /// bytes are left.
    pub fn read(b: &[u8], at: usize) -> (res: Result<Self, PriError>)
        ensures
            at + TOC_ENTRY_SIZE <= b@.len() <==> res is Ok,
            res is Err ==> res->Err_0 == PriError::UnexpectedEnd,
            res is Ok ==> {
                let r = res->Ok_0;
                &&& r.section_identifier@ == b@.subrange(at as int, at + 16)
                &&& r.flags == u16_at(b@, at + 16)
                &&& r.section_flags == u16_at(b@, at + 18)
                &&& r.section_qualifier == u32_at(b@, at + 20)
                &&& r.section_offset == u32_at(b@, at + 24)
                &&& r.section_length == u32_at(b@, at + 28)
            },
    {
        let n = b.len();
        if at > n || n - at < TOC_ENTRY_SIZE as usize {
            return Err(PriError::UnexpectedEnd);
        }
        Ok(
            TocEntry {
                section_identifier: read_identifier(b, at),
                flags: read_u16(b, at + 16),
                section_flags: read_u16(b, at + 18),
                section_qualifier: read_u32(b, at + 20),
                section_offset: read_u32(b, at + 24),
                section_length: read_u32(b, at + 28),
            },
        )
    }

    /// Appends the 32 bytes of the entry.
    pub fn write(&self, out: &mut Vec<u8>)
        ensures
            final(out)@ == old(out)@ + toc_entry_bytes(*self),
    {
        push_bytes(out, self.section_identifier.as_slice());
        push_u16(out, self.flags);
        push_u16(out, self.section_flags);
        push_u32(out, self.section_qualifier);
        push_u32(out, self.section_offset);
        push_u32(out, self.section_length);
        assert(final(out)@ =~= old(out)@ + toc_entry_bytes(*self));
    }
}

/// A container: an ordered sequence of sections.
#[derive(Clone, Debug, PartialEq, Eq)]
pub struct PriFile {
    sections: Vec<Section>,
}

impl View for PriFile {
    type V = Seq<SectionView>;

    closed spec fn view(&self) -> Seq<SectionView> {
        self.sections@.map_values(|s: Section| s@)
    }
}

/// Splitting a sequence of sections splits their bodies the same way.
pub proof fn lemma_body_append(a: Seq<SectionView>, c: Seq<SectionView>)
    ensures
        body(a + c) == body(a) + body(c),
    decreases c.len(),
{
    if c.len() == 0 {
        assert(a + c =~= a);
        assert(body(a) + body(c) =~= body(a));
    } else {
        lemma_body_append(a, c.drop_last());
        assert((a + c).drop_last() =~= a + c.drop_last());
        assert(body(a) + body(c) =~= body(a) + body(c.drop_last()) + encode_section(c.last()));
    }
}

/// The body of the first `k + 1` sections extends that of the first `k`, and lies
/// at the start of the whole body.
pub(crate) proof fn lemma_body_prefix(s: Seq<SectionView>, k: int)
    requires
        0 <= k < s.len(),
    ensures
        body(s.take(k + 1)) == body(s.take(k)) + encode_section(s[k]),
        body(s) == body(s.take(k + 1)) + body(s.skip(k + 1)),
{
    assert(s.take(k + 1).drop_last() =~= s.take(k));
    assert(s =~= s.take(k + 1) + s.skip(k + 1));
    lemma_body_append(s.take(k + 1), s.skip(k + 1));
}

/// Splitting a sequence of sections splits their placeholder entries the same way.
proof fn lemma_placeholders_append(a: Seq<SectionView>, c: Seq<SectionView>)
    ensures
        toc_placeholders(a + c) == toc_placeholders(a) + toc_placeholders(c),
    decreases c.len(),
{
    if c.len() == 0 {
        assert(a + c =~= a);
        assert(toc_placeholders(a) + toc_placeholders(c) =~= toc_placeholders(a));
    } else {
        lemma_placeholders_append(a, c.drop_last());
        assert((a + c).drop_last() =~= a + c.drop_last());
        assert(toc_placeholders(a) + toc_placeholders(c) =~= toc_placeholders(a)
            + toc_placeholders(c.drop_last()) + toc_placeholder(c.last()));
    }
}

/// The placeholder entries of `s[i..]` start with that of `s[i]`.
proof fn lemma_placeholders_first(s: Seq<SectionView>, i: int)
    requires
        0 <= i < s.len(),
    ensures
        toc_placeholders(s.subrange(i, s.len() as int)) == toc_placeholder(s[i])
            + toc_placeholders(s.subrange(i + 1, s.len() as int)),
{
    let one = seq![s[i]];
    assert(s.subrange(i, s.len() as int) =~= one + s.subrange(i + 1, s.len() as int));
    lemma_placeholders_append(one, s.subrange(i + 1, s.len() as int));
    assert(one.drop_last() =~= Seq::<SectionView>::empty());
    assert(toc_placeholders(one.drop_last()) =~= Seq::<u8>::empty());
    assert(one.last() == s[i]);
    assert(toc_placeholders(one) =~= toc_placeholder(s[i]));
}

/// A table-of-contents entry takes 32 bytes.
pub(crate) proof fn lemma_toc_entry_len(e: SectionView, offset: int, length: int)
    requires
        section_wf(e),
    ensures
        toc_entry(e, offset, length).len() == TOC_ENTRY_SIZE,
        toc_placeholder(e).len() == TOC_ENTRY_SIZE,
{
    reveal(toc_entry);
    reveal(toc_placeholder);
}

/// The file header takes 32 bytes and the file footer 16.
pub(crate) proof fn lemma_header_footer_len(n: int, total: int)
    ensures
        file_header(n, total).len() == HEADER_SIZE,
        file_footer(total).len() == FILE_FOOTER_SIZE,
{
    reveal(file_header);
    reveal(file_footer);
}

/// Patching offset and length at byte 22 of a placeholder entry gives the entry
/// that the writer leaves.
proof fn lemma_patch_entry(pre: Seq<u8>, e: SectionView, post: Seq<u8>, offset: int, length: int)
    requires
        section_wf(e),
    ensures
        overwrite32(
            overwrite32(pre + toc_placeholder(e) + post, pre.len() as int + 22, offset),
            pre.len() as int + 26,
            length,
        ) == pre + toc_entry(e, offset, length) + post,
{
    reveal(toc_entry);
    reveal(toc_placeholder);
    let x = pre + toc_placeholder(e) + post;
    let y = overwrite32(x, pre.len() as int + 22, offset);
    let head = identifier_of(e.data) + le16(e.flags as int) + le16(e.section_flags as int) + le32(
        e.section_qualifier as int,
    ).subrange(0, 2);
    assert(y =~= pre + (head + le32(offset) + le32(0).subrange(2, 4) + le32(0)) + post);
    assert(overwrite32(y, pre.len() as int + 26, length) =~= pre + toc_entry(e, offset, length)
        + post);
}

/// Patching the total size into a header written with size zero gives the final header.
proof fn lemma_patch_header(n: int, total: int, rest: Seq<u8>)
    ensures
        overwrite32(file_header(n, 0) + rest, 12, total) == file_header(n, total) + rest,
{
    reveal(file_header);
    assert(overwrite32(file_header(n, 0) + rest, 12, total) =~= file_header(n, total) + rest);
}

/// The table of contents has one 32-byte entry per section.
pub(crate) proof fn lemma_toc_len(s: Seq<SectionView>, k: int)
    requires
        0 <= k <= s.len(),
        sections_wf(s),
    ensures
        toc(s, k).len() == TOC_ENTRY_SIZE * k,
    decreases k,
{
    if k > 0 {
        lemma_toc_len(s, k - 1);
        assert(section_wf(s[k - 1]));
        lemma_toc_entry_len(s[k - 1], entry_offset(s, k - 1), section_length(s[k - 1]));
    }
}

/// The placeholder table has one 32-byte entry per section.
proof fn lemma_placeholders_len(s: Seq<SectionView>)
    requires
        sections_wf(s),
    ensures
        toc_placeholders(s).len() == TOC_ENTRY_SIZE * s.len(),
    decreases s.len(),
{
    if s.len() > 0 {
        assert(section_wf(s[s.len() - 1]));
        lemma_toc_entry_len(s.last(), 0, 0);
        assert(sections_wf(s.drop_last())) by {
            assert forall|k: int| 0 <= k < s.drop_last().len() implies section_wf(
                #[trigger] s.drop_last()[k],
            ) by {
                assert(s.drop_last()[k] == s[k]);
            }
        }
        lemma_placeholders_len(s.drop_last());
    }
}

/// Writing section `i` and patching its entry extends the encoding by one section.
proof fn lemma_write_step(s: Seq<SectionView>, i: int, written: Seq<u8>, offset: int, length: int)
    requires
        sections_wf(s),
        0 <= i < s.len(),
        offset == entry_offset(s, i),
        length == section_length(s[i]),
        written == file_header(s.len() as int, 0) + toc(s, i) + toc_placeholders(
            s.subrange(i, s.len() as int),
        ) + body(s.take(i)) + encode_section(s[i]),
    ensures
        overwrite32(
            overwrite32(written, TOC_OFFSET + TOC_ENTRY_SIZE * i + 24, offset),
            TOC_OFFSET + TOC_ENTRY_SIZE * i + 28,
            length,
        ) == file_header(s.len() as int, 0) + toc(s, i + 1) + toc_placeholders(
            s.subrange(i + 1, s.len() as int),
        ) + body(s.take(i + 1)),
{
    let n = s.len() as int;
    lemma_body_prefix(s, i);
    lemma_placeholders_first(s, i);
    lemma_header_footer_len(n, 0);
    lemma_toc_len(s, i);
    let pre = file_header(n, 0) + toc(s, i);
    let post = toc_placeholders(s.subrange(i + 1, n)) + body(s.take(i + 1));
    assert(written =~= pre + toc_placeholder(s[i]) + post);
    lemma_patch_entry(pre, s[i], post, offset, length);
    assert(pre + toc_entry(s[i], offset, length) + post =~= file_header(n, 0) + toc(s, i + 1)
        + toc_placeholders(s.subrange(i + 1, n)) + body(s.take(i + 1)));
}

/// Once reading the sections has failed, reading further entries fails the same way.
proof fn lemma_parse_sections_err_persists(b: Seq<u8>, start: int, toc: int, k: nat, m: nat)
    requires
        k <= m,
        parse_sections(b, start, toc, k) is Err,
    ensures
        parse_sections(b, start, toc, m) == parse_sections(b, start, toc, k),
    decreases m - k,
{
    if k < m {
        lemma_parse_sections_err_persists(b, start, toc, k, (m - 1) as nat);
    }
}

/// Whether `b[0..8]` is one of the recognized version tags.
fn check_magic(b: &[u8]) -> (r: bool)
    requires
        8 <= b@.len(),
    ensures
        r == is_version_magic(b@.subrange(0, 8)),
{
    let v = b[7];
    let r = b[0] == 0x6d && b[1] == 0x72 && b[2] == 0x6d && b[3] == 0x5f && b[4] == 0x70 && b[5]
        == 0x72 && b[6] == 0x69 && (v == 0x30 || v == 0x31 || v == 0x32 || v == 0x66);
    proof {
        let m = b@.subrange(0, 8);
        if r {
            assert(m =~= version_magic(m[7]));
        }
        if is_version_magic(m) {
            assert(m[0] == version_magic(m[7])[0]);
            assert(m[1] == version_magic(m[7])[1]);
            assert(m[2] == version_magic(m[7])[2]);
            assert(m[3] == version_magic(m[7])[3]);
            assert(m[4] == version_magic(m[7])[4]);
            assert(m[5] == version_magic(m[7])[5]);
            assert(m[6] == version_magic(m[7])[6]);
        }
    }
    r
}

/// Whether the footer's version tag repeats the header's.
fn footer_magic_matches(b: &[u8]) -> (r: bool)
    requires
        16 <= b@.len(),
    ensures
        r == (b@.subrange(b@.len() - 8, b@.len() as int) == b@.subrange(0, 8)),
{
    let n = b.len();
    let mut i: usize = 0;
    while i < 8
        invariant
            n == b@.len(),
            16 <= n,
            i <= 8,
            forall|j: int| 0 <= j < i ==> b@[n - 8 + j] == #[trigger] b@[j],
        decreases 8 - i,
    {
        if b[n - 8 + i] != b[i] {
            proof {
                let t = b@.subrange(n - 8, n as int);
                assert(t[i as int] != b@.subrange(0, 8)[i as int]);
            }
            return false;
        }
        i = i + 1;
    }
    assert(b@.subrange(n - 8, n as int) =~= b@.subrange(0, 8));
    true
}

/// Reads the first `num_sections` sections that the table of contents at
/// `toc_offset` lists, in its order.
fn read_sections(b: &[u8], section_start: usize, toc_offset: usize, num_sections: usize) -> (res:
    Result<Vec<Section>, PriError>)
    requires
        toc_offset + TOC_ENTRY_SIZE * num_sections <= b@.len(),
    ensures
        match parse_sections(b@, section_start as int, toc_offset as int, num_sections as nat) {
            Ok(s) => res is Ok && res->Ok_0@.map_values(|x: Section| x@) == s,
            Err(e) => res == Err::<Vec<Section>, PriError>(e),
        },
{
    let n = b.len();
    let mut toc: Vec<TocEntry> = Vec::with_capacity(num_sections);
    let mut k: usize = 0;
    while k < num_sections
        invariant
            n == b@.len(),
            k <= num_sections,
            toc_offset + TOC_ENTRY_SIZE * num_sections <= n,
            toc@.len() == k,
            forall|j: int|
                0 <= j < k ==> (#[trigger] toc@[j]).section_offset == u32_at(
                    b@,
                    toc_offset + TOC_ENTRY_SIZE * j + 24,
                ),
        decreases num_sections - k,
    {
        assert(TOC_ENTRY_SIZE * k + TOC_ENTRY_SIZE <= TOC_ENTRY_SIZE * num_sections) by (
        nonlinear_arith)
            requires
                k < num_sections,
        ;
        match TocEntry::read(b, toc_offset + TOC_ENTRY_SIZE as usize * k) {
            Ok(entry) => toc.push(entry),
            Err(e) => {
                return Err(e);
            },
        }
        k = k + 1;
    }
    let mut sections: Vec<Section> = Vec::with_capacity(num_sections);
    let mut k: usize = 0;
    assert(sections@.map_values(|s: Section| s@) =~= Seq::<SectionView>::empty());
    while k < num_sections
        invariant
            n == b@.len(),
            k <= num_sections,
            toc@.len() == num_sections,
            forall|j: int|
                0 <= j < num_sections ==> (#[trigger] toc@[j]).section_offset == u32_at(
                    b@,
                    toc_offset + TOC_ENTRY_SIZE * j + 24,
                ),
            parse_sections(b@, section_start as int, toc_offset as int, k as nat) == Ok::<
                Seq<SectionView>,
                PriError,
            >(sections@.map_values(|s: Section| s@)),
        decreases num_sections - k,
    {
        let ghost prev = sections@.map_values(|s: Section| s@);
        let section_offset = toc[k].section_offset;
            let pos = match section_start.checked_add(section_offset as usize) {
                Some(p) => p,
                None => {
                    proof {
                        lemma_parse_section_past_end(
                            b@,
                            section_start + section_offset as int,
                        );
                        lemma_parse_sections_err_persists(
                            b@,
                            section_start as int,
                            toc_offset as int,
                            (k + 1) as nat,
                            num_sections as nat,
                        );
                    }
                    return Err(PriError::UnexpectedEnd);
                },
            };
            match Section::read(b, pos) {
                Ok(s) => {
                    sections.push(s);
                    proof {
                        assert(sections@.map_values(|s: Section| s@) =~= prev.push(s@));
                    }
                },
                Err(e) => {
                    proof {
                        lemma_parse_sections_err_persists(
                            b@,
                            section_start as int,
                            toc_offset as int,
                            (k + 1) as nat,
                            num_sections as nat,
                        );
                    }
                    return Err(e);
                },
            }
            k = k + 1;
        }
    Ok(sections)
}

/// Appends the newest version tag.
fn push_newest_magic(out: &mut Vec<u8>)
    ensures
        final(out)@ == old(out)@ + newest_magic(),
{
    out.push(0x6d);
    out.push(0x72);
    out.push(0x6d);
    out.push(0x5f);
    out.push(0x70);
    out.push(0x72);
    out.push(0x69);
    out.push(0x32);
    assert(final(out)@ =~= old(out)@ + newest_magic());
}

/// Appends the file header for `n` sections in a file of `total` bytes.
fn push_header(out: &mut Vec<u8>, n: u16, total: u32)
    ensures
        final(out)@ == old(out)@ + file_header(n as int, total as int),
{
    reveal(file_header);
    push_newest_magic(out);
    push_u16(out, 0);
    push_u16(out, 1);
    push_u32(out, total);
    push_u32(out, TOC_OFFSET);
    push_u32(out, TOC_OFFSET + TOC_ENTRY_SIZE * n as u32);
    push_u16(out, n);
    push_u16(out, HEADER_SENTINEL);
    push_u32(out, 0);
    assert(final(out)@ =~= old(out)@ + file_header(n as int, total as int));
}

/// Appends the file footer of a file of `total` bytes.
fn push_footer(out: &mut Vec<u8>, total: u32)
    ensures
        final(out)@ == old(out)@ + file_footer(total as int),
{
    reveal(file_footer);
    push_u32(out, FILE_FOOTER_MARKER);
    push_u32(out, total);
    push_newest_magic(out);
    assert(final(out)@ =~= old(out)@ + file_footer(total as int));
}

/// Appends the table-of-contents entry for `s` with offset and length zero.
fn push_toc_placeholder(out: &mut Vec<u8>, s: &Section)
    ensures
        final(out)@ == old(out)@ + toc_placeholder(s@),
{
    reveal(toc_placeholder);
    let entry = TocEntry {
        section_identifier: s.data.section_identifier(),
        flags: s.flags,
        section_flags: s.section_flags,
        section_qualifier: s.section_qualifier,
        section_offset: 0,
        section_length: 0,
    };
    entry.write(out);
    assert(toc_entry_bytes(entry) =~= toc_placeholder(s@));
}

impl PriFile {
    /// The oldest recognized version tag.
    pub const MRM_PRI0: &'static str = "mrm_pri0";

    /// A recognized version tag.
    pub const MRM_PRI1: &'static str = "mrm_pri1";

    /// The newest version tag, the one that is written.
    pub const MRM_PRI2: &'static str = "mrm_pri2";

    /// A recognized version tag.
    pub const MRM_PRIF: &'static str = "mrm_prif";

    /// An empty container.
    pub fn new() -> (r: Self)
        ensures
            r@ == Seq::<SectionView>::empty(),
    {
        let r = PriFile { sections: Vec::new() };
        assert(r@ =~= Seq::<SectionView>::empty());
        r
    }

    /// Parses a container from the bytes of a whole file.
    pub fn read(b: &[u8]) -> (res: Result<Self, PriError>)
        ensures
            match parse_file(b@) {
                Ok(s) => res is Ok && res->Ok_0@ == s,
                Err(e) => res == Err::<Self, PriError>(e),
            },
    {
        let n = b.len();
        if n < 8 {
            return Err(PriError::UnexpectedEnd);
        }
        if !check_magic(b) {
            return Err(PriError::UnrecognizedMagic);
        }
        if n < HEADER_SIZE as usize {
            return Err(PriError::UnexpectedEnd);
        }
        if read_u16(b, 8) != 0 || read_u16(b, 10) != 1 || read_u16(b, 26) != HEADER_SENTINEL
            || read_u32(b, 28) != 0 {
            return Err(PriError::ReservedFieldMismatch);
        }
        let total_file_size = read_u32(b, 12);
        if total_file_size as usize != n || read_u32(b, n - 16) != FILE_FOOTER_MARKER || read_u32(
            b,
            n - 12,
        ) != total_file_size || !footer_magic_matches(b) {
            return Err(PriError::FooterMismatch);
        }
        let toc_offset = read_u32(b, 16) as usize;
        let section_start = read_u32(b, 20) as usize;
        let num_sections = read_u16(b, 24) as usize;
        if toc_offset > n || n - toc_offset < TOC_ENTRY_SIZE as usize * num_sections {
            return Err(PriError::UnexpectedEnd);
        }
        match read_sections(b, section_start, toc_offset, num_sections) {
            Ok(sections) => Ok(PriFile { sections }),
            Err(e) => Err(e),
        }
    }
}

impl PriFile {
    /// Every section held has a 16-byte identifier.
    proof fn lemma_wf(&self)
        ensures
            sections_wf(self@),
    {
        assert forall|k: int| 0 <= k < self@.len() implies section_wf(#[trigger] self@[k]) by {
            assert(self@[k] == self.sections@[k]@);
            match self.sections@[k].data {
                SectionData::Unknown(u) => {
                    assert(u.identifier@.len() == 16);
                },
            }
        }
    }

    /// Writes section `i` after the first `i`, and patches its table-of-contents entry.
    fn write_section(&self, out: &mut Vec<u8>, i: usize, section_start: usize) -> (res: Result<
        (),
        PriError,
    >)
        requires
            ({
                let s = self@;
                let n = s.len();
                &&& sections_wf(s)
                &&& n <= 0xffff
                &&& i < n
                &&& section_start == sections_start(n as int)
                &&& old(out)@ == file_header(n as int, 0) + toc(s, i as int) + toc_placeholders(
                    s.subrange(i as int, n as int),
                ) + body(s.take(i as int))
                &&& old(out)@.len() == body_start(n as int) + body(s.take(i as int)).len()
            }),
        ensures
            ({
                let s = self@;
                let n = s.len();
                match res {
                    Ok(()) => {
                        &&& final(out)@ == file_header(n as int, 0) + toc(s, i + 1)
                            + toc_placeholders(s.subrange(i + 1, n as int)) + body(s.take(i + 1))
                        &&& final(out)@.len() == body_start(n as int) + body(s.take(i + 1)).len()
                        &&& final(out)@.len() + FILE_FOOTER_SIZE <= u32::MAX
                    },
                    Err(e) => e == PriError::TooLarge && !fits(s),
                }
            }),
    {
        let ghost s = self@;
        let ghost n = s.len();
        let n_ = self.sections.len();
        let start = out.len();
        proof {
            lemma_body_prefix(s, i as int);
            lemma_encode_section_len(s[i as int]);
            lemma_header_footer_len(n as int, 0);
            assert(self.sections@[i as int]@ == s[i as int]);
        }
        match self.sections[i].write(out) {
            Ok(()) => {},
            Err(e) => {
                return Err(e);
            },
        }
        let end = out.len();
        if end > (u32::MAX - FILE_FOOTER_SIZE) as usize {
            return Err(PriError::TooLarge);
        }
        let offset = (start - section_start) as u32;
        let length = (end - start) as u32;
        let entry_at = TOC_OFFSET as usize + TOC_ENTRY_SIZE as usize * i;
        proof {
            lemma_toc_len(s, i as int);
            assert(TOC_ENTRY_SIZE * i + TOC_ENTRY_SIZE <= TOC_ENTRY_SIZE * n_) by (
            nonlinear_arith)
                requires
                i < n_,
            ;
        }
        let ghost written = out@;
        patch_u32(out, entry_at + 24, offset);
        patch_u32(out, entry_at + 28, length);
        proof {
            lemma_write_step(s, i as int, written, offset as int, length as int);
        }
        Ok(())
    }

    /// Encodes the container: header, table of contents, section bodies and footer,
    /// with offsets, lengths and the total size patched in once they are known.
    /// The newest version tag is written whatever tag the container was read with.
    pub fn write(&self) -> (res: Result<Vec<u8>, PriError>)
        ensures
            fits(self@) <==> res is Ok,
            res is Ok ==> res->Ok_0@ == encode_file(self@),
            res is Err ==> res->Err_0 == PriError::TooLarge,
    {
        let ghost s = self@;
        proof {
            self.lemma_wf();
        }
        let n = self.sections.len();
        if n > 0xffff {
            return Err(PriError::TooLarge);
        }
        let mut out: Vec<u8> = Vec::new();
        push_header(&mut out, n as u16, 0);
        let mut i: usize = 0;
        while i < n
            invariant
                n == s.len(),
                s == self@,
                i <= n,
                out@ == file_header(n as int, 0) + toc_placeholders(s.take(i as int)),
            decreases n - i,
        {
            push_toc_placeholder(&mut out, &self.sections[i]);
            proof {
                assert(s.take(i + 1).drop_last() =~= s.take(i as int));
                assert(self.sections@[i as int]@ == s[i as int]);
            }
            i = i + 1;
        }
        assert(TOC_ENTRY_SIZE * n <= TOC_ENTRY_SIZE * 0xffff) by (nonlinear_arith)
            requires
                n <= 0xffff,
        ;
        let section_start: usize = TOC_OFFSET as usize + TOC_ENTRY_SIZE as usize * n;
        proof {
            lemma_header_footer_len(n as int, 0);
            assert(s.take(n as int) =~= s);
            assert(s.subrange(0, n as int) =~= s);
            assert(s.take(0) =~= Seq::<SectionView>::empty());
            assert(toc(s, 0) =~= Seq::<u8>::empty());
            assert(body(s.take(0)) =~= Seq::<u8>::empty());
            assert(out@ =~= file_header(n as int, 0) + toc(s, 0) + toc_placeholders(
                s.subrange(0, n as int),
            ) + body(s.take(0)));
            lemma_placeholders_len(s);
        }
        let mut i: usize = 0;
        while i < n
            invariant
                n == s.len(),
                s == self@,
                sections_wf(s),
                n <= 0xffff,
                i <= n,
                section_start == sections_start(n as int),
                out@ == file_header(n as int, 0) + toc(s, i as int) + toc_placeholders(
                    s.subrange(i as int, n as int),
                ) + body(s.take(i as int)),
                out@.len() == body_start(n as int) + body(s.take(i as int)).len(),
                out@.len() + FILE_FOOTER_SIZE <= u32::MAX,
            decreases n - i,
        {
            match self.write_section(&mut out, i, section_start) {
                Ok(()) => {},
                Err(e) => {
                    return Err(e);
                },
            }
            i = i + 1;
        }
        let total = out.len() as u32 + FILE_FOOTER_SIZE;
        let ghost rest = out@.subrange(HEADER_SIZE as int, out@.len() as int);
        proof {
            assert(s.take(n as int) =~= s);
            assert(s.subrange(n as int, n as int) =~= Seq::<SectionView>::empty());
            assert(toc_placeholders(s.subrange(n as int, n as int)) =~= Seq::<u8>::empty());
            assert(out@ =~= file_header(n as int, 0) + rest);
        }
        push_footer(&mut out, total);
        patch_u32(&mut out, 12, total);
        proof {
            lemma_patch_header(n as int, total as int, rest + file_footer(total as int));
            assert(file_header(n as int, 0) + rest + file_footer(total as int) =~= file_header(
                n as int,
                0,
            ) + (rest + file_footer(total as int)));
            assert(out@ =~= encode_file(s));
        }
        Ok(out)
    }

    /// Appends a section at the end of the container.
    pub fn add_section(&mut self, section: Section)
        ensures
            final(self)@ == old(self)@.push(section@),
    {
        self.sections.push(section);
        assert(final(self)@ =~= old(self)@.push(section@));
    }

    /// The number of sections.
    pub fn num_sections(&self) -> (r: usize)
        ensures
            r == self@.len(),
    {
        self.sections.len()
    }

    /// The section at `index`, if there is one.
    pub fn section(&self, index: usize) -> (r: Option<&Section>)
        ensures
            index < self@.len() ==> r is Some && r->Some_0@ == self@[index as int],
            index >= self@.len() ==> r is None,
    {
        if index < self.sections.len() {
            Some(&self.sections[index])
        } else {
            None
        }
    }
}

} // verus!
