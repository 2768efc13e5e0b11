//! Properties of the container format, proved over the specification of reading and writing.
use crate::container::{
    body, body_start, encode_file, entry_offset, file_footer, file_header, file_length, fits, footer_ok, header_reserved_ok,
    is_version_magic, lemma_body_prefix, lemma_header_footer_len, lemma_toc_entry_len,
    lemma_toc_len, newest_magic, parse_file, parse_sections, section_offset, sections_start,
    sections_wf, toc, toc_entry, FILE_FOOTER_MARKER, FILE_FOOTER_SIZE, HEADER_SENTINEL,
    HEADER_SIZE, TOC_ENTRY_SIZE, TOC_OFFSET,
};
use crate::error::PriError;
use crate::le::{
    le16, le32, lemma_le16_inverse, lemma_le16_of_u16_at, lemma_le32_inverse,
    lemma_le32_of_u32_at, u16_at, u32_at,
};
use crate::section::{
    decode_data, encode_data, encode_section, identifier_of, lemma_encode_section_len,
    parse_section, section_header, section_length, section_wf, SectionDataView, SectionView,
    SECTION_FOOTER_MARKER,
};
use vstd::prelude::*;

verus! {

/// Where `e` lies in `b` at `p`, a 32-bit field of `e` at `a` reads the same in `b`.
proof fn lemma_u32_in(b: Seq<u8>, p: int, e: Seq<u8>, a: int, x: int)
    requires
        0 <= p,
        p + e.len() <= b.len(),
        b.subrange(p, p + e.len()) == e,
        0 <= a,
        a + 4 <= e.len(),
        e.subrange(a, a + 4) == le32(x),
        0 <= x < 0x1_0000_0000,
    ensures
        u32_at(b, p + a) == x,
{
    lemma_le32_inverse(x);
    let f = le32(x);
    assert(b[p + a] == e[a] && e[a] == f[0]);
    assert(b[p + a + 1] == e[a + 1] && e[a + 1] == f[1]);
    assert(b[p + a + 2] == e[a + 2] && e[a + 2] == f[2]);
    assert(b[p + a + 3] == e[a + 3] && e[a + 3] == f[3]);
}

/// Where `e` lies in `b` at `p`, a 16-bit field of `e` at `a` reads the same in `b`.
proof fn lemma_u16_in(b: Seq<u8>, p: int, e: Seq<u8>, a: int, x: int)
    requires
        0 <= p,
        p + e.len() <= b.len(),
        b.subrange(p, p + e.len()) == e,
        0 <= a,
        a + 2 <= e.len(),
        e.subrange(a, a + 2) == le16(x),
        0 <= x < 0x1_0000,
    ensures
        u16_at(b, p + a) == x,
{
    lemma_le16_inverse(x);
    let f = le16(x);
    assert(b[p + a] == e[a] && e[a] == f[0]);
    assert(b[p + a + 1] == e[a + 1] && e[a + 1] == f[1]);
}

/// Where `e` lies in `b` at `p`, a part of `e` is the same part of `b`.
proof fn lemma_sub_in(b: Seq<u8>, p: int, e: Seq<u8>, a: int, c: int)
    requires
        0 <= p,
        p + e.len() <= b.len(),
        b.subrange(p, p + e.len()) == e,
        0 <= a <= c <= e.len(),
    ensures
        b.subrange(p + a, p + c) == e.subrange(a, c),
{
    assert(b.subrange(p + a, p + c) =~= e.subrange(a, c));
}

/// A section encoding lying in `b` at `p` reads back as that section.
proof fn lemma_parse_encoded_section(b: Seq<u8>, p: int, s: SectionView)
    requires
        section_wf(s),
        section_length(s) <= u32::MAX,
        0 <= p,
        p + section_length(s) <= b.len(),
        b.subrange(p, p + section_length(s)) == encode_section(s),
    ensures
        parse_section(b, p) == Ok::<SectionView, PriError>(s),
{
    reveal(encode_section);
    reveal(parse_section);
    let e = encode_section(s);
    let len = section_length(s);
    let id = identifier_of(s.data);
    let payload = encode_data(s.data);
    assert(e.subrange(16, 20) =~= le32(s.section_qualifier as int));
    assert(e.subrange(20, 22) =~= le16(s.flags as int));
    assert(e.subrange(22, 24) =~= le16(s.section_flags as int));
    assert(e.subrange(24, 28) =~= le32(len));
    assert(e.subrange(28, 32) =~= le32(0));
    assert(e.subrange(len - 8, len - 4) =~= le32(SECTION_FOOTER_MARKER as int));
    assert(e.subrange(len - 4, len) =~= le32(len));
    assert(e.subrange(0, 16) =~= id);
    assert(e.subrange(32, len - 8) =~= payload);
    lemma_u32_in(b, p, e, 16, s.section_qualifier as int);
    lemma_u16_in(b, p, e, 20, s.flags as int);
    lemma_u16_in(b, p, e, 22, s.section_flags as int);
    lemma_u32_in(b, p, e, 24, len);
    lemma_u32_in(b, p, e, 28, 0);
    lemma_u32_in(b, p, e, len - 8, SECTION_FOOTER_MARKER as int);
    lemma_u32_in(b, p, e, len - 4, len);
    lemma_sub_in(b, p, e, 0, 16);
    lemma_sub_in(b, p, e, 32, len - 8);
    match s.data {
        SectionDataView::Unknown { identifier, data } => {
            assert(decode_data(id, payload) == s.data);
        },
    }
}

/// Entry `j` of the table of contents lies at `32 * j`.
proof fn lemma_toc_slice(s: Seq<SectionView>, m: int, j: int)
    requires
        sections_wf(s),
        0 <= j < m <= s.len(),
    ensures
        toc(s, m).len() == TOC_ENTRY_SIZE * m,
        toc(s, m).subrange(TOC_ENTRY_SIZE * j, TOC_ENTRY_SIZE * j + TOC_ENTRY_SIZE) == toc_entry(
            s[j],
            entry_offset(s, j),
            section_length(s[j]),
        ),
    decreases m,
{
    lemma_toc_len(s, m);
    lemma_toc_len(s, m - 1);
    let e = toc_entry(s[m - 1], entry_offset(s, m - 1), section_length(s[m - 1]));
    lemma_toc_entry_len(s[m - 1], entry_offset(s, m - 1), section_length(s[m - 1]));
    assert(toc(s, m) == toc(s, m - 1) + e);
    if j < m - 1 {
        lemma_toc_slice(s, m - 1, j);
        assert(toc(s, m).subrange(TOC_ENTRY_SIZE * j, TOC_ENTRY_SIZE * j + TOC_ENTRY_SIZE)
            =~= toc(s, m - 1).subrange(TOC_ENTRY_SIZE * j, TOC_ENTRY_SIZE * j + TOC_ENTRY_SIZE));
    } else {
        assert(toc(s, m).subrange(TOC_ENTRY_SIZE * j, TOC_ENTRY_SIZE * j + TOC_ENTRY_SIZE) =~= e);
    }
}

/// The body of section `j` lies at its offset within the bodies of all sections.
proof fn lemma_body_slice(s: Seq<SectionView>, j: int)
    requires
        sections_wf(s),
        0 <= j < s.len(),
    ensures
        section_offset(s, j) + section_length(s[j]) <= body(s).len(),
        body(s).subrange(section_offset(s, j), section_offset(s, j) + section_length(s[j]))
            == encode_section(s[j]),
{
    lemma_body_prefix(s, j);
    lemma_encode_section_len(s[j]);
    let a = body(s.take(j));
    let e = encode_section(s[j]);
    assert(body(s) == a + e + body(s.skip(j + 1)));
    assert(body(s).subrange(a.len() as int, a.len() + e.len() as int) =~= e);
}

/// Where a reader that follows the declared table-of-contents offset looks for the
/// offset of section `j` in a written container, it finds the offset recorded for
/// `j`, and the section found there reads back as `s[j]`.
proof fn lemma_encoded_entry(s: Seq<SectionView>, j: int)
    requires
        sections_wf(s),
        fits(s),
        0 <= j < s.len(),
    ensures
        u32_at(encode_file(s), TOC_OFFSET + TOC_ENTRY_SIZE * j + 24) == entry_offset(s, j),
        parse_section(encode_file(s), sections_start(s.len() as int) + entry_offset(s, j))
            == Ok::<SectionView, PriError>(s[j]),
{
    let n = s.len() as int;
    let b = encode_file(s);
    let total = file_length(s);
    lemma_header_footer_len(n, total);
    lemma_toc_slice(s, n, j);
    lemma_body_slice(s, j);
    let t = toc(s, n);
    let bd = body(s);
    let off = entry_offset(s, j);
    let len = section_length(s[j]);
    let entry = toc_entry(s[j], off, len);
    lemma_toc_entry_len(s[j], off, len);
    assert(entry.subrange(22, 26) == le32(off)) by {
        reveal(toc_entry);
        assert(entry.subrange(22, 26) =~= le32(off));
    }
    let p = HEADER_SIZE + TOC_ENTRY_SIZE * j;
    assert(b.subrange(p, p + TOC_ENTRY_SIZE) == entry) by {
        assert(b.subrange(p, p + TOC_ENTRY_SIZE) =~= t.subrange(
            TOC_ENTRY_SIZE * j,
            TOC_ENTRY_SIZE * j + TOC_ENTRY_SIZE,
        ));
    }
    lemma_u32_in(b, p, entry, 22, off);
    let at = body_start(n) + section_offset(s, j);
    assert(b.subrange(at, at + len) == encode_section(s[j])) by {
        assert(b.subrange(at, at + len) =~= bd.subrange(
            section_offset(s, j),
            section_offset(s, j) + len,
        ));
    }
    lemma_parse_encoded_section(b, at, s[j]);
}

/// The first `k` sections of a written container read back as they were.
proof fn lemma_parse_encoded_sections(s: Seq<SectionView>, k: nat)
    requires
        sections_wf(s),
        fits(s),
        k <= s.len(),
    ensures
        parse_sections(
            encode_file(s),
            sections_start(s.len() as int),
            TOC_OFFSET as int,
            k,
        ) == Ok::<Seq<SectionView>, PriError>(s.take(k as int)),
    decreases k,
{
    if k == 0 {
        assert(s.take(0) =~= Seq::<SectionView>::empty());
    } else {
        let j = k - 1;
        lemma_parse_encoded_sections(s, j as nat);
        lemma_encoded_entry(s, j);
        assert(s.take(k as int) =~= s.take(j as int).push(s[j]));
    }
}

/// The header and footer fields of a written container.
proof fn lemma_encoded_header(s: Seq<SectionView>)
    requires
        sections_wf(s),
        fits(s),
    ensures
        ({
            let b = encode_file(s);
            let n = s.len() as int;
            let total = file_length(s);
            &&& b.len() == total
            &&& b.subrange(0, 8) == newest_magic()
            &&& u16_at(b, 8) == 0
            &&& u16_at(b, 10) == 1
            &&& u32_at(b, 12) == total
            &&& u32_at(b, 16) == TOC_OFFSET
            &&& u32_at(b, 20) == sections_start(n)
            &&& u16_at(b, 24) == n
            &&& u16_at(b, 26) == HEADER_SENTINEL
            &&& u32_at(b, 28) == 0
            &&& u32_at(b, total - 16) == FILE_FOOTER_MARKER
            &&& u32_at(b, total - 12) == total
            &&& b.subrange(total - 8, total) == newest_magic()
        }),
{
    let n = s.len() as int;
    let b = encode_file(s);
    let total = file_length(s);
    let start = sections_start(n);
    lemma_header_footer_len(n, total);
    lemma_toc_len(s, n);
    let h = file_header(n, total);
    let f = file_footer(total);
    assert(b.subrange(0, HEADER_SIZE as int) == h) by {
        assert(b.subrange(0, HEADER_SIZE as int) =~= h);
    }
    assert(b.subrange(total - FILE_FOOTER_SIZE, total) == f) by {
        assert(b.subrange(total - FILE_FOOTER_SIZE, total) =~= f);
    }
    reveal(file_header);
    reveal(file_footer);
    assert(h.subrange(0, 8) =~= newest_magic());
    assert(h.subrange(8, 10) =~= le16(0));
    assert(h.subrange(10, 12) =~= le16(1));
    assert(h.subrange(12, 16) =~= le32(total));
    assert(h.subrange(16, 20) =~= le32(TOC_OFFSET as int));
    assert(h.subrange(20, 24) =~= le32(start));
    assert(h.subrange(24, 26) =~= le16(n));
    assert(h.subrange(26, 28) =~= le16(HEADER_SENTINEL as int));
    assert(h.subrange(28, 32) =~= le32(0));
    assert(f.subrange(0, 4) =~= le32(FILE_FOOTER_MARKER as int));
    assert(f.subrange(4, 8) =~= le32(total));
    assert(f.subrange(8, 16) =~= newest_magic());
    lemma_sub_in(b, 0, h, 0, 8);
    lemma_u16_in(b, 0, h, 8, 0);
    lemma_u16_in(b, 0, h, 10, 1);
    lemma_u32_in(b, 0, h, 12, total);
    lemma_u32_in(b, 0, h, 16, TOC_OFFSET as int);
    lemma_u32_in(b, 0, h, 20, start);
    lemma_u16_in(b, 0, h, 24, n);
    lemma_u16_in(b, 0, h, 26, HEADER_SENTINEL as int);
    lemma_u32_in(b, 0, h, 28, 0);
    lemma_u32_in(b, total - FILE_FOOTER_SIZE, f, 0, FILE_FOOTER_MARKER as int);
    lemma_u32_in(b, total - FILE_FOOTER_SIZE, f, 4, total);
    lemma_sub_in(b, total - FILE_FOOTER_SIZE, f, 8, 16);
}

/// A written container reads back as the sections it was written from.
pub proof fn lemma_encode_parse(s: Seq<SectionView>)
    requires
        sections_wf(s),
        fits(s),
    ensures
        parse_file(encode_file(s)) == Ok::<Seq<SectionView>, PriError>(s),
{
    let n = s.len() as int;
    let b = encode_file(s);
    lemma_encoded_header(s);
    assert(is_version_magic(b.subrange(0, 8)));
    assert(header_reserved_ok(b));
    assert(footer_ok(b));
    lemma_parse_encoded_sections(s, n as nat);
    assert(s.take(n) =~= s);
}

/// A successful read of the first `m` entries gives `m` sections.
proof fn lemma_parse_sections_len(b: Seq<u8>, start: int, toc_at: int, m: nat)
    requires
        parse_sections(b, start, toc_at, m) is Ok,
    ensures
        parse_sections(b, start, toc_at, m)->Ok_0.len() == m,
    decreases m,
{
    if m > 0 {
        lemma_parse_sections_len(b, start, toc_at, (m - 1) as nat);
    }
}

/// A section read successfully has a 16-byte identifier.
proof fn lemma_parse_section_wf(b: Seq<u8>, pos: int)
    requires
        parse_section(b, pos) is Ok,
    ensures
        section_wf(parse_section(b, pos)->Ok_0),
{
    reveal(parse_section);
}

/// Each section that a successful read went through read successfully, and is the
/// section found at the offset of its entry.
proof fn lemma_parse_sections_each(b: Seq<u8>, start: int, toc_at: int, m: nat, k: int)
    requires
        parse_sections(b, start, toc_at, m) is Ok,
        0 <= k < m,
    ensures
        parse_section(b, start + u32_at(b, toc_at + TOC_ENTRY_SIZE * k + 24)) is Ok,
        parse_sections(b, start, toc_at, m)->Ok_0[k] == parse_section(
            b,
            start + u32_at(b, toc_at + TOC_ENTRY_SIZE * k + 24),
        )->Ok_0,
    decreases m,
{
    lemma_parse_sections_len(b, start, toc_at, (m - 1) as nat);
    if k < m - 1 {
        lemma_parse_sections_each(b, start, toc_at, (m - 1) as nat, k);
    }
}

/// Every section read has an identifier of the width of the identifier field.
pub proof fn lemma_parse_wf(b: Seq<u8>)
    requires
        parse_file(b) is Ok,
    ensures
        sections_wf(parse_file(b)->Ok_0),
{
    let s = parse_file(b)->Ok_0;
    lemma_parse_sections_len(b, u32_at(b, 20), u32_at(b, 16), u16_at(b, 24) as nat);
    assert forall|k: int| 0 <= k < s.len() implies section_wf(#[trigger] s[k]) by {
        lemma_parse_sections_each(b, u32_at(b, 20), u32_at(b, 16), u16_at(b, 24) as nat, k);
        lemma_parse_section_wf(
            b,
            u32_at(b, 20) + u32_at(b, u32_at(b, 16) + TOC_ENTRY_SIZE * k + 24),
        );
    }
}

/// Writing a container that was read successfully, and reading the result, gives
/// back the same sections in the same order; `fits` excludes only containers too
/// large for the format's 16- and 32-bit fields, which cannot be written.
pub proof fn lemma_round_trip(b: Seq<u8>)
    requires
        parse_file(b) is Ok,
        fits(parse_file(b)->Ok_0),
    ensures
        parse_file(encode_file(parse_file(b)->Ok_0)) == parse_file(b),
{
    lemma_parse_wf(b);
    lemma_encode_parse(parse_file(b)->Ok_0);
}

/// Re-encoding an opaque payload that was decoded from `payload` gives `payload` back.
pub proof fn lemma_opaque_idempotent(identifier: Seq<u8>, payload: Seq<u8>)
    ensures
        encode_data(decode_data(identifier, payload)) == payload,
        identifier_of(decode_data(identifier, payload)) == identifier,
{
}

/// A section read from `b` at `pos`, written again, gives back byte for byte the
/// bytes it was read from: the envelope and the opaque payload alike.
pub proof fn lemma_section_reencode(b: Seq<u8>, pos: int)
    requires
        parse_section(b, pos) is Ok,
    ensures
        section_length(parse_section(b, pos)->Ok_0) == u32_at(b, pos + 24),
        encode_section(parse_section(b, pos)->Ok_0) == b.subrange(
            pos,
            pos + u32_at(b, pos + 24),
        ),
{
    reveal(parse_section);
    reveal(encode_section);
    let s = parse_section(b, pos)->Ok_0;
    let len = u32_at(b, pos + 24);
    lemma_le32_of_u32_at(b, pos + 16);
    lemma_le16_of_u16_at(b, pos + 20);
    lemma_le16_of_u16_at(b, pos + 22);
    lemma_le32_of_u32_at(b, pos + 24);
    lemma_le32_of_u32_at(b, pos + 28);
    lemma_le32_of_u32_at(b, pos + len - 8);
    lemma_le32_of_u32_at(b, pos + len - 4);
    assert(section_header(s, len) =~= b.subrange(pos, pos + 32));
    assert(encode_section(s) =~= b.subrange(pos, pos + len));
}

/// Changing any byte of the header's reserved fields (bytes 8 to 11 and 26 to 31) of
/// a file that reads successfully makes reading fail.
pub proof fn lemma_reserved_strict(b: Seq<u8>, i: int, v: u8)
    requires
        parse_file(b) is Ok,
        (8 <= i < 12) || (26 <= i < 32),
        b[i] != v,
    ensures
        parse_file(b.update(i, v)) == Err::<Seq<SectionView>, PriError>(
            PriError::ReservedFieldMismatch,
        ),
{
    let c = b.update(i, v);
    assert(c.subrange(0, 8) =~= b.subrange(0, 8));
    assert(!header_reserved_ok(c));
}

/// A file whose header size field disagrees with its length, or whose footer repeats
/// another size than the header, does not read.
pub proof fn lemma_footer_consistency(b: Seq<u8>)
    requires
        b.len() >= HEADER_SIZE,
        u32_at(b, 12) != b.len() || u32_at(b, b.len() - 12) != u32_at(b, 12),
    ensures
        parse_file(b) is Err,
{
}

/// Where the footer of the section listed by entry `k` repeats another length than its
/// header declares, the file does not read.
pub proof fn lemma_section_length_check(b: Seq<u8>, k: int)
    requires
        b.len() >= HEADER_SIZE,
        0 <= k < u16_at(b, 24),
        ({
            let pos = u32_at(b, 20) + u32_at(b, u32_at(b, 16) + TOC_ENTRY_SIZE * k + 24);
            let length = u32_at(b, pos + 24);
            u32_at(b, pos + length - 4) != length
        }),
    ensures
        parse_file(b) is Err,
{
    if parse_file(b) is Ok {
        lemma_parse_sections_each(b, u32_at(b, 20), u32_at(b, 16), u16_at(b, 24) as nat, k);
        reveal(parse_section);
    }
}

/// A written file starts and ends with the newest version tag, whatever tag the
/// sections were read with.
pub proof fn lemma_version_normalized(s: Seq<SectionView>)
    ensures
        encode_file(s).subrange(0, 8) == newest_magic(),
        encode_file(s).subrange(encode_file(s).len() - 8, encode_file(s).len() as int)
            == newest_magic(),
{
    let n = s.len() as int;
    let total = file_length(s);
    let b = encode_file(s);
    lemma_header_footer_len(n, total);
    reveal(file_header);
    reveal(file_footer);
    assert(b.subrange(0, 8) =~= newest_magic());
    assert(b.subrange(b.len() - 8, b.len() as int) =~= newest_magic());
}

} // verus!
