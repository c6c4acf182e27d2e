//! Where the sections of a superfile lie, and the packed form of that in a
//! manifest part.

use vstd::prelude::*;
use vstd::string::StringExecFns;
use crate::numbers::{
    le_bytes, le_value, lemma_byte_spans, lemma_le_bound, lemma_le_len, lemma_le_reads_back,
    lemma_le_writes_back, push_le, read_le,
};
use crate::supertable::manifest::error::{PartFault, PartParseError};
use crate::text::{decimal, push_decimal};

verus! {

/// Version tag of the packed form that is written. It ends with the inline
/// open-time bytes.
pub const SUBSECTION_OFFSETS_VERSION_CURRENT: u8 = 3;

/// Oldest version tag that is still read; it has no open-time bytes.
pub const SUBSECTION_OFFSETS_VERSION_LEGACY: u8 = 2;

/// Flag byte: an offset and a length follow.
pub const SUBSECTION_FLAG_PRESENT: u8 = 1;

/// Flag byte: the section is absent.
pub const SUBSECTION_FLAG_ABSENT: u8 = 0;

/// Where the sections of one superfile lie, so that a cold open can fetch
/// them all at once.
#[derive(Debug, Clone, PartialEq, Eq)]
pub struct SubsectionOffsets {
    /// Size of the whole superfile.
    pub total_size: u64,
    /// Offset and length of the vector section.
    pub vec: Option<(u64, u64)>,
    /// Offset and length of the full-text section.
    pub fts: Option<(u64, u64)>,
    /// Ranges that opening the vector section reads.
    pub vec_open_ranges: Vec<(u64, u64)>,
    /// Ranges that opening the full-text section reads.
    pub fts_open_ranges: Vec<(u64, u64)>,
    /// Bytes that opening reads, each run with its absolute offset.
    pub open_blob: Vec<(u64, Vec<u8>)>,
}

/// [`SubsectionOffsets`] over sequences.
#[verifier::ext_equal]
pub struct OffsetsView {
    pub total_size: u64,
    pub vec: Option<(u64, u64)>,
    pub fts: Option<(u64, u64)>,
    pub vec_open_ranges: Seq<(u64, u64)>,
    pub fts_open_ranges: Seq<(u64, u64)>,
    pub open_blob: Seq<(u64, Seq<u8>)>,
}

/// The runs of open-time bytes over sequences.
pub open spec fn blob_view(blob: Seq<(u64, Vec<u8>)>) -> Seq<(u64, Seq<u8>)> {
    blob.map_values(|e: (u64, Vec<u8>)| (e.0, e.1@))
}

impl View for SubsectionOffsets {
    type V = OffsetsView;

    open spec fn view(&self) -> OffsetsView {
        OffsetsView {
            total_size: self.total_size,
            vec: self.vec,
            fts: self.fts,
            vec_open_ranges: self.vec_open_ranges@,
            fts_open_ranges: self.fts_open_ranges@,
            open_blob: blob_view(self.open_blob@),
        }
    }
}

// ---- The packed form ------------------------------------------------------

/// An optional section: a flag byte, then offset and length if it is there.
pub open spec fn section_bytes(section: Option<(u64, u64)>) -> Seq<u8> {
    match section {
        Some((off, len)) => seq![SUBSECTION_FLAG_PRESENT] + le_bytes(off as nat, 8) + le_bytes(
            len as nat,
            8,
        ),
        None => seq![SUBSECTION_FLAG_ABSENT],
    }
}

/// Offsets and lengths, 16 bytes for each range.
pub open spec fn ranges_bytes(ranges: Seq<(u64, u64)>) -> Seq<u8>
    decreases ranges.len(),
{
    if ranges.len() == 0 {
        Seq::empty()
    } else {
        ranges_bytes(ranges.drop_last()) + le_bytes(ranges.last().0 as nat, 8) + le_bytes(
            ranges.last().1 as nat,
            8,
        )
    }
}

/// A list of ranges: their number in 4 bytes, then the ranges.
pub open spec fn range_list_bytes(ranges: Seq<(u64, u64)>) -> Seq<u8> {
    le_bytes(ranges.len(), 4) + ranges_bytes(ranges)
}

/// Runs of bytes: offset, length in 4 bytes, and the bytes of each.
pub open spec fn runs_bytes(blob: Seq<(u64, Seq<u8>)>) -> Seq<u8>
    decreases blob.len(),
{
    if blob.len() == 0 {
        Seq::empty()
    } else {
        runs_bytes(blob.drop_last()) + le_bytes(blob.last().0 as nat, 8) + le_bytes(
            blob.last().1.len(),
            4,
        ) + blob.last().1
    }
}

/// The open-time bytes: the number of runs in 4 bytes, then the runs.
pub open spec fn open_blob_bytes(blob: Seq<(u64, Seq<u8>)>) -> Seq<u8> {
    le_bytes(blob.len(), 4) + runs_bytes(blob)
}

/// The packed form of `off`.
pub open spec fn offsets_bytes(off: OffsetsView) -> Seq<u8> {
    seq![SUBSECTION_OFFSETS_VERSION_CURRENT] + le_bytes(off.total_size as nat, 8)
        + section_bytes(off.vec) + section_bytes(off.fts) + range_list_bytes(off.vec_open_ranges)
        + range_list_bytes(off.fts_open_ranges) + open_blob_bytes(off.open_blob)
}

// ---- Reading it back ------------------------------------------------------

/// The 4-byte number at `p`.
pub open spec fn u32_at(b: Seq<u8>, p: int) -> nat {
    le_value(b.subrange(p, p + 4))
}

/// The 8-byte number at `p`.
pub open spec fn u64_at(b: Seq<u8>, p: int) -> u64 {
    le_value(b.subrange(p, p + 8)) as u64
}

/// The section that starts at `p`, and where it ends; a flag other than the
/// present one means that it is absent.
pub open spec fn section_at(b: Seq<u8>, p: int) -> Option<(Option<(u64, u64)>, int)> {
    if p + 1 > b.len() {
        None
    } else if b[p] != SUBSECTION_FLAG_PRESENT {
        Some((None, p + 1))
    } else if p + 17 > b.len() {
        None
    } else {
        Some((Some((u64_at(b, p + 1), u64_at(b, p + 9))), p + 17))
    }
}

/// The list of ranges that starts at `p`, and where it ends.
pub open spec fn range_list_at(b: Seq<u8>, p: int) -> Option<(Seq<(u64, u64)>, int)> {
    if p + 4 > b.len() || p + 4 + 16 * u32_at(b, p) > b.len() {
        None
    } else {
        Some(
            (
                Seq::new(
                    u32_at(b, p),
                    |i: int| (u64_at(b, p + 4 + 16 * i), u64_at(b, p + 12 + 16 * i)),
                ),
                p + 4 + 16 * u32_at(b, p),
            ),
        )
    }
}

/// The `n` runs that start at `p`, and where they end.
pub open spec fn runs_at(b: Seq<u8>, p: int, n: nat) -> Option<(Seq<(u64, Seq<u8>)>, int)>
    decreases n,
{
    if n == 0 {
        Some((Seq::empty(), p))
    } else {
        match runs_at(b, p, (n - 1) as nat) {
            None => None,
            Some((runs, q)) => if q + 12 > b.len() || q + 12 + u32_at(b, q + 8) > b.len() {
                None
            } else {
                Some(
                    (
                        runs.push(
                            (u64_at(b, q), b.subrange(q + 12, q + 12 + u32_at(b, q + 8))),
                        ),
                        q + 12 + u32_at(b, q + 8),
                    ),
                )
            },
        }
    }
}

/// The open-time bytes that start at `p`, and where they end.
pub open spec fn open_blob_at(b: Seq<u8>, p: int) -> Option<(Seq<(u64, Seq<u8>)>, int)> {
    if p + 4 > b.len() {
        None
    } else {
        runs_at(b, p + 4, u32_at(b, p))
    }
}

/// The fault of a buffer that ends too early.
pub open spec fn truncated_fault() -> PartFault {
    PartFault::SchemaMismatch("subsection_offsets truncated"@)
}

/// What follows the version tag and the total size, once both are known.
pub open spec fn sections_of(b: Seq<u8>) -> Option<(OffsetsView, int)> {
    match section_at(b, 9) {
        None => None,
        Some((vec, p1)) => match section_at(b, p1) {
            None => None,
            Some((fts, p2)) => match range_list_at(b, p2) {
                None => None,
                Some((vec_open_ranges, p3)) => match range_list_at(b, p3) {
                    None => None,
                    Some((fts_open_ranges, p4)) => match (if b[0]
                        == SUBSECTION_OFFSETS_VERSION_CURRENT {
                        open_blob_at(b, p4)
                    } else {
                        Some((Seq::empty(), p4))
                    }) {
                        None => None,
                        Some((open_blob, p5)) => Some(
                            (
                                OffsetsView {
                                    total_size: u64_at(b, 1),
                                    vec,
                                    fts,
                                    vec_open_ranges,
                                    fts_open_ranges,
                                    open_blob,
                                },
                                p5,
                            ),
                        ),
                    },
                },
            },
        },
    }
}

/// What the packed bytes `b` stand for, or the fault in them.
pub open spec fn offsets_of(b: Seq<u8>) -> Result<OffsetsView, PartFault> {
    if b.len() < 1 {
        Err(truncated_fault())
    } else if b[0] != SUBSECTION_OFFSETS_VERSION_LEGACY && b[0]
        != SUBSECTION_OFFSETS_VERSION_CURRENT {
        Err(
            PartFault::SchemaMismatch("subsection_offsets unknown version "@ + decimal(b[0] as nat)),
        )
    } else if b.len() < 9 {
        Err(truncated_fault())
    } else {
        match sections_of(b) {
            None => Err(truncated_fault()),
            Some((off, end)) => if end != b.len() {
                Err(PartFault::SchemaMismatch("subsection_offsets has trailing bytes"@))
            } else {
                Ok(off)
            },
        }
    }
}

// ---- Writing --------------------------------------------------------------

/// Appends an optional section.
fn encode_section(out: &mut Vec<u8>, section: Option<(u64, u64)>)
    ensures
        final(out)@ == old(out)@ + section_bytes(section),
{
    match section {
        Some((off, len)) => {
            out.push(SUBSECTION_FLAG_PRESENT);
            push_le(out, off, 8);
            push_le(out, len, 8);
        },
        None => {
            out.push(SUBSECTION_FLAG_ABSENT);
        },
    }
    assert(out@ =~= old(out)@ + section_bytes(section));
}

/// Appends a list of ranges.
pub fn encode_range_list(out: &mut Vec<u8>, ranges: &[(u64, u64)])
    ensures
        final(out)@ == old(out)@ + range_list_bytes(ranges@),
{
    push_le(out, ranges.len() as u64, 4);
    let mut i: usize = 0;
    assert(out@ =~= old(out)@ + le_bytes(ranges@.len(), 4) + ranges_bytes(ranges@.take(0)));
    while i < ranges.len()
        invariant
            i <= ranges@.len(),
            out@ == old(out)@ + le_bytes(ranges@.len(), 4) + ranges_bytes(ranges@.take(i as int)),
        decreases ranges.len() - i,
    {
        push_le(out, ranges[i].0, 8);
        push_le(out, ranges[i].1, 8);
        i = i + 1;
        proof {
            assert(ranges@.take(i as int).drop_last() =~= ranges@.take(i - 1));
            assert(out@ =~= old(out)@ + le_bytes(ranges@.len(), 4) + ranges_bytes(
                ranges@.take(i as int),
            ));
        }
    }
    assert(ranges@.take(ranges@.len() as int) =~= ranges@);
    assert(out@ =~= old(out)@ + range_list_bytes(ranges@));
}

/// Appends the open-time bytes.
pub fn encode_open_blob(out: &mut Vec<u8>, blob: &[(u64, Vec<u8>)])
    ensures
        final(out)@ == old(out)@ + open_blob_bytes(blob_view(blob@)),
{
    let ghost runs = blob_view(blob@);
    push_le(out, blob.len() as u64, 4);
    let mut i: usize = 0;
    assert(out@ =~= old(out)@ + le_bytes(runs.len(), 4) + runs_bytes(runs.take(0)));
    while i < blob.len()
        invariant
            i <= blob@.len(),
            runs == blob_view(blob@),
            out@ == old(out)@ + le_bytes(runs.len(), 4) + runs_bytes(runs.take(i as int)),
        decreases blob.len() - i,
    {
        push_le(out, blob[i].0, 8);
        push_le(out, blob[i].1.len() as u64, 4);
        out.extend_from_slice(&blob[i].1);
        i = i + 1;
        proof {
            assert(runs.take(i as int).drop_last() =~= runs.take(i - 1));
            assert(runs.take(i as int).last() == runs[i - 1]);
            assert(out@ =~= old(out)@ + le_bytes(runs.len(), 4) + runs_bytes(
                runs.take(i as int),
            ));
        }
    }
    assert(runs.take(runs.len() as int) =~= runs);
    assert(out@ =~= old(out)@ + open_blob_bytes(runs));
}

/// The packed form of `off`: a version tag, the total size, the two optional
/// sections, the two lists of open-time ranges and the open-time bytes.
pub fn encode_subsection_offsets(off: &SubsectionOffsets) -> (out: Vec<u8>)
    ensures
        out@ == offsets_bytes(off@),
{
    let mut out: Vec<u8> = Vec::new();
    out.push(SUBSECTION_OFFSETS_VERSION_CURRENT);
    push_le(&mut out, off.total_size, 8);
    encode_section(&mut out, off.vec);
    encode_section(&mut out, off.fts);
    encode_range_list(&mut out, &off.vec_open_ranges);
    encode_range_list(&mut out, &off.fts_open_ranges);
    encode_open_blob(&mut out, &off.open_blob);
    assert(out@ =~= offsets_bytes(off@));
    out
}

// ---- Reading --------------------------------------------------------------

/// The error for a buffer that ends too early.
fn truncated() -> (error: PartParseError)
    ensures
        error@ == truncated_fault(),
{
    PartParseError::SchemaMismatch("subsection_offsets truncated".to_owned())
}

/// Reads the optional section at `pos`; the result has where it ends.
fn decode_section(bytes: &[u8], pos: usize) -> (res: Result<
    (Option<(u64, u64)>, usize),
    PartParseError,
>)
    requires
        pos <= bytes@.len(),
    ensures
        res matches Ok((section, end)) ==> section_at(bytes@, pos as int) == Some(
            (section, end as int),
        ) && end <= bytes@.len(),
        res matches Err(e) ==> section_at(bytes@, pos as int) is None && e@ == truncated_fault(),
{
    assert(bytes.len() == bytes@.len());
    if bytes.len() - pos < 1 {
        return Err(truncated());
    }
    if bytes[pos] != SUBSECTION_FLAG_PRESENT {
        return Ok((None, pos + 1));
    }
    if bytes.len() - pos < 17 {
        return Err(truncated());
    }
    let off = read_le(bytes, pos + 1, 8);
    let len = read_le(bytes, pos + 9, 8);
    Ok((Some((off, len)), pos + 17))
}

/// Reads the list of ranges at `pos`; the result has where it ends.
pub fn decode_range_list(bytes: &[u8], pos: usize) -> (res: Result<
    (Vec<(u64, u64)>, usize),
    PartParseError,
>)
    requires
        pos <= bytes@.len(),
    ensures
        res matches Ok((ranges, end)) ==> range_list_at(bytes@, pos as int) == Some(
            (ranges@, end as int),
        ) && end <= bytes@.len(),
        res matches Err(e) ==> range_list_at(bytes@, pos as int) is None && e@
            == truncated_fault(),
{
    assert(bytes.len() == bytes@.len());
    if bytes.len() - pos < 4 {
        return Err(truncated());
    }
    let count = read_le(bytes, pos, 4);
    let start = pos + 4;
    let mut ranges: Vec<(u64, u64)> = Vec::new();
    let mut cur: usize = start;
    let mut i: u64 = 0;
    while i < count
        invariant
            bytes.len() == bytes@.len(),
            i <= count,
            count == u32_at(bytes@, pos as int),
            start == pos + 4,
            start <= bytes@.len(),
            cur == start + 16 * i,
            cur <= bytes@.len(),
            ranges@ == Seq::new(
                i as nat,
                |k: int| (u64_at(bytes@, start + 16 * k), u64_at(bytes@, start + 8 + 16 * k)),
            ),
        decreases count - i,
    {
        if bytes.len() - cur < 16 {
            return Err(truncated());
        }
        ranges.push((read_le(bytes, cur, 8), read_le(bytes, cur + 8, 8)));
        cur = cur + 16;
        i = i + 1;
        assert(ranges@ =~= Seq::new(
            i as nat,
            |k: int| (u64_at(bytes@, start + 16 * k), u64_at(bytes@, start + 8 + 16 * k)),
        ));
    }
    proof {
        let (list, _) = range_list_at(bytes@, pos as int)->0;
        assert(ranges@ =~= list);
    }
    Ok((ranges, cur))
}

/// Once `n` runs do not fit, no larger number does.
proof fn lemma_runs_do_not_fit(b: Seq<u8>, p: int, n: nat, m: nat)
    requires
        n <= m,
        runs_at(b, p, n) is None,
    ensures
        runs_at(b, p, m) is None,
    decreases m,
{
    if n < m {
        lemma_runs_do_not_fit(b, p, n, (m - 1) as nat);
    }
}

/// Reads the open-time bytes at `pos`; the result has where they end.
pub fn decode_open_blob(bytes: &[u8], pos: usize) -> (res: Result<
    (Vec<(u64, Vec<u8>)>, usize),
    PartParseError,
>)
    requires
        pos <= bytes@.len(),
    ensures
        res matches Ok((blob, end)) ==> open_blob_at(bytes@, pos as int) == Some(
            (blob_view(blob@), end as int),
        ) && end <= bytes@.len(),
        res matches Err(e) ==> open_blob_at(bytes@, pos as int) is None && e@ == truncated_fault(),
{
    assert(bytes.len() == bytes@.len());
    if bytes.len() - pos < 4 {
        return Err(truncated());
    }
    let count = read_le(bytes, pos, 4);
    let start = pos + 4;
    let mut blob: Vec<(u64, Vec<u8>)> = Vec::new();
    let mut cur: usize = start;
    let mut i: u64 = 0;
    assert(blob_view(blob@) =~= Seq::<(u64, Seq<u8>)>::empty());
    while i < count
        invariant
            bytes.len() == bytes@.len(),
            i <= count,
            count == u32_at(bytes@, pos as int),
            start == pos + 4,
            pos + 4 <= bytes@.len(),
            cur <= bytes@.len(),
            runs_at(bytes@, start as int, i as nat) == Some((blob_view(blob@), cur as int)),
        decreases count - i,
    {
        if bytes.len() - cur < 12 {
            proof {
                lemma_runs_do_not_fit(bytes@, start as int, (i + 1) as nat, count as nat);
            }
            return Err(truncated());
        }
        let off = read_le(bytes, cur, 8);
        let len = read_le(bytes, cur + 8, 4);
        if ((bytes.len() - cur - 12) as u64) < len {
            proof {
                lemma_runs_do_not_fit(bytes@, start as int, (i + 1) as nat, count as nat);
            }
            return Err(truncated());
        }
        let from = cur + 12;
        let to = from + len as usize;
        let run = vstd::slice::slice_to_vec(vstd::slice::slice_subrange(bytes, from, to));
        let ghost before = blob@;
        blob.push((off, run));
        cur = to;
        i = i + 1;
        proof {
            assert(blob_view(blob@) =~= blob_view(before).push((off, run@)));
        }
    }
    Ok((blob, cur))
}

/// Reads the packed form.
///
/// A buffer that ends too early, an unknown version tag and bytes after the
/// end are errors.
pub fn decode_subsection_offsets(bytes: &[u8]) -> (res: Result<SubsectionOffsets, PartParseError>)
    ensures
        res matches Ok(off) ==> offsets_of(bytes@) == Ok::<OffsetsView, PartFault>(off@),
        res matches Err(e) ==> offsets_of(bytes@) == Err::<OffsetsView, PartFault>(e@),
{
    assert(bytes.len() == bytes@.len());
    if bytes.len() < 1 {
        return Err(truncated());
    }
    let version = bytes[0];
    if version != SUBSECTION_OFFSETS_VERSION_LEGACY && version
        != SUBSECTION_OFFSETS_VERSION_CURRENT {
        let mut text = "subsection_offsets unknown version ".to_owned();
        push_decimal(&mut text, version as u64);
        return Err(PartParseError::SchemaMismatch(text));
    }
    if bytes.len() < 9 {
        return Err(truncated());
    }
    let total_size = read_le(bytes, 1, 8);
    let (vec, p1) = decode_section(bytes, 9)?;
    let (fts, p2) = decode_section(bytes, p1)?;
    let (vec_open_ranges, p3) = decode_range_list(bytes, p2)?;
    let (fts_open_ranges, p4) = decode_range_list(bytes, p3)?;
    let (open_blob, p5) = if version == SUBSECTION_OFFSETS_VERSION_CURRENT {
        decode_open_blob(bytes, p4)?
    } else {
        let none: Vec<(u64, Vec<u8>)> = Vec::new();
        assert(blob_view(none@) =~= Seq::<(u64, Seq<u8>)>::empty());
        (none, p4)
    };
    if p5 != bytes.len() {
        return Err(
            PartParseError::SchemaMismatch("subsection_offsets has trailing bytes".to_owned()),
        );
    }
    Ok(
        SubsectionOffsets {
            total_size,
            vec,
            fts,
            vec_open_ranges,
            fts_open_ranges,
            open_blob,
        },
    )
}

// ---- The packed form reads back -------------------------------------------

/// Does `b` hold `s` from `p` on?
spec fn holds_at(b: Seq<u8>, p: int, s: Seq<u8>) -> bool {
    0 <= p && p + s.len() <= b.len() && b.subrange(p, p + s.len()) == s
}

proof fn lemma_holds_split(b: Seq<u8>, p: int, s: Seq<u8>, t: Seq<u8>)
    requires
        holds_at(b, p, s + t),
    ensures
        holds_at(b, p, s),
        holds_at(b, p + s.len(), t),
{
    let whole = b.subrange(p, p + (s + t).len());
    assert(b.subrange(p, p + s.len()) =~= whole.subrange(0, s.len() as int));
    assert((s + t).subrange(0, s.len() as int) =~= s);
    assert(b.subrange(p + s.len(), p + s.len() + t.len()) =~= whole.subrange(
        s.len() as int,
        (s + t).len() as int,
    ));
    assert((s + t).subrange(s.len() as int, (s + t).len() as int) =~= t);
}

proof fn lemma_number_at(b: Seq<u8>, p: int, x: u64)
    requires
        holds_at(b, p, le_bytes(x as nat, 8)),
    ensures
        u64_at(b, p) == x,
        p + 8 <= b.len(),
{
    lemma_byte_spans();
    lemma_le_reads_back(x as nat, 8);
}

proof fn lemma_count_at(b: Seq<u8>, p: int, x: nat)
    requires
        holds_at(b, p, le_bytes(x, 4)),
        x <= u32::MAX,
    ensures
        u32_at(b, p) == x,
        p + 4 <= b.len(),
{
    lemma_byte_spans();
    lemma_le_reads_back(x, 4);
}

proof fn lemma_section_reads_back(b: Seq<u8>, p: int, section: Option<(u64, u64)>)
    requires
        holds_at(b, p, section_bytes(section)),
    ensures
        section_at(b, p) == Some((section, p + section_bytes(section).len())),
{
    assert(b.subrange(p, p + section_bytes(section).len())[0] == b[p]);
    match section {
        Some((off, len)) => {
            let flag = seq![SUBSECTION_FLAG_PRESENT];
            lemma_le_len(off as nat, 8);
            lemma_le_len(len as nat, 8);
            lemma_holds_split(b, p, flag + le_bytes(off as nat, 8), le_bytes(len as nat, 8));
            lemma_holds_split(b, p, flag, le_bytes(off as nat, 8));
            lemma_number_at(b, p + 1, off);
            lemma_number_at(b, p + 9, len);
        },
        None => {},
    }
}

proof fn lemma_ranges_read_back(b: Seq<u8>, p: int, ranges: Seq<(u64, u64)>)
    requires
        holds_at(b, p, ranges_bytes(ranges)),
    ensures
        ranges_bytes(ranges).len() == 16 * ranges.len(),
        forall|i: int|
            0 <= i < ranges.len() ==> (#[trigger] ranges[i]) == (
                u64_at(b, p + 16 * i),
                u64_at(b, p + 8 + 16 * i),
            ),
    decreases ranges.len(),
{
    if ranges.len() > 0 {
        let first = ranges_bytes(ranges.drop_last());
        let off = le_bytes(ranges.last().0 as nat, 8);
        let len = le_bytes(ranges.last().1 as nat, 8);
        lemma_le_len(ranges.last().0 as nat, 8);
        lemma_le_len(ranges.last().1 as nat, 8);
        lemma_holds_split(b, p, first + off, len);
        lemma_holds_split(b, p, first, off);
        lemma_ranges_read_back(b, p, ranges.drop_last());
        lemma_number_at(b, p + first.len(), ranges.last().0);
        lemma_number_at(b, p + first.len() + 8, ranges.last().1);
        assert forall|i: int| 0 <= i < ranges.len() implies (#[trigger] ranges[i]) == (
            u64_at(b, p + 16 * i),
            u64_at(b, p + 8 + 16 * i),
        ) by {
            if i < ranges.len() - 1 {
                assert(ranges[i] == ranges.drop_last()[i]);
            }
        }
    }
}

proof fn lemma_range_list_reads_back(b: Seq<u8>, p: int, ranges: Seq<(u64, u64)>)
    requires
        holds_at(b, p, range_list_bytes(ranges)),
        ranges.len() <= u32::MAX,
    ensures
        range_list_at(b, p) == Some((ranges, p + range_list_bytes(ranges).len())),
{
    lemma_le_len(ranges.len(), 4);
    lemma_holds_split(b, p, le_bytes(ranges.len(), 4), ranges_bytes(ranges));
    lemma_count_at(b, p, ranges.len());
    lemma_ranges_read_back(b, p + 4, ranges);
    let (list, _) = range_list_at(b, p)->0;
    assert(list =~= ranges);
}

proof fn lemma_runs_read_back(b: Seq<u8>, p: int, blob: Seq<(u64, Seq<u8>)>)
    requires
        holds_at(b, p, runs_bytes(blob)),
        forall|i: int| 0 <= i < blob.len() ==> (#[trigger] blob[i]).1.len() <= u32::MAX,
    ensures
        runs_at(b, p, blob.len()) == Some((blob, p + runs_bytes(blob).len())),
    decreases blob.len(),
{
    if blob.len() == 0 {
        assert(blob =~= Seq::<(u64, Seq<u8>)>::empty());
    } else {
        let first = runs_bytes(blob.drop_last());
        let off = le_bytes(blob.last().0 as nat, 8);
        let len = le_bytes(blob.last().1.len(), 4);
        let run = blob.last().1;
        lemma_le_len(blob.last().0 as nat, 8);
        lemma_le_len(run.len(), 4);
        lemma_holds_split(b, p, first + off + len, run);
        lemma_holds_split(b, p, first + off, len);
        lemma_holds_split(b, p, first, off);
        assert forall|i: int| 0 <= i < blob.len() - 1 implies (#[trigger] blob.drop_last()[i]).1.len()
            <= u32::MAX by {
            assert(blob.drop_last()[i] == blob[i]);
        }
        lemma_runs_read_back(b, p, blob.drop_last());
        let q = p + first.len();
        lemma_number_at(b, q, blob.last().0);
        lemma_count_at(b, q + 8, run.len());
        assert(b.subrange(q + 12, q + 12 + run.len()) == run);
        assert(blob.drop_last().push(blob.last()) =~= blob);
    }
}

/// Can `off` be packed without cutting off a count or a length?
pub open spec fn fits_packed_form(off: OffsetsView) -> bool {
    &&& off.vec_open_ranges.len() <= u32::MAX
    &&& off.fts_open_ranges.len() <= u32::MAX
    &&& off.open_blob.len() <= u32::MAX
    &&& forall|i: int|
        0 <= i < off.open_blob.len() ==> (#[trigger] off.open_blob[i]).1.len() <= u32::MAX
}

/// Packed offsets read back as they were, if every count and length fits
/// the 4 bytes it is given.
pub proof fn lemma_offsets_read_back(off: OffsetsView)
    requires
        fits_packed_form(off),
    ensures
        offsets_of(offsets_bytes(off)) == Ok::<OffsetsView, PartFault>(off),
{
    let b = offsets_bytes(off);
    let tag = seq![SUBSECTION_OFFSETS_VERSION_CURRENT];
    let size = le_bytes(off.total_size as nat, 8);
    let vec = section_bytes(off.vec);
    let fts = section_bytes(off.fts);
    let vr = range_list_bytes(off.vec_open_ranges);
    let fr = range_list_bytes(off.fts_open_ranges);
    let blob = open_blob_bytes(off.open_blob);
    assert(b.subrange(0, b.len() as int) =~= b);
    assert(holds_at(b, 0, b));
    lemma_holds_split(b, 0, tag + size + vec + fts + vr + fr, blob);
    lemma_holds_split(b, 0, tag + size + vec + fts + vr, fr);
    lemma_holds_split(b, 0, tag + size + vec + fts, vr);
    lemma_holds_split(b, 0, tag + size + vec, fts);
    lemma_holds_split(b, 0, tag + size, vec);
    lemma_holds_split(b, 0, tag, size);
    lemma_le_len(off.total_size as nat, 8);
    assert(b.subrange(0, 1)[0] == b[0]);
    lemma_number_at(b, 1, off.total_size);
    let p1 = 9 + vec.len();
    let p2 = p1 + fts.len();
    let p3 = p2 + vr.len();
    let p4 = p3 + fr.len();
    lemma_section_reads_back(b, 9, off.vec);
    lemma_section_reads_back(b, p1 as int, off.fts);
    lemma_range_list_reads_back(b, p2 as int, off.vec_open_ranges);
    lemma_range_list_reads_back(b, p3 as int, off.fts_open_ranges);
    lemma_le_len(off.open_blob.len(), 4);
    lemma_holds_split(b, p4 as int, le_bytes(off.open_blob.len(), 4), runs_bytes(off.open_blob));
    lemma_count_at(b, p4 as int, off.open_blob.len());
    lemma_runs_read_back(b, p4 as int + 4, off.open_blob);
}

// ---- Nothing else is read ---------------------------------------------------

proof fn lemma_u64_rewrites(b: Seq<u8>, p: int)
    requires
        0 <= p,
        p + 8 <= b.len(),
    ensures
        le_bytes(u64_at(b, p) as nat, 8) == b.subrange(p, p + 8),
{
    let s = b.subrange(p, p + 8);
    lemma_le_bound(s);
    lemma_byte_spans();
    lemma_le_writes_back(s);
}

proof fn lemma_u32_rewrites(b: Seq<u8>, p: int)
    requires
        0 <= p,
        p + 4 <= b.len(),
    ensures
        le_bytes(u32_at(b, p), 4) == b.subrange(p, p + 4),
{
    lemma_le_writes_back(b.subrange(p, p + 4));
}

proof fn lemma_section_rewrites(b: Seq<u8>, p: int)
    requires
        0 <= p,
        section_at(b, p) is Some,
        b[p] == SUBSECTION_FLAG_PRESENT || b[p] == SUBSECTION_FLAG_ABSENT,
    ensures
        p < section_at(b, p)->Some_0.1 <= b.len(),
        section_bytes(section_at(b, p)->Some_0.0) == b.subrange(p, section_at(b, p)->Some_0.1),
{
    let (section, q) = section_at(b, p)->0;
    if section is Some {
        lemma_u64_rewrites(b, p + 1);
        lemma_u64_rewrites(b, p + 9);
    }
    assert(section_bytes(section) =~= b.subrange(p, q));
}

proof fn lemma_ranges_rewrite(b: Seq<u8>, p: int, ranges: Seq<(u64, u64)>)
    requires
        0 <= p,
        p + 16 * ranges.len() <= b.len(),
        forall|i: int|
            0 <= i < ranges.len() ==> #[trigger] ranges[i] == (
                u64_at(b, p + 16 * i),
                u64_at(b, p + 8 + 16 * i),
            ),
    ensures
        ranges_bytes(ranges) == b.subrange(p, p + 16 * ranges.len()),
    decreases ranges.len(),
{
    if ranges.len() > 0 {
        let rest = ranges.drop_last();
        let at = p + 16 * rest.len();
        assert(forall|i: int| 0 <= i < rest.len() ==> #[trigger] rest[i] == ranges[i]);
        lemma_ranges_rewrite(b, p, rest);
        lemma_u64_rewrites(b, at);
        lemma_u64_rewrites(b, at + 8);
        assert(ranges.last() == ranges[ranges.len() - 1]);
    }
    assert(ranges_bytes(ranges) =~= b.subrange(p, p + 16 * ranges.len()));
}

proof fn lemma_range_list_rewrites(b: Seq<u8>, p: int)
    requires
        0 <= p,
        range_list_at(b, p) is Some,
    ensures
        p < range_list_at(b, p)->Some_0.1 <= b.len(),
        range_list_bytes(range_list_at(b, p)->Some_0.0) == b.subrange(p, range_list_at(b, p)->Some_0.1),
{
    let (ranges, q) = range_list_at(b, p)->0;
    lemma_u32_rewrites(b, p);
    lemma_ranges_rewrite(b, p + 4, ranges);
    assert(range_list_bytes(ranges) =~= b.subrange(p, q));
}

proof fn lemma_runs_rewrite(b: Seq<u8>, p: int, n: nat)
    requires
        0 <= p <= b.len(),
        runs_at(b, p, n) is Some,
    ensures
        p <= runs_at(b, p, n)->Some_0.1 <= b.len(),
        runs_at(b, p, n)->Some_0.0.len() == n,
        runs_bytes(runs_at(b, p, n)->Some_0.0) == b.subrange(p, runs_at(b, p, n)->Some_0.1),
    decreases n,
{
    let (runs, q) = runs_at(b, p, n)->0;
    if n > 0 {
        lemma_runs_rewrite(b, p, (n - 1) as nat);
        let (rest, at) = runs_at(b, p, (n - 1) as nat)->0;
        lemma_u64_rewrites(b, at);
        lemma_u32_rewrites(b, at + 8);
        assert(runs.drop_last() =~= rest);
        assert(runs.last().1.len() == u32_at(b, at + 8));
    }
    assert(runs_bytes(runs) =~= b.subrange(p, q));
}

/// Bytes of the current version that are read are the packed form of what is
/// read, if both flags are ones that are written: so no byte goes unread, and
/// different bytes are different offsets.
#[verifier::spinoff_prover]
pub proof fn lemma_read_offsets_are_their_packed_form(b: Seq<u8>)
    requires
        offsets_of(b) is Ok,
        b[0] == SUBSECTION_OFFSETS_VERSION_CURRENT,
        b[9] == SUBSECTION_FLAG_PRESENT || b[9] == SUBSECTION_FLAG_ABSENT,
        b[if b[9] == SUBSECTION_FLAG_PRESENT {
            26
        } else {
            10
        }] == SUBSECTION_FLAG_PRESENT || b[if b[9] == SUBSECTION_FLAG_PRESENT {
            26
        } else {
            10
        }] == SUBSECTION_FLAG_ABSENT,
    ensures
        offsets_bytes(offsets_of(b)->Ok_0) == b,
{
    let off = offsets_of(b)->Ok_0;
    let p1 = section_at(b, 9)->Some_0.1;
    let p2 = section_at(b, p1)->Some_0.1;
    let p3 = range_list_at(b, p2)->Some_0.1;
    let p4 = range_list_at(b, p3)->Some_0.1;
    lemma_u64_rewrites(b, 1);
    lemma_section_rewrites(b, 9);
    lemma_section_rewrites(b, p1);
    lemma_range_list_rewrites(b, p2);
    lemma_range_list_rewrites(b, p3);
    lemma_u32_rewrites(b, p4);
    lemma_runs_rewrite(b, p4 + 4, u32_at(b, p4));
    assert(open_blob_bytes(off.open_blob) =~= b.subrange(p4, b.len() as int));
    let n = b.len() as int;
    let head = seq![SUBSECTION_OFFSETS_VERSION_CURRENT] + le_bytes(off.total_size as nat, 8);
    assert(head =~= b.subrange(0, 9));
    assert(head + section_bytes(off.vec) =~= b.subrange(0, p1));
    assert(b.subrange(0, p1) + section_bytes(off.fts) =~= b.subrange(0, p2));
    assert(b.subrange(0, p2) + range_list_bytes(off.vec_open_ranges) =~= b.subrange(0, p3));
    assert(b.subrange(0, p3) + range_list_bytes(off.fts_open_ranges) =~= b.subrange(0, p4));
    assert(b.subrange(0, p4) + open_blob_bytes(off.open_blob) =~= b.subrange(0, n));
    assert(b.subrange(0, n) =~= b);
}

/// Nothing but the two versions is read.
pub proof fn lemma_only_known_versions(bytes: &[u8], res: Result<SubsectionOffsets, PartParseError>)
    requires
        call_ensures(decode_subsection_offsets, (bytes,), res),
    ensures
        res is Ok ==> bytes@.len() >= 9 && (bytes@[0] == 2 || bytes@[0] == 3),
        res matches Ok(off) ==> off.total_size as nat == le_value(bytes@.subrange(1, 9)),
        res matches Err(e) ==> e is SchemaMismatch,
{
    if res is Ok {
        lemma_le_bound(bytes@.subrange(1, 9));
        lemma_byte_spans();
    }
}

proof fn lemma_section_ignores_the_tag(b: Seq<u8>, c: Seq<u8>, p: int)
    requires
        0 < p,
        c.len() == b.len() + 4,
        forall|i: int| 0 < i < b.len() ==> #[trigger] c[i] == b[i],
        section_at(b, p) is Some,
    ensures
        section_at(c, p) == section_at(b, p),
        p < section_at(b, p)->Some_0.1 <= b.len(),
{
    if b[p] == SUBSECTION_FLAG_PRESENT {
        assert(c.subrange(p + 1, p + 9) =~= b.subrange(p + 1, p + 9));
        assert(c.subrange(p + 9, p + 17) =~= b.subrange(p + 9, p + 17));
    }
}

proof fn lemma_ranges_ignore_the_tag(b: Seq<u8>, c: Seq<u8>, p: int)
    requires
        0 < p,
        c.len() == b.len() + 4,
        forall|i: int| 0 < i < b.len() ==> #[trigger] c[i] == b[i],
        range_list_at(b, p) is Some,
    ensures
        range_list_at(c, p) == range_list_at(b, p),
        p < range_list_at(b, p)->Some_0.1 <= b.len(),
{
    assert(c.subrange(p, p + 4) =~= b.subrange(p, p + 4));
    let n = u32_at(b, p);
    let x = range_list_at(b, p)->Some_0.0;
    let y = range_list_at(c, p)->Some_0.0;
    assert forall|i: int| 0 <= i < n implies x[i] == y[i] by {
        let q = p + 4 + 16 * i;
        assert(c.subrange(q, q + 8) =~= b.subrange(q, q + 8));
        assert(c.subrange(q + 8, q + 16) =~= b.subrange(q + 8, q + 16));
    }
    assert(x =~= y);
}

/// The older form is read as the current one without open-time bytes.
pub proof fn lemma_legacy_form_is_read(b: Seq<u8>)
    requires
        b.len() > 0,
        b[0] == SUBSECTION_OFFSETS_VERSION_LEGACY,
        offsets_of(b) is Ok,
    ensures
        offsets_of(b)->Ok_0.open_blob.len() == 0,
        offsets_of(
            seq![SUBSECTION_OFFSETS_VERSION_CURRENT] + b.skip(1) + seq![0u8, 0u8, 0u8, 0u8],
        ) == offsets_of(b),
{
    let none = seq![0u8, 0u8, 0u8, 0u8];
    let c = seq![SUBSECTION_OFFSETS_VERSION_CURRENT] + b.skip(1) + none;
    assert(forall|i: int| 0 < i < b.len() ==> #[trigger] c[i] == b[i]);
    assert(c.len() == b.len() + 4);
    assert(c.subrange(1, 9) =~= b.subrange(1, 9));
    lemma_section_ignores_the_tag(b, c, 9);
    let p1 = section_at(b, 9)->Some_0.1;
    lemma_section_ignores_the_tag(b, c, p1);
    let p2 = section_at(b, p1)->Some_0.1;
    lemma_ranges_ignore_the_tag(b, c, p2);
    let p3 = range_list_at(b, p2)->Some_0.1;
    lemma_ranges_ignore_the_tag(b, c, p3);
    let p4 = range_list_at(b, p3)->Some_0.1;
    assert(p4 == b.len());
    assert(c.subrange(p4, p4 + 4) =~= none);
    reveal_with_fuel(le_value, 5);
    assert(u32_at(c, p4) == 0);
}

/// Offsets that are packed are read again as they were, as long as every count
/// and every length in them is below 2 to the 32nd.
pub proof fn lemma_written_offsets_are_read(
    off: SubsectionOffsets,
    out: Vec<u8>,
    bytes: &[u8],
    res: Result<SubsectionOffsets, PartParseError>,
)
    requires
        call_ensures(encode_subsection_offsets, (&off,), out),
        bytes@ == out@,
        call_ensures(decode_subsection_offsets, (bytes,), res),
        off.vec_open_ranges@.len() <= u32::MAX,
        off.fts_open_ranges@.len() <= u32::MAX,
        off.open_blob@.len() <= u32::MAX,
        forall|i: int|
            0 <= i < off.open_blob@.len() ==> (#[trigger] off.open_blob@[i]).1@.len() <= u32::MAX,
    ensures
        res is Ok,
        res->Ok_0.total_size == off.total_size,
        res->Ok_0.vec == off.vec,
        res->Ok_0.fts == off.fts,
        res->Ok_0.vec_open_ranges@ == off.vec_open_ranges@,
        res->Ok_0.fts_open_ranges@ == off.fts_open_ranges@,
        res->Ok_0.open_blob@.len() == off.open_blob@.len(),
        forall|i: int|
            0 <= i < off.open_blob@.len() ==> (#[trigger] res->Ok_0.open_blob@[i]).0
                == off.open_blob@[i].0 && res->Ok_0.open_blob@[i].1@ == off.open_blob@[i].1@,
{
    assert forall|i: int| 0 <= i < off@.open_blob.len() implies (
    #[trigger] off@.open_blob[i]).1.len() <= u32::MAX by {
        assert(off@.open_blob[i].1 == off.open_blob@[i].1@);
    }
    lemma_offsets_read_back(off@);
    let found = res->Ok_0;
    assert(found@ == off@);
    assert(blob_view(found.open_blob@).len() == found.open_blob@.len());
    assert forall|i: int| 0 <= i < off.open_blob@.len() implies (#[trigger] found.open_blob@[i]).0
        == off.open_blob@[i].0 && found.open_blob@[i].1@ == off.open_blob@[i].1@ by {
        assert(blob_view(found.open_blob@)[i] == blob_view(off.open_blob@)[i]);
    }
}

} // verus!
