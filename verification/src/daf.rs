//! DAF (Double Precision Array File) file record of a NAIF/SPICE binary
//! kernel.
//!
//! A DAF file is a sequence of 1024-byte records; the first, the file
//! record, holds the file ID word, the numbers of double and integer
//! summary components (ND, NI), the internal file name, the forward and
//! backward summary record pointers, the first free record and the binary
//! format name. The byte order is recognised from ND/NI, which are 2 and 6
//! for SPK kernels.
use vstd::prelude::*;
use vstd::string::StringExecFns;
use vstd::utf8::{decode_utf8, valid_utf8};

use crate::error::ApogeeError;
use crate::text::{
    chars_of, decimal, push_decimal, push_signed_decimal, push_str, range_equals, range_starts_with,
    signed_decimal, string_of, trim, trim_range,
};

verus! {

/// Size of a DAF record in bytes.
pub const RECORD_SIZE: usize = 1024;

/// Length of the file-record ID word.
pub const IDWORD_LEN: usize = 8;

/// Length of the ND field.
pub const ND_LEN: usize = 4;

/// Length of the NI field.
pub const NI_LEN: usize = 4;

/// Length of the internal file name.
pub const INTERNAL_NAME_LEN: usize = 60;

/// Length of the forward summary pointer.
pub const FWARD_LEN: usize = 4;

/// Length of the backward summary pointer.
pub const BWARD_LEN: usize = 4;

/// Length of the free record pointer.
pub const FREE_LEN: usize = 4;

/// Length of the binary format name.
pub const LOCFMT_LEN: usize = 8;

/// The number of file-record bytes that the parser reads.
pub open spec fn file_record_span() -> int {
    96
}

/// Endianness detected from a DAF file.
#[derive(Debug, Clone, Copy, PartialEq, Eq, Structural)]
pub enum Endianness {
    Little,
    Big,
}

/// Parsed DAF file record.
#[derive(Debug, Clone, PartialEq)]
pub struct DafFileRecord {
    /// File type identifier, e.g. "DAF/SPK".
    pub idword: String,
    /// Internal file name.
    pub internal_name: String,
    /// Number of double-precision summary components.
    pub nd: i32,
    /// Number of integer summary components.
    pub ni: i32,
    /// First summary record number (1-based).
    pub first_summary_record: i32,
    /// Last summary record number (1-based).
    pub last_summary_record: i32,
    /// First free record number (1-based).
    pub first_free_record: i32,
    /// Endianness flag read from the file record.
    pub endianness: Endianness,
}

// ---------------------------------------------------------------------------
// Specification
// ---------------------------------------------------------------------------

/// A 32-bit two's-complement value from its unsigned bit pattern.
pub open spec fn signed32(u: int) -> int {
    if u >= 0x8000_0000 {
        u - 0x1_0000_0000
    } else {
        u
    }
}

/// The `i32` stored little-endian at `b[o..o + 4]`.
pub open spec fn i32_le(b: Seq<u8>, o: int) -> int {
    signed32(b[o] + 0x100 * b[o + 1] + 0x1_0000 * b[o + 2] + 0x100_0000 * b[o + 3])
}

/// The `i32` stored big-endian at `b[o..o + 4]`.
pub open spec fn i32_be(b: Seq<u8>, o: int) -> int {
    signed32(b[o + 3] + 0x100 * b[o + 2] + 0x1_0000 * b[o + 1] + 0x100_0000 * b[o])
}

/// The `i32` stored at `b[o..o + 4]` in the given byte order.
pub open spec fn i32_at(b: Seq<u8>, o: int, e: Endianness) -> int {
    match e {
        Endianness::Little => i32_le(b, o),
        Endianness::Big => i32_be(b, o),
    }
}

/// The byte order under which ND and NI read as the SPK pair (2, 6),
/// little-endian first.
pub open spec fn detected_endianness(b: Seq<u8>) -> Option<Endianness> {
    if i32_le(b, 8) == 2 && i32_le(b, 12) == 6 {
        Some(Endianness::Little)
    } else if i32_be(b, 8) == 2 && i32_be(b, 12) == 6 {
        Some(Endianness::Big)
    } else {
        None
    }
}

/// The message when neither byte order gives the SPK pair.
pub open spec fn endianness_message(b: Seq<u8>) -> Seq<char> {
    "unable to detect DAF endianness: le=(nd="@ + signed_decimal(i32_le(b, 8)) + ", ni="@
        + signed_decimal(i32_le(b, 12)) + "), be=(nd="@ + signed_decimal(i32_be(b, 8)) + ", ni="@
        + signed_decimal(i32_be(b, 12)) + ")"@
}

/// What `String::from_utf8_lossy` makes of `bytes`.
pub uninterp spec fn utf8_lossy(bytes: Seq<u8>) -> Seq<char>;

/// A text field of the file record: the bytes `b[lo..hi]` decoded as
/// UTF-8 (invalid sequences replaced) and trimmed of whitespace.
pub open spec fn text_field(b: Seq<u8>, lo: int, hi: int) -> Seq<char> {
    trim(utf8_lossy(b.subrange(lo, hi)))
}

/// The ID word names a DAF file: it starts with `DAF` or is `NAIF/DAF`.
pub open spec fn is_daf_idword(id: Seq<char>) -> bool {
    (id.len() >= 3 && id.take(3) == "DAF"@) || id == "NAIF/DAF"@
}

/// The byte order recorded by the binary format name, or `e` when the name
/// is neither `LITTLE-IEEE` nor `BIG-IEEE`.
pub open spec fn format_endianness(locfmt: Seq<char>, e: Endianness) -> Endianness {
    if locfmt == "LITTLE-IEEE"@ {
        Endianness::Little
    } else if locfmt == "BIG-IEEE"@ {
        Endianness::Big
    } else {
        e
    }
}

// ---------------------------------------------------------------------------
// Implementation
// ---------------------------------------------------------------------------

/// `String::from_utf8_lossy`: the text of `bytes`, with each invalid UTF-8
/// sequence replaced by U+FFFD; for valid UTF-8 it is the decoded text.
#[verifier::external_body]
fn lossy_text(bytes: &[u8]) -> (s: String)
    ensures
        s@ == utf8_lossy(bytes@),
        valid_utf8(bytes@) ==> s@ == decode_utf8(bytes@),
{
    String::from_utf8_lossy(bytes).into_owned()
}

/// The trimmed text of `bytes[lo..hi]`.
fn read_text_field(bytes: &[u8], lo: usize, hi: usize) -> (s: String)
    requires
        lo <= hi <= bytes@.len(),
    ensures
        s@ == text_field(bytes@, lo as int, hi as int),
        valid_utf8(bytes@.subrange(lo as int, hi as int)) ==> text_field(bytes@, lo as int, hi as int)
            == trim(decode_utf8(bytes@.subrange(lo as int, hi as int))),
{
    let raw = lossy_text(&bytes[lo..hi]);
    let v = chars_of(raw.as_str());
    let (a, b) = trim_range(&v, 0, v.len());
    assert(v@.subrange(0, v@.len() as int) == v@);
    string_of(&v, a, b)
}

fn signed_from_bits(u: u32) -> (r: i32)
    ensures
        r as int == signed32(u as int),
{
    if u >= 0x8000_0000 {
        ((u - 0x8000_0000) as i32) - 0x4000_0000 - 0x4000_0000
    } else {
        u as i32
    }
}

/// Read an `i32` at `offset` in the given byte order.
pub fn read_i32_at(bytes: &[u8], offset: usize, endianness: Endianness) -> (r: i32)
    requires
        offset + 4 <= bytes@.len(),
    ensures
        r as int == i32_at(bytes@, offset as int, endianness),
{
    let b0 = bytes[offset] as u32;
    let b1 = bytes[offset + 1] as u32;
    let b2 = bytes[offset + 2] as u32;
    let b3 = bytes[offset + 3] as u32;
    match endianness {
        Endianness::Little => signed_from_bits(b0 + 0x100 * b1 + 0x1_0000 * b2 + 0x100_0000 * b3),
        Endianness::Big => signed_from_bits(b3 + 0x100 * b2 + 0x1_0000 * b1 + 0x100_0000 * b0),
    }
}

/// Detect endianness from the DAF file record: the byte order under which
/// ND and NI read as the SPK pair (2, 6), little-endian tried first.
pub fn detect_endianness(bytes: &[u8]) -> (r: Result<Endianness, ApogeeError>)
    requires
        bytes@.len() >= IDWORD_LEN + ND_LEN + NI_LEN,
    ensures
        match detected_endianness(bytes@) {
            Some(e) => r == Ok::<Endianness, ApogeeError>(e),
            None => r matches Err(ApogeeError::Ephemeris(m)) && m@ == endianness_message(bytes@),
        },
{
    let nd_offset = IDWORD_LEN;
    let ni_offset = nd_offset + ND_LEN;
    let nd_le = read_i32_at(bytes, nd_offset, Endianness::Little);
    let ni_le = read_i32_at(bytes, ni_offset, Endianness::Little);
    let nd_be = read_i32_at(bytes, nd_offset, Endianness::Big);
    let ni_be = read_i32_at(bytes, ni_offset, Endianness::Big);
    if nd_le == 2 && ni_le == 6 {
        Ok(Endianness::Little)
    } else if nd_be == 2 && ni_be == 6 {
        Ok(Endianness::Big)
    } else {
        let mut m = String::from_str("unable to detect DAF endianness: le=(nd=");
        push_signed_decimal(&mut m, nd_le as i64);
        push_str(&mut m, ", ni=");
        push_signed_decimal(&mut m, ni_le as i64);
        push_str(&mut m, "), be=(nd=");
        push_signed_decimal(&mut m, nd_be as i64);
        push_str(&mut m, ", ni=");
        push_signed_decimal(&mut m, ni_be as i64);
        push_str(&mut m, ")");
        Err(ApogeeError::Ephemeris(m))
    }
}

/// Parse the DAF file record from the start of a kernel.
///
/// Fails with an `Ephemeris` error when the ID word does not name a DAF
/// file, and otherwise when the byte order cannot be recognised. The
/// recorded endianness is the one the binary format name gives, or the
/// detected one when the name is not recognised.
pub fn parse_file_record(bytes: &[u8]) -> (r: Result<DafFileRecord, ApogeeError>)
    requires
        bytes@.len() >= IDWORD_LEN,
        is_daf_idword(text_field(bytes@, 0, 8)) ==> bytes@.len() >= IDWORD_LEN + ND_LEN + NI_LEN,
        is_daf_idword(text_field(bytes@, 0, 8)) && detected_endianness(bytes@) is Some
            ==> bytes@.len() >= file_record_span(),
    ensures
        valid_utf8(bytes@.subrange(0, 8)) ==> text_field(bytes@, 0, 8) == trim(
            decode_utf8(bytes@.subrange(0, 8)),
        ),
        r is Ok ==> (valid_utf8(bytes@.subrange(16, 76)) ==> text_field(bytes@, 16, 76) == trim(
            decode_utf8(bytes@.subrange(16, 76)),
        )),
        r is Ok ==> (valid_utf8(bytes@.subrange(88, 96)) ==> text_field(bytes@, 88, 96) == trim(
            decode_utf8(bytes@.subrange(88, 96)),
        )),
        ({
            let b = bytes@;
            let id = text_field(b, 0, 8);
            if !is_daf_idword(id) {
                r matches Err(ApogeeError::Ephemeris(m)) && m@ == "not a DAF file: idword is '"@ + id
                    + "'"@
            } else {
                match detected_endianness(b) {
                    None => r matches Err(ApogeeError::Ephemeris(m)) && m@ == endianness_message(b),
                    Some(e) => r matches Ok(rec) && rec.idword@ == id && rec.internal_name@
                        == text_field(b, 16, 76) && rec.nd == i32_at(b, 8, e) && rec.ni == i32_at(
                        b,
                        12,
                        e,
                    ) && rec.first_summary_record == i32_at(b, 76, e) && rec.last_summary_record
                        == i32_at(b, 80, e) && rec.first_free_record == i32_at(b, 84, e)
                        && rec.endianness == format_endianness(text_field(b, 88, 96), e),
                }
            }
        }),
{
    let idword = read_text_field(bytes, 0, IDWORD_LEN);
    let idv = chars_of(idword.as_str());
    let starts_daf = range_starts_with(&idv, 0, idv.len(), "DAF");
    let is_naif_daf = range_equals(&idv, 0, idv.len(), "NAIF/DAF");
    assert(idv@.subrange(0, idv@.len() as int) == idv@);
    proof {
        reveal_strlit("DAF");
    }
    if !(starts_daf || is_naif_daf) {
        let mut m = String::from_str("not a DAF file: idword is '");
        push_str(&mut m, idword.as_str());
        push_str(&mut m, "'");
        return Err(ApogeeError::Ephemeris(m));
    }
    let endianness = match detect_endianness(bytes) {
        Ok(e) => e,
        Err(err) => return Err(err),
    };
    let nd = read_i32_at(bytes, IDWORD_LEN, endianness);
    let ni = read_i32_at(bytes, IDWORD_LEN + ND_LEN, endianness);
    let name_start = IDWORD_LEN + ND_LEN + NI_LEN;
    let internal_name = read_text_field(bytes, name_start, name_start + INTERNAL_NAME_LEN);
    let base = name_start + INTERNAL_NAME_LEN;
    let fward = read_i32_at(bytes, base, endianness);
    let bward = read_i32_at(bytes, base + FWARD_LEN, endianness);
    let free = read_i32_at(bytes, base + FWARD_LEN + BWARD_LEN, endianness);
    let fmt_start = base + FWARD_LEN + BWARD_LEN + FREE_LEN;
    let locfmt = read_text_field(bytes, fmt_start, fmt_start + LOCFMT_LEN);
    let lv = chars_of(locfmt.as_str());
    assert(lv@.subrange(0, lv@.len() as int) == lv@);
    let endianness_from_locfmt = if range_equals(&lv, 0, lv.len(), "LITTLE-IEEE") {
        Endianness::Little
    } else if range_equals(&lv, 0, lv.len(), "BIG-IEEE") {
        Endianness::Big
    } else {
        endianness
    };
    Ok(
        DafFileRecord {
            idword,
            internal_name,
            nd,
            ni,
            first_summary_record: fward,
            last_summary_record: bward,
            first_free_record: free,
            endianness: endianness_from_locfmt,
        },
    )
}


// ---------------------------------------------------------------------------
// Segment summaries
// ---------------------------------------------------------------------------

/// Where an SPK segment's data array lies in the file.
#[derive(Debug, Clone, Copy, PartialEq, Eq, Structural)]
pub struct SegmentLayout {
    /// Byte offset of the first double-precision word of the array.
    pub first_data_byte_offset: u64,
    /// Byte offset of the final double-precision word of the array.
    pub final_data_byte_offset: u64,
    /// Number of DAF records the array spans.
    pub record_count: i32,
    /// First DAF record of the array (1-based).
    pub first_data_record: i32,
}

/// A summary's `i32` word address taken as a 64-bit unsigned size, as a
/// cast to `usize` takes it on a 64-bit target.
pub open spec fn word_address(w: i32) -> int {
    if w < 0 {
        w + 0x1_0000_0000_0000_0000
    } else {
        w as int
    }
}

/// The summary's address range is usable: the initial address is not 0 and
/// the final one is not before it.
pub open spec fn valid_address_range(initial: i32, last: i32) -> bool {
    word_address(initial) != 0 && word_address(last) >= word_address(initial)
}

/// The layout of a segment whose data array runs from the 1-based
/// double-precision word addresses `initial` to `last`.
pub open spec fn segment_layout_of(initial: i32, last: i32) -> SegmentLayout {
    let first_byte = (initial - 1) * 8;
    let last_byte = (last - 1) * 8;
    SegmentLayout {
        first_data_byte_offset: first_byte as u64,
        final_data_byte_offset: last_byte as u64,
        record_count: ((last_byte - first_byte) / 1024 + 1) as i32,
        first_data_record: (first_byte / 1024 + 1) as i32,
    }
}

/// The byte offsets and record numbers of a segment's data array from the
/// initial and final word addresses of its summary. Fails with an
/// `Ephemeris` error when the initial address is 0 or the final one lies
/// before it (the addresses taken as unsigned sizes).
pub fn segment_layout(initial: i32, last: i32) -> (r: Result<SegmentLayout, ApogeeError>)
    requires
        last < 0 ==> !valid_address_range(initial, last),
    ensures
        valid_address_range(initial, last) ==> r == Ok::<SegmentLayout, ApogeeError>(
            segment_layout_of(initial, last),
        ),
        !valid_address_range(initial, last) ==> (r matches Err(ApogeeError::Ephemeris(m)) && m@
            == "invalid SPK summary data address range"@),
{
    // Negative words stand for addresses of 2^63 and more, past any valid
    // range: a negative initial address lies after any final one here.
    if initial == 0 || last < 0 || initial < 0 || last < initial {
        return Err(ApogeeError::Ephemeris(String::from_str("invalid SPK summary data address range")));
    }
    let first_byte = (initial as u64 - 1) * 8;
    let last_byte = (last as u64 - 1) * 8;
    Ok(
        SegmentLayout {
            first_data_byte_offset: first_byte,
            final_data_byte_offset: last_byte,
            record_count: ((last_byte - first_byte) / 1024 + 1) as i32,
            first_data_record: (first_byte / 1024 + 1) as i32,
        },
    )
}

// ---------------------------------------------------------------------------
// Summary records
// ---------------------------------------------------------------------------

/// The size in bytes of one segment summary: `nd` double-precision words
/// and `ni` integers, a negative count taken as 0.
pub open spec fn summary_size_of(nd: i32, ni: i32) -> int {
    (if nd < 0 { 0 } else { nd as int }) * 8 + (if ni < 0 { 0 } else { ni as int }) * 4
}

/// The size in bytes of one segment summary of a file whose file record
/// gives `nd` and `ni`.
pub fn summary_size(nd: i32, ni: i32) -> (r: u64)
    ensures
        r == summary_size_of(nd, ni),
{
    let d: u64 = if nd < 0 { 0 } else { nd as u64 };
    let i: u64 = if ni < 0 { 0 } else { ni as u64 };
    d * 8 + i * 4
}

/// The byte offset of the 1-based summary record `record`.
pub open spec fn record_offset_of(record: int) -> int {
    (record - 1) * 1024
}

/// The message of a summary record that the file does not hold whole.
pub open spec fn record_past_end_message(record: i32) -> Seq<char> {
    "summary record "@ + signed_decimal(record as int) + " extends past end of file"@
}

/// The byte offset of summary record `record` (1-based) in a file of
/// `file_len` bytes. Fails with an `Ephemeris` error when the file does not
/// hold the whole record.
pub fn summary_record_offset(file_len: usize, record: i32) -> (r: Result<usize, ApogeeError>)
    requires
        record > 0,
    ensures
        record_offset_of(record as int) + 1024 <= file_len ==> r == Ok::<usize, ApogeeError>(
            record_offset_of(record as int) as usize,
        ),
        record_offset_of(record as int) + 1024 > file_len ==> (r matches Err(
            ApogeeError::Ephemeris(m),
        ) && m@ == record_past_end_message(record)),
{
    let offset: u64 = (record as u64 - 1) * 1024;
    if offset + 1024 > file_len as u64 {
        let mut m = String::from_str("summary record ");
        push_signed_decimal(&mut m, record as i64);
        push_str(&mut m, " extends past end of file");
        return Err(ApogeeError::Ephemeris(m));
    }
    Ok(offset as usize)
}

/// The message of a summary record whose summaries run past the end of
/// the file.
pub open spec fn summaries_past_end_message(record: i32) -> Seq<char> {
    "summary data in record "@ + signed_decimal(record as int) + " extends past end of file"@
}

/// The byte offsets of the `count` summaries of `size` bytes each that
/// follow the three control words of the record at `record_offset`.
pub open spec fn summary_offsets_of(record_offset: int, count: int, size: int) -> Seq<usize> {
    Seq::new(count as nat, |i: int| (record_offset + 24 + i * size) as usize)
}

/// The byte offsets of the summaries stored in the summary record `record`,
/// which starts at `record_offset` and holds `count` summaries of `size`
/// bytes each after its three control words. Fails with an `Ephemeris`
/// error when they run past the end of a file of `file_len` bytes.
pub fn summary_offsets(file_len: usize, record_offset: usize, record: i32, count: i32, size: u64)
    -> (r: Result<Vec<usize>, ApogeeError>)
    requires
        count >= 0,
        record_offset + 24 + count * size <= usize::MAX,
    ensures
        record_offset + 24 + count * size <= file_len ==> (r matches Ok(v) && v@
            == summary_offsets_of(record_offset as int, count as int, size as int)),
        record_offset + 24 + count * size > file_len ==> (r matches Err(ApogeeError::Ephemeris(m))
            && m@ == summaries_past_end_message(record)),
{
    let start: usize = record_offset + 24;
    assert(count * size >= 0) by (nonlinear_arith)
        requires
            count >= 0,
            size >= 0,
    ;
    let len: usize = (count as u64 * size) as usize;
    if start > file_len || len > file_len - start {
        let mut m = String::from_str("summary data in record ");
        push_signed_decimal(&mut m, record as i64);
        push_str(&mut m, " extends past end of file");
        return Err(ApogeeError::Ephemeris(m));
    }
    let n: usize = count as usize;
    let mut v: Vec<usize> = Vec::new();
    let mut i: usize = 0;
    let mut at: usize = start;
    while i < n
        invariant
            i <= n,
            n == count,
            start == record_offset + 24,
            at == start + i * size,
            start + n * size <= file_len,
            v@ == summary_offsets_of(record_offset as int, i as int, size as int),
        decreases n - i,
    {
        assert(at + size <= start + n * size) by (nonlinear_arith)
            requires
                at == start + i * size,
                i < n,
                size >= 0,
        ;
        let ghost before = v@;
        v.push(at);
        assert forall|j: int| 0 <= j < i + 1 implies v@[j] == summary_offsets_of(
            record_offset as int,
            (i + 1) as int,
            size as int,
        )[j] by {
            if j < i {
                assert(v@[j] == before[j]);
            } else {
                assert(v@[j] == at);
            }
        }
        assert(v@ =~= summary_offsets_of(record_offset as int, (i + 1) as int, size as int));
        at = at + size as usize;
        i += 1;
        assert(at == start + i * size) by (nonlinear_arith)
            requires
                at == start + (i - 1) * size + size,
        ;
    }
    Ok(v)
}

// ---------------------------------------------------------------------------
// Type 13 directory
// ---------------------------------------------------------------------------

/// The message of a Type 13 segment whose final word lies past the end of
/// the file.
pub open spec fn type13_past_end_message() -> Seq<char> {
    "Type 13 segment directory extends past end of file"@
}

/// Checks that the last word of a Type 13 segment, at byte offset
/// `final_offset`, lies within a file of `file_len` bytes.
pub fn type13_directory_in_file(final_offset: usize, file_len: usize) -> (r: Result<(), ApogeeError>)
    requires
        final_offset + 8 <= usize::MAX,
    ensures
        final_offset + 8 <= file_len ==> r is Ok,
        final_offset + 8 > file_len ==> (r matches Err(ApogeeError::Ephemeris(m)) && m@
            == type13_past_end_message()),
{
    if final_offset + 8 > file_len {
        return Err(ApogeeError::Ephemeris(String::from_str("Type 13 segment directory extends past end of file")));
    }
    Ok(())
}

/// The number of words of a Type 13 segment of `n` states: six state
/// components and an epoch each, one directory entry per hundred epochs
/// after the first, the window size and the count.
pub open spec fn type13_words(n: int) -> int {
    7 * n + (n - 1) / 100 + 2
}

/// The number of words between byte offsets `first` and `last`, both ends
/// included.
pub open spec fn words_between(first: int, last: int) -> int {
    (last - first) / 8 + 1
}

/// The message of a Type 13 segment whose size disagrees with its count.
pub open spec fn type13_mismatch_message(expected: int, got: int) -> Seq<char> {
    "Type 13 segment word count mismatch: expected "@ + decimal(expected as nat) + ", got "@
        + decimal(got as nat)
}

/// The number of states of a Type 13 segment and the byte offset of its
/// epoch array, from the segment's first and final word offsets and the
/// two control words at its end (the number of states and the window size
/// less one). Fails with an `Ephemeris` error when the count is not
/// positive or the window negative, or when the segment's size is not that
/// of the count.
pub fn type13_layout(first_offset: usize, final_offset: usize, n_states: i32, window_minus_1: i32)
    -> (r: Result<(i32, usize), ApogeeError>)
    requires
        first_offset <= final_offset,
        final_offset + 8 <= usize::MAX,
        n_states > 0 && window_minus_1 >= 0 ==> type13_words(n_states as int) <= i32::MAX,
    ensures
        (n_states <= 0 || window_minus_1 < 0) ==> (r matches Err(ApogeeError::Ephemeris(m)) && m@
            == "invalid Type 13 directory values"@),
        n_states > 0 && window_minus_1 >= 0 && words_between(first_offset as int, final_offset as int)
            != type13_words(n_states as int) ==> (r matches Err(ApogeeError::Ephemeris(m)) && m@
            == type13_mismatch_message(
            type13_words(n_states as int),
            words_between(first_offset as int, final_offset as int),
        )),
        n_states > 0 && window_minus_1 >= 0 && words_between(first_offset as int, final_offset as int)
            == type13_words(n_states as int) ==> r == Ok::<(i32, usize), ApogeeError>(
            (n_states, (first_offset + 48 * n_states) as usize),
        ),
{
    if n_states <= 0 || window_minus_1 < 0 {
        return Err(ApogeeError::Ephemeris(String::from_str("invalid Type 13 directory values")));
    }
    let directory_count: i32 = (n_states - 1) / 100;
    let total_words: usize = (final_offset - first_offset) / 8 + 1;
    let expected: i32 = 6 * n_states + n_states + directory_count + 2;
    let expected_words: usize = expected as usize;
    if total_words != expected_words {
        let mut m = String::from_str("Type 13 segment word count mismatch: expected ");
        push_decimal(&mut m, expected_words as u64);
        push_str(&mut m, ", got ");
        push_decimal(&mut m, total_words as u64);
        return Err(ApogeeError::Ephemeris(m));
    }
    let epochs: usize = first_offset + 6 * (n_states as usize) * 8;
    Ok((n_states, epochs))
}

// ---------------------------------------------------------------------------
// Chebyshev data records (SPK Types 2 and 3)
// ---------------------------------------------------------------------------

/// The number of coefficient blocks of a record of SPK type `spk_type`:
/// three position blocks for Type 2, and three velocity blocks more for
/// Type 3.
pub open spec fn coefficient_blocks(spk_type: i32) -> int {
    if spk_type == 2 {
        3
    } else {
        6
    }
}

/// The number of coefficients per block of a record of `rsize` words: the
/// words after the midpoint and the radius, shared out among the blocks.
pub open spec fn coefficients_per_block(spk_type: i32, rsize: i32) -> int {
    (rsize - 2) / coefficient_blocks(spk_type)
}

/// The byte offset of data record `index` (0-based) of `rsize` words in a
/// segment whose data starts at byte `first_offset`.
pub open spec fn record_offset_in_segment(first_offset: int, index: int, rsize: int) -> int {
    first_offset + index * rsize * 8
}

/// The number of bytes of a record that the reader uses: the midpoint and
/// the radius, then the coefficient blocks.
pub open spec fn record_data_size(spk_type: i32, rsize: i32) -> int {
    16 + coefficient_blocks(spk_type) * coefficients_per_block(spk_type, rsize) * 8
}

/// The message of a record with no coefficients.
pub open spec fn coefficient_count_message(spk_type: i32) -> Seq<char> {
    "invalid SPK Type "@ + signed_decimal(spk_type as int) + " coefficient count"@
}

/// The byte offset of data record `index` of an SPK Type 2 or Type 3
/// segment whose data starts at byte `first_offset` and whose records are
/// `rsize` words long, and the number of coefficients in each of the
/// record's blocks. Fails with an `Ephemeris` error when a record holds no
/// coefficient, or when the used part of the record runs past the end of a
/// file of `file_len` bytes.
pub fn chebyshev_record(first_offset: usize, index: i32, rsize: i32, spk_type: i32, file_len: usize)
    -> (r: Result<(usize, usize), ApogeeError>)
    requires
        spk_type == 2 || spk_type == 3,
        index >= 0,
        rsize >= 0,
        record_offset_in_segment(first_offset as int, index as int, rsize as int) <= usize::MAX,
        coefficients_per_block(spk_type, rsize) > 0 ==> record_offset_in_segment(
            first_offset as int,
            index as int,
            rsize as int,
        ) + record_data_size(spk_type, rsize) <= usize::MAX,
    ensures
        coefficients_per_block(spk_type, rsize) <= 0 ==> (r matches Err(ApogeeError::Ephemeris(m))
            && m@ == coefficient_count_message(spk_type)),
        coefficients_per_block(spk_type, rsize) > 0 && record_offset_in_segment(
            first_offset as int,
            index as int,
            rsize as int,
        ) + record_data_size(spk_type, rsize) > file_len ==> (r matches Err(
            ApogeeError::Ephemeris(m),
        ) && m@ == "coefficient data extends past end of file"@),
        coefficients_per_block(spk_type, rsize) > 0 && record_offset_in_segment(
            first_offset as int,
            index as int,
            rsize as int,
        ) + record_data_size(spk_type, rsize) <= file_len ==> r == Ok::<(usize, usize), ApogeeError>(
            (
                record_offset_in_segment(first_offset as int, index as int, rsize as int) as usize,
                coefficients_per_block(spk_type, rsize) as usize,
            ),
        ),
{
    assert(index * rsize * 8 >= 0) by (nonlinear_arith)
        requires
            index >= 0,
            rsize >= 0,
    ;
    let offset: usize = first_offset + (index as usize) * (rsize as usize) * 8;
    let blocks: i32 = if spk_type == 2 { 3 } else { 6 };
    if rsize < 2 + blocks {
        let mut m = String::from_str("invalid SPK Type ");
        push_signed_decimal(&mut m, spk_type as i64);
        push_str(&mut m, " coefficient count");
        return Err(ApogeeError::Ephemeris(m));
    }
    let n: i32 = (rsize - 2) / blocks;
    assert(n > 0 && n * blocks <= rsize - 2) by (nonlinear_arith)
        requires
            n == (rsize - 2) / (blocks as int),
            rsize - 2 >= blocks,
            blocks > 0,
    ;
    assert(n == coefficients_per_block(spk_type, rsize));
    assert(blocks * (n * 8) == coefficient_blocks(spk_type) * n * 8) by (nonlinear_arith)
        requires
            blocks == coefficient_blocks(spk_type),
    ;
    let block_size: usize = (n as usize) * 8;
    let used: usize = 16 + (blocks as usize) * block_size;
    if used > file_len || offset > file_len - used {
        return Err(ApogeeError::Ephemeris(String::from_str("coefficient data extends past end of file")));
    }
    Ok((offset, n as usize))
}

} // verus!
