//! The binary layout of the param format, stated as mathematics: the exact
//! size of every encoded value, the encoder's table-building passes, the
//! byte sequence an encoded document consists of, and the parser that reads
//! one back.
use vstd::prelude::*;

use crate::value::ValueSpec;

verus! {

use vstd::bytes::spec_u16_to_le_bytes;
use vstd::bytes::spec_u16_from_le_bytes;
use vstd::bytes::spec_u32_to_le_bytes;
use vstd::bytes::spec_u32_from_le_bytes;
use vstd::bytes::spec_u64_to_le_bytes;
use vstd::bytes::spec_u64_from_le_bytes;

/// The fixed 8-byte signature that opens every document: the ASCII bytes of
/// "paracobn".
pub open spec fn magic() -> Seq<u8> {
    seq![0x70u8, 0x61u8, 0x72u8, 0x61u8, 0x63u8, 0x6fu8, 0x62u8, 0x6eu8]
}

/// The largest value-region size, blob size, and hash-table size the
/// format's 32-bit length and offset fields can carry.
pub open spec fn spec_size_limit() -> nat {
    0xffff_ffff
}

// ------------------------------------------------------------------
// Exact binary size of a value (tag byte included).
// ------------------------------------------------------------------
/// The number of bytes the tagged encoding of `v` occupies in the value
/// region of a document.
pub open spec fn size_of(v: ValueSpec) -> nat
    decreases v,
{
    match v {
        ValueSpec::Bool(_) => 2,
        ValueSpec::I8(_) => 2,
        ValueSpec::U8(_) => 2,
        ValueSpec::I16(_) => 3,
        ValueSpec::U16(_) => 3,
        ValueSpec::I32(_) => 5,
        ValueSpec::U32(_) => 5,
        ValueSpec::F32(_) => 5,
        ValueSpec::Hash(_) => 5,
        ValueSpec::String(_) => 5,
        ValueSpec::List(es) => 5 + 4 * es.len() + size_of_list(es),
        ValueSpec::Dict(es) => 9 + size_of_entries(es),
    }
}

/// Sum of the sizes of a sequence of list elements.
pub open spec fn size_of_list(es: Seq<ValueSpec>) -> nat
    decreases es,
{
    if es.len() == 0 {
        0
    } else {
        size_of_list(es.drop_last()) + size_of(es.last())
    }
}

/// Sum of the sizes of the values of a sequence of map entries.
pub open spec fn size_of_entries(es: Seq<(u64, ValueSpec)>) -> nat
    decreases es,
{
    if es.len() == 0 {
        0
    } else {
        size_of_entries(es.drop_last()) + size_of(es.last().1)
    }
}

/// Sum of the sizes of the first `n` elements.
pub open spec fn prefix_size_list(es: Seq<ValueSpec>, n: int) -> nat
    decreases n,
{
    if n <= 0 || n > es.len() {
        0
    } else {
        prefix_size_list(es, n - 1) + size_of(es[n - 1])
    }
}

/// Sum of the sizes of the values of the first `n` entries.
pub open spec fn prefix_size_entries(es: Seq<(u64, ValueSpec)>, n: int) -> nat
    decreases n,
{
    if n <= 0 || n > es.len() {
        0
    } else {
        prefix_size_entries(es, n - 1) + size_of(es[n - 1].1)
    }
}

// ------------------------------------------------------------------
// Pass 1: the deduplicated hash table, in first-seen order.
// ------------------------------------------------------------------
/// Append `h` unless already present.
pub open spec fn push_unique(hs: Seq<u64>, h: u64) -> Seq<u64> {
    if hs.contains(h) {
        hs
    } else {
        hs.push(h)
    }
}

/// All hashes of `v` (Hash leaves and map keys), appended to `hs` in
/// depth-first first-seen order.
pub open spec fn collect_hashes(hs: Seq<u64>, v: ValueSpec) -> Seq<u64>
    decreases v, 0nat,
{
    match v {
        ValueSpec::Hash(h) => push_unique(hs, h),
        ValueSpec::List(es) => collect_hashes_list(hs, es),
        ValueSpec::Dict(es) => collect_hashes_entries(hs, es),
        _ => hs,
    }
}

/// [`collect_hashes`] folded over list elements.
pub open spec fn collect_hashes_list(hs: Seq<u64>, es: Seq<ValueSpec>) -> Seq<u64>
    decreases es, 1nat,
{
    if es.len() == 0 {
        hs
    } else {
        collect_hashes(collect_hashes_list(hs, es.drop_last()), es.last())
    }
}

/// [`collect_hashes`] folded over map entries: each key is recorded before
/// its value is visited.
pub open spec fn collect_hashes_entries(hs: Seq<u64>, es: Seq<(u64, ValueSpec)>) -> Seq<u64>
    decreases es, 1nat,
{
    if es.len() == 0 {
        hs
    } else {
        collect_hashes(
            push_unique(collect_hashes_entries(hs, es.drop_last()), es.last().0),
            es.last().1,
        )
    }
}

/// Index of the first occurrence of `h` in `hs`.
pub open spec fn first_index_of(hs: Seq<u64>, h: u64) -> int
    decreases hs,
{
    if hs.len() == 0 {
        0
    } else if hs[0] == h {
        0
    } else {
        1 + first_index_of(hs.drop_first(), h)
    }
}

// ------------------------------------------------------------------
// Pass 2a: deduplicated string contents in the reference blob.
// ------------------------------------------------------------------
/// The raw bytes of an ASCII string.
pub open spec fn str_bytes(s: Seq<char>) -> Seq<u8> {
    Seq::new(s.len(), |i: int| s[i] as u8)
}

/// The reference blob under construction, with the string and map-header
/// lookup tables built alongside it. Each table maps content to the byte
/// offset inside the blob where that content was first written.
#[verifier::ext_equal]
pub struct RefTables {
    pub blob: Seq<u8>,
    pub strs: Map<Seq<char>, nat>,
    pub fps: Map<Seq<(u64, nat)>, nat>,
}

/// Append the bytes of `s` plus a terminator, unless `s` was seen before.
pub open spec fn add_string(t: RefTables, s: Seq<char>) -> RefTables {
    if t.strs.dom().contains(s) {
        t
    } else {
        RefTables {
            blob: t.blob + str_bytes(s) + seq![0u8],
            strs: t.strs.insert(s, t.blob.len()),
            fps: t.fps,
        }
    }
}

/// Register every distinct string of `v` in the blob, depth-first.
pub open spec fn visit_strings(t: RefTables, v: ValueSpec) -> RefTables
    decreases v, 0nat,
{
    match v {
        ValueSpec::String(s) => add_string(t, s),
        ValueSpec::List(es) => visit_strings_list(t, es),
        ValueSpec::Dict(es) => visit_strings_entries(t, es),
        _ => t,
    }
}

/// [`visit_strings`] folded over list elements.
pub open spec fn visit_strings_list(t: RefTables, es: Seq<ValueSpec>) -> RefTables
    decreases es, 1nat,
{
    if es.len() == 0 {
        t
    } else {
        visit_strings(visit_strings_list(t, es.drop_last()), es.last())
    }
}

/// [`visit_strings`] folded over the values of map entries.
pub open spec fn visit_strings_entries(t: RefTables, es: Seq<(u64, ValueSpec)>) -> RefTables
    decreases es, 1nat,
{
    if es.len() == 0 {
        t
    } else {
        visit_strings(visit_strings_entries(t, es.drop_last()), es.last().1)
    }
}

// ------------------------------------------------------------------
// Pass 2b: deduplicated map headers in the reference blob.
// ------------------------------------------------------------------
/// A map's dedup fingerprint: its key sequence paired with the exact binary
/// size of each value. Two maps share a header exactly when these agree.
pub open spec fn fingerprint(es: Seq<(u64, ValueSpec)>) -> Seq<(u64, nat)> {
    Seq::new(es.len(), |i: int| (es[i].0, size_of(es[i].1)))
}

/// Sum of the sizes recorded in the first `n` fingerprint slots.
pub open spec fn fp_prefix_size(fp: Seq<(u64, nat)>, n: int) -> nat
    decreases n,
{
    if n <= 0 || n > fp.len() {
        0
    } else {
        fp_prefix_size(fp, n - 1) + fp[n - 1].1
    }
}

/// The bytes of one map header: for each slot, the hash-table index of its
/// key and the value's offset relative to the map's tag byte (first value
/// at offset 9 = tag + count + blob reference).
pub open spec fn header_bytes(hs: Seq<u64>, fp: Seq<(u64, nat)>) -> Seq<u8>
    decreases fp,
{
    if fp.len() == 0 {
        Seq::empty()
    } else {
        header_bytes(hs, fp.drop_last()) + spec_u32_to_le_bytes(
            first_index_of(hs, fp.last().0) as u32,
        ) + spec_u32_to_le_bytes((9 + fp_prefix_size(fp, fp.len() - 1)) as u32)
    }
}

/// Append the header for fingerprint `fp`, unless one was written before.
pub open spec fn add_struct(hs: Seq<u64>, t: RefTables, fp: Seq<(u64, nat)>) -> RefTables {
    if t.fps.dom().contains(fp) {
        t
    } else {
        RefTables {
            blob: t.blob + header_bytes(hs, fp),
            strs: t.strs,
            fps: t.fps.insert(fp, t.blob.len()),
        }
    }
}

/// Register every distinct map header of `v` in the blob, depth-first; a
/// map's own header is written before its values are visited.
pub open spec fn visit_structs(hs: Seq<u64>, t: RefTables, v: ValueSpec) -> RefTables
    decreases v, 0nat,
{
    match v {
        ValueSpec::List(es) => visit_structs_list(hs, t, es),
        ValueSpec::Dict(es) => visit_structs_entries(
            hs,
            add_struct(hs, t, fingerprint(es)),
            es,
        ),
        _ => t,
    }
}

/// [`visit_structs`] folded over list elements.
pub open spec fn visit_structs_list(hs: Seq<u64>, t: RefTables, es: Seq<ValueSpec>) -> RefTables
    decreases es, 1nat,
{
    if es.len() == 0 {
        t
    } else {
        visit_structs(hs, visit_structs_list(hs, t, es.drop_last()), es.last())
    }
}

/// [`visit_structs`] folded over the values of map entries.
pub open spec fn visit_structs_entries(
    hs: Seq<u64>,
    t: RefTables,
    es: Seq<(u64, ValueSpec)>,
) -> RefTables
    decreases es, 1nat,
{
    if es.len() == 0 {
        t
    } else {
        visit_structs(hs, visit_structs_entries(hs, t, es.drop_last()), es.last().1)
    }
}

// ------------------------------------------------------------------
// Pass 3: the tagged value bytes.
// ------------------------------------------------------------------
/// The relative-offset table that precedes a list's elements: entry `i` is
/// the distance from the list's tag byte to element `i`, namely the header
/// (5 bytes) plus the offset table (4 per element) plus all earlier
/// elements.
pub open spec fn list_offset_bytes(es: Seq<ValueSpec>, n: int) -> Seq<u8>
    decreases n,
{
    if n <= 0 || n > es.len() {
        Seq::empty()
    } else {
        list_offset_bytes(es, n - 1) + spec_u32_to_le_bytes(
            (5 + 4 * es.len() + prefix_size_list(es, n - 1)) as u32,
        )
    }
}

/// The tagged encoding of `v`, given the document's tables.
pub open spec fn write_value(
    hs: Seq<u64>,
    strs: Map<Seq<char>, nat>,
    fps: Map<Seq<(u64, nat)>, nat>,
    v: ValueSpec,
) -> Seq<u8>
    decreases v, 0nat,
{
    match v {
        ValueSpec::Bool(b) => seq![1u8, if b { 1u8 } else { 0u8 }],
        ValueSpec::I8(x) => seq![2u8, x as u8],
        ValueSpec::U8(x) => seq![3u8, x],
        ValueSpec::I16(x) => seq![4u8] + spec_u16_to_le_bytes(x as u16),
        ValueSpec::U16(x) => seq![5u8] + spec_u16_to_le_bytes(x),
        ValueSpec::I32(x) => seq![6u8] + spec_u32_to_le_bytes(x as u32),
        ValueSpec::U32(x) => seq![7u8] + spec_u32_to_le_bytes(x),
        ValueSpec::F32(x) => seq![8u8] + spec_u32_to_le_bytes(x),
        ValueSpec::Hash(h) => seq![9u8] + spec_u32_to_le_bytes(first_index_of(hs, h) as u32),
        ValueSpec::String(s) => seq![10u8] + spec_u32_to_le_bytes(strs[s] as u32),
        ValueSpec::List(es) => seq![11u8] + spec_u32_to_le_bytes(es.len() as u32)
            + list_offset_bytes(es, es.len() as int) + write_list(hs, strs, fps, es),
        ValueSpec::Dict(es) => seq![12u8] + spec_u32_to_le_bytes(es.len() as u32)
            + spec_u32_to_le_bytes(fps[fingerprint(es)] as u32) + write_entries(hs, strs, fps, es),
    }
}

/// Concatenated encodings of list elements.
pub open spec fn write_list(
    hs: Seq<u64>,
    strs: Map<Seq<char>, nat>,
    fps: Map<Seq<(u64, nat)>, nat>,
    es: Seq<ValueSpec>,
) -> Seq<u8>
    decreases es, 1nat,
{
    if es.len() == 0 {
        Seq::empty()
    } else {
        write_list(hs, strs, fps, es.drop_last()) + write_value(hs, strs, fps, es.last())
    }
}

/// Concatenated encodings of map entry values.
pub open spec fn write_entries(
    hs: Seq<u64>,
    strs: Map<Seq<char>, nat>,
    fps: Map<Seq<(u64, nat)>, nat>,
    es: Seq<(u64, ValueSpec)>,
) -> Seq<u8>
    decreases es, 1nat,
{
    if es.len() == 0 {
        Seq::empty()
    } else {
        write_entries(hs, strs, fps, es.drop_last()) + write_value(hs, strs, fps, es.last().1)
    }
}

// ------------------------------------------------------------------
// The whole document.
// ------------------------------------------------------------------
/// The hash table region: each hash as 8 little-endian bytes.
pub open spec fn hash_table_bytes(hs: Seq<u64>) -> Seq<u8>
    decreases hs,
{
    if hs.len() == 0 {
        Seq::empty()
    } else {
        hash_table_bytes(hs.drop_last()) + spec_u64_to_le_bytes(hs.last())
    }
}

/// The hash table of a document holding the single top-level value `v`.
pub open spec fn doc_hashes(v: ValueSpec) -> Seq<u64> {
    collect_hashes(Seq::empty(), v)
}

/// The finished reference tables of a document holding `v`: all strings
/// first, then all map headers.
pub open spec fn doc_tables(v: ValueSpec) -> RefTables {
    let t0 = RefTables { blob: Seq::empty(), strs: Map::empty(), fps: Map::empty() };
    visit_structs(doc_hashes(v), visit_strings(t0, v), v)
}

/// The complete encoded document holding the single value `v`.
pub open spec fn spec_encode(v: ValueSpec) -> Seq<u8> {
    let hs = doc_hashes(v);
    let t = doc_tables(v);
    magic() + spec_u32_to_le_bytes((8 * hs.len()) as u32) + spec_u32_to_le_bytes(
        t.blob.len() as u32,
    ) + hash_table_bytes(hs) + t.blob + write_value(hs, t.strs, t.fps, v)
}

} // verus!

verus! {

// ------------------------------------------------------------------
// The parser.
// ------------------------------------------------------------------
/// The ways a decode can fail.
#[verifier::ext_equal]
pub enum DecodeErr {
    /// The leading type-tag byte is not one of the twelve kinds.
    InvalidParamId(u8),
    /// A hash-table index at or past the table's length.
    HashOutOfBounds(int),
    /// A string reference outside the blob, or one without a terminator.
    StringRefOutOfBounds(int),
    /// A non-ASCII byte inside referenced string data, at this absolute
    /// position.
    StringNotAscii(int),
    /// A map-header reference whose `num_elements` slots do not fit in the
    /// blob.
    MapRefOutOfBounds { start: int, num_elements: int },
    /// A read past the end of the value stream, starting at this position.
    Eof(int),
    /// The document does not open with the fixed signature.
    BadMagic,
    /// A hash-table byte length that is not a multiple of 8.
    BadHashTableLen(u32),
    /// Value nesting deeper than the decoder's budget.
    DepthLimit,
    /// An error raised by a consumer of the decoder.
    Other(Seq<char>),
}

/// Everything a parse of one value reads besides the position: the value
/// stream, the hash table, the reference blob, and the absolute file
/// position that error reports add to blob offsets.
pub struct PCtx {
    pub bytes: Seq<u8>,
    pub hs: Seq<u64>,
    pub blob: Seq<u8>,
    pub file_off: int,
}

/// Index of the first terminator byte at or after `from`, or the blob's
/// length if there is none.
pub open spec fn find_nul(blob: Seq<u8>, from: int) -> int
    decreases blob.len() - from,
{
    if from < 0 || from >= blob.len() {
        blob.len() as int
    } else if blob[from] == 0 {
        from
    } else {
        find_nul(blob, from + 1)
    }
}

/// Index of the first non-ASCII byte in `blob[from..to]`, or `to` if all
/// are ASCII.
pub open spec fn find_non_ascii(blob: Seq<u8>, from: int, to: int) -> int
    decreases to - from,
{
    if from < 0 || from >= to {
        to
    } else if blob[from] >= 0x80 {
        from
    } else {
        find_non_ascii(blob, from + 1, to)
    }
}

/// Resolve a string reference: the decoded characters, or the error the
/// reference produces.
pub open spec fn parse_str_at(blob: Seq<u8>, file_off: int, off: int) -> Result<
    Seq<char>,
    DecodeErr,
> {
    if off >= blob.len() {
        Err(DecodeErr::StringRefOutOfBounds(off))
    } else {
        let nul = find_nul(blob, off);
        if nul == blob.len() {
            Err(DecodeErr::StringRefOutOfBounds(file_off + off))
        } else {
            let bad = find_non_ascii(blob, off, nul);
            if bad < nul {
                Err(DecodeErr::StringNotAscii(file_off + bad))
            } else {
                Ok(Seq::new((nul - off) as nat, |i: int| blob[off + i] as char))
            }
        }
    }
}

/// Resolve a map-header reference of `n` slots: the (key hash, relative
/// value offset) pairs, or the error the reference produces. Hash indices
/// are checked in slot order.
pub open spec fn parse_header_pairs(
    blob: Seq<u8>,
    hs: Seq<u64>,
    off: int,
    upto: int,
) -> Result<Seq<(u64, int)>, DecodeErr>
    decreases upto,
{
    if upto <= 0 {
        Ok(Seq::empty())
    } else {
        match parse_header_pairs(blob, hs, off, upto - 1) {
            Err(e) => Err(e),
            Ok(pairs) => {
                let idx = spec_u32_from_le_bytes(
                    blob.subrange(off + 8 * (upto - 1), off + 8 * (upto - 1) + 4),
                ) as int;
                let rel = spec_u32_from_le_bytes(
                    blob.subrange(off + 8 * (upto - 1) + 4, off + 8 * upto),
                ) as int;
                if idx >= hs.len() {
                    Err(DecodeErr::HashOutOfBounds(idx))
                } else {
                    Ok(pairs.push((hs[idx], rel)))
                }
            },
        }
    }
}

/// Read a map-header reference with its bounds check.
pub open spec fn parse_header(
    blob: Seq<u8>,
    hs: Seq<u64>,
    file_off: int,
    off: int,
    n: int,
) -> Result<Seq<(u64, int)>, DecodeErr> {
    if off + n * 8 > blob.len() {
        Err(DecodeErr::MapRefOutOfBounds { start: file_off + off, num_elements: n })
    } else {
        parse_header_pairs(blob, hs, off, n)
    }
}

/// An error among the first `i` header slots is the error of any longer
/// prefix too.
pub proof fn lemma_header_pairs_err_mono(blob: Seq<u8>, hs: Seq<u64>, off: int, i: int, j: int)
    requires
        0 <= i <= j,
        parse_header_pairs(blob, hs, off, i) is Err,
    ensures
        parse_header_pairs(blob, hs, off, j) == parse_header_pairs(blob, hs, off, i),
    decreases j - i,
{
    if j > i {
        lemma_header_pairs_err_mono(blob, hs, off, i, j - 1);
    }
}

/// Read `n` little-endian 32-bit words starting at `q`, failing at the
/// first one that runs past the end of the stream.
pub open spec fn read_u32s(bytes: Seq<u8>, q: int, n: int) -> Result<Seq<u32>, DecodeErr>
    decreases n,
{
    if n <= 0 {
        Ok(Seq::empty())
    } else {
        match read_u32s(bytes, q, n - 1) {
            Err(e) => Err(e),
            Ok(ws) => {
                let p = q + 4 * (n - 1);
                if p + 4 > bytes.len() {
                    Err(DecodeErr::Eof(p))
                } else {
                    Ok(ws.push(spec_u32_from_le_bytes(bytes.subrange(p, p + 4))))
                }
            },
        }
    }
}

/// A failed read among the first `i` words is the failure of any longer
/// read too.
pub proof fn lemma_read_u32s_err_mono(bytes: Seq<u8>, q: int, i: int, j: int)
    requires
        0 <= i <= j,
        read_u32s(bytes, q, i) is Err,
    ensures
        read_u32s(bytes, q, j) == read_u32s(bytes, q, i),
    decreases j - i,
{
    if j > i {
        lemma_read_u32s_err_mono(bytes, q, i, j - 1);
    }
}

/// Parse the tagged value at `pos`, producing the value and the stream
/// position after it. `fuel` bounds the nesting depth; each level of the
/// tree consumes one unit.
pub open spec fn parse_at(c: PCtx, pos: int, fuel: nat) -> Result<(ValueSpec, int), DecodeErr>
    decreases fuel, 0nat, 0nat,
{
    if fuel == 0 {
        Err(DecodeErr::DepthLimit)
    } else if pos < 0 || pos >= c.bytes.len() {
        Err(DecodeErr::Eof(pos))
    } else {
        let b = c.bytes[pos];
        if b == 1 {
            if pos + 2 > c.bytes.len() {
                Err(DecodeErr::Eof(pos + 1))
            } else {
                Ok((ValueSpec::Bool(c.bytes[pos + 1] != 0), pos + 2))
            }
        } else if b == 2 {
            if pos + 2 > c.bytes.len() {
                Err(DecodeErr::Eof(pos + 1))
            } else {
                Ok((ValueSpec::I8(c.bytes[pos + 1] as i8), pos + 2))
            }
        } else if b == 3 {
            if pos + 2 > c.bytes.len() {
                Err(DecodeErr::Eof(pos + 1))
            } else {
                Ok((ValueSpec::U8(c.bytes[pos + 1]), pos + 2))
            }
        } else if b == 4 {
            if pos + 3 > c.bytes.len() {
                Err(DecodeErr::Eof(pos + 1))
            } else {
                Ok(
                    (
                        ValueSpec::I16(
                            spec_u16_from_le_bytes(c.bytes.subrange(pos + 1, pos + 3)) as i16,
                        ),
                        pos + 3,
                    ),
                )
            }
        } else if b == 5 {
            if pos + 3 > c.bytes.len() {
                Err(DecodeErr::Eof(pos + 1))
            } else {
                Ok(
                    (
                        ValueSpec::U16(spec_u16_from_le_bytes(c.bytes.subrange(pos + 1, pos + 3))),
                        pos + 3,
                    ),
                )
            }
        } else if b == 6 {
            if pos + 5 > c.bytes.len() {
                Err(DecodeErr::Eof(pos + 1))
            } else {
                Ok(
                    (
                        ValueSpec::I32(
                            spec_u32_from_le_bytes(c.bytes.subrange(pos + 1, pos + 5)) as i32,
                        ),
                        pos + 5,
                    ),
                )
            }
        } else if b == 7 {
            if pos + 5 > c.bytes.len() {
                Err(DecodeErr::Eof(pos + 1))
            } else {
                Ok(
                    (
                        ValueSpec::U32(spec_u32_from_le_bytes(c.bytes.subrange(pos + 1, pos + 5))),
                        pos + 5,
                    ),
                )
            }
        } else if b == 8 {
            if pos + 5 > c.bytes.len() {
                Err(DecodeErr::Eof(pos + 1))
            } else {
                Ok(
                    (
                        ValueSpec::F32(spec_u32_from_le_bytes(c.bytes.subrange(pos + 1, pos + 5))),
                        pos + 5,
                    ),
                )
            }
        } else if b == 9 {
            if pos + 5 > c.bytes.len() {
                Err(DecodeErr::Eof(pos + 1))
            } else {
                let idx = spec_u32_from_le_bytes(c.bytes.subrange(pos + 1, pos + 5)) as int;
                if idx >= c.hs.len() {
                    Err(DecodeErr::HashOutOfBounds(idx))
                } else {
                    Ok((ValueSpec::Hash(c.hs[idx]), pos + 5))
                }
            }
        } else if b == 10 {
            if pos + 5 > c.bytes.len() {
                Err(DecodeErr::Eof(pos + 1))
            } else {
                let off = spec_u32_from_le_bytes(c.bytes.subrange(pos + 1, pos + 5)) as int;
                match parse_str_at(c.blob, c.file_off, off) {
                    Err(e) => Err(e),
                    Ok(s) => Ok((ValueSpec::String(s), pos + 5)),
                }
            }
        } else if b == 11 {
            if pos + 5 > c.bytes.len() {
                Err(DecodeErr::Eof(pos + 1))
            } else {
                let n = spec_u32_from_le_bytes(c.bytes.subrange(pos + 1, pos + 5)) as int;
                match read_u32s(c.bytes, pos + 5, n) {
                    Err(e) => Err(e),
                    Ok(rels) => {
                        let offs = Seq::new(rels.len(), |i: int| pos + rels[i]);
                        match parse_list_from(c, offs, 0, pos + 5 + 4 * n, (fuel - 1) as nat) {
                            Err(e) => Err(e),
                            Ok((vs, end)) => Ok((ValueSpec::List(vs), end)),
                        }
                    },
                }
            }
        } else if b == 12 {
            if pos + 9 > c.bytes.len() {
                Err(DecodeErr::Eof(pos + 1))
            } else {
                let n = spec_u32_from_le_bytes(c.bytes.subrange(pos + 1, pos + 5)) as int;
                let refoff = spec_u32_from_le_bytes(c.bytes.subrange(pos + 5, pos + 9)) as int;
                match parse_header(c.blob, c.hs, c.file_off, refoff, n) {
                    Err(e) => Err(e),
                    Ok(pairs) => {
                        let apairs = Seq::new(pairs.len(), |i: int| (pairs[i].0, pos + pairs[i].1));
                        match parse_dict_from(c, apairs, 0, pos + 9, (fuel - 1) as nat) {
                            Err(e) => Err(e),
                            Ok((es, end)) => Ok((ValueSpec::Dict(es), end)),
                        }
                    },
                }
            }
        } else {
            Err(DecodeErr::InvalidParamId(b))
        }
    }
}

/// Parse list elements `from..` at their absolute offsets; `cur` is the
/// stream position reached so far (the position after the offset table when
/// no element has been parsed yet). Produces the elements and the final
/// position.
pub open spec fn parse_list_from(
    c: PCtx,
    offs: Seq<int>,
    from: int,
    cur: int,
    fuel: nat,
) -> Result<(Seq<ValueSpec>, int), DecodeErr>
    decreases fuel, 1nat, offs.len() - from,
{
    if from >= offs.len() {
        Ok((Seq::empty(), cur))
    } else {
        match parse_at(c, offs[from], fuel) {
            Err(e) => Err(e),
            Ok((v, p)) => match parse_list_from(c, offs, from + 1, p, fuel) {
                Err(e) => Err(e),
                Ok((rest, end)) => Ok((seq![v] + rest, end)),
            },
        }
    }
}

/// Parse map entry values `from..` at their absolute offsets, as
/// [`parse_list_from`] does for lists.
pub open spec fn parse_dict_from(
    c: PCtx,
    pairs: Seq<(u64, int)>,
    from: int,
    cur: int,
    fuel: nat,
) -> Result<(Seq<(u64, ValueSpec)>, int), DecodeErr>
    decreases fuel, 1nat, pairs.len() - from,
{
    if from >= pairs.len() {
        Ok((Seq::empty(), cur))
    } else {
        match parse_at(c, pairs[from].1, fuel) {
            Err(e) => Err(e),
            Ok((v, p)) => match parse_dict_from(c, pairs, from + 1, p, fuel) {
                Err(e) => Err(e),
                Ok((rest, end)) => Ok((seq![(pairs[from].0, v)] + rest, end)),
            },
        }
    }
}

/// Parse a whole document: signature, header lengths, hash table, blob,
/// then the single top-level value.
pub open spec fn parse_doc(bytes: Seq<u8>) -> Result<ValueSpec, DecodeErr> {
    if bytes.len() < 8 {
        Err(DecodeErr::Eof(0))
    } else if bytes.subrange(0, 8) != magic() {
        Err(DecodeErr::BadMagic)
    } else if bytes.len() < 16 {
        Err(DecodeErr::Eof(8))
    } else {
        let h = spec_u32_from_le_bytes(bytes.subrange(8, 12)) as int;
        let r = spec_u32_from_le_bytes(bytes.subrange(12, 16)) as int;
        if h % 8 != 0 {
            Err(DecodeErr::BadHashTableLen(spec_u32_from_le_bytes(bytes.subrange(8, 12))))
        } else if 16 + h > bytes.len() {
            Err(DecodeErr::Eof(16))
        } else if 16 + h + r > bytes.len() {
            Err(DecodeErr::Eof(16 + h))
        } else {
            let hs = Seq::new(
                (h / 8) as nat,
                |i: int| spec_u64_from_le_bytes(bytes.subrange(16 + 8 * i, 16 + 8 * i + 8)),
            );
            let c = PCtx {
                bytes: bytes,
                hs: hs,
                blob: bytes.subrange(16 + h, 16 + h + r),
                file_off: 8 + h,
            };
            match parse_at(c, 16 + h + r, bytes.len() as nat) {
                Err(e) => Err(e),
                Ok((v, _)) => Ok(v),
            }
        }
    }
}

} // verus!

verus! {

/// One step of [`parse_list_from`], spelled out for callers.
pub proof fn lemma_parse_list_from_step(c: PCtx, offs: Seq<int>, from: int, cur: int, fuel: nat)
    requires
        0 <= from < offs.len(),
    ensures
        parse_list_from(c, offs, from, cur, fuel) == (match parse_at(c, offs[from], fuel) {
            Err(e) => Err::<(Seq<ValueSpec>, int), DecodeErr>(e),
            Ok((v, p)) => match parse_list_from(c, offs, from + 1, p, fuel) {
                Err(e) => Err(e),
                Ok((rest, end)) => Ok((seq![v] + rest, end)),
            },
        }),
{
}

/// One step of [`parse_dict_from`], spelled out for callers.
pub proof fn lemma_parse_dict_from_step(
    c: PCtx,
    pairs: Seq<(u64, int)>,
    from: int,
    cur: int,
    fuel: nat,
)
    requires
        0 <= from < pairs.len(),
    ensures
        parse_dict_from(c, pairs, from, cur, fuel) == (match parse_at(c, pairs[from].1, fuel) {
            Err(e) => Err::<(Seq<(u64, ValueSpec)>, int), DecodeErr>(e),
            Ok((v, p)) => match parse_dict_from(c, pairs, from + 1, p, fuel) {
                Err(e) => Err(e),
                Ok((rest, end)) => Ok((seq![(pairs[from].0, v)] + rest, end)),
            },
        }),
{
}

} // verus!

verus! {

/// Helper for the catch-up laws: among elements `from..`, the last one's
/// own end position is the end position of the whole run.
proof fn lemma_list_end_is_last(c: PCtx, offs: Seq<int>, from: int, cur: int, fuel: nat)
    requires
        0 <= from < offs.len(),
        parse_list_from(c, offs, from, cur, fuel) is Ok,
    ensures
        parse_at(c, offs[offs.len() - 1], fuel) matches Ok(vp) && vp.1 == parse_list_from(
            c,
            offs,
            from,
            cur,
            fuel,
        )->Ok_0.1,
    decreases offs.len() - from,
{
    lemma_parse_list_from_step(c, offs, from, cur, fuel);
    let (v, p) = parse_at(c, offs[from], fuel)->Ok_0;
    if from == offs.len() - 1 {
        assert(parse_list_from(c, offs, from + 1, p, fuel) == Ok::<_, DecodeErr>(
            (Seq::<ValueSpec>::empty(), p),
        ));
    } else {
        lemma_list_end_is_last(c, offs, from + 1, p, fuel);
    }
}

/// Abandoned-iteration catch-up for lists: when a list of elements at
/// `offs` parses successfully, parsing only the final element leaves the
/// stream at the same position as parsing every element. A consumer that
/// stops early can therefore resynchronize by parsing the last declared
/// element alone.
pub proof fn lemma_list_catch_up(c: PCtx, offs: Seq<int>, cur: int, fuel: nat)
    requires
        offs.len() > 0,
        parse_list_from(c, offs, 0, cur, fuel) is Ok,
    ensures
        parse_at(c, offs[offs.len() - 1], fuel) matches Ok(vp) && vp.1 == parse_list_from(
            c,
            offs,
            0,
            cur,
            fuel,
        )->Ok_0.1,
{
    lemma_list_end_is_last(c, offs, 0, cur, fuel);
}

/// Helper mirroring [`lemma_list_end_is_last`] for map entries.
proof fn lemma_dict_end_is_last(c: PCtx, pairs: Seq<(u64, int)>, from: int, cur: int, fuel: nat)
    requires
        0 <= from < pairs.len(),
        parse_dict_from(c, pairs, from, cur, fuel) is Ok,
    ensures
        parse_at(c, pairs[pairs.len() - 1].1, fuel) matches Ok(vp) && vp.1 == parse_dict_from(
            c,
            pairs,
            from,
            cur,
            fuel,
        )->Ok_0.1,
    decreases pairs.len() - from,
{
    lemma_parse_dict_from_step(c, pairs, from, cur, fuel);
    let (v, p) = parse_at(c, pairs[from].1, fuel)->Ok_0;
    if from == pairs.len() - 1 {
        assert(parse_dict_from(c, pairs, from + 1, p, fuel) == Ok::<_, DecodeErr>(
            (Seq::<(u64, ValueSpec)>::empty(), p),
        ));
    } else {
        lemma_dict_end_is_last(c, pairs, from + 1, p, fuel);
    }
}

/// Abandoned-iteration catch-up for maps: when a map's entry values at
/// `pairs` parse successfully, parsing only the final value leaves the
/// stream at the same position as parsing every value.
pub proof fn lemma_dict_catch_up(c: PCtx, pairs: Seq<(u64, int)>, cur: int, fuel: nat)
    requires
        pairs.len() > 0,
        parse_dict_from(c, pairs, 0, cur, fuel) is Ok,
    ensures
        parse_at(c, pairs[pairs.len() - 1].1, fuel) matches Ok(vp) && vp.1 == parse_dict_from(
            c,
            pairs,
            0,
            cur,
            fuel,
        )->Ok_0.1,
{
    lemma_dict_end_is_last(c, pairs, 0, cur, fuel);
}

} // verus!

verus! {

/// The prefix sums of list element sizes reach the total.
pub proof fn lemma_prefix_size_list_total(es: Seq<ValueSpec>)
    ensures
        prefix_size_list(es, es.len() as int) == size_of_list(es),
    decreases es.len(),
{
    if es.len() > 0 {
        lemma_prefix_size_list_total(es.drop_last());
        assert(size_of_list(es) == size_of_list(es.drop_last()) + size_of(es.last()));
        assert(prefix_size_list(es, es.len() as int) == prefix_size_list(es, es.len() - 1)
            + size_of(es[es.len() - 1]));
        lemma_prefix_size_list_agree(es, es.len() - 1);
        assert forall|n: int| 0 <= n < es.len() implies prefix_size_list(es.drop_last(), n)
            == prefix_size_list(es, n) by {
            lemma_prefix_size_list_agree(es, n);
        }
    }
}

/// A prefix sum over `es` ignores the dropped last element.
proof fn lemma_prefix_size_list_agree(es: Seq<ValueSpec>, n: int)
    requires
        0 <= n < es.len(),
    ensures
        prefix_size_list(es.drop_last(), n) == prefix_size_list(es, n),
    decreases n,
{
    if n > 0 {
        lemma_prefix_size_list_agree(es, n - 1);
        assert(es.drop_last()[n - 1] == es[n - 1]);
    }
}

/// Prefix sums of element sizes are monotone.
pub proof fn lemma_prefix_size_list_mono(es: Seq<ValueSpec>, m: int, n: int)
    requires
        0 <= m <= n <= es.len(),
    ensures
        prefix_size_list(es, m) <= prefix_size_list(es, n),
    decreases n - m,
{
    if n > m {
        lemma_prefix_size_list_mono(es, m, n - 1);
    }
}

/// The prefix sums of entry value sizes reach the total.
pub proof fn lemma_prefix_size_entries_total(es: Seq<(u64, ValueSpec)>)
    ensures
        prefix_size_entries(es, es.len() as int) == size_of_entries(es),
    decreases es.len(),
{
    if es.len() > 0 {
        lemma_prefix_size_entries_total(es.drop_last());
        assert(size_of_entries(es) == size_of_entries(es.drop_last()) + size_of(es.last().1));
        assert(prefix_size_entries(es, es.len() as int) == prefix_size_entries(es, es.len() - 1)
            + size_of(es[es.len() - 1].1));
        lemma_prefix_size_entries_agree(es, es.len() - 1);
        assert forall|n: int| 0 <= n < es.len() implies prefix_size_entries(es.drop_last(), n)
            == prefix_size_entries(es, n) by {
            lemma_prefix_size_entries_agree(es, n);
        }
    }
}

/// A prefix sum over entries ignores the dropped last entry.
proof fn lemma_prefix_size_entries_agree(es: Seq<(u64, ValueSpec)>, n: int)
    requires
        0 <= n < es.len(),
    ensures
        prefix_size_entries(es.drop_last(), n) == prefix_size_entries(es, n),
    decreases n,
{
    if n > 0 {
        lemma_prefix_size_entries_agree(es, n - 1);
        assert(es.drop_last()[n - 1] == es[n - 1]);
    }
}

/// Prefix sums of entry value sizes are monotone.
pub proof fn lemma_prefix_size_entries_mono(es: Seq<(u64, ValueSpec)>, m: int, n: int)
    requires
        0 <= m <= n <= es.len(),
    ensures
        prefix_size_entries(es, m) <= prefix_size_entries(es, n),
    decreases n - m,
{
    if n > m {
        lemma_prefix_size_entries_mono(es, m, n - 1);
    }
}

} // verus!

verus! {

/// No value occurs twice.
pub open spec fn no_dup(hs: Seq<u64>) -> bool {
    forall|i: int, j: int| 0 <= i < j < hs.len() ==> hs[i] != hs[j]
}

/// Every hash leaf and map key of `v` is in `hs`.
pub open spec fn hashes_present(hs: Seq<u64>, v: ValueSpec) -> bool
    decreases v, 0nat,
{
    match v {
        ValueSpec::Hash(h) => hs.contains(h),
        ValueSpec::List(es) => hashes_present_list(hs, es),
        ValueSpec::Dict(es) => hashes_present_entries(hs, es),
        _ => true,
    }
}

/// [`hashes_present`] over list elements.
pub open spec fn hashes_present_list(hs: Seq<u64>, es: Seq<ValueSpec>) -> bool
    decreases es, 1nat,
{
    if es.len() == 0 {
        true
    } else {
        hashes_present_list(hs, es.drop_last()) && hashes_present(hs, es.last())
    }
}

/// [`hashes_present`] over map entries: each key is in `hs` too.
pub open spec fn hashes_present_entries(hs: Seq<u64>, es: Seq<(u64, ValueSpec)>) -> bool
    decreases es, 1nat,
{
    if es.len() == 0 {
        true
    } else {
        hashes_present_entries(hs, es.drop_last()) && hs.contains(es.last().0)
            && hashes_present(hs, es.last().1)
    }
}

/// Every string of `v` is a key of `strs`.
pub open spec fn strings_present(strs: Map<Seq<char>, nat>, v: ValueSpec) -> bool
    decreases v, 0nat,
{
    match v {
        ValueSpec::String(s) => strs.dom().contains(s),
        ValueSpec::List(es) => strings_present_list(strs, es),
        ValueSpec::Dict(es) => strings_present_entries(strs, es),
        _ => true,
    }
}

/// [`strings_present`] over list elements.
pub open spec fn strings_present_list(strs: Map<Seq<char>, nat>, es: Seq<ValueSpec>) -> bool
    decreases es, 1nat,
{
    if es.len() == 0 {
        true
    } else {
        strings_present_list(strs, es.drop_last()) && strings_present(strs, es.last())
    }
}

/// [`strings_present`] over map entry values.
pub open spec fn strings_present_entries(
    strs: Map<Seq<char>, nat>,
    es: Seq<(u64, ValueSpec)>,
) -> bool
    decreases es, 1nat,
{
    if es.len() == 0 {
        true
    } else {
        strings_present_entries(strs, es.drop_last()) && strings_present(strs, es.last().1)
    }
}

/// Every map fingerprint of `v` is a key of `fps`.
pub open spec fn fps_present(fps: Map<Seq<(u64, nat)>, nat>, v: ValueSpec) -> bool
    decreases v, 0nat,
{
    match v {
        ValueSpec::List(es) => fps_present_list(fps, es),
        ValueSpec::Dict(es) => fps.dom().contains(fingerprint(es)) && fps_present_entries(
            fps,
            es,
        ),
        _ => true,
    }
}

/// [`fps_present`] over list elements.
pub open spec fn fps_present_list(fps: Map<Seq<(u64, nat)>, nat>, es: Seq<ValueSpec>) -> bool
    decreases es, 1nat,
{
    if es.len() == 0 {
        true
    } else {
        fps_present_list(fps, es.drop_last()) && fps_present(fps, es.last())
    }
}

/// [`fps_present`] over map entry values.
pub open spec fn fps_present_entries(
    fps: Map<Seq<(u64, nat)>, nat>,
    es: Seq<(u64, ValueSpec)>,
) -> bool
    decreases es, 1nat,
{
    if es.len() == 0 {
        true
    } else {
        fps_present_entries(fps, es.drop_last()) && fps_present(fps, es.last().1)
    }
}

/// Hash collection only appends: what `hs` holds stays, in place, and no
/// duplicate is ever created.
pub proof fn lemma_collect_hashes_extends(hs: Seq<u64>, v: ValueSpec)
    ensures
        hs.is_prefix_of(collect_hashes(hs, v)),
        no_dup(hs) ==> no_dup(collect_hashes(hs, v)),
    decreases v, 0nat,
{
    match v {
        ValueSpec::Hash(h) => {
            lemma_push_unique(hs, h);
        },
        ValueSpec::List(es) => {
            lemma_collect_hashes_extends_list(hs, es);
        },
        ValueSpec::Dict(es) => {
            lemma_collect_hashes_extends_entries(hs, es);
        },
        _ => {},
    }
}

/// [`push_unique`] keeps the old table as a prefix and never duplicates.
pub proof fn lemma_push_unique(hs: Seq<u64>, h: u64)
    ensures
        hs.is_prefix_of(push_unique(hs, h)),
        no_dup(hs) ==> no_dup(push_unique(hs, h)),
        push_unique(hs, h).contains(h),
{
    if !hs.contains(h) {
        assert(hs.is_prefix_of(hs.push(h))) by {
            assert(hs =~= hs.push(h).subrange(0, hs.len() as int));
        }
        assert(hs.push(h)[hs.len() as int] == h);
        if no_dup(hs) {
            assert forall|i: int, j: int|
                0 <= i < j < hs.push(h).len() implies hs.push(h)[i] != hs.push(h)[j] by {
                if j < hs.len() {
                } else {
                    assert(hs.push(h)[i] == hs[i]);
                    assert(!hs.contains(h));
                    assert(hs[i] != h);
                }
            }
        }
    } else {
        assert(hs.is_prefix_of(hs)) by {
            assert(hs =~= hs.subrange(0, hs.len() as int));
        }
    }
}

proof fn lemma_collect_hashes_extends_list(hs: Seq<u64>, es: Seq<ValueSpec>)
    ensures
        hs.is_prefix_of(collect_hashes_list(hs, es)),
        no_dup(hs) ==> no_dup(collect_hashes_list(hs, es)),
    decreases es, 1nat,
{
    if es.len() > 0 {
        lemma_collect_hashes_extends_list(hs, es.drop_last());
        lemma_collect_hashes_extends(collect_hashes_list(hs, es.drop_last()), es.last());
        lemma_prefix_trans(
            hs,
            collect_hashes_list(hs, es.drop_last()),
            collect_hashes_list(hs, es),
        );
    } else {
        assert(hs =~= hs.subrange(0, hs.len() as int));
    }
}

proof fn lemma_collect_hashes_extends_entries(hs: Seq<u64>, es: Seq<(u64, ValueSpec)>)
    ensures
        hs.is_prefix_of(collect_hashes_entries(hs, es)),
        no_dup(hs) ==> no_dup(collect_hashes_entries(hs, es)),
    decreases es, 1nat,
{
    if es.len() > 0 {
        let prev = collect_hashes_entries(hs, es.drop_last());
        lemma_collect_hashes_extends_entries(hs, es.drop_last());
        lemma_push_unique(prev, es.last().0);
        lemma_collect_hashes_extends(push_unique(prev, es.last().0), es.last().1);
        lemma_prefix_trans(hs, prev, push_unique(prev, es.last().0));
        lemma_prefix_trans(hs, push_unique(prev, es.last().0), collect_hashes_entries(hs, es));
    } else {
        assert(hs =~= hs.subrange(0, hs.len() as int));
    }
}

/// Prefix-of is transitive.
pub proof fn lemma_prefix_trans(a: Seq<u64>, b: Seq<u64>, c: Seq<u64>)
    requires
        a.is_prefix_of(b),
        b.is_prefix_of(c),
    ensures
        a.is_prefix_of(c),
{
    assert(a =~= c.subrange(0, a.len() as int));
}

} // verus!

verus! {

/// A prefix's elements are elements of the whole.
pub proof fn lemma_contains_prefix(a: Seq<u64>, b: Seq<u64>, h: u64)
    requires
        a.is_prefix_of(b),
        a.contains(h),
    ensures
        b.contains(h),
{
    let i = choose|i: int| 0 <= i < a.len() && a[i] == h;
    assert(b[i] == h);
}

/// Presence of hashes survives extension of the table.
pub proof fn lemma_hashes_present_mono(hs: Seq<u64>, hs2: Seq<u64>, v: ValueSpec)
    requires
        hs.is_prefix_of(hs2),
        hashes_present(hs, v),
    ensures
        hashes_present(hs2, v),
    decreases v, 0nat,
{
    match v {
        ValueSpec::Hash(h) => {
            lemma_contains_prefix(hs, hs2, h);
        },
        ValueSpec::List(es) => {
            lemma_hashes_present_mono_list(hs, hs2, es);
        },
        ValueSpec::Dict(es) => {
            lemma_hashes_present_mono_entries(hs, hs2, es);
        },
        _ => {},
    }
}

proof fn lemma_hashes_present_mono_list(hs: Seq<u64>, hs2: Seq<u64>, es: Seq<ValueSpec>)
    requires
        hs.is_prefix_of(hs2),
        hashes_present_list(hs, es),
    ensures
        hashes_present_list(hs2, es),
    decreases es, 1nat,
{
    if es.len() > 0 {
        lemma_hashes_present_mono_list(hs, hs2, es.drop_last());
        lemma_hashes_present_mono(hs, hs2, es.last());
    }
}

proof fn lemma_hashes_present_mono_entries(hs: Seq<u64>, hs2: Seq<u64>, es: Seq<(u64, ValueSpec)>)
    requires
        hs.is_prefix_of(hs2),
        hashes_present_entries(hs, es),
    ensures
        hashes_present_entries(hs2, es),
    decreases es, 1nat,
{
    if es.len() > 0 {
        lemma_hashes_present_mono_entries(hs, hs2, es.drop_last());
        lemma_contains_prefix(hs, hs2, es.last().0);
        lemma_hashes_present_mono(hs, hs2, es.last().1);
    }
}

/// After hash collection over `v`, every hash of `v` is in the table.
pub proof fn lemma_collect_hashes_complete(hs: Seq<u64>, v: ValueSpec)
    ensures
        hashes_present(collect_hashes(hs, v), v),
    decreases v, 0nat,
{
    match v {
        ValueSpec::Hash(h) => {
            lemma_push_unique(hs, h);
        },
        ValueSpec::List(es) => {
            lemma_collect_hashes_complete_list(hs, es);
        },
        ValueSpec::Dict(es) => {
            lemma_collect_hashes_complete_entries(hs, es);
        },
        _ => {},
    }
}

proof fn lemma_collect_hashes_complete_list(hs: Seq<u64>, es: Seq<ValueSpec>)
    ensures
        hashes_present_list(collect_hashes_list(hs, es), es),
    decreases es, 1nat,
{
    if es.len() > 0 {
        let prev = collect_hashes_list(hs, es.drop_last());
        lemma_collect_hashes_complete_list(hs, es.drop_last());
        lemma_collect_hashes_extends(prev, es.last());
        lemma_hashes_present_mono_list(prev, collect_hashes_list(hs, es), es.drop_last());
        lemma_collect_hashes_complete(prev, es.last());
    }
}

proof fn lemma_collect_hashes_complete_entries(hs: Seq<u64>, es: Seq<(u64, ValueSpec)>)
    ensures
        hashes_present_entries(collect_hashes_entries(hs, es), es),
    decreases es, 1nat,
{
    if es.len() > 0 {
        let prev = collect_hashes_entries(hs, es.drop_last());
        let pushed = push_unique(prev, es.last().0);
        let fin = collect_hashes_entries(hs, es);
        lemma_collect_hashes_complete_entries(hs, es.drop_last());
        lemma_push_unique(prev, es.last().0);
        lemma_collect_hashes_extends(pushed, es.last().1);
        lemma_prefix_trans(prev, pushed, fin);
        lemma_hashes_present_mono_entries(prev, fin, es.drop_last());
        lemma_contains_prefix(pushed, fin, es.last().0);
        lemma_collect_hashes_complete(pushed, es.last().1);
    }
}

} // verus!

verus! {

/// The table-building passes only add: the blob grows at its end and no
/// recorded offset changes.
pub open spec fn tables_extend(t1: RefTables, t2: RefTables) -> bool {
    &&& t1.blob.is_prefix_of(t2.blob)
    &&& forall|s: Seq<char>|
        #[trigger] t1.strs.dom().contains(s) ==> t2.strs.dom().contains(s) && t2.strs[s]
            == t1.strs[s]
    &&& forall|f: Seq<(u64, nat)>|
        #[trigger] t1.fps.dom().contains(f) ==> t2.fps.dom().contains(f) && t2.fps[f] == t1.fps[f]
}

/// Extension is reflexive.
pub proof fn lemma_tables_extend_refl(t: RefTables)
    ensures
        tables_extend(t, t),
{
    assert(t.blob =~= t.blob.subrange(0, t.blob.len() as int));
}

/// Extension is transitive.
pub proof fn lemma_tables_extend_trans(t1: RefTables, t2: RefTables, t3: RefTables)
    requires
        tables_extend(t1, t2),
        tables_extend(t2, t3),
    ensures
        tables_extend(t1, t3),
{
    assert(t1.blob =~= t3.blob.subrange(0, t1.blob.len() as int));
    assert forall|s: Seq<char>|
        #[trigger] t1.strs.dom().contains(s) implies t3.strs.dom().contains(s) && t3.strs[s]
        == t1.strs[s] by {
        assert(t2.strs.dom().contains(s) && t2.strs[s] == t1.strs[s]);
    }
    assert forall|f: Seq<(u64, nat)>|
        #[trigger] t1.fps.dom().contains(f) implies t3.fps.dom().contains(f) && t3.fps[f]
        == t1.fps[f] by {
        assert(t2.fps.dom().contains(f) && t2.fps[f] == t1.fps[f]);
    }
}

/// Registering one string extends the tables.
pub proof fn lemma_add_string_extends(t: RefTables, s: Seq<char>)
    ensures
        tables_extend(t, add_string(t, s)),
        add_string(t, s).strs.dom().contains(s),
{
    lemma_tables_extend_refl(t);
    if !t.strs.dom().contains(s) {
        assert(t.blob =~= add_string(t, s).blob.subrange(0, t.blob.len() as int));
    }
}

/// Registering one header extends the tables.
pub proof fn lemma_add_struct_extends(hs: Seq<u64>, t: RefTables, fp: Seq<(u64, nat)>)
    ensures
        tables_extend(t, add_struct(hs, t, fp)),
        add_struct(hs, t, fp).fps.dom().contains(fp),
{
    lemma_tables_extend_refl(t);
    if !t.fps.dom().contains(fp) {
        assert(t.blob =~= add_struct(hs, t, fp).blob.subrange(0, t.blob.len() as int));
    }
}

/// The string pass extends the tables.
pub proof fn lemma_visit_strings_extends(t: RefTables, v: ValueSpec)
    ensures
        tables_extend(t, visit_strings(t, v)),
    decreases v, 0nat,
{
    match v {
        ValueSpec::String(s) => {
            lemma_add_string_extends(t, s);
        },
        ValueSpec::List(es) => {
            lemma_visit_strings_extends_list(t, es);
        },
        ValueSpec::Dict(es) => {
            lemma_visit_strings_extends_entries(t, es);
        },
        _ => {
            lemma_tables_extend_refl(t);
        },
    }
}

proof fn lemma_visit_strings_extends_list(t: RefTables, es: Seq<ValueSpec>)
    ensures
        tables_extend(t, visit_strings_list(t, es)),
    decreases es, 1nat,
{
    if es.len() > 0 {
        let prev = visit_strings_list(t, es.drop_last());
        lemma_visit_strings_extends_list(t, es.drop_last());
        lemma_visit_strings_extends(prev, es.last());
        lemma_tables_extend_trans(t, prev, visit_strings_list(t, es));
    } else {
        lemma_tables_extend_refl(t);
    }
}

proof fn lemma_visit_strings_extends_entries(t: RefTables, es: Seq<(u64, ValueSpec)>)
    ensures
        tables_extend(t, visit_strings_entries(t, es)),
    decreases es, 1nat,
{
    if es.len() > 0 {
        let prev = visit_strings_entries(t, es.drop_last());
        lemma_visit_strings_extends_entries(t, es.drop_last());
        lemma_visit_strings_extends(prev, es.last().1);
        lemma_tables_extend_trans(t, prev, visit_strings_entries(t, es));
    } else {
        lemma_tables_extend_refl(t);
    }
}

/// The header pass extends the tables.
pub proof fn lemma_visit_structs_extends(hs: Seq<u64>, t: RefTables, v: ValueSpec)
    ensures
        tables_extend(t, visit_structs(hs, t, v)),
    decreases v, 0nat,
{
    match v {
        ValueSpec::List(es) => {
            lemma_visit_structs_extends_list(hs, t, es);
        },
        ValueSpec::Dict(es) => {
            let t1 = add_struct(hs, t, fingerprint(es));
            lemma_add_struct_extends(hs, t, fingerprint(es));
            lemma_visit_structs_extends_entries(hs, t1, es);
            lemma_tables_extend_trans(t, t1, visit_structs_entries(hs, t1, es));
        },
        _ => {
            lemma_tables_extend_refl(t);
        },
    }
}

proof fn lemma_visit_structs_extends_list(hs: Seq<u64>, t: RefTables, es: Seq<ValueSpec>)
    ensures
        tables_extend(t, visit_structs_list(hs, t, es)),
    decreases es, 1nat,
{
    if es.len() > 0 {
        let prev = visit_structs_list(hs, t, es.drop_last());
        lemma_visit_structs_extends_list(hs, t, es.drop_last());
        lemma_visit_structs_extends(hs, prev, es.last());
        lemma_tables_extend_trans(t, prev, visit_structs_list(hs, t, es));
    } else {
        lemma_tables_extend_refl(t);
    }
}

proof fn lemma_visit_structs_extends_entries(hs: Seq<u64>, t: RefTables, es: Seq<(u64, ValueSpec)>)
    ensures
        tables_extend(t, visit_structs_entries(hs, t, es)),
    decreases es, 1nat,
{
    if es.len() > 0 {
        let prev = visit_structs_entries(hs, t, es.drop_last());
        lemma_visit_structs_extends_entries(hs, t, es.drop_last());
        lemma_visit_structs_extends(hs, prev, es.last().1);
        lemma_tables_extend_trans(t, prev, visit_structs_entries(hs, t, es));
    } else {
        lemma_tables_extend_refl(t);
    }
}

/// Presence of strings survives extension of the tables.
pub proof fn lemma_strings_present_mono(t1: RefTables, t2: RefTables, v: ValueSpec)
    requires
        tables_extend(t1, t2),
        strings_present(t1.strs, v),
    ensures
        strings_present(t2.strs, v),
    decreases v, 0nat,
{
    match v {
        ValueSpec::List(es) => {
            lemma_strings_present_mono_list(t1, t2, es);
        },
        ValueSpec::Dict(es) => {
            lemma_strings_present_mono_entries(t1, t2, es);
        },
        _ => {},
    }
}

proof fn lemma_strings_present_mono_list(t1: RefTables, t2: RefTables, es: Seq<ValueSpec>)
    requires
        tables_extend(t1, t2),
        strings_present_list(t1.strs, es),
    ensures
        strings_present_list(t2.strs, es),
    decreases es, 1nat,
{
    if es.len() > 0 {
        lemma_strings_present_mono_list(t1, t2, es.drop_last());
        lemma_strings_present_mono(t1, t2, es.last());
    }
}

proof fn lemma_strings_present_mono_entries(t1: RefTables, t2: RefTables, es: Seq<(u64, ValueSpec)>)
    requires
        tables_extend(t1, t2),
        strings_present_entries(t1.strs, es),
    ensures
        strings_present_entries(t2.strs, es),
    decreases es, 1nat,
{
    if es.len() > 0 {
        lemma_strings_present_mono_entries(t1, t2, es.drop_last());
        lemma_strings_present_mono(t1, t2, es.last().1);
    }
}

/// After the string pass over `v`, every string of `v` is registered.
pub proof fn lemma_visit_strings_complete(t: RefTables, v: ValueSpec)
    ensures
        strings_present(visit_strings(t, v).strs, v),
    decreases v, 0nat,
{
    match v {
        ValueSpec::String(s) => {
            lemma_add_string_extends(t, s);
        },
        ValueSpec::List(es) => {
            lemma_visit_strings_complete_list(t, es);
        },
        ValueSpec::Dict(es) => {
            lemma_visit_strings_complete_entries(t, es);
        },
        _ => {},
    }
}

proof fn lemma_visit_strings_complete_list(t: RefTables, es: Seq<ValueSpec>)
    ensures
        strings_present_list(visit_strings_list(t, es).strs, es),
    decreases es, 1nat,
{
    if es.len() > 0 {
        let prev = visit_strings_list(t, es.drop_last());
        lemma_visit_strings_complete_list(t, es.drop_last());
        lemma_visit_strings_extends(prev, es.last());
        lemma_strings_present_mono_list(prev, visit_strings_list(t, es), es.drop_last());
        lemma_visit_strings_complete(prev, es.last());
    }
}

proof fn lemma_visit_strings_complete_entries(t: RefTables, es: Seq<(u64, ValueSpec)>)
    ensures
        strings_present_entries(visit_strings_entries(t, es).strs, es),
    decreases es, 1nat,
{
    if es.len() > 0 {
        let prev = visit_strings_entries(t, es.drop_last());
        lemma_visit_strings_complete_entries(t, es.drop_last());
        lemma_visit_strings_extends(prev, es.last().1);
        lemma_strings_present_mono_entries(prev, visit_strings_entries(t, es), es.drop_last());
        lemma_visit_strings_complete(prev, es.last().1);
    }
}

/// Presence of fingerprints survives extension of the tables.
pub proof fn lemma_fps_present_mono(t1: RefTables, t2: RefTables, v: ValueSpec)
    requires
        tables_extend(t1, t2),
        fps_present(t1.fps, v),
    ensures
        fps_present(t2.fps, v),
    decreases v, 0nat,
{
    match v {
        ValueSpec::List(es) => {
            lemma_fps_present_mono_list(t1, t2, es);
        },
        ValueSpec::Dict(es) => {
            lemma_fps_present_mono_entries(t1, t2, es);
        },
        _ => {},
    }
}

proof fn lemma_fps_present_mono_list(t1: RefTables, t2: RefTables, es: Seq<ValueSpec>)
    requires
        tables_extend(t1, t2),
        fps_present_list(t1.fps, es),
    ensures
        fps_present_list(t2.fps, es),
    decreases es, 1nat,
{
    if es.len() > 0 {
        lemma_fps_present_mono_list(t1, t2, es.drop_last());
        lemma_fps_present_mono(t1, t2, es.last());
    }
}

proof fn lemma_fps_present_mono_entries(t1: RefTables, t2: RefTables, es: Seq<(u64, ValueSpec)>)
    requires
        tables_extend(t1, t2),
        fps_present_entries(t1.fps, es),
    ensures
        fps_present_entries(t2.fps, es),
    decreases es, 1nat,
{
    if es.len() > 0 {
        lemma_fps_present_mono_entries(t1, t2, es.drop_last());
        lemma_fps_present_mono(t1, t2, es.last().1);
    }
}

/// After the header pass over `v`, every map fingerprint of `v` is
/// registered.
pub proof fn lemma_visit_structs_complete(hs: Seq<u64>, t: RefTables, v: ValueSpec)
    ensures
        fps_present(visit_structs(hs, t, v).fps, v),
    decreases v, 0nat,
{
    match v {
        ValueSpec::List(es) => {
            lemma_visit_structs_complete_list(hs, t, es);
        },
        ValueSpec::Dict(es) => {
            let t1 = add_struct(hs, t, fingerprint(es));
            lemma_add_struct_extends(hs, t, fingerprint(es));
            lemma_visit_structs_extends_entries(hs, t1, es);
            lemma_visit_structs_complete_entries(hs, t1, es);
            assert(visit_structs_entries(hs, t1, es).fps.dom().contains(fingerprint(es)));
        },
        _ => {},
    }
}

proof fn lemma_visit_structs_complete_list(hs: Seq<u64>, t: RefTables, es: Seq<ValueSpec>)
    ensures
        fps_present_list(visit_structs_list(hs, t, es).fps, es),
    decreases es, 1nat,
{
    if es.len() > 0 {
        let prev = visit_structs_list(hs, t, es.drop_last());
        lemma_visit_structs_complete_list(hs, t, es.drop_last());
        lemma_visit_structs_extends(hs, prev, es.last());
        lemma_fps_present_mono_list(prev, visit_structs_list(hs, t, es), es.drop_last());
        lemma_visit_structs_complete(hs, prev, es.last());
    }
}

proof fn lemma_visit_structs_complete_entries(hs: Seq<u64>, t: RefTables, es: Seq<(u64, ValueSpec)>)
    ensures
        fps_present_entries(visit_structs_entries(hs, t, es).fps, es),
    decreases es, 1nat,
{
    if es.len() > 0 {
        let prev = visit_structs_entries(hs, t, es.drop_last());
        lemma_visit_structs_complete_entries(hs, t, es.drop_last());
        lemma_visit_structs_extends(hs, prev, es.last().1);
        lemma_fps_present_mono_entries(prev, visit_structs_entries(hs, t, es), es.drop_last());
        lemma_visit_structs_complete(hs, prev, es.last().1);
    }
}

/// The string pass never touches the header table, so fingerprints present
/// beforehand stay present (used when composing the two passes).
pub proof fn lemma_visit_strings_keeps_fps(t: RefTables, v: ValueSpec)
    ensures
        visit_strings(t, v).fps == t.fps,
    decreases v, 0nat,
{
    match v {
        ValueSpec::List(es) => {
            lemma_visit_strings_keeps_fps_list(t, es);
        },
        ValueSpec::Dict(es) => {
            lemma_visit_strings_keeps_fps_entries(t, es);
        },
        _ => {},
    }
}

proof fn lemma_visit_strings_keeps_fps_list(t: RefTables, es: Seq<ValueSpec>)
    ensures
        visit_strings_list(t, es).fps == t.fps,
    decreases es, 1nat,
{
    if es.len() > 0 {
        lemma_visit_strings_keeps_fps_list(t, es.drop_last());
        lemma_visit_strings_keeps_fps(visit_strings_list(t, es.drop_last()), es.last());
    }
}

proof fn lemma_visit_strings_keeps_fps_entries(t: RefTables, es: Seq<(u64, ValueSpec)>)
    ensures
        visit_strings_entries(t, es).fps == t.fps,
    decreases es, 1nat,
{
    if es.len() > 0 {
        lemma_visit_strings_keeps_fps_entries(t, es.drop_last());
        lemma_visit_strings_keeps_fps(visit_strings_entries(t, es.drop_last()), es.last().1);
    }
}

/// The header pass never touches the string table.
pub proof fn lemma_visit_structs_keeps_strs(hs: Seq<u64>, t: RefTables, v: ValueSpec)
    ensures
        visit_structs(hs, t, v).strs == t.strs,
    decreases v, 0nat,
{
    match v {
        ValueSpec::List(es) => {
            lemma_visit_structs_keeps_strs_list(hs, t, es);
        },
        ValueSpec::Dict(es) => {
            lemma_visit_structs_keeps_strs_entries(hs, add_struct(hs, t, fingerprint(es)), es);
        },
        _ => {},
    }
}

proof fn lemma_visit_structs_keeps_strs_list(hs: Seq<u64>, t: RefTables, es: Seq<ValueSpec>)
    ensures
        visit_structs_list(hs, t, es).strs == t.strs,
    decreases es, 1nat,
{
    if es.len() > 0 {
        lemma_visit_structs_keeps_strs_list(hs, t, es.drop_last());
        lemma_visit_structs_keeps_strs(hs, visit_structs_list(hs, t, es.drop_last()), es.last());
    }
}

proof fn lemma_visit_structs_keeps_strs_entries(hs: Seq<u64>, t: RefTables, es: Seq<(u64, ValueSpec)>)
    ensures
        visit_structs_entries(hs, t, es).strs == t.strs,
    decreases es, 1nat,
{
    if es.len() > 0 {
        lemma_visit_structs_keeps_strs_entries(hs, t, es.drop_last());
        lemma_visit_structs_keeps_strs(
            hs,
            visit_structs_entries(hs, t, es.drop_last()),
            es.last().1,
        );
    }
}

} // verus!

verus! {

/// In a duplicate-free table, any position holding `h` is the first one.
pub proof fn lemma_first_index_of_unique(hs: Seq<u64>, h: u64, i: int)
    requires
        no_dup(hs),
        0 <= i < hs.len(),
        hs[i] == h,
    ensures
        first_index_of(hs, h) == i,
    decreases hs.len(),
{
    if i > 0 {
        assert(hs[0] != h);
        assert(hs.drop_first()[i - 1] == h);
        assert(no_dup(hs.drop_first())) by {
            assert(forall|a: int, b: int|
                0 <= a < b < hs.drop_first().len() ==> hs.drop_first()[a] == hs[a + 1]
                    && hs.drop_first()[b] == hs[b + 1]);
        }
        lemma_first_index_of_unique(hs.drop_first(), h, i - 1);
    }
}

} // verus!

verus! {

/// Pointwise reading of [`hashes_present_list`].
pub proof fn lemma_hp_list_pointwise(hs: Seq<u64>, es: Seq<ValueSpec>)
    requires
        hashes_present_list(hs, es),
    ensures
        forall|i: int| 0 <= i < es.len() ==> hashes_present(hs, #[trigger] es[i]),
    decreases es.len(),
{
    if es.len() > 0 {
        lemma_hp_list_pointwise(hs, es.drop_last());
        assert forall|i: int| 0 <= i < es.len() implies hashes_present(hs, #[trigger] es[i]) by {
            if i < es.len() - 1 {
                assert(es.drop_last()[i] == es[i]);
            }
        }
    }
}

/// Pointwise reading of [`hashes_present_entries`].
pub proof fn lemma_hp_entries_pointwise(hs: Seq<u64>, es: Seq<(u64, ValueSpec)>)
    requires
        hashes_present_entries(hs, es),
    ensures
        forall|i: int|
            0 <= i < es.len() ==> hs.contains(#[trigger] es[i].0) && hashes_present(hs, es[i].1),
    decreases es.len(),
{
    if es.len() > 0 {
        lemma_hp_entries_pointwise(hs, es.drop_last());
        assert forall|i: int|
            0 <= i < es.len() implies hs.contains(#[trigger] es[i].0) && hashes_present(
            hs,
            es[i].1,
        ) by {
            if i < es.len() - 1 {
                assert(es.drop_last()[i] == es[i]);
            }
        }
    }
}

/// Pointwise reading of [`strings_present_list`].
pub proof fn lemma_sp_list_pointwise(strs: Map<Seq<char>, nat>, es: Seq<ValueSpec>)
    requires
        strings_present_list(strs, es),
    ensures
        forall|i: int| 0 <= i < es.len() ==> strings_present(strs, #[trigger] es[i]),
    decreases es.len(),
{
    if es.len() > 0 {
        lemma_sp_list_pointwise(strs, es.drop_last());
        assert forall|i: int| 0 <= i < es.len() implies strings_present(strs, #[trigger] es[i]) by {
            if i < es.len() - 1 {
                assert(es.drop_last()[i] == es[i]);
            }
        }
    }
}

/// Pointwise reading of [`strings_present_entries`].
pub proof fn lemma_sp_entries_pointwise(strs: Map<Seq<char>, nat>, es: Seq<(u64, ValueSpec)>)
    requires
        strings_present_entries(strs, es),
    ensures
        forall|i: int| 0 <= i < es.len() ==> strings_present(strs, (#[trigger] es[i]).1),
    decreases es.len(),
{
    if es.len() > 0 {
        lemma_sp_entries_pointwise(strs, es.drop_last());
        assert forall|i: int|
            0 <= i < es.len() implies strings_present(strs, (#[trigger] es[i]).1) by {
            if i < es.len() - 1 {
                assert(es.drop_last()[i] == es[i]);
            }
        }
    }
}

/// Pointwise reading of [`fps_present_list`].
pub proof fn lemma_fpp_list_pointwise(fps: Map<Seq<(u64, nat)>, nat>, es: Seq<ValueSpec>)
    requires
        fps_present_list(fps, es),
    ensures
        forall|i: int| 0 <= i < es.len() ==> fps_present(fps, #[trigger] es[i]),
    decreases es.len(),
{
    if es.len() > 0 {
        lemma_fpp_list_pointwise(fps, es.drop_last());
        assert forall|i: int| 0 <= i < es.len() implies fps_present(fps, #[trigger] es[i]) by {
            if i < es.len() - 1 {
                assert(es.drop_last()[i] == es[i]);
            }
        }
    }
}

/// Pointwise reading of [`fps_present_entries`].
pub proof fn lemma_fpp_entries_pointwise(fps: Map<Seq<(u64, nat)>, nat>, es: Seq<(u64, ValueSpec)>)
    requires
        fps_present_entries(fps, es),
    ensures
        forall|i: int| 0 <= i < es.len() ==> fps_present(fps, (#[trigger] es[i]).1),
    decreases es.len(),
{
    if es.len() > 0 {
        lemma_fpp_entries_pointwise(fps, es.drop_last());
        assert forall|i: int| 0 <= i < es.len() implies fps_present(fps, (#[trigger] es[i]).1) by {
            if i < es.len() - 1 {
                assert(es.drop_last()[i] == es[i]);
            }
        }
    }
}

/// A fingerprint's prefix sums are the entry-size prefix sums.
pub proof fn lemma_fp_prefix_is_entries(es: Seq<(u64, ValueSpec)>, n: int)
    requires
        0 <= n <= es.len(),
    ensures
        fp_prefix_size(fingerprint(es), n) == prefix_size_entries(es, n),
    decreases n,
{
    if n > 0 {
        lemma_fp_prefix_is_entries(es, n - 1);
        assert(fingerprint(es)[n - 1] == (es[n - 1].0, size_of(es[n - 1].1)));
    }
}

} // verus!

verus! {

use crate::value::ascii_no_nul;

/// Every registered string's content, followed by a terminator, sits in the
/// blob at its recorded offset; contents are wire-encodable; distinct
/// strings live at distinct offsets.
pub open spec fn strs_valid(t: RefTables) -> bool {
    &&& forall|s: Seq<char>|
        #[trigger] t.strs.dom().contains(s) ==> t.strs[s] + s.len() + 1 <= t.blob.len()
            && t.blob.subrange(t.strs[s] as int, t.strs[s] + s.len() as int) == str_bytes(s) && t.blob[
            t.strs[s] + s.len() as int
        ] == 0 && ascii_no_nul(s)
    &&& forall|s1: Seq<char>, s2: Seq<char>|
        #[trigger] t.strs.dom().contains(s1) && #[trigger] t.strs.dom().contains(s2) && s1 != s2
            ==> t.strs[s1] != t.strs[s2]
}

/// The length of one header: eight bytes per slot.
pub proof fn lemma_header_bytes_len(hs: Seq<u64>, fp: Seq<(u64, nat)>)
    ensures
        header_bytes(hs, fp).len() == 8 * fp.len(),
    decreases fp,
{
    if fp.len() > 0 {
        lemma_header_bytes_len(hs, fp.drop_last());
        assert(header_bytes(hs, fp) == header_bytes(hs, fp.drop_last()) + spec_u32_to_le_bytes(
            first_index_of(hs, fp.last().0) as u32,
        ) + spec_u32_to_le_bytes((9 + fp_prefix_size(fp, fp.len() - 1)) as u32));
        vstd::bytes::lemma_auto_spec_u32_to_from_le_bytes();
    }
}

/// Every registered header sits in the blob at its recorded offset;
/// distinct non-empty fingerprints live at distinct offsets.
pub open spec fn fps_valid(hs: Seq<u64>, t: RefTables) -> bool {
    &&& forall|f: Seq<(u64, nat)>|
        #[trigger] t.fps.dom().contains(f) ==> t.fps[f] + 8 * f.len() <= t.blob.len()
            && t.blob.subrange(t.fps[f] as int, t.fps[f] + 8 * f.len() as int) == header_bytes(hs, f)
    &&& forall|f1: Seq<(u64, nat)>, f2: Seq<(u64, nat)>|
        #[trigger] t.fps.dom().contains(f1) && #[trigger] t.fps.dom().contains(f2) && f1 != f2
            && f1.len() > 0 && f2.len() > 0 ==> t.fps[f1] != t.fps[f2]
}

/// String validity survives appending to the blob without touching the
/// string table.
pub proof fn lemma_strs_valid_extend(t1: RefTables, t2: RefTables)
    requires
        strs_valid(t1),
        t1.blob.is_prefix_of(t2.blob),
        t2.strs == t1.strs,
    ensures
        strs_valid(t2),
{
    assert forall|s: Seq<char>|
        #[trigger] t2.strs.dom().contains(s) implies t2.strs[s] + s.len() + 1 <= t2.blob.len()
        && t2.blob.subrange(t2.strs[s] as int, t2.strs[s] + s.len() as int) == str_bytes(s) && t2.blob[
        t2.strs[s] + s.len() as int
    ] == 0 && ascii_no_nul(s) by {
        assert(t1.strs.dom().contains(s));
        assert(t2.blob.subrange(t2.strs[s] as int, t2.strs[s] + s.len() as int) =~= t1.blob.subrange(
            t1.strs[s] as int,
            t1.strs[s] + s.len() as int,
        ));
        assert(t2.blob[t2.strs[s] + s.len() as int] == t1.blob[t1.strs[s] + s.len() as int]);
    }
}

/// Header validity survives appending to the blob without touching the
/// header table.
pub proof fn lemma_fps_valid_extend(hs: Seq<u64>, t1: RefTables, t2: RefTables)
    requires
        fps_valid(hs, t1),
        t1.blob.is_prefix_of(t2.blob),
        t2.fps == t1.fps,
    ensures
        fps_valid(hs, t2),
{
    assert forall|f: Seq<(u64, nat)>|
        #[trigger] t2.fps.dom().contains(f) implies t2.fps[f] + 8 * f.len() <= t2.blob.len()
        && t2.blob.subrange(t2.fps[f] as int, t2.fps[f] + 8 * f.len() as int) == header_bytes(hs, f) by {
        assert(t1.fps.dom().contains(f));
        assert(t2.blob.subrange(t2.fps[f] as int, t2.fps[f] + 8 * f.len() as int) =~= t1.blob.subrange(
            t1.fps[f] as int,
            t1.fps[f] + 8 * f.len() as int,
        ));
    }
}

/// Registering the strings of a well-formed tree keeps the table valid.
pub proof fn lemma_visit_strings_valid(t: RefTables, v: ValueSpec)
    requires
        strs_valid(t),
        v.wf(),
    ensures
        strs_valid(visit_strings(t, v)),
    decreases v, 0nat,
{
    match v {
        ValueSpec::String(s) => {
            lemma_add_string_valid(t, s);
        },
        ValueSpec::List(es) => {
            crate::value::lemma_wf_list(es);
            lemma_visit_strings_valid_list(t, es);
        },
        ValueSpec::Dict(es) => {
            crate::value::lemma_wf_entries(es);
            lemma_visit_strings_valid_entries(t, es);
        },
        _ => {},
    }
}

/// Registering one wire-encodable string keeps the table valid.
pub proof fn lemma_add_string_valid(t: RefTables, s: Seq<char>)
    requires
        strs_valid(t),
        ascii_no_nul(s),
    ensures
        strs_valid(add_string(t, s)),
{
    if !t.strs.dom().contains(s) {
        let t2 = add_string(t, s);
        assert(t.blob.is_prefix_of(t2.blob)) by {
            assert(t.blob =~= t2.blob.subrange(0, t.blob.len() as int));
        }
        assert forall|x: Seq<char>|
            #[trigger] t2.strs.dom().contains(x) implies t2.strs[x] + x.len() + 1 <= t2.blob.len()
            && t2.blob.subrange(t2.strs[x] as int, t2.strs[x] + x.len() as int) == str_bytes(x) && t2.blob[
            t2.strs[x] + x.len() as int
        ] == 0 && ascii_no_nul(x) by {
            if x == s {
                assert(t2.strs[s] == t.blob.len());
                assert(t2.blob.subrange(t.blob.len() as int, t.blob.len() + s.len() as int)
                    =~= str_bytes(s));
                assert(t2.blob[t.blob.len() + s.len() as int] == 0);
            } else {
                assert(t.strs.dom().contains(x));
                assert(t2.blob.subrange(t2.strs[x] as int, t2.strs[x] + x.len() as int)
                    =~= t.blob.subrange(t.strs[x] as int, t.strs[x] + x.len() as int));
                assert(t2.blob[t2.strs[x] + x.len() as int] == t.blob[t.strs[x] + x.len() as int]);
            }
        }
        assert forall|s1: Seq<char>, s2: Seq<char>|
            #[trigger] t2.strs.dom().contains(s1) && #[trigger] t2.strs.dom().contains(s2) && s1
            != s2 implies t2.strs[s1] != t2.strs[s2] by {
            if s1 == s {
                assert(t.strs.dom().contains(s2));
                assert(t.strs[s2] + s2.len() + 1 <= t.blob.len());
            } else if s2 == s {
                assert(t.strs.dom().contains(s1));
                assert(t.strs[s1] + s1.len() + 1 <= t.blob.len());
            } else {
                assert(t.strs.dom().contains(s1) && t.strs.dom().contains(s2));
            }
        }
    }
}

proof fn lemma_visit_strings_valid_list(t: RefTables, es: Seq<ValueSpec>)
    requires
        strs_valid(t),
        crate::value::wf_list(es),
    ensures
        strs_valid(visit_strings_list(t, es)),
    decreases es, 1nat,
{
    if es.len() > 0 {
        lemma_visit_strings_valid_list(t, es.drop_last());
        assert(crate::value::wf_list(es) == (crate::value::wf_list(es.drop_last())
            && es.last().wf()));
        lemma_visit_strings_valid(visit_strings_list(t, es.drop_last()), es.last());
    }
}

proof fn lemma_visit_strings_valid_entries(t: RefTables, es: Seq<(u64, ValueSpec)>)
    requires
        strs_valid(t),
        crate::value::wf_entries(es),
    ensures
        strs_valid(visit_strings_entries(t, es)),
    decreases es, 1nat,
{
    if es.len() > 0 {
        lemma_visit_strings_valid_entries(t, es.drop_last());
        assert(crate::value::wf_entries(es) == (crate::value::wf_entries(es.drop_last())
            && es.last().1.wf()));
        lemma_visit_strings_valid(visit_strings_entries(t, es.drop_last()), es.last().1);
    }
}

/// Registering the headers of a tree keeps the header table valid.
pub proof fn lemma_visit_structs_valid(hs: Seq<u64>, t: RefTables, v: ValueSpec)
    requires
        fps_valid(hs, t),
    ensures
        fps_valid(hs, visit_structs(hs, t, v)),
    decreases v, 0nat,
{
    match v {
        ValueSpec::List(es) => {
            lemma_visit_structs_valid_list(hs, t, es);
        },
        ValueSpec::Dict(es) => {
            lemma_add_struct_valid(hs, t, fingerprint(es));
            lemma_visit_structs_valid_entries(hs, add_struct(hs, t, fingerprint(es)), es);
        },
        _ => {},
    }
}

/// Registering one header keeps the table valid.
pub proof fn lemma_add_struct_valid(hs: Seq<u64>, t: RefTables, fp: Seq<(u64, nat)>)
    requires
        fps_valid(hs, t),
    ensures
        fps_valid(hs, add_struct(hs, t, fp)),
{
    if !t.fps.dom().contains(fp) {
        let t2 = add_struct(hs, t, fp);
        lemma_header_bytes_len(hs, fp);
        assert forall|f: Seq<(u64, nat)>|
            #[trigger] t2.fps.dom().contains(f) implies t2.fps[f] + 8 * f.len() <= t2.blob.len()
            && t2.blob.subrange(t2.fps[f] as int, t2.fps[f] + 8 * f.len() as int) == header_bytes(
            hs,
            f,
        ) by {
            if f == fp {
                assert(t2.fps[fp] == t.blob.len());
                assert(t2.blob.subrange(t.blob.len() as int, t.blob.len() + 8 * fp.len() as int)
                    =~= header_bytes(hs, fp));
            } else {
                assert(t.fps.dom().contains(f));
                assert(t2.blob.subrange(t2.fps[f] as int, t2.fps[f] + 8 * f.len() as int)
                    =~= t.blob.subrange(t.fps[f] as int, t.fps[f] + 8 * f.len() as int));
            }
        }
        assert forall|f1: Seq<(u64, nat)>, f2: Seq<(u64, nat)>|
            #[trigger] t2.fps.dom().contains(f1) && #[trigger] t2.fps.dom().contains(f2) && f1
            != f2 && f1.len() > 0 && f2.len() > 0 implies t2.fps[f1] != t2.fps[f2] by {
            if f1 == fp {
                assert(t.fps.dom().contains(f2));
                assert(t.fps[f2] + 8 * f2.len() <= t.blob.len());
            } else if f2 == fp {
                assert(t.fps.dom().contains(f1));
                assert(t.fps[f1] + 8 * f1.len() <= t.blob.len());
            } else {
                assert(t.fps.dom().contains(f1) && t.fps.dom().contains(f2));
            }
        }
    }
}

proof fn lemma_visit_structs_valid_list(hs: Seq<u64>, t: RefTables, es: Seq<ValueSpec>)
    requires
        fps_valid(hs, t),
    ensures
        fps_valid(hs, visit_structs_list(hs, t, es)),
    decreases es, 1nat,
{
    if es.len() > 0 {
        lemma_visit_structs_valid_list(hs, t, es.drop_last());
        lemma_visit_structs_valid(hs, visit_structs_list(hs, t, es.drop_last()), es.last());
    }
}

proof fn lemma_visit_structs_valid_entries(hs: Seq<u64>, t: RefTables, es: Seq<(u64, ValueSpec)>)
    requires
        fps_valid(hs, t),
    ensures
        fps_valid(hs, visit_structs_entries(hs, t, es)),
    decreases es, 1nat,
{
    if es.len() > 0 {
        lemma_visit_structs_valid_entries(hs, t, es.drop_last());
        lemma_visit_structs_valid(hs, visit_structs_entries(hs, t, es.drop_last()), es.last().1);
    }
}

} // verus!

verus! {

/// All the invariants that hold of a finished document's tables.
pub open spec fn doc_tables_ok(v: ValueSpec) -> bool {
    let hs = doc_hashes(v);
    let t = doc_tables(v);
    &&& no_dup(hs)
    &&& hashes_present(hs, v)
    &&& strs_valid(t)
    &&& fps_valid(hs, t)
    &&& strings_present(t.strs, v)
    &&& fps_present(t.fps, v)
}

/// Deduplication law. In the reference tables of an encoded well-formed
/// tree: every distinct string content is registered at exactly one blob
/// offset, distinct contents at distinct offsets, with the content stored
/// once at that offset; every map shape (fingerprint) is registered at
/// exactly one offset, so all maps of one shape share one header; and every
/// string, map shape, and hash of the tree is registered, so all its
/// occurrences reference that one shared entry. The hash table likewise
/// holds no hash twice.
pub proof fn lemma_dedup(v: ValueSpec)
    requires
        v.wf(),
    ensures
        doc_tables_ok(v),
{
    let hs = doc_hashes(v);
    let t0 = RefTables { blob: Seq::empty(), strs: Map::empty(), fps: Map::empty() };
    let t1 = visit_strings(t0, v);
    lemma_collect_hashes_extends(Seq::empty(), v);
    lemma_collect_hashes_complete(Seq::empty(), v);
    lemma_visit_strings_valid(t0, v);
    lemma_visit_strings_complete(t0, v);
    lemma_visit_strings_keeps_fps(t0, v);
    assert(fps_valid(hs, t1));
    lemma_visit_structs_extends(hs, t1, v);
    lemma_visit_structs_keeps_strs(hs, t1, v);
    lemma_strs_valid_extend(t1, doc_tables(v));
    lemma_visit_structs_valid(hs, t1, v);
    lemma_strings_present_mono(t1, doc_tables(v), v);
    lemma_visit_structs_complete(hs, t1, v);
}

} // verus!

verus! {

/// The encoding of a value occupies exactly its computed size.
pub proof fn lemma_write_len(
    hs: Seq<u64>,
    strs: Map<Seq<char>, nat>,
    fps: Map<Seq<(u64, nat)>, nat>,
    v: ValueSpec,
)
    ensures
        write_value(hs, strs, fps, v).len() == size_of(v),
    decreases v, 0nat,
{
    vstd::bytes::lemma_auto_spec_u16_to_from_le_bytes();
    vstd::bytes::lemma_auto_spec_u32_to_from_le_bytes();
    match v {
        ValueSpec::List(es) => {
            lemma_write_list_len(hs, strs, fps, es);
            lemma_list_offset_bytes_len(es, es.len() as int);
        },
        ValueSpec::Dict(es) => {
            lemma_write_entries_len(hs, strs, fps, es);
        },
        _ => {},
    }
}

/// Concatenated list elements occupy the sum of their sizes.
pub proof fn lemma_write_list_len(
    hs: Seq<u64>,
    strs: Map<Seq<char>, nat>,
    fps: Map<Seq<(u64, nat)>, nat>,
    es: Seq<ValueSpec>,
)
    ensures
        write_list(hs, strs, fps, es).len() == size_of_list(es),
    decreases es, 1nat,
{
    if es.len() > 0 {
        lemma_write_list_len(hs, strs, fps, es.drop_last());
        lemma_write_len(hs, strs, fps, es.last());
    }
}

/// Concatenated entry values occupy the sum of their sizes.
pub proof fn lemma_write_entries_len(
    hs: Seq<u64>,
    strs: Map<Seq<char>, nat>,
    fps: Map<Seq<(u64, nat)>, nat>,
    es: Seq<(u64, ValueSpec)>,
)
    ensures
        write_entries(hs, strs, fps, es).len() == size_of_entries(es),
    decreases es, 1nat,
{
    if es.len() > 0 {
        lemma_write_entries_len(hs, strs, fps, es.drop_last());
        lemma_write_len(hs, strs, fps, es.last().1);
    }
}

/// A list's offset table occupies four bytes per element.
pub proof fn lemma_list_offset_bytes_len(es: Seq<ValueSpec>, n: int)
    ensures
        list_offset_bytes(es, n).len() == if 0 <= n <= es.len() {
            4 * n
        } else {
            0
        },
    decreases n,
{
    vstd::bytes::lemma_auto_spec_u32_to_from_le_bytes();
    if 0 < n <= es.len() {
        lemma_list_offset_bytes_len(es, n - 1);
    }
}

/// The hash-table region occupies eight bytes per hash.
pub proof fn lemma_hash_table_bytes_len(hs: Seq<u64>)
    ensures
        hash_table_bytes(hs).len() == 8 * hs.len(),
    decreases hs,
{
    if hs.len() > 0 {
        lemma_hash_table_bytes_len(hs.drop_last());
        assert(hash_table_bytes(hs) == hash_table_bytes(hs.drop_last()) + spec_u64_to_le_bytes(
            hs.last(),
        ));
        assert(spec_u64_to_le_bytes(hs.last()).len() == 8) by {
            vstd::bytes::lemma_auto_spec_u64_to_from_le_bytes();
        }
    }
}

/// The first occurrence of a present hash holds it.
pub proof fn lemma_first_index_of_present(hs: Seq<u64>, h: u64)
    requires
        hs.contains(h),
    ensures
        0 <= first_index_of(hs, h) < hs.len(),
        hs[first_index_of(hs, h)] == h,
    decreases hs.len(),
{
    if hs[0] != h {
        assert(hs.drop_first().contains(h)) by {
            let i = choose|i: int| 0 <= i < hs.len() && hs[i] == h;
            assert(hs.drop_first()[i - 1] == h);
        }
        lemma_first_index_of_present(hs.drop_first(), h);
    }
}

} // verus!

verus! {

/// Slot `k` of a list's offset table holds the distance to element `k`.
pub proof fn lemma_offset_table_slot(es: Seq<ValueSpec>, n: int, k: int)
    requires
        0 <= k < n <= es.len(),
    ensures
        list_offset_bytes(es, n).subrange(4 * k, 4 * k + 4) == spec_u32_to_le_bytes(
            (5 + 4 * es.len() + prefix_size_list(es, k)) as u32,
        ),
    decreases n,
{
    lemma_list_offset_bytes_len(es, n);
    lemma_list_offset_bytes_len(es, n - 1);
    vstd::bytes::lemma_auto_spec_u32_to_from_le_bytes();
    if k == n - 1 {
        assert(list_offset_bytes(es, n).subrange(4 * k, 4 * k + 4) =~= spec_u32_to_le_bytes(
            (5 + 4 * es.len() + prefix_size_list(es, k)) as u32,
        ));
    } else {
        lemma_offset_table_slot(es, n - 1, k);
        assert(list_offset_bytes(es, n).subrange(4 * k, 4 * k + 4) =~= list_offset_bytes(
            es,
            n - 1,
        ).subrange(4 * k, 4 * k + 4));
    }
}

/// Prefix sums of header slots ignore a dropped last slot.
pub proof fn lemma_fp_prefix_drop(fp: Seq<(u64, nat)>, n: int)
    requires
        0 <= n < fp.len(),
    ensures
        fp_prefix_size(fp.drop_last(), n) == fp_prefix_size(fp, n),
    decreases n,
{
    if n > 0 {
        lemma_fp_prefix_drop(fp, n - 1);
        assert(fp.drop_last()[n - 1] == fp[n - 1]);
    }
}

/// Slot `k` of a header holds its key's table index and its value's
/// relative offset.
pub proof fn lemma_header_slot(hs: Seq<u64>, fp: Seq<(u64, nat)>, k: int)
    requires
        0 <= k < fp.len(),
    ensures
        header_bytes(hs, fp).subrange(8 * k, 8 * k + 4) == spec_u32_to_le_bytes(
            first_index_of(hs, fp[k].0) as u32,
        ),
        header_bytes(hs, fp).subrange(8 * k + 4, 8 * k + 8) == spec_u32_to_le_bytes(
            (9 + fp_prefix_size(fp, k)) as u32,
        ),
    decreases fp.len(),
{
    lemma_header_bytes_len(hs, fp);
    lemma_header_bytes_len(hs, fp.drop_last());
    vstd::bytes::lemma_auto_spec_u32_to_from_le_bytes();
    if k == fp.len() - 1 {
        assert(header_bytes(hs, fp).subrange(8 * k, 8 * k + 4) =~= spec_u32_to_le_bytes(
            first_index_of(hs, fp[k].0) as u32,
        ));
        assert(header_bytes(hs, fp).subrange(8 * k + 4, 8 * k + 8) =~= spec_u32_to_le_bytes(
            (9 + fp_prefix_size(fp, k)) as u32,
        ));
    } else {
        lemma_header_slot(hs, fp.drop_last(), k);
        lemma_fp_prefix_drop(fp, k);
        assert(fp.drop_last()[k] == fp[k]);
        assert(header_bytes(hs, fp).subrange(8 * k, 8 * k + 4) =~= header_bytes(
            hs,
            fp.drop_last(),
        ).subrange(8 * k, 8 * k + 4));
        assert(header_bytes(hs, fp).subrange(8 * k + 4, 8 * k + 8) =~= header_bytes(
            hs,
            fp.drop_last(),
        ).subrange(8 * k + 4, 8 * k + 8));
    }
}

/// Slot `k` of the hash-table region holds hash `k`.
pub proof fn lemma_hash_table_slot(hs: Seq<u64>, k: int)
    requires
        0 <= k < hs.len(),
    ensures
        hash_table_bytes(hs).subrange(8 * k, 8 * k + 8) == spec_u64_to_le_bytes(hs[k]),
    decreases hs.len(),
{
    lemma_hash_table_bytes_len(hs);
    lemma_hash_table_bytes_len(hs.drop_last());
    vstd::bytes::lemma_auto_spec_u64_to_from_le_bytes();
    if k == hs.len() - 1 {
        assert(hash_table_bytes(hs).subrange(8 * k, 8 * k + 8) =~= spec_u64_to_le_bytes(hs[k]));
    } else {
        lemma_hash_table_slot(hs.drop_last(), k);
        assert(hs.drop_last()[k] == hs[k]);
        assert(hash_table_bytes(hs).subrange(8 * k, 8 * k + 8) =~= hash_table_bytes(
            hs.drop_last(),
        ).subrange(8 * k, 8 * k + 8));
    }
}



/// Element `k`'s bytes sit inside the concatenated list elements at the
/// prefix-sum position.
pub proof fn lemma_write_list_slice(
    hs: Seq<u64>,
    strs: Map<Seq<char>, nat>,
    fps: Map<Seq<(u64, nat)>, nat>,
    es: Seq<ValueSpec>,
    k: int,
)
    requires
        0 <= k < es.len(),
    ensures
        write_list(hs, strs, fps, es).subrange(
            prefix_size_list(es, k) as int,
            prefix_size_list(es, k) + size_of(es[k]) as int,
        ) == write_value(hs, strs, fps, es[k]),
    decreases es.len(),
{
    lemma_write_list_len(hs, strs, fps, es);
    lemma_write_list_len(hs, strs, fps, es.drop_last());
    lemma_write_len(hs, strs, fps, es[k]);
    lemma_prefix_size_list_total(es);
    lemma_prefix_size_list_mono(es, k + 1, es.len() as int);
    if k == es.len() - 1 {
        lemma_prefix_size_list_total(es.drop_last());
        assert forall|n: int| 0 <= n < es.len() implies prefix_size_list(es.drop_last(), n)
            == prefix_size_list(es, n) by {
            lemma_prefix_size_list_drop(es, n);
        }
        assert(write_list(hs, strs, fps, es).subrange(
            prefix_size_list(es, k) as int,
            prefix_size_list(es, k) + size_of(es[k]) as int,
        ) =~= write_value(hs, strs, fps, es[k]));
    } else {
        lemma_write_list_slice(hs, strs, fps, es.drop_last(), k);
        lemma_prefix_size_list_drop(es, k);
        assert(es.drop_last()[k] == es[k]);
        lemma_prefix_size_list_mono(es.drop_last(), k + 1, es.drop_last().len() as int);
        lemma_prefix_size_list_total(es.drop_last());
        assert(write_list(hs, strs, fps, es).subrange(
            prefix_size_list(es, k) as int,
            prefix_size_list(es, k) + size_of(es[k]) as int,
        ) =~= write_list(hs, strs, fps, es.drop_last()).subrange(
            prefix_size_list(es.drop_last(), k) as int,
            prefix_size_list(es.drop_last(), k) + size_of(es.drop_last()[k]) as int,
        ));
    }
}

/// Prefix sums ignore a dropped last element.
pub proof fn lemma_prefix_size_list_drop(es: Seq<ValueSpec>, n: int)
    requires
        0 <= n < es.len(),
    ensures
        prefix_size_list(es.drop_last(), n) == prefix_size_list(es, n),
    decreases n,
{
    if n > 0 {
        lemma_prefix_size_list_drop(es, n - 1);
        assert(es.drop_last()[n - 1] == es[n - 1]);
    }
}

/// Value `k`'s bytes sit inside the concatenated entry values at the
/// prefix-sum position.
pub proof fn lemma_write_entries_slice(
    hs: Seq<u64>,
    strs: Map<Seq<char>, nat>,
    fps: Map<Seq<(u64, nat)>, nat>,
    es: Seq<(u64, ValueSpec)>,
    k: int,
)
    requires
        0 <= k < es.len(),
    ensures
        write_entries(hs, strs, fps, es).subrange(
            prefix_size_entries(es, k) as int,
            prefix_size_entries(es, k) + size_of(es[k].1) as int,
        ) == write_value(hs, strs, fps, es[k].1),
    decreases es.len(),
{
    lemma_write_entries_len(hs, strs, fps, es);
    lemma_write_entries_len(hs, strs, fps, es.drop_last());
    lemma_write_len(hs, strs, fps, es[k].1);
    lemma_prefix_size_entries_total(es);
    lemma_prefix_size_entries_mono(es, k + 1, es.len() as int);
    if k == es.len() - 1 {
        lemma_prefix_size_entries_total(es.drop_last());
        assert forall|n: int| 0 <= n < es.len() implies prefix_size_entries(es.drop_last(), n)
            == prefix_size_entries(es, n) by {
            lemma_prefix_size_entries_drop(es, n);
        }
        assert(write_entries(hs, strs, fps, es).subrange(
            prefix_size_entries(es, k) as int,
            prefix_size_entries(es, k) + size_of(es[k].1) as int,
        ) =~= write_value(hs, strs, fps, es[k].1));
    } else {
        lemma_write_entries_slice(hs, strs, fps, es.drop_last(), k);
        lemma_prefix_size_entries_drop(es, k);
        assert(es.drop_last()[k] == es[k]);
        lemma_prefix_size_entries_mono(es.drop_last(), k + 1, es.drop_last().len() as int);
        lemma_prefix_size_entries_total(es.drop_last());
        assert(write_entries(hs, strs, fps, es).subrange(
            prefix_size_entries(es, k) as int,
            prefix_size_entries(es, k) + size_of(es[k].1) as int,
        ) =~= write_entries(hs, strs, fps, es.drop_last()).subrange(
            prefix_size_entries(es.drop_last(), k) as int,
            prefix_size_entries(es.drop_last(), k) + size_of(es.drop_last()[k].1) as int,
        ));
    }
}

/// Prefix sums of entries ignore a dropped last entry.
pub proof fn lemma_prefix_size_entries_drop(es: Seq<(u64, ValueSpec)>, n: int)
    requires
        0 <= n < es.len(),
    ensures
        prefix_size_entries(es.drop_last(), n) == prefix_size_entries(es, n),
    decreases n,
{
    if n > 0 {
        lemma_prefix_size_entries_drop(es, n - 1);
        assert(es.drop_last()[n - 1] == es[n - 1]);
    }
}

} // verus!

verus! {

/// Reading back a written offset table yields the written distances.
proof fn lemma_read_offset_table(bytes: Seq<u8>, q: int, es: Seq<ValueSpec>, n: int)
    requires
        0 <= q,
        0 <= n <= es.len(),
        q + 4 * n <= bytes.len(),
        bytes.subrange(q, q + 4 * n) == list_offset_bytes(es, n),
        5 + 4 * es.len() + size_of_list(es) <= spec_size_limit(),
    ensures
        read_u32s(bytes, q, n) == Ok::<_, DecodeErr>(
            Seq::new(n as nat, |k: int| (5 + 4 * es.len() + prefix_size_list(es, k)) as u32),
        ),
    decreases n,
{
    lemma_list_offset_bytes_len(es, n);
    vstd::bytes::lemma_auto_spec_u32_to_from_le_bytes();
    if n > 0 {
        lemma_list_offset_bytes_len(es, n - 1);
        assert(bytes.subrange(q, q + 4 * (n - 1)) =~= list_offset_bytes(es, n - 1)) by {
            assert(forall|i: int|
                0 <= i < 4 * (n - 1) ==> list_offset_bytes(es, n)[i] == list_offset_bytes(
                    es,
                    n - 1,
                )[i]);
        }
        lemma_read_offset_table(bytes, q, es, n - 1);
        lemma_offset_table_slot(es, n, n - 1);
        assert(bytes.subrange(q + 4 * (n - 1), q + 4 * n) =~= list_offset_bytes(es, n).subrange(
            4 * (n - 1),
            4 * n,
        ));
        lemma_prefix_size_list_mono(es, n - 1, es.len() as int);
        lemma_prefix_size_list_total(es);
        assert(read_u32s(bytes, q, n) == Ok::<_, DecodeErr>(
            Seq::new((n - 1) as nat, |k: int| (5 + 4 * es.len() + prefix_size_list(es, k)) as u32)
                .push((5 + 4 * es.len() + prefix_size_list(es, n - 1)) as u32),
        ));
        assert(Seq::new((n - 1) as nat, |k: int| (5 + 4 * es.len() + prefix_size_list(es, k)) as u32)
            .push((5 + 4 * es.len() + prefix_size_list(es, n - 1)) as u32) =~= Seq::new(
            n as nat,
            |k: int| (5 + 4 * es.len() + prefix_size_list(es, k)) as u32,
        ));
    } else {
        assert(read_u32s(bytes, q, 0) == Ok::<_, DecodeErr>(Seq::<u32>::empty()));
        assert(Seq::new(0, |k: int| (5 + 4 * es.len() + prefix_size_list(es, k)) as u32)
            =~= Seq::<u32>::empty());
    }
}

/// Reading back a written header yields its keys and relative offsets.
proof fn lemma_parse_header_pairs_roundtrip(
    blob: Seq<u8>,
    hs: Seq<u64>,
    off: int,
    fp: Seq<(u64, nat)>,
    upto: int,
)
    requires
        0 <= off,
        0 <= upto <= fp.len(),
        off + 8 * fp.len() <= blob.len(),
        blob.subrange(off, off + 8 * fp.len() as int) == header_bytes(hs, fp),
        forall|k: int| 0 <= k < fp.len() ==> hs.contains((#[trigger] fp[k]).0),
        8 * hs.len() <= spec_size_limit(),
        9 + fp_prefix_size(fp, fp.len() as int) <= spec_size_limit(),
    ensures
        parse_header_pairs(blob, hs, off, upto) == Ok::<_, DecodeErr>(
            Seq::new(upto as nat, |k: int| (fp[k].0, 9 + fp_prefix_size(fp, k) as int)),
        ),
    decreases upto,
{
    lemma_header_bytes_len(hs, fp);
    vstd::bytes::lemma_auto_spec_u32_to_from_le_bytes();
    if upto > 0 {
        lemma_parse_header_pairs_roundtrip(blob, hs, off, fp, upto - 1);
        lemma_header_slot(hs, fp, upto - 1);
        assert(blob.subrange(off + 8 * (upto - 1), off + 8 * (upto - 1) + 4) =~= header_bytes(
            hs,
            fp,
        ).subrange(8 * (upto - 1), 8 * (upto - 1) + 4));
        assert(blob.subrange(off + 8 * (upto - 1) + 4, off + 8 * upto) =~= header_bytes(
            hs,
            fp,
        ).subrange(8 * (upto - 1) + 4, 8 * upto));
        lemma_first_index_of_present(hs, fp[upto - 1].0);
        lemma_fp_prefix_mono_w(fp, upto - 1, fp.len() as int);
        assert(parse_header_pairs(blob, hs, off, upto) == Ok::<_, DecodeErr>(
            Seq::new((upto - 1) as nat, |k: int| (fp[k].0, 9 + fp_prefix_size(fp, k) as int)).push(
                (fp[upto - 1].0, 9 + fp_prefix_size(fp, upto - 1) as int),
            ),
        ));
        assert(Seq::new((upto - 1) as nat, |k: int| (fp[k].0, 9 + fp_prefix_size(fp, k) as int))
            .push((fp[upto - 1].0, 9 + fp_prefix_size(fp, upto - 1) as int)) =~= Seq::new(
            upto as nat,
            |k: int| (fp[k].0, 9 + fp_prefix_size(fp, k) as int),
        ));
    } else {
        assert(Seq::new(0, |k: int| (fp[k].0, 9 + fp_prefix_size(fp, k) as int))
            =~= Seq::<(u64, int)>::empty());
    }
}

/// Prefix sums of fingerprint slots are monotone.
proof fn lemma_fp_prefix_mono_w(fp: Seq<(u64, nat)>, m: int, n: int)
    requires
        0 <= m <= n <= fp.len(),
    ensures
        fp_prefix_size(fp, m) <= fp_prefix_size(fp, n),
    decreases n - m,
{
    if n > m {
        lemma_fp_prefix_mono_w(fp, m, n - 1);
    }
}

} // verus!

verus! {

use crate::value::wf_list;
use crate::value::wf_entries;
use crate::value::lemma_wf_list;
use crate::value::lemma_wf_entries;

/// A sub-segment of an identified segment is the segment's sub-segment.
proof fn lemma_sub_sub(bytes: Seq<u8>, pos: int, w: Seq<u8>, a: int, b: int)
    requires
        0 <= pos,
        pos + w.len() <= bytes.len(),
        bytes.subrange(pos, pos + w.len() as int) == w,
        0 <= a <= b <= w.len(),
    ensures
        bytes.subrange(pos + a, pos + b) == w.subrange(a, b),
{
    assert(bytes.subrange(pos + a, pos + b) =~= w.subrange(a, b)) by {
        assert forall|i: int| 0 <= i < b - a implies bytes.subrange(pos + a, pos + b)[i]
            == w.subrange(a, b)[i] by {
            assert(bytes.subrange(pos, pos + w.len() as int)[a + i] == w[a + i]);
        }
    }
}

/// Parsing back the written encoding of a well-formed tree recovers exactly
/// the tree, ending exactly after its last byte.
pub proof fn lemma_parse_write(
    c: PCtx,
    strs: Map<Seq<char>, nat>,
    fps: Map<Seq<(u64, nat)>, nat>,
    v: ValueSpec,
    pos: int,
    fuel: nat,
)
    requires
        v.wf(),
        size_of(v) <= spec_size_limit(),
        8 * c.hs.len() <= spec_size_limit(),
        c.blob.len() <= spec_size_limit(),
        no_dup(c.hs),
        hashes_present(c.hs, v),
        strings_present(strs, v),
        fps_present(fps, v),
        strs_valid(RefTables { blob: c.blob, strs, fps }),
        fps_valid(c.hs, RefTables { blob: c.blob, strs, fps }),
        0 <= pos,
        pos + size_of(v) <= c.bytes.len(),
        (c.bytes.subrange(pos, pos + size_of(v) as int) == write_value(c.hs, strs, fps, v)),
        fuel >= size_of(v),
    ensures
        parse_at(c, pos, fuel) == Ok::<_, DecodeErr>((v, pos + size_of(v) as int)),
    decreases v, 0nat, 0nat,
{
    vstd::bytes::lemma_auto_spec_u16_to_from_le_bytes();
    vstd::bytes::lemma_auto_spec_u32_to_from_le_bytes();
    let w = write_value(c.hs, strs, fps, v);
    lemma_write_len(c.hs, strs, fps, v);
    assert(c.bytes[pos] == w[0]) by {
        assert(c.bytes.subrange(pos, pos + size_of(v) as int)[0] == w[0]);
    }
    match v {
        ValueSpec::Bool(b) => {
            assert(c.bytes[pos + 1] == w[1]) by {
                assert(c.bytes.subrange(pos, pos + size_of(v) as int)[1] == w[1]);
            }
            assert(w[0] == 1u8 && w[1] == (if b { 1u8 } else { 0u8 }));
                    assert(parse_at(c, pos, fuel) == Ok::<_, DecodeErr>((v, pos + size_of(v) as int)));
        },
        ValueSpec::I8(x) => {
            assert(c.bytes[pos + 1] == w[1]) by {
                assert(c.bytes.subrange(pos, pos + size_of(v) as int)[1] == w[1]);
            }
            assert(w[0] == 2u8 && w[1] == x as u8);
            assert((x as u8) as i8 == x) by (bit_vector);
                    assert(parse_at(c, pos, fuel) == Ok::<_, DecodeErr>((v, pos + size_of(v) as int)));
        },
        ValueSpec::U8(x) => {
            assert(c.bytes[pos + 1] == w[1]) by {
                assert(c.bytes.subrange(pos, pos + size_of(v) as int)[1] == w[1]);
            }
            assert(w[0] == 3u8 && w[1] == x);
                    assert(parse_at(c, pos, fuel) == Ok::<_, DecodeErr>((v, pos + size_of(v) as int)));
        },
        ValueSpec::I16(x) => {
            lemma_sub_sub(c.bytes, pos, w, 1, 3);
            assert(w.subrange(1, 3) =~= spec_u16_to_le_bytes(x as u16));
            assert((x as u16) as i16 == x) by (bit_vector);
                    assert(parse_at(c, pos, fuel) == Ok::<_, DecodeErr>((v, pos + size_of(v) as int)));
        },
        ValueSpec::U16(x) => {
            lemma_sub_sub(c.bytes, pos, w, 1, 3);
            assert(w.subrange(1, 3) =~= spec_u16_to_le_bytes(x));
                    assert(parse_at(c, pos, fuel) == Ok::<_, DecodeErr>((v, pos + size_of(v) as int)));
        },
        ValueSpec::I32(x) => {
            lemma_sub_sub(c.bytes, pos, w, 1, 5);
            assert(w.subrange(1, 5) =~= spec_u32_to_le_bytes(x as u32));
            assert((x as u32) as i32 == x) by (bit_vector);
                    assert(parse_at(c, pos, fuel) == Ok::<_, DecodeErr>((v, pos + size_of(v) as int)));
        },
        ValueSpec::U32(x) => {
            lemma_sub_sub(c.bytes, pos, w, 1, 5);
            assert(w.subrange(1, 5) =~= spec_u32_to_le_bytes(x));
            assert(parse_at(c, pos, fuel) == Ok::<_, DecodeErr>((v, pos + size_of(v) as int)));
        },
        ValueSpec::F32(x) => {
            lemma_sub_sub(c.bytes, pos, w, 1, 5);
            assert(w.subrange(1, 5) =~= spec_u32_to_le_bytes(x));
            assert(parse_at(c, pos, fuel) == Ok::<_, DecodeErr>((v, pos + size_of(v) as int)));
        },
        ValueSpec::Hash(h) => {
            lemma_first_index_of_present(c.hs, h);
            let idx = first_index_of(c.hs, h);
            lemma_sub_sub(c.bytes, pos, w, 1, 5);
            assert(w.subrange(1, 5) =~= spec_u32_to_le_bytes(idx as u32));
            assert((idx as u32) as int == idx);
                    assert(parse_at(c, pos, fuel) == Ok::<_, DecodeErr>((v, pos + size_of(v) as int)));
        },
        ValueSpec::String(s) => {
            let t = RefTables { blob: c.blob, strs, fps };
            assert(strs_valid(t));
            assert(t.strs.dom().contains(s));
            assert(t.strs[s] + s.len() + 1 <= t.blob.len());
            let off = strs[s];
            assert(off + s.len() + 1 <= c.blob.len());
            lemma_sub_sub(c.bytes, pos, w, 1, 5);
            assert(w.subrange(1, 5) =~= spec_u32_to_le_bytes(off as u32));
            assert((off as u32) as int == off);
            lemma_parse_str_roundtrip(c.blob, c.file_off, off as int, s);
                    assert(parse_at(c, pos, fuel) == Ok::<_, DecodeErr>((v, pos + size_of(v) as int)));
        },
        ValueSpec::List(es) => {
            lemma_wf_list(es);
            let n = es.len() as int;
            lemma_list_offset_bytes_len(es, n);
            lemma_write_list_len(c.hs, strs, fps, es);
            assert(w[0] == 11u8);
            lemma_sub_sub(c.bytes, pos, w, 1, 5);
            assert(w.subrange(1, 5) =~= spec_u32_to_le_bytes(es.len() as u32));
            assert((es.len() as u32) as int == n);
            lemma_sub_sub(c.bytes, pos, w, 5, 5 + 4 * n);
            assert(w.subrange(5, 5 + 4 * n) =~= list_offset_bytes(es, n));
            lemma_read_offset_table(c.bytes, pos + 5, es, n);
            let rels = Seq::new(
                n as nat,
                |k: int| (5 + 4 * es.len() + prefix_size_list(es, k)) as u32,
            );
            let offs = Seq::new(rels.len(), |i: int| pos + rels[i]);
            assert forall|k: int| 0 <= k < n implies offs[k] == pos + 5 + 4 * es.len()
                + prefix_size_list(es, k) by {
                lemma_prefix_size_list_mono(es, k, n);
                lemma_prefix_size_list_total(es);
                assert(rels[k] as int == 5 + 4 * es.len() + prefix_size_list(es, k));
            }
            lemma_sub_sub(c.bytes, pos, w, 5 + 4 * n, 5 + 4 * n + size_of_list(es) as int);
            assert(w.subrange(5 + 4 * n, 5 + 4 * n + size_of_list(es) as int) =~= write_list(
                c.hs,
                strs,
                fps,
                es,
            ));
            lemma_parse_write_list_elems(c, strs, fps, es, offs, pos, 0, pos + 5 + 4 * n, (fuel
                - 1) as nat);
            assert(es.skip(0) =~= es);
                    assert(parse_at(c, pos, fuel) == Ok::<_, DecodeErr>((v, pos + size_of(v) as int)));
        },
        ValueSpec::Dict(es) => {
            lemma_wf_entries(es);
            let n = es.len() as int;
            lemma_write_entries_len(c.hs, strs, fps, es);
            let fp = fingerprint(es);
            assert(fps.dom().contains(fp));
            let t = RefTables { blob: c.blob, strs, fps };
            assert(fps_valid(c.hs, t));
            assert(t.fps.dom().contains(fp));
            assert(t.fps[fp] + 8 * fp.len() <= t.blob.len());
            let refoff = fps[fp];
            assert(refoff + 8 * es.len() <= c.blob.len());
            lemma_size_of_entries_lower(es);
            lemma_prefix_size_entries_total(es);
            assert(w[0] == 12u8);
            lemma_sub_sub(c.bytes, pos, w, 1, 5);
            assert(w.subrange(1, 5) =~= spec_u32_to_le_bytes(es.len() as u32));
            assert((es.len() as u32) as int == n);
            lemma_sub_sub(c.bytes, pos, w, 5, 9);
            assert(w.subrange(5, 9) =~= spec_u32_to_le_bytes(refoff as u32));
            assert((refoff as u32) as int == refoff);
            assert(fp.len() == n);
            lemma_hp_entries_pointwise(c.hs, es);
            assert forall|k: int| 0 <= k < fp.len() implies c.hs.contains(
                (#[trigger] fp[k]).0,
            ) by {
                assert(fp[k] == (es[k].0, size_of(es[k].1)));
            }
            lemma_fp_prefix_is_entries(es, n);
            lemma_parse_header_pairs_roundtrip(c.blob, c.hs, refoff as int, fp, n);
            assert(parse_header(c.blob, c.hs, c.file_off, refoff as int, n) == Ok::<
                _,
                DecodeErr,
            >(Seq::new(n as nat, |k: int| (fp[k].0, 9 + fp_prefix_size(fp, k) as int))));
            let pairs = Seq::new(n as nat, |k: int| (fp[k].0, 9 + fp_prefix_size(fp, k) as int));
            let apairs = Seq::new(pairs.len(), |i: int| (pairs[i].0, pos + pairs[i].1));
            assert forall|k: int| 0 <= k < n implies apairs[k] == (
                es[k].0,
                pos + 9 + prefix_size_entries(es, k),
            ) by {
                lemma_fp_prefix_is_entries(es, k);
                assert(fp[k] == (es[k].0, size_of(es[k].1)));
            }
            lemma_sub_sub(c.bytes, pos, w, 9, 9 + size_of_entries(es) as int);
            assert(w.subrange(9, 9 + size_of_entries(es) as int) =~= write_entries(
                c.hs,
                strs,
                fps,
                es,
            ));
            lemma_parse_write_dict_elems(c, strs, fps, es, apairs, pos, 0, pos + 9, (fuel
                - 1) as nat);
            assert(es.skip(0) =~= es);
            assert(parse_at(c, pos, fuel) == Ok::<_, DecodeErr>((v, pos + size_of(v) as int)));
        },
    }
}

/// Elements `from..` of a written list parse back to themselves, ending
/// after the last element.
proof fn lemma_parse_write_list_elems(
    c: PCtx,
    strs: Map<Seq<char>, nat>,
    fps: Map<Seq<(u64, nat)>, nat>,
    es: Seq<ValueSpec>,
    offs: Seq<int>,
    base: int,
    from: int,
    cur: int,
    fuel: nat,
)
    requires
        wf_list(es),
        hashes_present_list(c.hs, es),
        strings_present_list(strs, es),
        fps_present_list(fps, es),
        5 + 4 * es.len() + size_of_list(es) <= spec_size_limit(),
        8 * c.hs.len() <= spec_size_limit(),
        c.blob.len() <= spec_size_limit(),
        no_dup(c.hs),
        strs_valid(RefTables { blob: c.blob, strs, fps }),
        fps_valid(c.hs, RefTables { blob: c.blob, strs, fps }),
        0 <= from <= es.len(),
        offs.len() == es.len(),
        forall|k: int|
            0 <= k < es.len() ==> #[trigger] offs[k] == base + 5 + 4 * es.len()
                + prefix_size_list(es, k),
        0 <= base,
        base + 5 + 4 * es.len() + size_of_list(es) <= c.bytes.len(),
        (c.bytes.subrange(
            base + 5 + 4 * es.len(),
            base + 5 + 4 * es.len() + size_of_list(es) as int,
        ) == write_list(c.hs, strs, fps, es)),
        fuel >= size_of_list(es),
    ensures
        parse_list_from(c, offs, from, cur, fuel) == Ok::<_, DecodeErr>(
            (
                es.skip(from),
                if from == es.len() {
                    cur
                } else {
                    base + 5 + 4 * es.len() + size_of_list(es) as int
                },
            ),
        ),
    decreases es, 1nat, es.len() - from,
{
    if from == es.len() {
        assert(es.skip(from) =~= Seq::<ValueSpec>::empty());
    } else {
        lemma_wf_list(es);
        lemma_hp_list_pointwise(c.hs, es);
        lemma_sp_list_pointwise(strs, es);
        lemma_fpp_list_pointwise(fps, es);
        lemma_prefix_size_list_total(es);
        lemma_prefix_size_list_mono(es, from, from + 1);
        lemma_prefix_size_list_mono(es, from + 1, es.len() as int);
        assert(prefix_size_list(es, from + 1) == prefix_size_list(es, from) + size_of(es[from]));
        lemma_write_list_slice(c.hs, strs, fps, es, from);
        lemma_write_list_len(c.hs, strs, fps, es);
        lemma_write_len(c.hs, strs, fps, es[from]);
        let elem_pos = base + 5 + 4 * es.len() + prefix_size_list(es, from);
        assert(c.bytes.subrange(elem_pos as int, elem_pos + size_of(es[from]) as int)
            =~= write_value(c.hs, strs, fps, es[from]));
        lemma_parse_write(c, strs, fps, es[from], elem_pos as int, fuel);
        let p = elem_pos + size_of(es[from]) as int;
        lemma_parse_write_list_elems(c, strs, fps, es, offs, base, from + 1, p, fuel);
        lemma_parse_list_from_step(c, offs, from, cur, fuel);
        assert(seq![es[from]] + es.skip(from + 1) =~= es.skip(from));
        if from + 1 == es.len() {
            assert(p == base + 5 + 4 * es.len() + size_of_list(es) as int);
        }
    }
}

/// Entry values `from..` of a written map parse back to the entries,
/// ending after the last value.
proof fn lemma_parse_write_dict_elems(
    c: PCtx,
    strs: Map<Seq<char>, nat>,
    fps: Map<Seq<(u64, nat)>, nat>,
    es: Seq<(u64, ValueSpec)>,
    apairs: Seq<(u64, int)>,
    base: int,
    from: int,
    cur: int,
    fuel: nat,
)
    requires
        wf_entries(es),
        hashes_present_entries(c.hs, es),
        strings_present_entries(strs, es),
        fps_present_entries(fps, es),
        9 + size_of_entries(es) <= spec_size_limit(),
        8 * c.hs.len() <= spec_size_limit(),
        c.blob.len() <= spec_size_limit(),
        no_dup(c.hs),
        strs_valid(RefTables { blob: c.blob, strs, fps }),
        fps_valid(c.hs, RefTables { blob: c.blob, strs, fps }),
        0 <= from <= es.len(),
        apairs.len() == es.len(),
        forall|k: int|
            0 <= k < es.len() ==> #[trigger] apairs[k] == (
                es[k].0,
                base + 9 + prefix_size_entries(es, k),
            ),
        0 <= base,
        base + 9 + size_of_entries(es) <= c.bytes.len(),
        (c.bytes.subrange(base + 9, base + 9 + size_of_entries(es) as int) == write_entries(
            c.hs,
            strs,
            fps,
            es,
        )),
        fuel >= size_of_entries(es),
    ensures
        parse_dict_from(c, apairs, from, cur, fuel) == Ok::<_, DecodeErr>(
            (
                es.skip(from),
                if from == es.len() {
                    cur
                } else {
                    base + 9 + size_of_entries(es) as int
                },
            ),
        ),
    decreases es, 1nat, es.len() - from,
{
    if from == es.len() {
        assert(es.skip(from) =~= Seq::<(u64, ValueSpec)>::empty());
    } else {
        lemma_wf_entries(es);
        lemma_hp_entries_pointwise(c.hs, es);
        lemma_sp_entries_pointwise(strs, es);
        lemma_fpp_entries_pointwise(fps, es);
        lemma_prefix_size_entries_total(es);
        lemma_prefix_size_entries_mono(es, from, from + 1);
        lemma_prefix_size_entries_mono(es, from + 1, es.len() as int);
        assert(prefix_size_entries(es, from + 1) == prefix_size_entries(es, from) + size_of(
            es[from].1,
        ));
        lemma_write_entries_slice(c.hs, strs, fps, es, from);
        lemma_write_entries_len(c.hs, strs, fps, es);
        lemma_write_len(c.hs, strs, fps, es[from].1);
        let elem_pos = base + 9 + prefix_size_entries(es, from);
        assert(c.bytes.subrange(elem_pos as int, elem_pos + size_of(es[from].1) as int)
            =~= write_value(c.hs, strs, fps, es[from].1));
        lemma_parse_write(c, strs, fps, es[from].1, elem_pos as int, fuel);
        let p = elem_pos + size_of(es[from].1) as int;
        lemma_parse_write_dict_elems(c, strs, fps, es, apairs, base, from + 1, p, fuel);
        lemma_parse_dict_from_step(c, apairs, from, cur, fuel);
        assert((apairs[from].0, es[from].1) == es[from]);
        assert(seq![es[from]] + es.skip(from + 1) =~= es.skip(from));
        if from + 1 == es.len() {
            assert(p == base + 9 + size_of_entries(es) as int);
        }
    }
}

/// Resolving a registered string recovers exactly its characters.
proof fn lemma_parse_str_roundtrip(blob: Seq<u8>, file_off: int, off: int, s: Seq<char>)
    requires
        0 <= off,
        off + s.len() + 1 <= blob.len(),
        blob.subrange(off, off + s.len() as int) == str_bytes(s),
        blob[off + s.len() as int] == 0,
        crate::value::ascii_no_nul(s),
    ensures
        parse_str_at(blob, file_off, off) == Ok::<_, DecodeErr>(s),
{
    assert forall|j: int| off <= j < off + s.len() implies blob[j] != 0 by {
        assert(blob.subrange(off, off + s.len() as int)[j - off] == str_bytes(s)[j - off]);
        assert(str_bytes(s)[j - off] == s[j - off] as u8);
        assert(blob.subrange(off, off + s.len() as int)[j - off] == blob[j]);
        assert('\0' <= s[j - off] <= '\u{7f}');
        assert(s[j - off] != '\0');
    }
    lemma_find_nul_at(blob, off, off + s.len() as int);
    assert forall|j: int| off <= j < off + s.len() implies blob[j] < 0x80 by {
        assert(blob.subrange(off, off + s.len() as int)[j - off] == str_bytes(s)[j - off]);
        assert(str_bytes(s)[j - off] == s[j - off] as u8);
        assert(blob.subrange(off, off + s.len() as int)[j - off] == blob[j]);
        assert('\0' <= s[j - off] <= '\u{7f}');
    }
    lemma_find_non_ascii_none(blob, off, off + s.len() as int);
    assert(Seq::new(s.len(), |i: int| blob[off + i] as char) =~= s) by {
        assert forall|i: int| 0 <= i < s.len() implies blob[off + i] as char == s[i] by {
            assert(blob.subrange(off, off + s.len() as int)[i] == str_bytes(s)[i]);
            assert(str_bytes(s)[i] == s[i] as u8);
            assert(blob.subrange(off, off + s.len() as int)[i] == blob[off + i]);
            assert('\0' <= s[i] <= '\u{7f}');
        }
    }
}

/// The first terminator after `from` is at `k` when everything before it is
/// non-zero and `k` holds zero.
proof fn lemma_find_nul_at(blob: Seq<u8>, from: int, k: int)
    requires
        0 <= from <= k < blob.len(),
        blob[k] == 0,
        forall|j: int| from <= j < k ==> blob[j] != 0,
    ensures
        find_nul(blob, from) == k,
    decreases k - from,
{
    if from < k {
        lemma_find_nul_at(blob, from + 1, k);
    }
}

/// A region of ASCII bytes has no non-ASCII byte.
proof fn lemma_find_non_ascii_none(blob: Seq<u8>, from: int, to: int)
    requires
        0 <= from <= to,
        forall|j: int| from <= j < to ==> blob[j] < 0x80,
    ensures
        find_non_ascii(blob, from, to) == to,
    decreases to - from,
{
    if from < to {
        lemma_find_non_ascii_none(blob, from + 1, to);
    }
}

} // verus!

verus! {

/// Every value occupies at least two bytes.
pub proof fn lemma_size_of_min(v: ValueSpec)
    ensures
        size_of(v) >= 2,
    decreases v,
{
}

/// Entry values occupy at least two bytes each.
pub proof fn lemma_size_of_entries_lower(es: Seq<(u64, ValueSpec)>)
    ensures
        size_of_entries(es) >= 2 * es.len(),
    decreases es,
{
    if es.len() > 0 {
        lemma_size_of_entries_lower(es.drop_last());
        lemma_size_of_min(es.last().1);
    }
}

} // verus!

verus! {

/// Round trip: decoding an encoded well-formed, size-bounded tree yields
/// exactly the tree again, map key order included.
pub proof fn lemma_round_trip(v: ValueSpec)
    requires
        v.wf(),
        size_of(v) <= spec_size_limit(),
        8 * doc_hashes(v).len() <= spec_size_limit(),
        doc_tables(v).blob.len() <= spec_size_limit(),
    ensures
        parse_doc(spec_encode(v)) == Ok::<_, DecodeErr>(v),
{
    vstd::bytes::lemma_auto_spec_u32_to_from_le_bytes();
    vstd::bytes::lemma_auto_spec_u64_to_from_le_bytes();
    let hs = doc_hashes(v);
    let t = doc_tables(v);
    let bytes = spec_encode(v);
    let hlen = (8 * hs.len()) as int;
    let r = t.blob.len() as int;
    let wv = write_value(hs, t.strs, t.fps, v);
    lemma_dedup(v);
    lemma_hash_table_bytes_len(hs);
    lemma_write_len(hs, t.strs, t.fps, v);
    assert(bytes.len() == 16 + hlen + r + size_of(v));
    // The header fields.
    assert(bytes.subrange(0, 8) =~= magic());
    assert(bytes.subrange(8, 12) =~= spec_u32_to_le_bytes((8 * hs.len()) as u32));
    assert(bytes.subrange(12, 16) =~= spec_u32_to_le_bytes(t.blob.len() as u32));
    assert(((8 * hs.len()) as u32) as int == hlen);
    assert((t.blob.len() as u32) as int == r);
    assert(hlen % 8 == 0);
    // The hash table reads back.
    let hs2 = Seq::new(
        (hlen / 8) as nat,
        |i: int| spec_u64_from_le_bytes(bytes.subrange(16 + 8 * i, 16 + 8 * i + 8)),
    );
    assert(hs2 =~= hs) by {
        assert forall|i: int| 0 <= i < hs.len() implies hs2[i] == hs[i] by {
            lemma_hash_table_slot(hs, i);
            assert(bytes.subrange(16 + 8 * i, 16 + 8 * i + 8) =~= hash_table_bytes(hs).subrange(
                8 * i,
                8 * i + 8,
            ));
        }
    }
    // The blob reads back.
    assert(bytes.subrange(16 + hlen, 16 + hlen + r) =~= t.blob);
    let c = PCtx { bytes, hs, blob: t.blob, file_off: 8 + hlen };
    // The top value's segment is its encoding.
    assert(bytes.subrange(16 + hlen + r, 16 + hlen + r + size_of(v) as int) =~= wv);
    assert(RefTables { blob: c.blob, strs: t.strs, fps: t.fps } =~= t);
    lemma_parse_write(c, t.strs, t.fps, v, 16 + hlen + r, bytes.len() as nat);
}

/// Idempotent re-encode: the value a document decodes to encodes back to
/// the identical document, byte for byte.
pub proof fn lemma_reencode_identical(v: ValueSpec)
    requires
        v.wf(),
        size_of(v) <= spec_size_limit(),
        8 * doc_hashes(v).len() <= spec_size_limit(),
        doc_tables(v).blob.len() <= spec_size_limit(),
    ensures
        parse_doc(spec_encode(v)) matches Ok(w) && spec_encode(w) == spec_encode(v),
{
    lemma_round_trip(v);
}

} // verus!

verus! {

/// A parse that succeeds under some nesting budget gives the same result
/// under any larger budget.
pub proof fn lemma_parse_at_fuel_mono(c: PCtx, pos: int, f1: nat, f2: nat)
    requires
        f1 <= f2,
        parse_at(c, pos, f1) is Ok,
    ensures
        parse_at(c, pos, f2) == parse_at(c, pos, f1),
    decreases f1, 0nat, 0nat,
{
    if f1 < f2 && f1 > 0 && 0 <= pos < c.bytes.len() {
        let b = c.bytes[pos];
        if b == 11 {
            if pos + 5 <= c.bytes.len() {
                let n = spec_u32_from_le_bytes(c.bytes.subrange(pos + 1, pos + 5)) as int;
                match read_u32s(c.bytes, pos + 5, n) {
                    Err(_) => {},
                    Ok(rels) => {
                        let offs = Seq::new(rels.len(), |i: int| pos + rels[i]);
                        lemma_parse_list_fuel_mono(
                            c,
                            offs,
                            0,
                            pos + 5 + 4 * n,
                            (f1 - 1) as nat,
                            (f2 - 1) as nat,
                        );
                    },
                }
            }
        } else if b == 12 {
            if pos + 9 <= c.bytes.len() {
                let n = spec_u32_from_le_bytes(c.bytes.subrange(pos + 1, pos + 5)) as int;
                let refoff = spec_u32_from_le_bytes(c.bytes.subrange(pos + 5, pos + 9)) as int;
                match parse_header(c.blob, c.hs, c.file_off, refoff, n) {
                    Err(_) => {},
                    Ok(pairs) => {
                        let apairs = Seq::new(pairs.len(), |i: int| (pairs[i].0, pos + pairs[i].1));
                        lemma_parse_dict_fuel_mono(c, apairs, 0, pos + 9, (f1 - 1) as nat, (f2
                            - 1) as nat);
                    },
                }
            }
        }
    }
}

proof fn lemma_parse_list_fuel_mono(
    c: PCtx,
    offs: Seq<int>,
    from: int,
    cur: int,
    f1: nat,
    f2: nat,
)
    requires
        0 <= from,
        f1 <= f2,
        parse_list_from(c, offs, from, cur, f1) is Ok,
    ensures
        parse_list_from(c, offs, from, cur, f2) == parse_list_from(c, offs, from, cur, f1),
    decreases f1, 1nat, offs.len() - from,
{
    if from < offs.len() {
        lemma_parse_list_from_step(c, offs, from, cur, f1);
        lemma_parse_list_from_step(c, offs, from, cur, f2);
        let (v, p) = parse_at(c, offs[from], f1)->Ok_0;
        lemma_parse_at_fuel_mono(c, offs[from], f1, f2);
        lemma_parse_list_fuel_mono(c, offs, from + 1, p, f1, f2);
    }
}

proof fn lemma_parse_dict_fuel_mono(
    c: PCtx,
    pairs: Seq<(u64, int)>,
    from: int,
    cur: int,
    f1: nat,
    f2: nat,
)
    requires
        0 <= from,
        f1 <= f2,
        parse_dict_from(c, pairs, from, cur, f1) is Ok,
    ensures
        parse_dict_from(c, pairs, from, cur, f2) == parse_dict_from(c, pairs, from, cur, f1),
    decreases f1, 1nat, pairs.len() - from,
{
    if from < pairs.len() {
        lemma_parse_dict_from_step(c, pairs, from, cur, f1);
        lemma_parse_dict_from_step(c, pairs, from, cur, f2);
        let (v, p) = parse_at(c, pairs[from].1, f1)->Ok_0;
        lemma_parse_at_fuel_mono(c, pairs[from].1, f1, f2);
        lemma_parse_dict_fuel_mono(c, pairs, from + 1, p, f1, f2);
    }
}

} // verus!

verus! {

/// Each successfully read word is the little-endian word at its position.
pub proof fn lemma_read_u32s_index(bytes: Seq<u8>, q: int, n: int, k: int)
    requires
        0 <= k < n,
        read_u32s(bytes, q, n) is Ok,
    ensures
        read_u32s(bytes, q, n)->Ok_0.len() == n,
        read_u32s(bytes, q, n)->Ok_0[k] == spec_u32_from_le_bytes(
            bytes.subrange(q + 4 * k, q + 4 * k + 4),
        ),
    decreases n,
{
    if k < n - 1 {
        lemma_read_u32s_index(bytes, q, n - 1, k);
    } else if n - 1 > 0 {
        lemma_read_u32s_len(bytes, q, n - 1);
    }
}

/// A successful multi-word read yields as many words as asked for.
pub proof fn lemma_read_u32s_len(bytes: Seq<u8>, q: int, n: int)
    requires
        0 <= n,
        read_u32s(bytes, q, n) is Ok,
    ensures
        read_u32s(bytes, q, n)->Ok_0.len() == n,
    decreases n,
{
    if n > 0 {
        lemma_read_u32s_len(bytes, q, n - 1);
    }
}

} // verus!
