//! The decoder: bounds-checked, on-demand parsing of a document's value
//! region, with per-offset memoization of resolved strings and map headers
//! and explicit cursors for partially consumed lists and maps.
use vstd::prelude::*;

use crate::value::Hash40;
use crate::value::ParamId;
use crate::value::Value;
use crate::value::ValueSpec;
use crate::wire::DecodeErr;
use crate::wire::PCtx;

verus! {

use vstd::bytes::u16_from_le_bytes;
use vstd::bytes::u32_from_le_bytes;
use vstd::bytes::u64_from_le_bytes;
use vstd::bytes::spec_u16_from_le_bytes;
use vstd::bytes::spec_u32_from_le_bytes;
use vstd::bytes::spec_u64_from_le_bytes;
use vstd::slice::slice_subrange;

/// The 64-bit hash carried by each table entry.
pub open spec fn hashes_view(hs: Seq<Hash40>) -> Seq<u64> {
    Seq::new(hs.len(), |i: int| hs[i].0)
}

/// The construct being parsed when an error frame was recorded.
#[derive(Clone, Copy, PartialEq, Eq, Structural, Debug)]
pub enum ParseId {
    ParamId,
    Bool,
    I8,
    U8,
    I16,
    U16,
    I32,
    U32,
    F32,
    Hash,
    String,
    List,
    Dict,
}

/// What went wrong during a decode.
#[derive(Debug)]
pub enum ErrorKind {
    /// The leading type-tag byte is not one of the twelve kinds.
    InvalidParamId(u8),
    /// A hash-table index at or past the table's length.
    HashOutOfBounds(usize),
    /// A string reference outside the blob, or one without a terminator.
    StringRefOutOfBounds(u64),
    /// A non-ASCII byte inside referenced string data, at this absolute
    /// position.
    StringNotAscii(u64),
    /// A map-header reference whose slots do not fit in the blob.
    MapRefOutOfBounds { start: u64, num_elements: usize },
    /// A read past the end of the value stream, starting at this position.
    Eof(u64),
    /// The document does not open with the fixed signature.
    BadMagic,
    /// A hash-table byte length that is not a multiple of 8.
    BadHashTableLen(u32),
    /// Value nesting deeper than the decoder's budget.
    DepthLimit,
    /// An error raised by a consumer of the decoder.
    Custom(String),
}

impl View for ErrorKind {
    type V = DecodeErr;

    open spec fn view(&self) -> DecodeErr {
        match self {
            ErrorKind::InvalidParamId(b) => DecodeErr::InvalidParamId(*b),
            ErrorKind::HashOutOfBounds(i) => DecodeErr::HashOutOfBounds(*i as int),
            ErrorKind::StringRefOutOfBounds(p) => DecodeErr::StringRefOutOfBounds(*p as int),
            ErrorKind::StringNotAscii(p) => DecodeErr::StringNotAscii(*p as int),
            ErrorKind::MapRefOutOfBounds { start, num_elements } => DecodeErr::MapRefOutOfBounds {
                start: *start as int,
                num_elements: *num_elements as int,
            },
            ErrorKind::Eof(p) => DecodeErr::Eof(*p as int),
            ErrorKind::BadMagic => DecodeErr::BadMagic,
            ErrorKind::BadHashTableLen(h) => DecodeErr::BadHashTableLen(*h),
            ErrorKind::DepthLimit => DecodeErr::DepthLimit,
            ErrorKind::Custom(s) => DecodeErr::Other(s@),
        }
    }
}

/// A decode error: its cause, together with one frame per enclosing
/// construct that was being parsed when it surfaced, each with the stream
/// position if one was known. Frames are pushed as the error unwinds, so
/// the innermost construct comes first; every error the parser returns
/// carries at least one frame (see [`Error::push_frame`] for what one
/// propagation step records).
#[derive(Debug)]
pub struct Error {
    pub cause: ErrorKind,
    pub position_stack: Vec<(ParseId, Option<u64>)>,
}

impl Error {
    /// An error with an empty parse trace.
    pub fn from_kind(cause: ErrorKind) -> (r: Error)
        ensures
            r.cause@ == cause@,
            r.position_stack@.len() == 0,
    {
        Error { cause, position_stack: Vec::new() }
    }

    /// Record that `id` was being parsed at `pos` when this error passed by.
    pub fn push_frame(&mut self, id: ParseId, pos: Option<u64>)
        ensures
            final(self).cause@ == old(self).cause@,
            final(self).position_stack@ == old(self).position_stack@.push((id, pos)),
    {
        self.position_stack.push((id, pos));
    }
}

/// Read the byte at `pos`, if it is inside the slice.
fn read_u8_at(bytes: &[u8], pos: usize) -> (r: Option<u8>)
    ensures
        pos < bytes@.len() ==> r == Some(bytes@[pos as int]),
        pos >= bytes@.len() ==> r is None,
{
    if pos < bytes.len() {
        Some(bytes[pos])
    } else {
        None
    }
}

/// Read a little-endian 16-bit word starting at `pos`, if it fits.
fn read_u16_at(bytes: &[u8], pos: usize) -> (r: Option<u16>)
    ensures
        pos + 2 <= bytes@.len() ==> r == Some(
            spec_u16_from_le_bytes(bytes@.subrange(pos as int, pos + 2)),
        ),
        pos + 2 > bytes@.len() ==> r is None,
{
    if bytes.len() >= 2 && pos <= bytes.len() - 2 {
        Some(u16_from_le_bytes(slice_subrange(bytes, pos, pos + 2)))
    } else {
        None
    }
}

/// Read a little-endian 32-bit word starting at `pos`, if it fits.
fn read_u32_at(bytes: &[u8], pos: usize) -> (r: Option<u32>)
    ensures
        pos + 4 <= bytes@.len() ==> r == Some(
            spec_u32_from_le_bytes(bytes@.subrange(pos as int, pos + 4)),
        ),
        pos + 4 > bytes@.len() ==> r is None,
{
    if bytes.len() >= 4 && pos <= bytes.len() - 4 {
        Some(u32_from_le_bytes(slice_subrange(bytes, pos, pos + 4)))
    } else {
        None
    }
}

/// Read a little-endian 64-bit word starting at `pos`, if it fits.
fn read_u64_at(bytes: &[u8], pos: usize) -> (r: Option<u64>)
    ensures
        pos + 8 <= bytes@.len() ==> r == Some(
            spec_u64_from_le_bytes(bytes@.subrange(pos as int, pos + 8)),
        ),
        pos + 8 > bytes@.len() ==> r is None,
{
    if bytes.len() >= 8 && pos <= bytes.len() - 8 {
        Some(u64_from_le_bytes(slice_subrange(bytes, pos, pos + 8)))
    } else {
        None
    }
}

/// Relies on std's `String::from_utf8`: ASCII bytes are valid UTF-8 and
/// decode to exactly one character per byte.
#[verifier::external_body]
fn string_from_ascii(bytes: Vec<u8>) -> (r: String)
    requires
        forall|i: int| 0 <= i < bytes@.len() ==> bytes@[i] < 0x80,
    ensures
        r@ == Seq::new(bytes@.len(), |i: int| bytes@[i] as char),
{
    String::from_utf8(bytes).unwrap()
}

} // verus!

verus! {

use crate::wire::parse_str_at;
use crate::wire::parse_header;
use crate::wire::find_nul;
use crate::wire::find_non_ascii;

/// The reference-data blob of one decode session: the raw bytes that
/// followed the document header, the absolute file position that error
/// reports add to blob offsets, and the session's memoization caches for
/// resolved strings and map headers.
pub struct ReferenceData {
    pub raw: Vec<u8>,
    pub file_offset: u64,
    pub strings: Vec<(u32, String)>,
    pub maps: Vec<(u32, u32, Vec<(Hash40, u32)>)>,
}

/// The pairs of a cached header, as the parser's model sees them: the key
/// hash and the relative value offset.
pub open spec fn pairs_view(ps: Seq<(Hash40, u32)>) -> Seq<(u64, int)> {
    Seq::new(ps.len(), |i: int| (ps[i].0.0, ps[i].1 as int))
}

impl ReferenceData {
    /// The parse context this blob contributes to, for a given value stream
    /// and hash table.
    pub open spec fn ctx(&self, bytes: Seq<u8>, hs: Seq<u64>) -> PCtx {
        PCtx { bytes, hs, blob: self.raw@, file_off: self.file_offset as int }
    }

    /// Every cache entry agrees with a direct resolution against the blob.
    pub open spec fn inv(&self, hs: Seq<u64>) -> bool {
        &&& forall|i: int|
            0 <= i < self.strings@.len() ==> parse_str_at(
                self.raw@,
                self.file_offset as int,
                #[trigger] self.strings@[i].0 as int,
            ) == Ok::<_, DecodeErr>(self.strings@[i].1@)
        &&& forall|i: int|
            0 <= i < self.maps@.len() ==> parse_header(
                self.raw@,
                hs,
                self.file_offset as int,
                #[trigger] self.maps@[i].0 as int,
                self.maps@[i].1 as int,
            ) == Ok::<_, DecodeErr>(pairs_view(self.maps@[i].2@))
    }

    /// An empty blob for a document without reference data.
    pub fn empty() -> (r: ReferenceData)
        ensures
            r.raw@.len() == 0,
            r.file_offset == 0,
            forall|hs: Seq<u64>| r.inv(hs),
    {
        ReferenceData { raw: Vec::new(), file_offset: 0, strings: Vec::new(), maps: Vec::new() }
    }

    /// A blob holding `bytes`, reported at file position 0; handy for
    /// exercising the decoder on a bare value region.
    pub fn mock(bytes: &[u8]) -> (r: ReferenceData)
        ensures
            r.raw@ == bytes@,
            r.file_offset == 0,
            forall|hs: Seq<u64>| r.inv(hs),
    {
        ReferenceData {
            raw: vstd::slice::slice_to_vec(bytes),
            file_offset: 0,
            strings: Vec::new(),
            maps: Vec::new(),
        }
    }

    /// A blob holding `bytes`, which began at absolute position
    /// `file_offset` in the document.
    pub fn new(bytes: Vec<u8>, file_offset: u64) -> (r: ReferenceData)
        ensures
            r.raw@ == bytes@,
            r.file_offset == file_offset,
            forall|hs: Seq<u64>| r.inv(hs),
    {
        ReferenceData { raw: bytes, file_offset, strings: Vec::new(), maps: Vec::new() }
    }

    /// Resolve the string at blob offset `offset`, through the cache.
    #[verifier::loop_isolation(false)]
    pub fn get_string(&mut self, Ghost(hs): Ghost<Seq<u64>>, offset: u32) -> (r: Result<
        String,
        Error,
    >)
        requires
            old(self).inv(hs),
            old(self).file_offset + old(self).raw@.len() + old(self).raw@.len()
                <= u64::MAX,
        ensures
            final(self).inv(hs),
            final(self).raw == old(self).raw,
            final(self).file_offset == old(self).file_offset,
            final(self).maps == old(self).maps,
            match r {
                Ok(s) => parse_str_at(old(self).raw@, old(self).file_offset as int, offset as int)
                    == Ok::<_, DecodeErr>(s@),
                Err(e) => parse_str_at(old(self).raw@, old(self).file_offset as int, offset as int)
                    matches Err(k) && e.cause@ == k && final(self).strings == old(self).strings,
            },
    {
        let ghost blob = self.raw@;
        let ghost fo = self.file_offset as int;
        let mut ci: usize = 0;
        while ci < self.strings.len()
            invariant
                ci <= self.strings@.len(),
            decreases self.strings@.len() - ci,
        {
            if self.strings[ci].0 == offset {
                let s = self.strings[ci].1.clone();
                return Ok(s);
            }
            ci = ci + 1;
        }
        let off = offset as usize;
        if off >= self.raw.len() {
            return Err(Error::from_kind(ErrorKind::StringRefOutOfBounds(offset as u64)));
        }
        // Find the terminator.
        let mut k: usize = off;
        loop
            invariant
                off <= k <= blob.len(),
                find_nul(blob, off as int) == find_nul(blob, k as int),
            decreases blob.len() - k,
        {
            if k >= self.raw.len() {
                proof {
                    assert(find_nul(blob, k as int) == blob.len());
                }
                return Err(
                    Error::from_kind(
                        ErrorKind::StringRefOutOfBounds(self.file_offset + offset as u64),
                    ),
                );
            }
            if self.raw[k] == 0 {
                proof {
                    assert(find_nul(blob, k as int) == k);
                }
                break;
            }
            proof {
                assert(find_nul(blob, k as int) == find_nul(blob, k as int + 1));
            }
            k = k + 1;
        }
        // All bytes before the terminator must be ASCII.
        let mut j: usize = off;
        let mut content: Vec<u8> = Vec::new();
        while j < k
            invariant
                off <= j <= k < blob.len(),
                blob[k as int] == 0,
                find_nul(blob, off as int) == k,
                find_non_ascii(blob, off as int, k as int) == find_non_ascii(
                    blob,
                    j as int,
                    k as int,
                ),
                content@.len() == j - off,
                forall|m: int| 0 <= m < content@.len() ==> content@[m] == blob[off + m],
                forall|m: int| 0 <= m < content@.len() ==> content@[m] < 0x80,
            decreases k - j,
        {
            let b = self.raw[j];
            if b >= 0x80 {
                proof {
                    assert(find_non_ascii(blob, j as int, k as int) == j);
                }
                return Err(
                    Error::from_kind(
                        ErrorKind::StringNotAscii(self.file_offset + j as u64),
                    ),
                );
            }
            proof {
                assert(find_non_ascii(blob, j as int, k as int) == find_non_ascii(
                    blob,
                    j as int + 1,
                    k as int,
                ));
            }
            content.push(b);
            j = j + 1;
        }
        proof {
            assert(find_non_ascii(blob, j as int, k as int) == k);
        }
        let s = string_from_ascii(content);
        proof {
            assert(s@ =~= Seq::new(
                (k - off) as nat,
                |i: int| blob[off as int + i] as char,
            ));
        }
        self.strings.push((offset, s.clone()));
        Ok(s)
    }
}

} // verus!

verus! {

use crate::wire::parse_header_pairs;
use crate::wire::lemma_header_pairs_err_mono;

impl ReferenceData {
    /// Resolve the map header of `len` slots at blob offset `offset`,
    /// through the cache; each relative value offset is shifted by
    /// `data_start`, the stream position of the map's tag byte.
    #[verifier::loop_isolation(false)]
    pub fn get_map(
        &mut self,
        hashes: &[Hash40],
        offset: u32,
        len: u32,
        data_start: u64,
    ) -> (r: Result<Vec<(Hash40, u64)>, Error>)
        requires
            old(self).inv(hashes_view(hashes@)),
            data_start <= 0xffff_0000_0000_0000u64,
            old(self).file_offset <= 0xffff_0000_0000_0000u64,
        ensures
            final(self).inv(hashes_view(hashes@)),
            final(self).raw == old(self).raw,
            final(self).file_offset == old(self).file_offset,
            final(self).strings == old(self).strings,
            ({
                let ph = parse_header(
                    old(self).raw@,
                    hashes_view(hashes@),
                    old(self).file_offset as int,
                    offset as int,
                    len as int,
                );
                match r {
                    Ok(ps) => ph matches Ok(pairs) && ps@.len() == pairs.len() && (forall|i: int|
                        0 <= i < pairs.len() ==> (#[trigger] ps@[i]).0.0 == pairs[i].0
                            && ps@[i].1 == data_start + pairs[i].1),
                    Err(e) => ph matches Err(k) && e.cause@ == k,
                }
            }),
    {
        let ghost blob = self.raw@;
        let ghost hsv = hashes_view(hashes@);
        let ghost ph = parse_header(
            blob,
            hsv,
            self.file_offset as int,
            offset as int,
            len as int,
        );
        // Cache lookup, keyed by offset and slot count.
        let mut ci: usize = 0;
        while ci < self.maps.len()
            invariant
                ci <= self.maps@.len(),
            decreases self.maps@.len() - ci,
        {
            if self.maps[ci].0 == offset && self.maps[ci].1 == len {
                let cached = &self.maps[ci].2;
                let mut out: Vec<(Hash40, u64)> = Vec::new();
                let ghost pairs = pairs_view(cached@);
                let mut i: usize = 0;
                while i < cached.len()
                    invariant
                        i <= cached@.len(),
                        out@.len() == i,
                        pairs == pairs_view(cached@),
                        forall|j: int|
                            0 <= j < i ==> (#[trigger] out@[j]).0.0 == pairs[j].0 && out@[j].1
                                == data_start + pairs[j].1,
                    decreases cached@.len() - i,
                {
                    let (h, rel) = (cached[i].0, cached[i].1);
                    out.push((h, data_start + rel as u64));
                    i = i + 1;
                }
                return Ok(out);
            }
            ci = ci + 1;
        }
        // Bounds check over the blob.
        if (offset as u64) + (len as u64) * 8 > self.raw.len() as u64 {
            return Err(
                Error::from_kind(
                    ErrorKind::MapRefOutOfBounds {
                        start: self.file_offset + offset as u64,
                        num_elements: len as usize,
                    },
                ),
            );
        }
        // Read the slots in order, resolving each hash index.
        let mut rels: Vec<(Hash40, u32)> = Vec::new();
        let mut out: Vec<(Hash40, u64)> = Vec::new();
        proof {
            assert(parse_header_pairs(blob, hsv, offset as int, 0) == Ok::<
                _,
                DecodeErr,
            >(Seq::<(u64, int)>::empty()));
            assert(pairs_view(rels@) =~= Seq::<(u64, int)>::empty());
        }
        let mut i: usize = 0;
        while i < len as usize
            invariant
                i <= len,
                offset + 8 * (len as int) <= blob.len(),
                rels@.len() == i,
                out@.len() == i,
                parse_header_pairs(blob, hsv, offset as int, i as int) == Ok::<
                    _,
                    DecodeErr,
                >(pairs_view(rels@)),
                forall|j: int|
                    0 <= j < i ==> (#[trigger] out@[j]).0.0 == pairs_view(rels@)[j].0 && out@[j].1
                        == data_start + pairs_view(rels@)[j].1,
            decreases len - i,
        {
            let base = offset as usize + 8 * i;
            let idx = read_u32_at(self.raw.as_slice(), base).unwrap();
            let rel = read_u32_at(self.raw.as_slice(), base + 4).unwrap();
            proof {
                assert(blob.subrange(base as int, base + 4) == blob.subrange(
                    offset + 8 * (i as int),
                    offset + 8 * (i as int) + 4,
                ));
                assert(blob.subrange(base + 4, base + 8) == blob.subrange(
                    offset + 8 * (i as int) + 4,
                    offset + 8 * (i as int + 1),
                ));
            }
            if (idx as usize) >= hashes.len() {
                proof {
                    assert(parse_header_pairs(blob, hsv, offset as int, i as int + 1)
                        == Err::<Seq<(u64, int)>, _>(DecodeErr::HashOutOfBounds(idx as int)));
                    lemma_header_pairs_err_mono(
                        blob,
                        hsv,
                        offset as int,
                        i as int + 1,
                        len as int,
                    );
                }
                return Err(Error::from_kind(ErrorKind::HashOutOfBounds(idx as usize)));
            }
            let h = hashes[idx as usize];
            let ghost old_pv = pairs_view(rels@);
            proof {
                assert(hsv[idx as int] == h.0);
                assert(parse_header_pairs(blob, hsv, offset as int, i as int + 1) == Ok::<
                    _,
                    DecodeErr,
                >(old_pv.push((h.0, rel as int))));
            }
            rels.push((h, rel));
            out.push((h, data_start + rel as u64));
            proof {
                assert(pairs_view(rels@) =~= old_pv.push((h.0, rel as int)));
            }
            i = i + 1;
        }
        self.maps.push((offset, len, rels));
        Ok(out)
    }
}

} // verus!

verus! {

use crate::wire::parse_at;
use crate::wire::parse_list_from;
use crate::wire::parse_dict_from;
use crate::wire::read_u32s;
use crate::wire::lemma_read_u32s_err_mono;
use crate::wire::lemma_parse_list_from_step;
use crate::wire::lemma_parse_dict_from_step;
use crate::value::view_list;
use crate::value::view_entries;
use crate::value::lemma_view_list;
use crate::value::lemma_view_entries;

impl ReferenceData {
    /// Size bounds under which every decode-side computation fits its
    /// machine integer: the blob's length fits a 32-bit count and its file
    /// position is just past a maximal header.
    pub open spec fn bounded(&self) -> bool {
        self.file_offset <= 0x1_0000_0010u64 && self.raw@.len() <= 0xffff_ffff as nat
    }
}

/// An error of kind `k` with one frame already recorded.
fn kind_err(k: ErrorKind, id: ParseId, position: u64) -> (r: Error)
    ensures
        r.cause@ == k@,
        r.position_stack@ == seq![(id, Some(position))],
{
    let mut e = Error::from_kind(k);
    e.push_frame(id, Some(position));
    proof {
        assert(e.position_stack@ =~= seq![(id, Some(position))]);
    }
    e
}

/// The list arm of [`parse_value_at`]: offset table, then each element at
/// its absolute position.
#[verifier::loop_isolation(false)]
#[verifier::rlimit(60)]
fn parse_list_body(
    bytes: &[u8],
    hashes: &[Hash40],
    rd: &mut ReferenceData,
    pos: usize,
    fuel: usize,
) -> (r: Result<(Value, usize), Error>)
    requires
        old(rd).inv(hashes_view(hashes@)),
        old(rd).bounded(),
        bytes@.len() <= 0xffff_0000_0000_0000u64,
        fuel >= 1,
        pos < bytes@.len(),
        bytes@[pos as int] == 11u8,
    ensures
        final(rd).inv(hashes_view(hashes@)),
        final(rd).raw@ == old(rd).raw@,
        final(rd).file_offset == old(rd).file_offset,
        ({
            let c = PCtx {
                bytes: bytes@,
                hs: hashes_view(hashes@),
                blob: old(rd).raw@,
                file_off: old(rd).file_offset as int,
            };
            match r {
                Ok((v, p)) => parse_at(c, pos as int, fuel as nat) == Ok::<_, DecodeErr>(
                    (v@, p as int),
                ) && p <= bytes@.len(),
                Err(e) => (parse_at(c, pos as int, fuel as nat) matches Err(k) && e.cause@ == k)
                    && e.position_stack@.len() >= 1,
            }
        }),
    decreases fuel, 0nat,
{
    let ghost c = PCtx {
        bytes: bytes@,
        hs: hashes_view(hashes@),
        blob: rd.raw@,
        file_off: rd.file_offset as int,
    };
    let bytes_len = bytes.len();
        let n = match read_u32_at(bytes, pos + 1) {
            Some(w) => w,
            None => {
                return Err(
                    kind_err(ErrorKind::Eof((pos + 1) as u64), ParseId::List, pos as u64),
                );
            },
        };
        // Read the offset table; entry i is relative to the tag byte.
        let mut offs: Vec<u64> = Vec::new();
        let ghost q0 = pos + 5int;
        let mut i: usize = 0;
        while i < n as usize
            invariant
                i <= n,
                pos + 5 <= bytes@.len(),
                i > 0 ==> pos + 5 + 4 * (i as int) <= bytes@.len(),
                offs@.len() == i,
                read_u32s(bytes@, q0, i as int) matches Ok(ws) && ws.len() == i && (forall|j: int|
                    0 <= j < i ==> offs@[j] == pos + ws[j]),
            decreases n - i,
        {
            let q = pos + 5 + 4 * i;
            match read_u32_at(bytes, q) {
                Some(w) => {
                    proof {
                        let ws = read_u32s(bytes@, q0, i as int)->Ok_0;
                        assert(read_u32s(bytes@, q0, i as int + 1) == Ok::<_, DecodeErr>(
                            ws.push(spec_u32_from_le_bytes(bytes@.subrange(q as int, q + 4))),
                        ));
                    }
                    offs.push(pos as u64 + w as u64);
                },
                None => {
                    proof {
                        assert(read_u32s(bytes@, q0, i as int + 1) == Err::<Seq<u32>, _>(
                            DecodeErr::Eof(q as int),
                        ));
                        lemma_read_u32s_err_mono(bytes@, q0, i as int + 1, n as int);
                    }
                    return Err(kind_err(ErrorKind::Eof(q as u64), ParseId::List, q as u64));
                },
            }
            i = i + 1;
        }
        let ghost rels = read_u32s(bytes@, q0, n as int)->Ok_0;
        let ghost ospec = Seq::new(rels.len(), |j: int| pos + rels[j]);
        let ghost f1 = (fuel - 1) as nat;
        proof {
            assert(forall|j: int| 0 <= j < n ==> offs@[j] == ospec[j]);
        }
        let cur0: usize = pos + 5 + 4 * (n as usize);
        let mut out: Vec<Value> = Vec::new();
        let mut cur: usize = cur0;
        proof {
            lemma_view_list(out@);
            match parse_list_from(c, ospec, 0, cur0 as int, f1) {
                Ok(pr) => {
                    assert(view_list(out@) + pr.0 =~= pr.0);
                },
                Err(e) => {},
            }
        }
        let mut k: usize = 0;
        while k < n as usize
            invariant
                k <= n,
                out@.len() == k,
                cur <= bytes@.len(),
                rd.inv(hashes_view(hashes@)),
                rd.bounded(),
                rd.raw@ == c.blob,
                rd.file_offset as int == c.file_off,
                ({
                    let full = parse_list_from(c, ospec, 0, cur0 as int, f1);
                    match parse_list_from(c, ospec, k as int, cur as int, f1) {
                        Ok(pr) => full == Ok::<_, DecodeErr>((view_list(out@) + pr.0, pr.1)),
                        Err(e) => full == Err::<(Seq<ValueSpec>, int), _>(e),
                    }
                }),
            decreases n - k,
        {
            let off = offs[k];
            proof {
                lemma_parse_list_from_step(c, ospec, k as int, cur as int, f1);
            }
            if off >= bytes_len as u64 {
                if fuel - 1 == 0 {
                    return Err(kind_err(ErrorKind::DepthLimit, ParseId::List, off));
                }
                return Err(kind_err(ErrorKind::Eof(off), ParseId::List, off));
            }
            match parse_value_at(bytes, hashes, rd, off as usize, fuel - 1) {
                Ok((v, p)) => {
                    let ghost old_out = out@;
                    out.push(v);
                    cur = p;
                    proof {
                        lemma_view_list(out@);
                        lemma_view_list(old_out);
                        assert(view_list(out@) =~= view_list(old_out).push(v@));
                        match parse_list_from(c, ospec, k as int + 1, p as int, f1) {
                            Ok(pr) => {
                                assert(view_list(old_out) + (seq![v@] + pr.0) =~= view_list(out@)
                                    + pr.0);
                            },
                            Err(e) => {},
                        }
                    }
                },
                Err(mut e) => {
                    e.push_frame(ParseId::List, Some(off));
                    return Err(e);
                },
            }
            k = k + 1;
        }
        proof {
            assert(parse_list_from(c, ospec, n as int, cur as int, f1) == Ok::<_, DecodeErr>(
                (Seq::<ValueSpec>::empty(), cur as int),
            ));
            assert(view_list(out@) + Seq::<ValueSpec>::empty() =~= view_list(out@));
        }
        Ok((Value::List(out), cur))
}

/// The map arm of [`parse_value_at`]: header resolution, then each value at
/// its absolute position.
#[verifier::loop_isolation(false)]
#[verifier::rlimit(60)]
fn parse_dict_body(
    bytes: &[u8],
    hashes: &[Hash40],
    rd: &mut ReferenceData,
    pos: usize,
    fuel: usize,
) -> (r: Result<(Value, usize), Error>)
    requires
        old(rd).inv(hashes_view(hashes@)),
        old(rd).bounded(),
        bytes@.len() <= 0xffff_0000_0000_0000u64,
        fuel >= 1,
        pos < bytes@.len(),
        bytes@[pos as int] == 12u8,
    ensures
        final(rd).inv(hashes_view(hashes@)),
        final(rd).raw@ == old(rd).raw@,
        final(rd).file_offset == old(rd).file_offset,
        ({
            let c = PCtx {
                bytes: bytes@,
                hs: hashes_view(hashes@),
                blob: old(rd).raw@,
                file_off: old(rd).file_offset as int,
            };
            match r {
                Ok((v, p)) => parse_at(c, pos as int, fuel as nat) == Ok::<_, DecodeErr>(
                    (v@, p as int),
                ) && p <= bytes@.len(),
                Err(e) => (parse_at(c, pos as int, fuel as nat) matches Err(k) && e.cause@ == k)
                    && e.position_stack@.len() >= 1,
            }
        }),
    decreases fuel, 0nat,
{
    let ghost c = PCtx {
        bytes: bytes@,
        hs: hashes_view(hashes@),
        blob: rd.raw@,
        file_off: rd.file_offset as int,
    };
    let bytes_len = bytes.len();
        let n = match read_u32_at(bytes, pos + 1) {
            Some(w) => w,
            None => {
                return Err(
                    kind_err(ErrorKind::Eof((pos + 1) as u64), ParseId::Dict, pos as u64),
                );
            },
        };
        let refoff = match read_u32_at(bytes, pos + 5) {
            Some(w) => w,
            None => {
                return Err(
                    kind_err(ErrorKind::Eof((pos + 1) as u64), ParseId::Dict, pos as u64),
                );
            },
        };
        let pairs = match rd.get_map(hashes, refoff, n, pos as u64) {
            Ok(ps) => ps,
            Err(mut e) => {
                e.push_frame(ParseId::Dict, Some((pos + 9) as u64));
                return Err(e);
            },
        };
        let ghost spairs = parse_header(
            c.blob,
            c.hs,
            c.file_off,
            refoff as int,
            n as int,
        )->Ok_0;
        let ghost apairs = Seq::new(spairs.len(), |j: int| (spairs[j].0, pos + spairs[j].1));
        let ghost f1 = (fuel - 1) as nat;
        proof {
            assert(forall|j: int|
                0 <= j < apairs.len() ==> (#[trigger] pairs@[j]).0.0 == apairs[j].0 && pairs@[j].1
                    == apairs[j].1);
        }
        let cur0: usize = pos + 9;
        let mut out: Vec<(Hash40, Value)> = Vec::new();
        let mut cur: usize = cur0;
        proof {
            lemma_view_entries(out@);
            match parse_dict_from(c, apairs, 0, cur0 as int, f1) {
                Ok(pr) => {
                    assert(view_entries(out@) + pr.0 =~= pr.0);
                },
                Err(e) => {},
            }
        }
        let mut k: usize = 0;
        while k < pairs.len()
            invariant
                k <= pairs@.len(),
                pairs@.len() == apairs.len(),
                forall|j: int|
                    0 <= j < apairs.len() ==> (#[trigger] pairs@[j]).0.0 == apairs[j].0
                        && pairs@[j].1 == apairs[j].1,
                out@.len() == k,
                cur <= bytes@.len(),
                pos + 9 <= bytes@.len(),
                rd.inv(hashes_view(hashes@)),
                rd.bounded(),
                rd.raw@ == c.blob,
                rd.file_offset as int == c.file_off,
                ({
                    let full = parse_dict_from(c, apairs, 0, cur0 as int, f1);
                    match parse_dict_from(c, apairs, k as int, cur as int, f1) {
                        Ok(pr) => full == Ok::<_, DecodeErr>((view_entries(out@) + pr.0, pr.1)),
                        Err(e) => full == Err::<(Seq<(u64, ValueSpec)>, int), _>(e),
                    }
                }),
            decreases pairs@.len() - k,
        {
            let (key, off) = (pairs[k].0, pairs[k].1);
            proof {
                lemma_parse_dict_from_step(c, apairs, k as int, cur as int, f1);
            }
            if off >= bytes_len as u64 {
                if fuel - 1 == 0 {
                    return Err(kind_err(ErrorKind::DepthLimit, ParseId::Dict, off));
                }
                return Err(kind_err(ErrorKind::Eof(off), ParseId::Dict, off));
            }
            match parse_value_at(bytes, hashes, rd, off as usize, fuel - 1) {
                Ok((v, p)) => {
                    let ghost old_out = out@;
                    out.push((key, v));
                    cur = p;
                    proof {
                        lemma_view_entries(out@);
                        lemma_view_entries(old_out);
                        assert(view_entries(out@) =~= view_entries(old_out).push((key.0, v@)));
                        match parse_dict_from(c, apairs, k as int + 1, p as int, f1) {
                            Ok(pr) => {
                                assert(view_entries(old_out) + (seq![(key.0, v@)] + pr.0)
                                    =~= view_entries(out@) + pr.0);
                            },
                            Err(e) => {},
                        }
                    }
                },
                Err(mut e) => {
                    e.push_frame(ParseId::Dict, Some(off));
                    return Err(e);
                },
            }
            k = k + 1;
        }
        proof {
            assert(parse_dict_from(c, apairs, apairs.len() as int, cur as int, f1) == Ok::<
                _,
                DecodeErr,
            >((Seq::<(u64, ValueSpec)>::empty(), cur as int)));
            assert(view_entries(out@) + Seq::<(u64, ValueSpec)>::empty() =~= view_entries(out@));
        }
        Ok((Value::Dict(out), cur))
}

/// Parse the tagged value at `pos` of the value stream, mirroring
/// [`parse_at`] exactly; `fuel` bounds the nesting depth.
#[verifier::loop_isolation(false)]
fn parse_value_at(
    bytes: &[u8],
    hashes: &[Hash40],
    rd: &mut ReferenceData,
    pos: usize,
    fuel: usize,
) -> (r: Result<(Value, usize), Error>)
    requires
        old(rd).inv(hashes_view(hashes@)),
        old(rd).bounded(),
        bytes@.len() <= 0xffff_0000_0000_0000u64,
    ensures
        final(rd).inv(hashes_view(hashes@)),
        final(rd).raw@ == old(rd).raw@,
        final(rd).file_offset == old(rd).file_offset,
        ({
            let c = PCtx {
                bytes: bytes@,
                hs: hashes_view(hashes@),
                blob: old(rd).raw@,
                file_off: old(rd).file_offset as int,
            };
            match r {
                Ok((v, p)) => parse_at(c, pos as int, fuel as nat) == Ok::<_, DecodeErr>(
                    (v@, p as int),
                ) && p <= bytes@.len(),
                Err(e) => (parse_at(c, pos as int, fuel as nat) matches Err(k) && e.cause@ == k)
                    && e.position_stack@.len() >= 1,
            }
        }),
    decreases fuel, 1nat,
{
    let ghost c = PCtx {
        bytes: bytes@,
        hs: hashes_view(hashes@),
        blob: rd.raw@,
        file_off: rd.file_offset as int,
    };
    if fuel == 0 {
        return Err(kind_err(ErrorKind::DepthLimit, ParseId::ParamId, pos as u64));
    }
    let b = match read_u8_at(bytes, pos) {
        Some(b) => b,
        None => {
            return Err(kind_err(ErrorKind::Eof(pos as u64), ParseId::ParamId, pos as u64));
        },
    };
    let _bytes_len = bytes.len();
    if b == 1 {
        match read_u8_at(bytes, pos + 1) {
            Some(w) => Ok((Value::Bool(w != 0), pos + 2)),
            None => Err(kind_err(ErrorKind::Eof((pos + 1) as u64), ParseId::Bool, pos as u64)),
        }
    } else if b == 2 {
        match read_u8_at(bytes, pos + 1) {
            Some(w) => Ok((Value::I8(#[verifier::truncate] (w as i8)), pos + 2)),
            None => Err(kind_err(ErrorKind::Eof((pos + 1) as u64), ParseId::I8, pos as u64)),
        }
    } else if b == 3 {
        match read_u8_at(bytes, pos + 1) {
            Some(w) => Ok((Value::U8(w), pos + 2)),
            None => Err(kind_err(ErrorKind::Eof((pos + 1) as u64), ParseId::U8, pos as u64)),
        }
    } else if b == 4 {
        match read_u16_at(bytes, pos + 1) {
            Some(w) => Ok((Value::I16(#[verifier::truncate] (w as i16)), pos + 3)),
            None => Err(kind_err(ErrorKind::Eof((pos + 1) as u64), ParseId::I16, pos as u64)),
        }
    } else if b == 5 {
        match read_u16_at(bytes, pos + 1) {
            Some(w) => Ok((Value::U16(w), pos + 3)),
            None => Err(kind_err(ErrorKind::Eof((pos + 1) as u64), ParseId::U16, pos as u64)),
        }
    } else if b == 6 {
        match read_u32_at(bytes, pos + 1) {
            Some(w) => Ok((Value::I32(#[verifier::truncate] (w as i32)), pos + 5)),
            None => Err(kind_err(ErrorKind::Eof((pos + 1) as u64), ParseId::I32, pos as u64)),
        }
    } else if b == 7 {
        match read_u32_at(bytes, pos + 1) {
            Some(w) => Ok((Value::U32(w), pos + 5)),
            None => Err(kind_err(ErrorKind::Eof((pos + 1) as u64), ParseId::U32, pos as u64)),
        }
    } else if b == 8 {
        match read_u32_at(bytes, pos + 1) {
            Some(w) => Ok((Value::F32(w), pos + 5)),
            None => Err(kind_err(ErrorKind::Eof((pos + 1) as u64), ParseId::F32, pos as u64)),
        }
    } else if b == 9 {
        match read_u32_at(bytes, pos + 1) {
            Some(w) => {
                if (w as usize) < hashes.len() {
                    let h = hashes[w as usize];
                    proof {
                        assert(hashes_view(hashes@)[w as int] == h.0);
                    }
                    Ok((Value::Hash(h), pos + 5))
                } else {
                    Err(
                        kind_err(
                            ErrorKind::HashOutOfBounds(w as usize),
                            ParseId::Hash,
                            (pos + 5) as u64,
                        ),
                    )
                }
            },
            None => Err(kind_err(ErrorKind::Eof((pos + 1) as u64), ParseId::Hash, pos as u64)),
        }
    } else if b == 10 {
        match read_u32_at(bytes, pos + 1) {
            Some(w) => match rd.get_string(Ghost(hashes_view(hashes@)), w) {
                Ok(s) => Ok((Value::String(s), pos + 5)),
                Err(mut e) => {
                    e.push_frame(ParseId::String, Some((pos + 5) as u64));
                    Err(e)
                },
            },
            None => Err(kind_err(ErrorKind::Eof((pos + 1) as u64), ParseId::String, pos as u64)),
        }
    } else if b == 11 {
        parse_list_body(bytes, hashes, rd, pos, fuel)
    } else if b == 12 {
        parse_dict_body(bytes, hashes, rd, pos, fuel)
    } else {
        Err(kind_err(ErrorKind::InvalidParamId(b), ParseId::ParamId, (pos + 1) as u64))
    }
}

} // verus!

verus! {

use crate::value::spec_tag_of_byte;

/// One decode session over a value stream: the reference blob and its
/// caches, the hash table, the read cursor, and an optionally peeked type
/// tag.
pub struct ValueDeserializer<'a> {
    pub reference: ReferenceData,
    pub hashes: &'a [Hash40],
    pub bytes: &'a [u8],
    pub pos: usize,
    pub peeked: Option<ParamId>,
}

impl<'a> ValueDeserializer<'a> {
    /// The parse context this session reads against.
    pub open spec fn ctx(&self) -> PCtx {
        PCtx {
            bytes: self.bytes@,
            hs: hashes_view(self.hashes@),
            blob: self.reference.raw@,
            file_off: self.reference.file_offset as int,
        }
    }

    /// The nesting budget of every parse started from this session.
    pub open spec fn fuel(&self) -> nat {
        if self.bytes@.len() == 0 {
            1
        } else {
            self.bytes@.len()
        }
    }

    /// The stream position of the next value's tag byte (one before the
    /// cursor when a tag has been peeked).
    pub open spec fn start_pos(&self) -> int {
        if self.peeked is Some {
            self.pos - 1
        } else {
            self.pos as int
        }
    }

    /// The session invariant: caches agree with the blob, all sizes fit
    /// their machine integers, and a peeked tag is the byte the cursor just
    /// passed.
    pub open spec fn wf(&self) -> bool {
        &&& self.reference.inv(hashes_view(self.hashes@))
        &&& self.reference.bounded()
        &&& self.bytes@.len() <= 0xffff_0000_0000_0000u64
        &&& self.pos <= self.bytes@.len()
        &&& match self.peeked {
            Some(id) => self.pos >= 1 && spec_tag_of_byte(self.bytes@[self.pos - 1]) == Some(id),
            None => true,
        }
    }

    /// A session reading `bytes` from the start.
    pub fn new(reference: ReferenceData, hashes: &'a [Hash40], bytes: &'a [u8]) -> (r:
        ValueDeserializer<'a>)
        requires
            reference.inv(hashes_view(hashes@)),
            reference.bounded(),
            bytes@.len() <= 0xffff_0000_0000_0000u64,
        ensures
            r.wf(),
            r.reference.raw@ == reference.raw@,
            r.reference.file_offset == reference.file_offset,
            r.hashes@ == hashes@,
            r.bytes@ == bytes@,
            r.pos == 0,
            r.peeked is None,
    {
        ValueDeserializer { reference, hashes, bytes, pos: 0, peeked: None }
    }

    /// Look at the next type tag without consuming it.
    pub fn peek_param_id(&mut self) -> (r: Result<ParamId, Error>)
        requires
            old(self).wf(),
        ensures
            final(self).wf(),
            final(self).bytes@ == old(self).bytes@,
            final(self).hashes@ == old(self).hashes@,
            final(self).reference.raw@ == old(self).reference.raw@,
            final(self).reference.file_offset == old(self).reference.file_offset,
            final(self).start_pos() == old(self).start_pos(),
            match r {
                Ok(id) => {
                    &&& final(self).peeked == Some(id)
                    &&& old(self).start_pos() < old(self).bytes@.len()
                    &&& spec_tag_of_byte(old(self).bytes@[old(self).start_pos()]) == Some(id)
                },
                Err(e) => {
                    &&& final(self).peeked is None
                    &&& (old(self).start_pos() >= old(self).bytes@.len() ==> e.cause@
                        == DecodeErr::Eof(old(self).start_pos()))
                    &&& (old(self).start_pos() < old(self).bytes@.len() ==> e.cause@
                        == DecodeErr::InvalidParamId(
                        old(self).bytes@[old(self).start_pos()],
                    ) && spec_tag_of_byte(old(self).bytes@[old(self).start_pos()]) is None)
                },
            },
    {
        let _bytes_len = self.bytes.len();
        match self.peeked {
            Some(id) => Ok(id),
            None => {
                match read_u8_at(self.bytes, self.pos) {
                    None => Err(
                        kind_err(
                            ErrorKind::Eof(self.pos as u64),
                            ParseId::ParamId,
                            self.pos as u64,
                        ),
                    ),
                    Some(b) => match ParamId::from_byte(b) {
                        Some(id) => {
                            self.pos = self.pos + 1;
                            self.peeked = Some(id);
                            Ok(id)
                        },
                        None => {
                            self.pos = self.pos + 1;
                            let e = kind_err(
                                ErrorKind::InvalidParamId(b),
                                ParseId::ParamId,
                                self.pos as u64,
                            );
                            self.pos = self.pos - 1;
                            Err(e)
                        },
                    },
                }
            },
        }
    }

    /// Parse one complete value at the cursor.
    pub fn parse_value(&mut self) -> (r: Result<Value, Error>)
        requires
            old(self).wf(),
        ensures
            final(self).wf(),
            final(self).bytes@ == old(self).bytes@,
            final(self).hashes@ == old(self).hashes@,
            final(self).reference.raw@ == old(self).reference.raw@,
            final(self).reference.file_offset == old(self).reference.file_offset,
            final(self).peeked is None,
            match r {
                Ok(v) => parse_at(old(self).ctx(), old(self).start_pos(), old(self).fuel())
                    == Ok::<_, DecodeErr>((v@, final(self).pos as int)),
                Err(e) => (parse_at(old(self).ctx(), old(self).start_pos(), old(self).fuel())
                    matches Err(k) && e.cause@ == k) && e.position_stack@.len() >= 1,
            },
    {
        let start = match self.peeked {
            Some(_) => self.pos - 1,
            None => self.pos,
        };
        self.peeked = None;
        let fuel = if self.bytes.len() == 0 {
            1
        } else {
            self.bytes.len()
        };
        match parse_value_at(self.bytes, self.hashes, &mut self.reference, start, fuel) {
            Ok((v, p)) => {
                self.pos = p;
                Ok(v)
            },
            Err(e) => {
                self.pos = start;
                Err(e)
            },
        }
    }
}

} // verus!

verus! {

/// The absolute offset of list element `i`, as stored in the offset table
/// that follows the count field of the list at `base`.
pub open spec fn list_elem_off(bytes: Seq<u8>, base: int, i: int) -> int {
    base + spec_u32_from_le_bytes(bytes.subrange(base + 5 + 4 * i, base + 5 + 4 * i + 4))
}

/// A cursor over one encoded list: the consumer pulls elements one at a
/// time and may stop early; [`ListDeserializer::finish`] then restores the
/// stream cursor to the position after the whole construct by parsing the
/// final declared element.
pub struct ListDeserializer {
    pub base: usize,
    pub count: u32,
    pub current: u32,
}

impl<'a> ValueDeserializer<'a> {
    /// Enter the list whose tag is at the cursor.
    pub fn begin_list(&mut self) -> (r: Result<ListDeserializer, Error>)
        requires
            old(self).wf(),
        ensures
            final(self).wf(),
            final(self).bytes@ == old(self).bytes@,
            final(self).hashes@ == old(self).hashes@,
            final(self).reference.raw@ == old(self).reference.raw@,
            final(self).reference.file_offset == old(self).reference.file_offset,
            match r {
                Ok(ld) => {
                    &&& old(self).start_pos() < old(self).bytes@.len()
                    &&& old(self).bytes@[old(self).start_pos()] == 11u8
                    &&& old(self).start_pos() + 5 <= old(self).bytes@.len()
                    &&& ld.base == old(self).start_pos()
                    &&& ld.count == spec_u32_from_le_bytes(
                        old(self).bytes@.subrange(
                            old(self).start_pos() + 1,
                            old(self).start_pos() + 5,
                        ),
                    )
                    &&& ld.current == 0
                    &&& final(self).pos == old(self).start_pos() + 5
                    &&& final(self).peeked is None
                },
                Err(e) => ({
                    let start = old(self).start_pos();
                    let blen = old(self).bytes@.len() as int;
                    &&& final(self).pos == old(self).pos
                    &&& final(self).peeked == old(self).peeked
                    &&& e.position_stack@.len() >= 1
                    &&& (start >= blen ==> e.cause@ == DecodeErr::Eof(start))
                    &&& (start < blen && old(self).bytes@[start] != 11u8 ==> e.cause@
                        == DecodeErr::Other("expected a list at the cursor"@))
                    &&& (start < blen && old(self).bytes@[start] == 11u8 && start + 5 > blen
                        ==> e.cause@ == DecodeErr::Eof(start + 1))
                    &&& !(start < blen && old(self).bytes@[start] == 11u8 && start + 5 <= blen)
                }),
            },
    {
        let _bytes_len = self.bytes.len();
        let start = match self.peeked {
            Some(_) => self.pos - 1,
            None => self.pos,
        };
        match read_u8_at(self.bytes, start) {
            None => Err(kind_err(ErrorKind::Eof(start as u64), ParseId::ParamId, start as u64)),
            Some(b) => {
                if b != 11 {
                    Err(
                        kind_err(
                            ErrorKind::Custom(
                                "expected a list at the cursor".to_owned(),
                            ),
                            ParseId::List,
                            start as u64,
                        ),
                    )
                } else {
                    match read_u32_at(self.bytes, start + 1) {
                        None => Err(
                            kind_err(
                                ErrorKind::Eof((start + 1) as u64),
                                ParseId::List,
                                start as u64,
                            ),
                        ),
                        Some(n) => {
                            self.peeked = None;
                            self.pos = start + 5;
                            Ok(ListDeserializer { base: start, count: n, current: 0 })
                        },
                    }
                }
            },
        }
    }
}

impl ListDeserializer {
    /// Parse the next element, or report that every declared element has
    /// been consumed.
    pub fn next_element(&mut self, de: &mut ValueDeserializer) -> (r: Result<Option<Value>, Error>)
        requires
            old(de).wf(),
            old(self).base <= old(de).bytes@.len(),
        ensures
            final(de).wf(),
            final(de).bytes@ == old(de).bytes@,
            final(de).hashes@ == old(de).hashes@,
            final(de).reference.raw@ == old(de).reference.raw@,
            final(de).reference.file_offset == old(de).reference.file_offset,
            final(self).base == old(self).base,
            final(self).count == old(self).count,
            match r {
                Ok(opt) => match opt {
                    None => old(self).current >= old(self).count && *final(self) == *old(self)
                        && *final(de) == *old(de),
                    Some(v) => {
                        &&& old(self).current < old(self).count
                        &&& final(self).current == old(self).current + 1
                        &&& old(self).base + 5 + 4 * (old(self).current as int) + 4 <= old(
                            de,
                        ).bytes@.len()
                        &&& parse_at(
                            old(de).ctx(),
                            list_elem_off(
                                old(de).bytes@,
                                old(self).base as int,
                                old(self).current as int,
                            ),
                            old(de).fuel(),
                        ) == Ok::<_, DecodeErr>((v@, final(de).pos as int))
                        &&& final(de).peeked is None
                    },
                },
                Err(e) => old(self).current < old(self).count && e.position_stack@.len() >= 1
                    && ({
                    let q = old(self).base + 5 + 4 * (old(self).current as int);
                    if q + 4 > old(de).bytes@.len() {
                        e.cause@ == DecodeErr::Eof(q)
                    } else {
                        parse_at(
                            old(de).ctx(),
                            list_elem_off(
                                old(de).bytes@,
                                old(self).base as int,
                                old(self).current as int,
                            ),
                            old(de).fuel(),
                        ) matches Err(k) && e.cause@ == k
                    }
                }),
            },
    {
        if self.current >= self.count {
            return Ok(None);
        }
        let bytes_len = de.bytes.len();
        let q64: u64 = self.base as u64 + 5 + 4 * (self.current as u64);
        if q64 + 4 > bytes_len as u64 {
            return Err(kind_err(ErrorKind::Eof(q64), ParseId::List, q64));
        }
        let q = q64 as usize;
        let rel = match read_u32_at(de.bytes, q) {
            Some(w) => w,
            None => {
                return Err(kind_err(ErrorKind::Eof(q64), ParseId::List, q64));
            },
        };
        let off = self.base as u64 + rel as u64;
        let fuel = if bytes_len == 0 {
            1
        } else {
            bytes_len
        };
        if off >= bytes_len as u64 {
            return Err(kind_err(ErrorKind::Eof(off), ParseId::List, off));
        }
        match parse_value_at(de.bytes, de.hashes, &mut de.reference, off as usize, fuel) {
            Ok((v, p)) => {
                de.pos = p;
                de.peeked = None;
                self.current = self.current + 1;
                Ok(Some(v))
            },
            Err(mut e) => {
                e.push_frame(ParseId::List, Some(off));
                Err(e)
            },
        }
    }

    /// If iteration stopped before the declared count, parse (and discard)
    /// the final declared element so that the stream cursor lands exactly
    /// after the construct, where the next sibling value begins.
    pub fn finish(&mut self, de: &mut ValueDeserializer) -> (r: Result<(), Error>)
        requires
            old(de).wf(),
            old(self).base <= old(de).bytes@.len(),
        ensures
            final(de).wf(),
            final(de).bytes@ == old(de).bytes@,
            final(de).hashes@ == old(de).hashes@,
            final(de).reference.raw@ == old(de).reference.raw@,
            final(de).reference.file_offset == old(de).reference.file_offset,
            match r {
                Ok(_) => {
                    if old(self).current < old(self).count {
                        &&& parse_at(
                            old(de).ctx(),
                            list_elem_off(
                                old(de).bytes@,
                                old(self).base as int,
                                old(self).count - 1,
                            ),
                            old(de).fuel(),
                        ) matches Ok(vp) && final(de).pos == vp.1
                        &&& final(de).peeked is None
                        &&& final(self).current == old(self).count
                    } else {
                        *final(de) == *old(de) && *final(self) == *old(self)
                    }
                },
                Err(e) => old(self).current < old(self).count && e.position_stack@.len() >= 1
                    && ({
                    let q = old(self).base + 5 + 4 * (old(self).count - 1);
                    if q + 4 > old(de).bytes@.len() {
                        e.cause@ == DecodeErr::Eof(q)
                    } else {
                        parse_at(
                            old(de).ctx(),
                            list_elem_off(
                                old(de).bytes@,
                                old(self).base as int,
                                old(self).count - 1,
                            ),
                            old(de).fuel(),
                        ) matches Err(k) && e.cause@ == k
                    }
                }),
            },
    {
        if self.current >= self.count {
            return Ok(());
        }
        let bytes_len = de.bytes.len();
        let q64: u64 = self.base as u64 + 5 + 4 * ((self.count - 1) as u64);
        if q64 + 4 > bytes_len as u64 {
            return Err(kind_err(ErrorKind::Eof(q64), ParseId::List, q64));
        }
        let q = q64 as usize;
        let rel = match read_u32_at(de.bytes, q) {
            Some(w) => w,
            None => {
                return Err(kind_err(ErrorKind::Eof(q64), ParseId::List, q64));
            },
        };
        let off = self.base as u64 + rel as u64;
        let fuel = if bytes_len == 0 {
            1
        } else {
            bytes_len
        };
        if off >= bytes_len as u64 {
            return Err(kind_err(ErrorKind::Eof(off), ParseId::List, off));
        }
        match parse_value_at(de.bytes, de.hashes, &mut de.reference, off as usize, fuel) {
            Ok((_, p)) => {
                de.pos = p;
                de.peeked = None;
                self.current = self.count;
                Ok(())
            },
            Err(mut e) => {
                e.push_frame(ParseId::List, Some(off));
                Err(e)
            },
        }
    }
}

} // verus!

verus! {

/// A cursor over one encoded map: keys come from the header, values are
/// parsed on demand, and each value must be requested after its key.
/// Abandoned iteration is repaired by [`MapDeserializer::finish`].
pub struct MapDeserializer {
    pub keys: Vec<(Hash40, u64)>,
    pub current: usize,
    pub current_key: usize,
}

impl<'a> ValueDeserializer<'a> {
    /// Enter the map whose tag is at the cursor, resolving its header from
    /// the reference blob.
    pub fn begin_map(&mut self) -> (r: Result<MapDeserializer, Error>)
        requires
            old(self).wf(),
        ensures
            final(self).wf(),
            final(self).bytes@ == old(self).bytes@,
            final(self).hashes@ == old(self).hashes@,
            final(self).reference.raw@ == old(self).reference.raw@,
            final(self).reference.file_offset == old(self).reference.file_offset,
            match r {
                Ok(md) => {
                    &&& old(self).start_pos() < old(self).bytes@.len()
                    &&& old(self).bytes@[old(self).start_pos()] == 12u8
                    &&& old(self).start_pos() + 9 <= old(self).bytes@.len()
                    &&& ({
                        let start = old(self).start_pos();
                        let n = spec_u32_from_le_bytes(
                            old(self).bytes@.subrange(start + 1, start + 5),
                        );
                        let refoff = spec_u32_from_le_bytes(
                            old(self).bytes@.subrange(start + 5, start + 9),
                        );
                        let ph = parse_header(
                            old(self).reference.raw@,
                            hashes_view(old(self).hashes@),
                            old(self).reference.file_offset as int,
                            refoff as int,
                            n as int,
                        );
                        &&& ph matches Ok(pairs)
                        &&& md.keys@.len() == pairs.len()
                        &&& forall|i: int|
                            0 <= i < pairs.len() ==> (#[trigger] md.keys@[i]).0.0 == pairs[i].0
                                && md.keys@[i].1 == start + pairs[i].1
                    })
                    &&& md.current == 0
                    &&& md.current_key == 0
                    &&& final(self).pos == old(self).start_pos() + 9
                    &&& final(self).peeked is None
                },
                Err(e) => ({
                    let start = old(self).start_pos();
                    let blen = old(self).bytes@.len() as int;
                    &&& final(self).pos == old(self).pos
                    &&& final(self).peeked == old(self).peeked
                    &&& e.position_stack@.len() >= 1
                    &&& (start >= blen ==> e.cause@ == DecodeErr::Eof(start))
                    &&& (start < blen && old(self).bytes@[start] != 12u8 ==> e.cause@
                        == DecodeErr::Other("expected a map at the cursor"@))
                    &&& (start < blen && old(self).bytes@[start] == 12u8 && start + 9 > blen
                        ==> e.cause@ == DecodeErr::Eof(start + 1))
                    &&& (start < blen && old(self).bytes@[start] == 12u8 && start + 9 <= blen
                        ==> (parse_header(
                        old(self).reference.raw@,
                        hashes_view(old(self).hashes@),
                        old(self).reference.file_offset as int,
                        spec_u32_from_le_bytes(
                            old(self).bytes@.subrange(start + 5, start + 9),
                        ) as int,
                        spec_u32_from_le_bytes(
                            old(self).bytes@.subrange(start + 1, start + 5),
                        ) as int,
                    ) matches Err(k) && e.cause@ == k))
                }),
            },
    {
        let _bytes_len = self.bytes.len();
        let start = match self.peeked {
            Some(_) => self.pos - 1,
            None => self.pos,
        };
        match read_u8_at(self.bytes, start) {
            None => Err(kind_err(ErrorKind::Eof(start as u64), ParseId::ParamId, start as u64)),
            Some(b) => {
                if b != 12 {
                    Err(
                        kind_err(
                            ErrorKind::Custom(
                                "expected a map at the cursor".to_owned(),
                            ),
                            ParseId::Dict,
                            start as u64,
                        ),
                    )
                } else {
                    let n = match read_u32_at(self.bytes, start + 1) {
                        Some(w) => w,
                        None => {
                            return Err(
                                kind_err(
                                    ErrorKind::Eof((start + 1) as u64),
                                    ParseId::Dict,
                                    start as u64,
                                ),
                            );
                        },
                    };
                    let refoff = match read_u32_at(self.bytes, start + 5) {
                        Some(w) => w,
                        None => {
                            return Err(
                                kind_err(
                                    ErrorKind::Eof((start + 1) as u64),
                                    ParseId::Dict,
                                    start as u64,
                                ),
                            );
                        },
                    };
                    let keys = match self.reference.get_map(
                        self.hashes,
                        refoff,
                        n,
                        start as u64,
                    ) {
                        Ok(ks) => ks,
                        Err(mut e) => {
                            e.push_frame(ParseId::Dict, Some((start + 9) as u64));
                            return Err(e);
                        },
                    };
                    self.peeked = None;
                    self.pos = start + 9;
                    Ok(MapDeserializer { keys, current: 0, current_key: 0 })
                }
            },
        }
    }
}

impl MapDeserializer {
    /// The key of the next entry, or `None` when every declared entry has
    /// been consumed. Its value must be requested before the following key.
    pub fn next_key(&mut self) -> (r: Option<Hash40>)
        ensures
            final(self).keys == old(self).keys,
            match r {
                Some(k) => old(self).current < old(self).keys@.len() && k == old(
                    self,
                ).keys@[old(self).current as int].0 && final(self).current == old(self).current + 1
                    && final(self).current_key == old(self).current,
                None => old(self).current >= old(self).keys@.len() && *final(self) == *old(self),
            },
    {
        if self.current >= self.keys.len() {
            return None;
        }
        let k = self.keys[self.current].0;
        self.current_key = self.current;
        self.current = self.current + 1;
        Some(k)
    }

    /// Parse the value belonging to the key last returned by
    /// [`MapDeserializer::next_key`]; requesting it twice, or before any
    /// key, is a protocol error.
    pub fn next_value(&mut self, de: &mut ValueDeserializer) -> (r: Result<Value, Error>)
        requires
            old(de).wf(),
        ensures
            final(de).wf(),
            final(de).bytes@ == old(de).bytes@,
            final(de).hashes@ == old(de).hashes@,
            final(de).reference.raw@ == old(de).reference.raw@,
            final(de).reference.file_offset == old(de).reference.file_offset,
            final(self).keys == old(self).keys,
            final(self).current == old(self).current,
            match r {
                Ok(v) => {
                    &&& old(self).current_key != old(self).current
                    &&& old(self).current_key < old(self).keys@.len()
                    &&& parse_at(
                        old(de).ctx(),
                        old(self).keys@[old(self).current_key as int].1 as int,
                        old(de).fuel(),
                    ) == Ok::<_, DecodeErr>((v@, final(de).pos as int))
                    &&& final(self).current_key == final(self).current
                    &&& final(de).peeked is None
                },
                Err(e) => {
                    if old(self).current_key == old(self).current || old(self).current_key >= old(
                        self,
                    ).keys@.len() {
                        &&& e.cause@ == DecodeErr::Other(
                            "logical error requesting value before key"@,
                        )
                        &&& *final(de) == *old(de)
                        &&& *final(self) == *old(self)
                    } else {
                        (parse_at(
                            old(de).ctx(),
                            old(self).keys@[old(self).current_key as int].1 as int,
                            old(de).fuel(),
                        ) matches Err(k) && e.cause@ == k) && e.position_stack@.len() >= 1
                    }
                },
            },
    {
        if self.current_key == self.current || self.current_key >= self.keys.len() {
            return Err(
                Error::from_kind(
                    ErrorKind::Custom(
                        "logical error requesting value before key".to_owned(),
                    ),
                ),
            );
        }
        let bytes_len = de.bytes.len();
        let off = self.keys[self.current_key].1;
        let fuel = if bytes_len == 0 {
            1
        } else {
            bytes_len
        };
        if off >= bytes_len as u64 {
            return Err(kind_err(ErrorKind::Eof(off), ParseId::Dict, off));
        }
        match parse_value_at(de.bytes, de.hashes, &mut de.reference, off as usize, fuel) {
            Ok((v, p)) => {
                de.pos = p;
                de.peeked = None;
                self.current_key = self.current;
                Ok(v)
            },
            Err(mut e) => {
                e.push_frame(ParseId::Dict, Some(off));
                Err(e)
            },
        }
    }

    /// If iteration stopped before the declared count, parse (and discard)
    /// the final declared value so that the stream cursor lands exactly
    /// after the construct.
    pub fn finish(&mut self, de: &mut ValueDeserializer) -> (r: Result<(), Error>)
        requires
            old(de).wf(),
        ensures
            final(de).wf(),
            final(de).bytes@ == old(de).bytes@,
            final(de).hashes@ == old(de).hashes@,
            final(de).reference.raw@ == old(de).reference.raw@,
            final(de).reference.file_offset == old(de).reference.file_offset,
            match r {
                Ok(_) => {
                    if old(self).current < old(self).keys@.len() {
                        &&& parse_at(
                            old(de).ctx(),
                            old(self).keys@[old(self).keys@.len() - 1].1 as int,
                            old(de).fuel(),
                        ) matches Ok(vp) && final(de).pos == vp.1
                        &&& final(de).peeked is None
                        &&& final(self).current == old(self).keys@.len()
                    } else {
                        *final(de) == *old(de) && *final(self) == *old(self)
                    }
                },
                Err(e) => old(self).current < old(self).keys@.len() && e.position_stack@.len()
                    >= 1 && (parse_at(
                    old(de).ctx(),
                    old(self).keys@[old(self).keys@.len() - 1].1 as int,
                    old(de).fuel(),
                ) matches Err(k) && e.cause@ == k),
            },
    {
        if self.current >= self.keys.len() {
            return Ok(());
        }
        let bytes_len = de.bytes.len();
        let off = self.keys[self.keys.len() - 1].1;
        let fuel = if bytes_len == 0 {
            1
        } else {
            bytes_len
        };
        if off >= bytes_len as u64 {
            return Err(kind_err(ErrorKind::Eof(off), ParseId::Dict, off));
        }
        match parse_value_at(de.bytes, de.hashes, &mut de.reference, off as usize, fuel) {
            Ok((_, p)) => {
                de.pos = p;
                de.peeked = None;
                self.current = self.keys.len();
                Ok(())
            },
            Err(mut e) => {
                e.push_frame(ParseId::Dict, Some(off));
                Err(e)
            },
        }
    }
}

} // verus!

verus! {

use crate::wire::parse_doc;
use crate::wire::magic;

/// Decode a whole document from memory: validate the signature and header
/// lengths, load the hash table and reference blob, then parse the single
/// top-level value. The result, success or failure, is exactly
/// [`parse_doc`] of the input.
pub fn from_slice(bytes: &[u8]) -> (r: Result<Value, Error>)
    requires
        bytes@.len() <= 0xffff_0000_0000_0000u64,
    ensures
        match r {
            Ok(v) => parse_doc(bytes@) == Ok::<_, DecodeErr>(v@),
            Err(e) => parse_doc(bytes@) matches Err(k) && e.cause@ == k,
        },
{
    let bytes_len = bytes.len();
    if bytes_len < 8 {
        return Err(Error::from_kind(ErrorKind::Eof(0)));
    }
    if !(bytes[0] == 0x70 && bytes[1] == 0x61 && bytes[2] == 0x72 && bytes[3] == 0x61 && bytes[4]
        == 0x63 && bytes[5] == 0x6f && bytes[6] == 0x62 && bytes[7] == 0x6e) {
        proof {
            assert(bytes@.subrange(0, 8) != magic());
        }
        return Err(Error::from_kind(ErrorKind::BadMagic));
    }
    proof {
        assert(bytes@.subrange(0, 8) =~= magic());
    }
    if bytes_len < 16 {
        return Err(Error::from_kind(ErrorKind::Eof(8)));
    }
    let h = read_u32_at(bytes, 8).unwrap();
    let rlen = read_u32_at(bytes, 12).unwrap();
    if h % 8 != 0 {
        return Err(Error::from_kind(ErrorKind::BadHashTableLen(h)));
    }
    if 16 + h as u64 > bytes_len as u64 {
        return Err(Error::from_kind(ErrorKind::Eof(16)));
    }
    if 16 + h as u64 + rlen as u64 > bytes_len as u64 {
        return Err(Error::from_kind(ErrorKind::Eof(16 + h as u64)));
    }
    let hcount = (h / 8) as usize;
    let mut hashes: Vec<Hash40> = Vec::new();
    let mut i: usize = 0;
    while i < hcount
        invariant
            i <= hcount,
            hcount == (h as int) / 8,
            h % 8 == 0,
            16 + h as int <= bytes@.len(),
            hashes@.len() == i,
            forall|j: int|
                0 <= j < i ==> (#[trigger] hashes@[j]).0 == spec_u64_from_le_bytes(
                    bytes@.subrange(16 + 8 * j, 16 + 8 * j + 8),
                ),
        decreases hcount - i,
    {
        let w = read_u64_at(bytes, 16 + 8 * i).unwrap();
        hashes.push(Hash40(w));
        i = i + 1;
    }
    let hstart = 16 + h as usize;
    let blob = vstd::slice::slice_to_vec(
        vstd::slice::slice_subrange(bytes, hstart, hstart + rlen as usize),
    );
    let rd = ReferenceData::new(blob, 8 + h as u64);
    let mut de = ValueDeserializer::new(rd, hashes.as_slice(), bytes);
    de.pos = hstart + rlen as usize;
    proof {
        let spec_hs = Seq::new(
            ((h as int) / 8) as nat,
            |j: int| spec_u64_from_le_bytes(bytes@.subrange(16 + 8 * j, 16 + 8 * j + 8)),
        );
        assert(hashes_view(hashes@) =~= spec_hs);
    }
    match de.parse_value() {
        Ok(v) => Ok(v),
        Err(e) => Err(e),
    }
}

} // verus!

verus! {

use crate::wire::lemma_list_catch_up;
use crate::wire::lemma_parse_at_fuel_mono;
use crate::wire::lemma_read_u32s_index;
use crate::wire::lemma_read_u32s_len;

/// Partial-consumption cursor correctness: when a whole non-empty list
/// parses successfully from `pos`, parsing only its final declared element
/// (under any budget at least as generous as the elements had) ends at
/// exactly the position full consumption reaches. A consumer that stops
/// early therefore resynchronizes the stream by parsing the last element,
/// which is what [`ListDeserializer::finish`] does.
pub proof fn lemma_partial_consumption(c: PCtx, pos: int, fuel: nat, big: nat)
    requires
        parse_at(c, pos, fuel) is Ok,
        0 <= pos < c.bytes.len(),
        c.bytes[pos] == 11u8,
        pos + 5 <= c.bytes.len(),
        spec_u32_from_le_bytes(c.bytes.subrange(pos + 1, pos + 5)) > 0,
        big >= fuel - 1,
        fuel >= 1,
    ensures
        ({
            let n = spec_u32_from_le_bytes(c.bytes.subrange(pos + 1, pos + 5)) as int;
            parse_at(c, list_elem_off(c.bytes, pos, n - 1), big) matches Ok(vp) && vp.1 == parse_at(
                c,
                pos,
                fuel,
            )->Ok_0.1
        }),
{
    let n = spec_u32_from_le_bytes(c.bytes.subrange(pos + 1, pos + 5)) as int;
    let f1 = (fuel - 1) as nat;
    let rels = read_u32s(c.bytes, pos + 5, n)->Ok_0;
    let offs = Seq::new(rels.len(), |i: int| pos + rels[i]);
    lemma_read_u32s_len(c.bytes, pos + 5, n);
    lemma_read_u32s_index(c.bytes, pos + 5, n, n - 1);
    lemma_list_catch_up(c, offs, pos + 5 + 4 * n, f1);
    let end = parse_list_from(c, offs, 0, pos + 5 + 4 * n, f1)->Ok_0.1;
    assert(offs[n - 1] == list_elem_off(c.bytes, pos, n - 1));
    lemma_parse_at_fuel_mono(c, offs[n - 1], f1, big);
}

} // verus!
