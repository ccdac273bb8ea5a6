//! Binary glTF (GLB) container framing.
//!
//! A GLB file is a 12-byte header (magic `glTF`, version, total length)
//! followed by chunks, each a little-endian length, a 4-byte type and the
//! data. The JSON chunk is padded to 4 bytes with spaces, the binary chunk
//! with zeros.

use vstd::prelude::*;
use vstd::slice::slice_subrange;
use crate::reader::le32;

verus! {

/// The GLB container version this module reads and writes.
pub const GLB_VERSION: u32 = 2;

/// Failure to parse a GLB container.
#[derive(Debug, Clone, Copy, PartialEq, Eq)]
pub enum Error {
    /// The file does not start with `glTF`.
    InvalidMagic,
    /// The container version is not 2.
    UnsupportedVersion(u32),
    /// The file is shorter than its header or its declared length.
    FileTooShort { expected: usize, actual: usize },
    /// A chunk type is not recognised.
    InvalidChunkType { offset: usize },
    /// No JSON chunk was found.
    MissingJsonChunk,
}

/// Parsed GLB file contents.
#[derive(Debug)]
pub struct GlbData {
    /// JSON chunk content, trailing spaces removed.
    pub json: Vec<u8>,
    /// Binary buffer chunk content (empty without a BIN chunk).
    pub buffer: Vec<u8>,
}

/// The four magic bytes `glTF`.
pub open spec fn magic_bytes() -> Seq<u8> {
    seq![103u8, 108u8, 84u8, 70u8]
}

/// The JSON chunk type `JSON`.
pub open spec fn json_type() -> Seq<u8> {
    seq![74u8, 83u8, 79u8, 78u8]
}

/// The binary chunk type `BIN\0`.
pub open spec fn bin_type() -> Seq<u8> {
    seq![66u8, 73u8, 78u8, 0u8]
}

/// The little-endian u32 at byte `i` of `d`.
pub open spec fn le32_at(d: Seq<u8>, i: int) -> nat {
    le32(d[i], d[i + 1], d[i + 2], d[i + 3]) as nat
}

/// `s` without its trailing spaces.
pub open spec fn strip_trailing_spaces(s: Seq<u8>) -> Seq<u8>
    decreases s.len(),
{
    if s.len() > 0 && s.last() == 32u8 {
        strip_trailing_spaces(s.drop_last())
    } else {
        s
    }
}

/// Walks the chunks from `off` up to `total`: the last JSON chunk (stripped
/// of trailing spaces) and the last BIN chunk win; other chunk types are
/// passed over; a chunk running past `total` ends the walk.
#[verifier::opaque]
pub open spec fn scan_chunks(
    d: Seq<u8>,
    off: nat,
    total: nat,
    json: Option<Seq<u8>>,
    bin: Seq<u8>,
) -> (Option<Seq<u8>>, Seq<u8>)
    decreases total - off,
{
    if off + 8 > total {
        (json, bin)
    } else {
        let end = off + 8 + le32_at(d, off as int);
        if end > total {
            (json, bin)
        } else if d.subrange(off + 4int, off + 8int) == json_type() {
            scan_chunks(d, end, total, Some(strip_trailing_spaces(d.subrange(off + 8int, end as int))), bin)
        } else if d.subrange(off + 4int, off + 8int) == bin_type() {
            scan_chunks(d, end, total, json, d.subrange(off + 8int, end as int))
        } else {
            scan_chunks(d, end, total, json, bin)
        }
    }
}

/// What parsing `d` gives: the JSON and binary chunk contents, or the error.
pub open spec fn glb_parse(d: Seq<u8>) -> Result<(Seq<u8>, Seq<u8>), Error> {
    if d.len() < 20 {
        Err(Error::FileTooShort { expected: 20, actual: d.len() as usize })
    } else if d.subrange(0, 4) != magic_bytes() {
        Err(Error::InvalidMagic)
    } else if le32_at(d, 4) != 2 {
        Err(Error::UnsupportedVersion(le32_at(d, 4) as u32))
    } else if d.len() < le32_at(d, 8) {
        Err(Error::FileTooShort { expected: le32_at(d, 8) as usize, actual: d.len() as usize })
    } else {
        match scan_chunks(d, 12, le32_at(d, 8), None, Seq::empty()) {
            (Some(j), b) => Ok((j, b)),
            (None, _) => Err(Error::MissingJsonChunk),
        }
    }
}

/// Reads the little-endian u32 at byte `i`.
fn read_le32(d: &[u8], i: usize) -> (v: u32)
    requires
        i + 4 <= d@.len(),
    ensures
        v == le32_at(d@, i as int),
{
    d[i] as u32 + 256 * (d[i + 1] as u32) + 65536 * (d[i + 2] as u32) + 16777216 * (d[i + 3] as u32)
}

/// Whether the four bytes at `i` equal `t`.
fn bytes_eq4(d: &[u8], i: usize, t0: u8, t1: u8, t2: u8, t3: u8) -> (b: bool)
    requires
        i + 4 <= d@.len(),
    ensures
        b <==> d@.subrange(i as int, i + 4) == seq![t0, t1, t2, t3],
{
    let b = d[i] == t0 && d[i + 1] == t1 && d[i + 2] == t2 && d[i + 3] == t3;
    proof {
        if b {
            assert(d@.subrange(i as int, i + 4) =~= seq![t0, t1, t2, t3]);
        } else if d@.subrange(i as int, i + 4) == seq![t0, t1, t2, t3] {
            assert(d@.subrange(i as int, i + 4)[0] == t0);
            assert(d@.subrange(i as int, i + 4)[1] == t1);
            assert(d@.subrange(i as int, i + 4)[2] == t2);
            assert(d@.subrange(i as int, i + 4)[3] == t3);
        }
    }
    b
}

/// Copies `s` without its trailing spaces.
fn strip_spaces(s: &[u8]) -> (out: Vec<u8>)
    ensures
        out@ == strip_trailing_spaces(s@),
{
    let mut n = s.len();
    proof {
        assert(s@.subrange(0, n as int) =~= s@);
    }
    while n > 0 && s[n - 1] == 32
        invariant
            n <= s@.len(),
            strip_trailing_spaces(s@) == strip_trailing_spaces(s@.subrange(0, n as int)),
        decreases n,
    {
        proof {
            assert(s@.subrange(0, n as int).drop_last() =~= s@.subrange(0, n - 1));
        }
        n -= 1;
    }
    let mut out: Vec<u8> = Vec::new();
    let mut i: usize = 0;
    while i < n
        invariant
            i <= n <= s@.len(),
            out@ == s@.subrange(0, i as int),
        decreases n - i,
    {
        out.push(s[i]);
        proof {
            assert(out@ =~= s@.subrange(0, i + 1));
        }
        i += 1;
    }
    out
}

/// Copies a byte slice.
fn copy_bytes(s: &[u8]) -> (out: Vec<u8>)
    ensures
        out@ == s@,
{
    let mut out: Vec<u8> = Vec::new();
    let mut i: usize = 0;
    while i < s.len()
        invariant
            i <= s@.len(),
            out@ == s@.subrange(0, i as int),
        decreases s.len() - i,
    {
        out.push(s[i]);
        proof {
            assert(out@ =~= s@.subrange(0, i + 1));
        }
        i += 1;
    }
    proof {
        assert(out@ =~= s@);
    }
    out
}

/// Parses a GLB file: checks the header, then walks the chunks, keeping the
/// JSON chunk (trailing spaces removed) and the binary chunk.
pub fn parse_glb(data: &[u8]) -> (r: Result<GlbData, Error>)
    ensures
        match glb_parse(data@) {
            Ok((j, b)) => r matches Ok(g) && g.json@ == j && g.buffer@ == b,
            Err(e) => r == Err::<GlbData, Error>(e),
        },
{
    if data.len() < 20 {
        return Err(Error::FileTooShort { expected: 20, actual: data.len() });
    }
    if !bytes_eq4(data, 0, 103, 108, 84, 70) {
        return Err(Error::InvalidMagic);
    }
    let version = read_le32(data, 4);
    if version != GLB_VERSION {
        return Err(Error::UnsupportedVersion(version));
    }
    let total32 = read_le32(data, 8);
    let total_length = total32 as usize;
    if data.len() < total_length {
        return Err(Error::FileTooShort { expected: total_length, actual: data.len() });
    }
    let mut offset: usize = 12;
    proof {
        reveal(scan_chunks);
    }
    let mut json_data: Option<Vec<u8>> = None;
    let mut bin_data: Vec<u8> = Vec::new();
    while offset < total_length && total_length - offset >= 8
        invariant
            12 <= offset <= data@.len(),
            data@.len() >= 20,
            total_length <= data@.len(),
            total_length == le32_at(data@, 8),
            scan_chunks(data@, 12, total_length as nat, None, Seq::empty()) == scan_chunks(
                data@,
                offset as nat,
                total_length as nat,
                match json_data {
                    Some(j) => Some(j@),
                    None => None,
                },
                bin_data@,
            ),
            offset + 8 > total_length ==> scan_chunks(
                data@,
                offset as nat,
                total_length as nat,
                match json_data {
                    Some(j) => Some(j@),
                    None => None,
                },
                bin_data@,
            ) == (
                match json_data {
                    Some(j) => Some(j@),
                    None => None,
                },
                bin_data@,
            ),
        ensures
            scan_chunks(data@, 12, total_length as nat, None, Seq::empty()) == (
                match json_data {
                    Some(j) => Some(j@),
                    None => None,
                },
                bin_data@,
            ),
        decreases total_length - offset,
    {
        proof {
            reveal(scan_chunks);
        }
        let chunk_length = read_le32(data, offset);
        let chunk_data_start = offset + 8;
        if chunk_data_start as u64 + chunk_length as u64 > total_length as u64 {
            break;
        }
        let chunk_data_end = chunk_data_start + chunk_length as usize;
        let chunk = slice_subrange(data, chunk_data_start, chunk_data_end);
        if bytes_eq4(data, offset + 4, 74, 83, 79, 78) {
            json_data = Some(strip_spaces(chunk));
        } else if bytes_eq4(data, offset + 4, 66, 73, 78, 0) {
            bin_data = copy_bytes(chunk);
        }
        offset = chunk_data_end;
    }
    proof {
        assert(data@.subrange(0, 4) == magic_bytes());
    }
    match json_data {
        Some(json) => Ok(GlbData { json, buffer: bin_data }),
        None => Err(Error::MissingJsonChunk),
    }
}

/// `n` rounded up to a multiple of four.
pub open spec fn pad4(n: nat) -> nat {
    ((n + 3) / 4 * 4) as nat
}

/// The four little-endian bytes of `v` modulo 2^32.
pub open spec fn le32_bytes(v: nat) -> Seq<u8> {
    seq![
        (v % 256) as u8,
        ((v / 256) % 256) as u8,
        ((v / 65536) % 256) as u8,
        ((v / 16777216) % 256) as u8,
    ]
}

/// `n` space bytes.
pub open spec fn spaces(n: nat) -> Seq<u8> {
    Seq::new(n, |i: int| 32u8)
}

/// `n` zero bytes.
pub open spec fn zeros(n: nat) -> Seq<u8> {
    Seq::new(n, |i: int| 0u8)
}

/// Total length of the GLB file holding a JSON chunk of `jl` bytes and a
/// binary chunk of `bl` bytes (none when `bl` is zero).
pub open spec fn glb_total(jl: nat, bl: nat) -> nat {
    20 + pad4(jl) + if bl == 0 {
        0
    } else {
        8 + pad4(bl)
    }
}

/// The binary chunk written for `buffer`: nothing when it is empty.
pub open spec fn bin_chunk(buffer: Seq<u8>) -> Seq<u8> {
    if buffer.len() == 0 {
        Seq::empty()
    } else {
        le32_bytes(pad4(buffer.len()) % 0x1_0000_0000) + bin_type() + buffer + zeros(
            (pad4(buffer.len()) - buffer.len()) as nat,
        )
    }
}

/// The JSON chunk written for `json`.
pub open spec fn json_chunk(json: Seq<u8>) -> Seq<u8> {
    le32_bytes(pad4(json.len()) % 0x1_0000_0000) + json_type() + json + spaces(
        (pad4(json.len()) - json.len()) as nat,
    )
}

/// The 12-byte file header for a file of `total` bytes.
pub open spec fn header_bytes(total: nat) -> Seq<u8> {
    magic_bytes() + le32_bytes(2) + le32_bytes(total % 0x1_0000_0000)
}

/// The bytes of the GLB file written for `json` and `buffer`.
#[verifier::opaque]
pub open spec fn glb_bytes(json: Seq<u8>, buffer: Seq<u8>) -> Seq<u8> {
    header_bytes(glb_total(json.len(), buffer.len())) + json_chunk(json) + bin_chunk(buffer)
}

/// Appends four bytes.
fn push4(out: &mut Vec<u8>, a: u8, b: u8, c: u8, d: u8)
    ensures
        final(out)@ == old(out)@ + seq![a, b, c, d],
{
    out.push(a);
    out.push(b);
    out.push(c);
    out.push(d);
    proof {
        assert(final(out)@ =~= old(out)@ + seq![a, b, c, d]);
    }
}

/// Appends the four little-endian bytes of `v`.
fn push_le32(out: &mut Vec<u8>, v: u32)
    ensures
        final(out)@ == old(out)@ + le32_bytes(v as nat),
{
    out.push((v % 256) as u8);
    out.push(((v / 256) % 256) as u8);
    out.push(((v / 65536) % 256) as u8);
    out.push(((v / 16777216) % 256) as u8);
    proof {
        assert(final(out)@ =~= old(out)@ + le32_bytes(v as nat));
    }
}

/// Appends the bytes of `s`.
fn push_all(out: &mut Vec<u8>, s: &[u8])
    ensures
        final(out)@ == old(out)@ + s@,
{
    let mut i: usize = 0;
    while i < s.len()
        invariant
            i <= s@.len(),
            out@ == old(out)@ + s@.subrange(0, i as int),
        decreases s.len() - i,
    {
        out.push(s[i]);
        proof {
            assert(out@ =~= old(out)@ + s@.subrange(0, i + 1));
        }
        i += 1;
    }
    proof {
        assert(s@.subrange(0, s@.len() as int) =~= s@);
    }
}

/// Appends `n` copies of `byte`.
fn push_fill(out: &mut Vec<u8>, n: usize, byte: u8)
    ensures
        final(out)@ == old(out)@ + Seq::new(n as nat, |i: int| byte),
{
    let mut i: usize = 0;
    while i < n
        invariant
            i <= n,
            out@ == old(out)@ + Seq::new(i as nat, |k: int| byte),
        decreases n - i,
    {
        out.push(byte);
        proof {
            assert(out@ =~= old(out)@ + Seq::new((i + 1) as nat, |k: int| byte));
        }
        i += 1;
    }
}

/// Appends a chunk: its padded length, its type, `data`, then `fill`
/// bytes up to a multiple of four.
fn push_chunk(out: &mut Vec<u8>, data: &[u8], t0: u8, t1: u8, t2: u8, t3: u8, fill: u8)
    requires
        data@.len() + 3 <= usize::MAX,
    ensures
        final(out)@ == old(out)@ + le32_bytes(pad4(data@.len()) % 0x1_0000_0000) + seq![t0, t1, t2, t3] + data@ + Seq::new(
            (pad4(data@.len()) - data@.len()) as nat,
            |i: int| fill,
        ),
{
    let padded = (data.len() + 3) / 4 * 4;
    push_le32(out, (padded as u64 % 0x1_0000_0000u64) as u32);
    push4(out, t0, t1, t2, t3);
    push_all(out, data);
    push_fill(out, padded - data.len(), fill);
    proof {
        assert(final(out)@ =~= old(out)@ + le32_bytes(pad4(data@.len()) % 0x1_0000_0000) + seq![t0, t1, t2, t3] + data@ + Seq::new(
            (pad4(data@.len()) - data@.len()) as nat,
            |i: int| fill,
        ));
    }
}

/// Writes a GLB file holding `json` (padded with spaces) and, when it is not
/// empty, `buffer` (padded with zeros), appending to `writer`. The length
/// fields are written modulo 2^32.
#[verifier::rlimit(30)]
pub fn write_glb(writer: &mut Vec<u8>, json: &[u8], buffer: &[u8]) -> (r: Result<(), Error>)
    requires
        json@.len() + buffer@.len() + 40 <= usize::MAX,
    ensures
        r is Ok,
        final(writer)@ == old(writer)@ + glb_bytes(json@, buffer@),
{
    let json_padded_len = (json.len() + 3) / 4 * 4;
    let buffer_padded_len = if buffer.len() == 0 {
        0
    } else {
        (buffer.len() + 3) / 4 * 4
    };
    let total_length = 12 + 8 + json_padded_len + if buffer_padded_len > 0 {
        8 + buffer_padded_len
    } else {
        0
    };
    let ghost w0 = writer@;
    push4(writer, 103, 108, 84, 70);
    push_le32(writer, GLB_VERSION);
    push_le32(writer, (total_length as u64 % 0x1_0000_0000u64) as u32);
    let ghost w1 = writer@;
    proof {
        assert(w1 =~= w0 + header_bytes(glb_total(json@.len(), buffer@.len())));
    }
    push_chunk(writer, json, 74, 83, 79, 78, 32);
    let ghost w2 = writer@;
    proof {
        assert(Seq::new((pad4(json@.len()) - json@.len()) as nat, |i: int| 32u8) =~= spaces(
            (pad4(json@.len()) - json@.len()) as nat,
        ));
        assert(w2 =~= w1 + json_chunk(json@));
    }
    if buffer_padded_len > 0 {
        push_chunk(writer, buffer, 66, 73, 78, 0, 0);
        proof {
            assert(Seq::new((pad4(buffer@.len()) - buffer@.len()) as nat, |i: int| 0u8) =~= zeros(
                (pad4(buffer@.len()) - buffer@.len()) as nat,
            ));
            assert(writer@ =~= w2 + bin_chunk(buffer@));
        }
    } else {
        assert(writer@ =~= w2 + bin_chunk(buffer@));
    }
    assert(writer@ =~= w0 + glb_bytes(json@, buffer@)) by {
        reveal(glb_bytes);
    }
    Ok(())
}

/// The four bytes of `v` read back give `v`.
proof fn lemma_le32_bytes(v: nat)
    requires
        v < 0x1_0000_0000,
    ensures
        le32(le32_bytes(v)[0], le32_bytes(v)[1], le32_bytes(v)[2], le32_bytes(v)[3]) == v,
{
    let q0 = v / 256;
    let q1 = q0 / 256;
    let q2 = q1 / 256;
    assert(v / 65536 == q1) by {
        vstd::arithmetic::div_mod::lemma_div_denominator(v as int, 256, 256);
    }
    assert(v / 16777216 == q2) by {
        vstd::arithmetic::div_mod::lemma_div_denominator(v as int, 65536, 256);
    }
    assert(q2 < 256);
}

/// Stripping trailing spaces ignores spaces appended to `s`.
proof fn lemma_strip_padding(s: Seq<u8>, k: nat)
    ensures
        strip_trailing_spaces(s + spaces(k)) == strip_trailing_spaces(s),
    decreases k,
{
    if k > 0 {
        assert((s + spaces(k)).drop_last() =~= s + spaces((k - 1) as nat));
        lemma_strip_padding(s, (k - 1) as nat);
    } else {
        assert(s + spaces(0) =~= s);
    }
}

/// The little-endian u32 at `i` is `v` when the four bytes there are those
/// of `v`.
proof fn lemma_le32_at(d: Seq<u8>, i: int, v: nat)
    requires
        0 <= i,
        i + 4 <= d.len(),
        d.subrange(i, i + 4) == le32_bytes(v),
        v < 0x1_0000_0000,
    ensures
        le32_at(d, i) == v,
{
    lemma_le32_bytes(v);
    assert(d[i] == d.subrange(i, i + 4)[0]);
    assert(d[i + 1] == d.subrange(i, i + 4)[1]);
    assert(d[i + 2] == d.subrange(i, i + 4)[2]);
    assert(d[i + 3] == d.subrange(i, i + 4)[3]);
}

/// Where the pieces of a written GLB file lie.
#[verifier::spinoff_prover]
proof fn lemma_glb_layout(json: Seq<u8>, buffer: Seq<u8>)
    ensures
        ({
            let d = glb_bytes(json, buffer);
            let pj = pad4(json.len()) as int;
            &&& d.len() == glb_total(json.len(), buffer.len())
            &&& d.subrange(0, 4) == magic_bytes()
            &&& d.subrange(4, 8) == le32_bytes(2)
            &&& d.subrange(8, 12) == le32_bytes(glb_total(json.len(), buffer.len()) % 0x1_0000_0000)
            &&& d.subrange(12, 16) == le32_bytes(pad4(json.len()) % 0x1_0000_0000)
            &&& d.subrange(16, 20) == json_type()
            &&& d.subrange(20, 20 + pj) == json + spaces((pad4(json.len()) - json.len()) as nat)
            &&& buffer.len() > 0 ==> {
                &&& d.subrange(20 + pj, 24 + pj) == le32_bytes(pad4(buffer.len()) % 0x1_0000_0000)
                &&& d.subrange(24 + pj, 28 + pj) == bin_type()
                &&& d.subrange(28 + pj, d.len() as int) == buffer + zeros(
                    (pad4(buffer.len()) - buffer.len()) as nat,
                )
            }
        }),
{
    let d = glb_bytes(json, buffer);
    let pj = pad4(json.len()) as int;
    let h = header_bytes(glb_total(json.len(), buffer.len()));
    let jc = json_chunk(json);
    let bc = bin_chunk(buffer);
    reveal(glb_bytes);
    assert(d =~= h + jc + bc);
    assert(d.subrange(0, 4) =~= magic_bytes());
    assert(d.subrange(4, 8) =~= le32_bytes(2));
    assert(d.subrange(8, 12) =~= le32_bytes(glb_total(json.len(), buffer.len()) % 0x1_0000_0000));
    assert(d.subrange(12, 16) =~= le32_bytes(pad4(json.len()) % 0x1_0000_0000));
    assert(d.subrange(16, 20) =~= json_type());
    assert(d.subrange(20, 20 + pj) =~= json + spaces((pad4(json.len()) - json.len()) as nat));
    if buffer.len() > 0 {
        assert(d.subrange(20 + pj, 24 + pj) =~= le32_bytes(pad4(buffer.len()) % 0x1_0000_0000));
        assert(d.subrange(24 + pj, 28 + pj) =~= bin_type());
        assert(d.subrange(28 + pj, d.len() as int) =~= buffer + zeros(
            (pad4(buffer.len()) - buffer.len()) as nat,
        ));
    }
}

/// The chunk walk stops when no chunk header fits before `total`.
proof fn lemma_scan_end(d: Seq<u8>, off: nat, total: nat, json: Option<Seq<u8>>, bin: Seq<u8>)
    requires
        off + 8 > total,
    ensures
        scan_chunks(d, off, total, json, bin) == (json, bin),
{
    reveal(scan_chunks);
}

/// One step of the chunk walk over a JSON chunk.
proof fn lemma_scan_json(d: Seq<u8>, off: nat, total: nat, json: Option<Seq<u8>>, bin: Seq<u8>)
    requires
        off + 8 + le32_at(d, off as int) <= total,
        d.subrange(off + 4int, off + 8int) == json_type(),
    ensures
        scan_chunks(d, off, total, json, bin) == scan_chunks(
            d,
            off + 8 + le32_at(d, off as int),
            total,
            Some(strip_trailing_spaces(d.subrange(off + 8int, (off + 8 + le32_at(d, off as int)) as int))),
            bin,
        ),
{
    reveal(scan_chunks);
}

/// One step of the chunk walk over a BIN chunk.
proof fn lemma_scan_bin(d: Seq<u8>, off: nat, total: nat, json: Option<Seq<u8>>, bin: Seq<u8>)
    requires
        off + 8 + le32_at(d, off as int) <= total,
        d.subrange(off + 4int, off + 8int) == bin_type(),
    ensures
        scan_chunks(d, off, total, json, bin) == scan_chunks(
            d,
            off + 8 + le32_at(d, off as int),
            total,
            json,
            d.subrange(off + 8int, (off + 8 + le32_at(d, off as int)) as int),
        ),
{
    reveal(scan_chunks);
    assert(bin_type() != json_type()) by {
        assert(bin_type()[0] != json_type()[0]);
    }
}

/// The chunk walk over a written GLB file.
#[verifier::spinoff_prover]
#[verifier::rlimit(50)]
proof fn lemma_glb_scan(json: Seq<u8>, buffer: Seq<u8>)
    requires
        glb_total(json.len(), buffer.len()) < 0x1_0000_0000,
    ensures
        scan_chunks(glb_bytes(json, buffer), 12, glb_total(json.len(), buffer.len()), None, Seq::empty()) == (
            Some(strip_trailing_spaces(json)),
            if buffer.len() == 0 {
                Seq::<u8>::empty()
            } else {
                buffer + zeros((pad4(buffer.len()) - buffer.len()) as nat)
            },
        ),
{
    let d = glb_bytes(json, buffer);
    let jl = json.len();
    let bl = buffer.len();
    let pj = pad4(jl);
    let total = glb_total(jl, bl);
    let j = strip_trailing_spaces(json);
    lemma_glb_layout(json, buffer);
    lemma_le32_at(d, 12, pj);
    lemma_strip_padding(json, (pj - jl) as nat);
    lemma_scan_json(d, 12, total, None, Seq::empty());
    if bl > 0 {
        let pb = pad4(bl);
        lemma_le32_at(d, (20 + pj) as int, pb);
        lemma_scan_bin(d, (20 + pj) as nat, total, Some(j), Seq::empty());
        lemma_scan_end(d, total, total, Some(j), buffer + zeros((pb - bl) as nat));
    } else {
        lemma_scan_end(d, total, total, Some(j), Seq::empty());
    }
}

/// Reading a written GLB file gives back the JSON without its trailing
/// spaces and the binary buffer with its zero padding (nothing when the
/// buffer was empty), provided the file is shorter than 2^32 bytes.
#[verifier::spinoff_prover]
#[verifier::rlimit(50)]
pub proof fn lemma_glb_round_trip(json: Seq<u8>, buffer: Seq<u8>)
    requires
        glb_total(json.len(), buffer.len()) < 0x1_0000_0000,
    ensures
        glb_parse(glb_bytes(json, buffer)) == Ok::<(Seq<u8>, Seq<u8>), Error>(
            (
                strip_trailing_spaces(json),
                if buffer.len() == 0 {
                    Seq::<u8>::empty()
                } else {
                    buffer + zeros((pad4(buffer.len()) - buffer.len()) as nat)
                },
            ),
        ),
{
    let d = glb_bytes(json, buffer);
    let jl = json.len();
    let bl = buffer.len();
    let pj = pad4(jl);
    let total = glb_total(jl, bl);
    let j = strip_trailing_spaces(json);
    let b = if bl == 0 {
        Seq::<u8>::empty()
    } else {
        buffer + zeros((pad4(bl) - bl) as nat)
    };
    lemma_glb_layout(json, buffer);
    lemma_glb_scan(json, buffer);
    assert(d.len() >= 20);
    lemma_le32_at(d, 4, 2);
    lemma_le32_at(d, 8, total);
}

} // verus!
