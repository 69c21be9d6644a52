//! The on-disk record format.
//!
//! A record is `crc32 | timestamp_ms | key_size | value_size | key | value`,
//! every integer big-endian. The CRC covers every byte after itself. A value
//! size of `TOMBSTONE` marks a deletion, which carries no value bytes.
use vstd::prelude::*;

verus! {

/// Length of the fixed header: crc (4), timestamp (8), key size (4), value size (4).
pub const HEADER_LEN: usize = 20;

/// The value size that marks a tombstone.
pub const TOMBSTONE: u32 = 0xFFFF_FFFF;

/// The IEEE CRC-32 of a byte sequence.
pub uninterp spec fn crc32_of(b: Seq<u8>) -> u32;

/// Relies on crc32fast::hash: the IEEE CRC-32 of `b`, which depends on the bytes alone.
#[verifier::external_body]
fn checksum(b: &[u8]) -> (r: u32)
    ensures
        r == crc32_of(b@),
{
    crc32fast::hash(b)
}

/// The four big-endian bytes of `v`.
pub open spec fn be32(v: u32) -> Seq<u8> {
    seq![(v >> 24u32) as u8, (v >> 16u32) as u8, (v >> 8u32) as u8, v as u8]
}

/// The eight big-endian bytes of `v`.
pub open spec fn be64(v: u64) -> Seq<u8> {
    be32((v >> 32u64) as u32) + be32(v as u32)
}

/// The big-endian `u32` at `s[i..i + 4]`.
pub open spec fn read32(s: Seq<u8>, i: int) -> u32 {
    ((s[i] as u32) << 24u32) | ((s[i + 1] as u32) << 16u32) | ((s[i + 2] as u32) << 8u32) | (
    s[i + 3] as u32)
}

/// The big-endian `u64` at `s[i..i + 8]`.
pub open spec fn read64(s: Seq<u8>, i: int) -> u64 {
    ((read32(s, i) as u64) << 32u64) | (read32(s, i + 4) as u64)
}

/// One record as the log holds it: a value, or `None` for a tombstone.
pub struct Rec {
    pub timestamp: u64,
    pub key: Seq<u8>,
    pub value: Option<Seq<u8>>,
}

/// The records that the format can hold: sizes fit their fields, and a
/// value's size differs from the tombstone marker.
pub open spec fn fits(r: Rec) -> bool {
    &&& r.key.len() <= u32::MAX
    &&& r.value is Some ==> r.value->0.len() < TOMBSTONE
}

pub open spec fn value_field(value: Option<Seq<u8>>) -> u32 {
    match value {
        Some(v) => v.len() as u32,
        None => TOMBSTONE,
    }
}

pub open spec fn value_bytes(value: Option<Seq<u8>>) -> Seq<u8> {
    match value {
        Some(v) => v,
        None => Seq::empty(),
    }
}

/// The bytes that the checksum covers.
pub open spec fn payload(r: Rec) -> Seq<u8> {
    be64(r.timestamp) + be32(r.key.len() as u32) + be32(value_field(r.value)) + r.key
        + value_bytes(r.value)
}

/// The encoding of one record.
pub open spec fn record_bytes(r: Rec) -> Seq<u8> {
    be32(crc32_of(payload(r))) + payload(r)
}

/// What decoding the front of a byte sequence yields.
pub enum Decoded {
    /// A record and the number of bytes it takes.
    Record(Rec, nat),
    /// No bytes at all: a clean end.
    EndOfFile,
    /// A short header or body, or a checksum mismatch.
    Corrupt,
}

/// The value size field as a length in bytes.
pub open spec fn stored_len(vs: u32) -> int {
    if vs == TOMBSTONE {
        0
    } else {
        vs as int
    }
}

/// Decodes the record at the front of `s`.
pub open spec fn decode_spec(s: Seq<u8>) -> Decoded {
    if s.len() == 0 {
        Decoded::EndOfFile
    } else if s.len() < HEADER_LEN {
        Decoded::Corrupt
    } else {
        let klen = read32(s, 12) as int;
        let vs = read32(s, 16);
        let n = HEADER_LEN + klen + stored_len(vs);
        if s.len() < n {
            Decoded::Corrupt
        } else if read32(s, 0) != crc32_of(s.subrange(4, n)) {
            Decoded::Corrupt
        } else {
            Decoded::Record(
                Rec {
                    timestamp: read64(s, 4),
                    key: s.subrange(20, 20 + klen),
                    value: if vs == TOMBSTONE {
                        None
                    } else {
                        Some(s.subrange(20 + klen, n))
                    },
                },
                n as nat,
            )
        }
    }
}

proof fn lemma_be32(v: u32)
    ensures
        read32(be32(v), 0) == v,
{
    let b0 = (v >> 24u32) as u8;
    let b1 = (v >> 16u32) as u8;
    let b2 = (v >> 8u32) as u8;
    let b3 = v as u8;
    assert(((b0 as u32) << 24u32) | ((b1 as u32) << 16u32) | ((b2 as u32) << 8u32) | (b3 as u32)
        == v) by (bit_vector)
        requires
            b0 == (v >> 24u32) as u8,
            b1 == (v >> 16u32) as u8,
            b2 == (v >> 8u32) as u8,
            b3 == v as u8,
    ;
}

proof fn lemma_be64(v: u64)
    ensures
        read64(be64(v), 0) == v,
{
    let hi = (v >> 32u64) as u32;
    let lo = v as u32;
    lemma_be32(hi);
    lemma_be32(lo);
    let s = be64(v);
    assert(s.subrange(0, 4) == be32(hi));
    assert(s.subrange(4, 8) == be32(lo));
    assert(read32(s, 0) == read32(be32(hi), 0));
    assert(read32(s, 4) == read32(be32(lo), 0));
    assert((((v >> 32u64) as u32 as u64) << 32u64) | (v as u32 as u64) == v) by (bit_vector);
}

/// Reading the front of a record's own encoding gives that record back and
/// consumes exactly its bytes, whatever follows it.
pub proof fn lemma_decode_encode(r: Rec, rest: Seq<u8>)
    requires
        fits(r),
    ensures
        decode_spec(record_bytes(r) + rest) == Decoded::Record(r, record_bytes(r).len()),
{
    let p = payload(r);
    let s = record_bytes(r) + rest;
    let klen = r.key.len() as int;
    let vlen = value_bytes(r.value).len() as int;
    lemma_be32(crc32_of(p));
    lemma_be64(r.timestamp);
    lemma_be32(r.key.len() as u32);
    lemma_be32(value_field(r.value));
    assert(s.subrange(0, 4) == be32(crc32_of(p)));
    assert(s.subrange(4, 12) == be64(r.timestamp));
    assert(s.subrange(12, 16) == be32(r.key.len() as u32));
    assert(s.subrange(16, 20) == be32(value_field(r.value)));
    assert(read32(s, 0) == read32(s.subrange(0, 4), 0));
    assert(read64(s, 4) == read64(s.subrange(4, 12), 0));
    assert(read32(s, 12) == read32(s.subrange(12, 16), 0));
    assert(read32(s, 16) == read32(s.subrange(16, 20), 0));
    assert(read32(s, 12) == klen);
    assert(stored_len(read32(s, 16)) == vlen);
    let n = 20 + klen + vlen;
    assert(record_bytes(r).len() == n);
    assert(s.subrange(4, n) == p);
    assert(s.subrange(20, 20 + klen) == r.key);
    assert(s.subrange(20 + klen, n) == value_bytes(r.value));
}


/// The checked view of an optional value slice.
pub open spec fn opt_view(value: Option<&[u8]>) -> Option<Seq<u8>> {
    match value {
        Some(v) => Some(v@),
        None => None,
    }
}

/// The checked view of an optional owned value.
pub open spec fn opt_vec_view(value: Option<Vec<u8>>) -> Option<Seq<u8>> {
    match value {
        Some(v) => Some(v@),
        None => None,
    }
}

pub fn push_be32(out: &mut Vec<u8>, v: u32)
    ensures
        final(out)@ == old(out)@ + be32(v),
{
    out.push((v >> 24u32) as u8);
    out.push((v >> 16u32) as u8);
    out.push((v >> 8u32) as u8);
    out.push(v as u8);
    assert(final(out)@ =~= old(out)@ + be32(v));
}

pub fn push_be64(out: &mut Vec<u8>, v: u64)
    ensures
        final(out)@ == old(out)@ + be64(v),
{
    push_be32(out, (v >> 32u64) as u32);
    push_be32(out, v as u32);
    assert(final(out)@ =~= old(out)@ + be64(v));
}

/// Appends every byte of `src` to `out`.
pub fn push_all(out: &mut Vec<u8>, src: &[u8])
    ensures
        final(out)@ == old(out)@ + src@,
{
    let ghost start = out@;
    let mut i: usize = 0;
    while i < src.len()
        invariant
            i <= src@.len(),
            out@ == start + src@.subrange(0, i as int),
        decreases src@.len() - i,
    {
        out.push(src[i]);
        i = i + 1;
        assert(out@ =~= start + src@.subrange(0, i as int));
    }
    assert(src@.subrange(0, i as int) =~= src@);
}

/// The bytes `buf[a..b]` as a vector of their own.
pub fn copy_range(buf: &[u8], a: usize, b: usize) -> (r: Vec<u8>)
    requires
        a <= b <= buf@.len(),
    ensures
        r@ == buf@.subrange(a as int, b as int),
{
    let mut r: Vec<u8> = Vec::new();
    push_all(&mut r, vstd::slice::slice_subrange(buf, a, b));
    assert(r@ =~= buf@.subrange(a as int, b as int));
    r
}

fn get32(buf: &[u8], i: usize) -> (r: u32)
    requires
        i + 4 <= buf@.len(),
    ensures
        r == read32(buf@, i as int),
{
    ((buf[i] as u32) << 24u32) | ((buf[i + 1] as u32) << 16u32) | ((buf[i + 2] as u32) << 8u32)
        | (buf[i + 3] as u32)
}

/// Encodes one record: a value, or a tombstone where `value` is `None`.
pub fn encode_record(timestamp: u64, key: &[u8], value: Option<&[u8]>) -> (r: Vec<u8>)
    requires
        fits(Rec { timestamp, key: key@, value: opt_view(value) }),
    ensures
        r@ == record_bytes(Rec { timestamp, key: key@, value: opt_view(value) }),
{
    let ghost rec = Rec { timestamp, key: key@, value: opt_view(value) };
    let mut p: Vec<u8> = Vec::new();
    push_be64(&mut p, timestamp);
    push_be32(&mut p, key.len() as u32);
    let vs: u32 = match value {
        Some(v) => v.len() as u32,
        None => TOMBSTONE,
    };
    push_be32(&mut p, vs);
    push_all(&mut p, key);
    match value {
        Some(v) => push_all(&mut p, v),
        None => {},
    }
    assert(p@ =~= payload(rec));
    let crc = checksum(p.as_slice());
    let mut out: Vec<u8> = Vec::new();
    push_be32(&mut out, crc);
    push_all(&mut out, p.as_slice());
    assert(out@ =~= record_bytes(rec));
    out
}

/// The result of decoding at a position of a buffer.
pub enum Decode {
    Record { timestamp: u64, key: Vec<u8>, value: Option<Vec<u8>>, len: usize },
    EndOfFile,
    Corrupt,
}

impl View for Decode {
    type V = Decoded;

    open spec fn view(&self) -> Decoded {
        match self {
            Decode::Record { timestamp, key, value, len } => Decoded::Record(
                Rec { timestamp: *timestamp, key: key@, value: opt_vec_view(*value) },
                *len as nat,
            ),
            Decode::EndOfFile => Decoded::EndOfFile,
            Decode::Corrupt => Decoded::Corrupt,
        }
    }
}

/// Decodes the record that starts at `buf[pos]`.
pub fn decode_at(buf: &[u8], pos: usize) -> (d: Decode)
    requires
        pos <= buf@.len(),
    ensures
        d@ == decode_spec(buf@.subrange(pos as int, buf@.len() as int)),
{
    let ghost s = buf@.subrange(pos as int, buf@.len() as int);
    let rem = buf.len() - pos;
    if rem == 0 {
        return Decode::EndOfFile;
    }
    if rem < HEADER_LEN {
        return Decode::Corrupt;
    }
    let klen = get32(buf, pos + 12) as usize;
    let vs = get32(buf, pos + 16);
    let vlen: usize = if vs == TOMBSTONE {
        0
    } else {
        vs as usize
    };
    assert(read32(s, 12) == read32(buf@, pos + 12));
    assert(read32(s, 16) == read32(buf@, pos + 16));
    if klen > rem - HEADER_LEN || vlen > rem - HEADER_LEN - klen {
        return Decode::Corrupt;
    }
    let n = HEADER_LEN + klen + vlen;
    let stored = get32(buf, pos);
    assert(read32(s, 0) == read32(buf@, pos as int));
    let covered = copy_range(buf, pos + 4, pos + n);
    assert(covered@ =~= s.subrange(4, n as int));
    let crc = checksum(covered.as_slice());
    if stored != crc {
        return Decode::Corrupt;
    }
    let timestamp = ((get32(buf, pos + 4) as u64) << 32u64) | (get32(buf, pos + 8) as u64);
    assert(read64(s, 4) == read64(buf@, pos + 4));
    let key = copy_range(buf, pos + HEADER_LEN, pos + HEADER_LEN + klen);
    assert(key@ =~= s.subrange(20, 20 + klen));
    let value = if vs == TOMBSTONE {
        None
    } else {
        let v = copy_range(buf, pos + HEADER_LEN + klen, pos + n);
        assert(v@ =~= s.subrange(20 + klen, n as int));
        Some(v)
    };
    Decode::Record { timestamp, key, value, len: n }
}


/// The records at the front of `s`, up to its end or to the first bytes
/// that do not decode.
pub open spec fn records_of(s: Seq<u8>) -> Seq<Rec>
    decreases s.len(),
{
    match decode_spec(s) {
        Decoded::Record(r, n) => if 0 < n <= s.len() {
            seq![r] + records_of(s.subrange(n as int, s.len() as int))
        } else {
            Seq::empty()
        },
        _ => Seq::empty(),
    }
}

/// Whether `s` is a whole number of records, with nothing torn at its end.
pub open spec fn clean(s: Seq<u8>) -> bool
    decreases s.len(),
{
    match decode_spec(s) {
        Decoded::Record(r, n) => 0 < n <= s.len() && clean(s.subrange(n as int, s.len() as int)),
        Decoded::EndOfFile => true,
        Decoded::Corrupt => false,
    }
}

/// A decoded record takes at least a header and at most what is there.
pub proof fn lemma_decode_len(s: Seq<u8>)
    ensures
        decode_spec(s) is Record ==> HEADER_LEN <= decode_spec(s)->Record_1 <= s.len(),
{
}

/// Decoding looks at the record's own bytes only.
pub proof fn lemma_decode_prefix(a: Seq<u8>, b: Seq<u8>)
    requires
        decode_spec(a) is Record,
        decode_spec(a)->Record_1 <= b.len(),
        b.subrange(0, decode_spec(a)->Record_1 as int) == a.subrange(
            0,
            decode_spec(a)->Record_1 as int,
        ),
    ensures
        decode_spec(b) == decode_spec(a),
{
    let n = decode_spec(a)->Record_1 as int;
    assert forall|i: int| 0 <= i < n implies a[i] == b[i] by {
        assert(a.subrange(0, n)[i] == b.subrange(0, n)[i]);
    }
    assert(read32(a, 12) == read32(b, 12));
    assert(read32(a, 16) == read32(b, 16));
    assert(read32(a, 0) == read32(b, 0));
    assert(read32(a, 4) == read32(b, 4));
    assert(read32(a, 8) == read32(b, 8));
    let klen = read32(a, 12) as int;
    assert(a.subrange(4, n) =~= b.subrange(4, n));
    assert(a.subrange(20, 20 + klen) =~= b.subrange(20, 20 + klen));
    assert(a.subrange(20 + klen, n) =~= b.subrange(20 + klen, n));
}

/// Appending one whole record to a clean log adds that record at its end.
pub proof fn lemma_append_record(s: Seq<u8>, t: Seq<u8>, r: Rec)
    requires
        clean(s),
        decode_spec(t) == Decoded::Record(r, t.len()),
    ensures
        clean(s + t),
        records_of(s + t) == records_of(s).push(r),
    decreases s.len(),
{
    if s.len() == 0 {
        assert(s + t =~= t);
        lemma_decode_len(t);
        let e = t.subrange(t.len() as int, t.len() as int);
        assert(e =~= Seq::<u8>::empty());
        assert(decode_spec(e) is EndOfFile);
        assert(records_of(e) =~= Seq::<Rec>::empty());
        assert(clean(e));
        assert(records_of(t) =~= seq![r]);
        assert(decode_spec(s) is EndOfFile);
        assert(records_of(s) =~= Seq::<Rec>::empty());
    } else {
        lemma_decode_len(s);
        let n = decode_spec(s)->Record_1 as int;
        let r0 = decode_spec(s)->Record_0;
        assert((s + t).subrange(0, n) =~= s.subrange(0, n));
        lemma_decode_prefix(s, s + t);
        let rest = s.subrange(n, s.len() as int);
        assert((s + t).subrange(n, (s + t).len() as int) =~= rest + t);
        lemma_append_record(rest, t, r);
        assert(records_of(s + t) =~= seq![r0] + records_of(rest + t));
        assert(records_of(s) =~= seq![r0] + records_of(rest));
        assert(records_of(s + t) =~= records_of(s).push(r));
    }
}

/// A scan that finds a record at `pos`, after a clean prefix, extends the
/// clean prefix by that record.
pub proof fn lemma_scan_step(f: Seq<u8>, pos: int)
    requires
        0 <= pos <= f.len(),
        clean(f.subrange(0, pos)),
        decode_spec(f.subrange(pos, f.len() as int)) is Record,
    ensures
        ({
            let d = decode_spec(f.subrange(pos, f.len() as int));
            &&& pos + d->Record_1 <= f.len()
            &&& clean(f.subrange(0, pos + d->Record_1))
            &&& records_of(f.subrange(0, pos + d->Record_1)) == records_of(f.subrange(0, pos)).push(
                d->Record_0,
            )
        }),
{
    let tail = f.subrange(pos, f.len() as int);
    lemma_decode_len(tail);
    let n = decode_spec(tail)->Record_1 as int;
    let t = f.subrange(pos, pos + n);
    assert(t.subrange(0, n) =~= tail.subrange(0, n));
    lemma_decode_prefix(tail, t);
    assert(f.subrange(0, pos + n) =~= f.subrange(0, pos) + t);
    lemma_append_record(f.subrange(0, pos), t, decode_spec(tail)->Record_0);
}

} // verus!
