//! The hot append log's byte format: a 12-byte header, then frames of
//! `length (u32 LE) | payload | CRC-32 of the payload (u32 LE)`, and the keys and
//! per-session summaries of its offset index. Files, mapping and the index database are the
//! caller's part.

use vstd::prelude::*;
use crate::error::StoreError;
use crate::table::{lemma_table_at, lemma_table_update, table, table_find, table_insert, table_ok};
use crate::text::{lemma_padded_dec_value, lemma_padded_u64_len, padded_dec, push_padded_decimal};

verus! {

/// First eight bytes of a hot log, as a little-endian `u64`.
pub const MAGIC: u64 = 0x4b41495a454e484f;
/// Format version stored after the magic number.
pub const VERSION: u32 = 1;
/// Length of the header.
pub const HEADER_LEN: u64 = 12;

/// The low `k` bytes of `n`, least significant first.
pub open spec fn le_bytes(n: nat, k: nat) -> Seq<u8>
    decreases k,
{
    if k == 0 {
        Seq::empty()
    } else {
        seq![(n % 256) as u8] + le_bytes(n / 256, (k - 1) as nat)
    }
}

/// The number whose little-endian bytes are `b`.
pub open spec fn le_value(b: Seq<u8>) -> nat
    decreases b.len(),
{
    if b.len() == 0 {
        0
    } else {
        b[0] as nat + 256 * le_value(b.drop_first())
    }
}

/// Reading back the low `k` bytes of `n` gives `n` when it fits.
pub proof fn lemma_le_roundtrip(n: nat, k: nat)
    requires
        n < vstd::arithmetic::power::pow(256, k),
    ensures
        le_bytes(n, k).len() == k,
        le_value(le_bytes(n, k)) == n,
    decreases k,
{
    reveal(vstd::arithmetic::power::pow);
    if k > 0 {
        assert(n / 256 < vstd::arithmetic::power::pow(256, (k - 1) as nat)) by (nonlinear_arith)
            requires
                n < 256 * vstd::arithmetic::power::pow(256, (k - 1) as nat),
        ;
        lemma_le_roundtrip(n / 256, (k - 1) as nat);
        assert(le_bytes(n, k).drop_first() == le_bytes(n / 256, (k - 1) as nat));
    }
}

/// The header every hot log starts with.
pub open spec fn header_spec() -> Seq<u8> {
    le_bytes(MAGIC as nat, 8) + le_bytes(VERSION as nat, 4)
}

/// Appends the low `k` bytes of `n`, least significant first.
fn push_le(out: &mut Vec<u8>, n: u64, k: usize)
    ensures
        final(out)@ == old(out)@ + le_bytes(n as nat, k as nat),
    decreases k,
{
    if k > 0 {
        out.push((n % 256) as u8);
        push_le(out, n / 256, k - 1);
        assert(final(out)@ =~= old(out)@ + le_bytes(n as nat, k as nat));
    }
}

/// The header bytes: magic number, then version.
pub fn header_bytes() -> (r: Vec<u8>)
    ensures
        r@ == header_spec(),
{
    let mut out: Vec<u8> = Vec::new();
    push_le(&mut out, MAGIC, 8);
    push_le(&mut out, VERSION as u64, 4);
    assert(out@ =~= header_spec());
    out
}

fn read_u32_le(b: &[u8], pos: usize) -> (r: u32)
    requires
        pos + 4 <= b.len(),
    ensures
        r as nat == le_value(b@.subrange(pos as int, pos + 4)),
{
    let s = Ghost(b@.subrange(pos as int, pos + 4));
    proof {
        reveal_with_fuel(le_value, 5);
        assert(s@.drop_first().drop_first().drop_first().drop_first() =~= Seq::<u8>::empty());
        assert(s@.drop_first()[0] == s@[1]);
        assert(s@.drop_first().drop_first()[0] == s@[2]);
        assert(s@.drop_first().drop_first().drop_first()[0] == s@[3]);
    }
    (b[pos] as u32) + 256 * ((b[pos + 1] as u32) + 256 * ((b[pos + 2] as u32) + 256 * (b[pos + 3] as u32)))
}

fn read_u64_le(b: &[u8], pos: usize) -> (r: u64)
    requires
        pos + 8 <= b.len(),
    ensures
        r as nat == le_value(b@.subrange(pos as int, pos + 8)),
{
    let lo = read_u32_le(b, pos);
    let hi = read_u32_le(b, pos + 4);
    proof {
        lemma_le_split(b@.subrange(pos as int, pos + 8));
        assert(b@.subrange(pos as int, pos + 8).subrange(0, 4) =~= b@.subrange(pos as int, pos + 4));
        assert(b@.subrange(pos as int, pos + 8).subrange(4, 8) =~= b@.subrange(pos + 4, pos + 8));
    }
    (lo as u64) + 4294967296 * (hi as u64)
}

proof fn lemma_le_split(b: Seq<u8>)
    requires
        b.len() == 8,
    ensures
        le_value(b) == le_value(b.subrange(0, 4)) + 4294967296 * le_value(b.subrange(4, 8)),
{
    lemma_le_append(b.subrange(0, 4), b.subrange(4, 8));
    assert(b.subrange(0, 4) + b.subrange(4, 8) =~= b);
}

/// The value of a concatenation.
proof fn lemma_le_append(a: Seq<u8>, c: Seq<u8>)
    requires
        a.len() == 4,
    ensures
        le_value(a + c) == le_value(a) + 4294967296 * le_value(c),
{
    reveal_with_fuel(le_value, 5);
    let ac = a + c;
    assert(ac.drop_first() =~= a.drop_first() + c);
    assert(ac.drop_first().drop_first() =~= a.drop_first().drop_first() + c);
    assert(ac.drop_first().drop_first().drop_first() =~= a.drop_first().drop_first().drop_first() + c);
    assert(ac.drop_first().drop_first().drop_first().drop_first() =~= c);
    assert(a.drop_first().drop_first().drop_first().drop_first() =~= Seq::<u8>::empty());
}

/// Checks the header of a log image of at least `HEADER_LEN` bytes.
pub fn validate_header(bytes: &[u8]) -> (r: Result<(), StoreError>)
    requires
        bytes.len() >= HEADER_LEN,
    ensures
        r is Ok <==> le_value(bytes@.subrange(0, 8)) == MAGIC && le_value(bytes@.subrange(8, 12)) == VERSION,
        r matches Err(e) ==> e == StoreError::InvalidHotLogHeader,
{
    let magic = read_u64_le(bytes, 0);
    let version = read_u32_le(bytes, 8);
    if magic != MAGIC || version != VERSION {
        return Err(StoreError::InvalidHotLogHeader);
    }
    Ok(())
}

/// The CRC-32 (IEEE) checksum of `bytes`, as the `crc32fast` crate computes it.
pub uninterp spec fn crc32_of(bytes: Seq<u8>) -> u32;

/// Calls `crc32fast::hash`; the result is named `crc32_of`.
#[verifier::external_body]
fn crc32(bytes: &[u8]) -> (r: u32)
    ensures
        r == crc32_of(bytes@),
{
    crc32fast::hash(bytes)
}

/// The frame of a payload: its length (modulo 2^32), the payload, and its checksum.
pub open spec fn frame_spec(payload: Seq<u8>) -> Seq<u8> {
    le_bytes(payload.len() % 0x1_0000_0000, 4) + payload + le_bytes(crc32_of(payload) as nat, 4)
}

/// The bytes appended to the log for one record.
pub fn frame_record(payload: &[u8]) -> (r: Vec<u8>)
    ensures
        r@ == frame_spec(payload@),
{
    let mut out: Vec<u8> = Vec::new();
    let len = payload.len();
    let len32: u64 = (len as u64) % 0x1_0000_0000;
    push_le(&mut out, len32, 4);
    let mut i: usize = 0;
    while i < payload.len()
        invariant
            i <= payload.len(),
            out@ == le_bytes(len32 as nat, 4) + payload@.subrange(0, i as int),
        decreases payload.len() - i,
    {
        out.push(payload[i]);
        assert(out@ =~= le_bytes(len32 as nat, 4) + payload@.subrange(0, i + 1));
        i = i + 1;
    }
    let crc = crc32(payload);
    push_le(&mut out, crc as u64, 4);
    assert(out@ =~= frame_spec(payload@));
    out
}

/// A record found in a log image: where its frame starts and where its payload lies.
#[derive(Debug, Clone, Copy, PartialEq, Eq, Structural)]
pub struct RecordFrame {
    pub offset: u64,
    pub start: usize,
    pub end: usize,
}

/// The intact records from `pos` on: the scan stops at the first frame that is cut short
/// or whose checksum does not match.
pub open spec fn frames_from(b: Seq<u8>, pos: int) -> Seq<(int, int, int)>
    decreases b.len() - pos,
{
    if pos < 0 || pos + 8 > b.len() {
        Seq::empty()
    } else {
        let start = pos + 4;
        let end = start + le_value(b.subrange(pos, start));
        if end + 4 > b.len() {
            Seq::empty()
        } else if crc32_of(b.subrange(start, end)) as nat != le_value(b.subrange(end, end + 4)) {
            Seq::empty()
        } else {
            seq![(pos, start, end)] + frames_from(b, end + 4)
        }
    }
}

pub open spec fn frame_triple(f: RecordFrame) -> (int, int, int) {
    (f.offset as int, f.start as int, f.end as int)
}

/// Scans a log image for its intact records, from just past the header.
pub fn read_records(bytes: &[u8]) -> (r: Vec<RecordFrame>)
    ensures
        r@.map_values(|f: RecordFrame| frame_triple(f)) == frames_from(bytes@, HEADER_LEN as int),
{
    let mut out: Vec<RecordFrame> = Vec::new();
    let mut pos: usize = 12;
    let ghost b = bytes@;
    let ghost mut found: Seq<(int, int, int)> = Seq::empty();
    while pos <= bytes.len() && bytes.len() - pos >= 8
        invariant
            b == bytes@,
            out@.map_values(|f: RecordFrame| frame_triple(f)) + frames_from(b, pos as int)
                == frames_from(b, HEADER_LEN as int),
        ensures
            out@.map_values(|f: RecordFrame| frame_triple(f)) == frames_from(b, HEADER_LEN as int),
        decreases bytes.len() - pos,
    {
        let len = read_u32_le(bytes, pos);
        let start = pos + 4;
        let avail = bytes.len() - start;
        if (len as usize) > avail || avail - (len as usize) < 4 {
            proof {
                assert(frames_from(b, pos as int) == Seq::<(int, int, int)>::empty());
                assert(out@.map_values(|f: RecordFrame| frame_triple(f)) + Seq::<(int, int, int)>::empty()
                    =~= out@.map_values(|f: RecordFrame| frame_triple(f)));
            }
            break;
        }
        let end = start + len as usize;
        let expected = read_u32_le(bytes, end);
        let crc = crc32(&bytes[start..end]);
        if crc != expected {
            proof {
                assert(frames_from(b, pos as int) == Seq::<(int, int, int)>::empty());
                assert(out@.map_values(|f: RecordFrame| frame_triple(f)) + Seq::<(int, int, int)>::empty()
                    =~= out@.map_values(|f: RecordFrame| frame_triple(f)));
            }
            break;
        }
        let ghost prev = out@;
        out.push(RecordFrame { offset: pos as u64, start, end });
        proof {
            assert(out@.map_values(|f: RecordFrame| frame_triple(f)) =~= prev.map_values(|f: RecordFrame| frame_triple(f))
                + seq![(pos as int, start as int, end as int)]);
        }
        pos = end + 4;
        proof {
            if !(pos <= bytes.len() && bytes.len() - pos >= 8) {
                assert(frames_from(b, pos as int) == Seq::<(int, int, int)>::empty());
                assert(out@.map_values(|f: RecordFrame| frame_triple(f)) + Seq::<(int, int, int)>::empty()
                    =~= out@.map_values(|f: RecordFrame| frame_triple(f)));
            }
        }
    }
    out
}

/// The frames of `payloads`, back to back.
pub open spec fn frames_concat(payloads: Seq<Seq<u8>>) -> Seq<u8>
    decreases payloads.len(),
{
    if payloads.len() == 0 {
        Seq::empty()
    } else {
        frame_spec(payloads[0]) + frames_concat(payloads.drop_first())
    }
}

/// A log image holding `payloads` as its records, in order.
pub open spec fn log_spec(payloads: Seq<Seq<u8>>) -> Seq<u8> {
    header_spec() + frames_concat(payloads)
}

/// Where the records of `payloads` lie when their frames start at `pos`: frame offset,
/// payload start and payload end of each.
pub open spec fn layout(payloads: Seq<Seq<u8>>, pos: int) -> Seq<(int, int, int)>
    decreases payloads.len(),
{
    if payloads.len() == 0 {
        Seq::empty()
    } else {
        seq![(pos, pos + 4, pos + 4 + payloads[0].len())] + layout(payloads.drop_first(), pos + 8 + payloads[0].len())
    }
}

/// Every payload fits the 32-bit length field.
pub open spec fn payloads_fit(payloads: Seq<Seq<u8>>) -> bool {
    forall|i: int| 0 <= i < payloads.len() ==> (#[trigger] payloads[i]).len() < 0x1_0000_0000
}

proof fn lemma_layout_len(payloads: Seq<Seq<u8>>, pos: int)
    ensures
        layout(payloads, pos).len() == payloads.len(),
    decreases payloads.len(),
{
    if payloads.len() > 0 {
        lemma_layout_len(payloads.drop_first(), pos + 8 + payloads[0].len());
    }
}

proof fn lemma_pow4()
    ensures
        vstd::arithmetic::power::pow(256, 4) == 0x1_0000_0000,
{
    reveal_with_fuel(vstd::arithmetic::power::pow, 5);
}

proof fn lemma_frames_of(b: Seq<u8>, pos: int, payloads: Seq<Seq<u8>>)
    requires
        0 <= pos <= b.len(),
        b.subrange(pos, b.len() as int) == frames_concat(payloads),
        payloads_fit(payloads),
    ensures
        frames_from(b, pos) == layout(payloads, pos),
        forall|i: int| 0 <= i < payloads.len() ==> b.subrange(#[trigger] layout(payloads, pos)[i].1, layout(payloads, pos)[i].2) == payloads[i],
    decreases payloads.len(),
{
    if payloads.len() == 0 {
        assert(b.subrange(pos, b.len() as int).len() == 0);
    } else {
        let p = payloads[0];
        let rest = payloads.drop_first();
        let n = p.len();
        lemma_pow4();
        lemma_le_roundtrip(n as nat, 4);
        lemma_le_roundtrip(crc32_of(p) as nat, 4);
        assert(n % 0x1_0000_0000 == n);
        let f = frame_spec(p);
        let tail = b.subrange(pos, b.len() as int);
        assert(tail =~= f + frames_concat(rest));
        assert(f.len() == n + 8);
        assert(tail.len() == b.len() - pos);
        assert(b.len() >= pos + n + 8);
        let start = pos + 4;
        let end = start + n;
        assert(b.subrange(pos, start) =~= le_bytes(n as nat, 4)) by {
            assert forall|k: int| 0 <= k < 4 implies b.subrange(pos, start)[k] == le_bytes(n as nat, 4)[k] by {
                assert(b.subrange(pos, start)[k] == tail[k]);
                assert(tail[k] == f[k]);
            }
        }
        assert(b.subrange(start, end) =~= p) by {
            assert forall|k: int| 0 <= k < n implies b.subrange(start, end)[k] == p[k] by {
                assert(b.subrange(start, end)[k] == tail[k + 4]);
                assert(tail[k + 4] == f[k + 4]);
            }
        }
        assert(b.subrange(end, end + 4) =~= le_bytes(crc32_of(p) as nat, 4)) by {
            assert forall|k: int| 0 <= k < 4 implies b.subrange(end, end + 4)[k] == le_bytes(crc32_of(p) as nat, 4)[k] by {
                assert(b.subrange(end, end + 4)[k] == tail[k + 4 + n]);
                assert(tail[k + 4 + n] == f[k + 4 + n]);
            }
        }
        assert(b.subrange(end + 4, b.len() as int) =~= frames_concat(rest)) by {
            assert forall|k: int| 0 <= k < b.len() - (end + 4) implies b.subrange(end + 4, b.len() as int)[k] == frames_concat(rest)[k] by {
                assert(b.subrange(end + 4, b.len() as int)[k] == tail[k + 8 + n]);
            }
        }
        assert forall|i: int| 0 <= i < rest.len() implies (#[trigger] rest[i]).len() < 0x1_0000_0000 by {
            assert(rest[i] == payloads[i + 1]);
        }
        lemma_frames_of(b, end + 4, rest);
        lemma_layout_len(rest, end + 4);
        let lay = layout(payloads, pos);
        assert forall|i: int| 0 <= i < payloads.len() implies b.subrange(#[trigger] lay[i].1, lay[i].2) == payloads[i] by {
            if i > 0 {
                assert(lay[i] == layout(rest, end + 4)[i - 1]);
                assert(payloads[i] == rest[i - 1]);
            }
        }
    }
}

/// A log written as the header followed by the frames of some payloads reads back every
/// record, in order, at the offset its frame was written to, with its payload.
pub proof fn lemma_log_roundtrip(payloads: Seq<Seq<u8>>)
    requires
        payloads_fit(payloads),
    ensures
        frames_from(log_spec(payloads), HEADER_LEN as int) == layout(payloads, HEADER_LEN as int),
        forall|i: int| 0 <= i < payloads.len() ==> log_spec(payloads).subrange(
            #[trigger] layout(payloads, HEADER_LEN as int)[i].1,
            layout(payloads, HEADER_LEN as int)[i].2,
        ) == payloads[i],
{
    let b = log_spec(payloads);
    reveal_with_fuel(le_bytes, 9);
    assert(header_spec().len() == 12);
    assert(b.subrange(12, b.len() as int) =~= frames_concat(payloads));
    lemma_frames_of(b, 12, payloads);
}

/// A log image cut short anywhere (a torn write) still reads back a prefix of its records.
pub proof fn lemma_torn_log_prefix(b: Seq<u8>, m: int, pos: int)
    requires
        0 <= m <= b.len(),
    ensures
        frames_from(b.subrange(0, m), pos).is_prefix_of(frames_from(b, pos)),
    decreases b.len() - pos,
{
    let c = b.subrange(0, m);
    if pos < 0 || pos + 8 > c.len() {
    } else {
        let start = pos + 4;
        assert(c.subrange(pos, start) =~= b.subrange(pos, start));
        let end = start + le_value(b.subrange(pos, start));
        if end + 4 > c.len() {
        } else {
            assert(c.subrange(start, end) =~= b.subrange(start, end));
            assert(c.subrange(end, end + 4) =~= b.subrange(end, end + 4));
            if crc32_of(b.subrange(start, end)) as nat != le_value(b.subrange(end, end + 4)) {
            } else {
                lemma_torn_log_prefix(b, m, end + 4);
            }
        }
    }
}

/// Key of a record in the offset index: `<session>\0<seq, 20 digits>`.
pub open spec fn seq_key_spec(session_id: Seq<char>, seq: u64) -> Seq<char> {
    session_id + seq!['\0'] + padded_dec(seq as nat, 20)
}

/// Distinct records have distinct index keys: two keys are equal only for the same
/// session and sequence number.
pub proof fn lemma_seq_key_injective(s1: Seq<char>, a: u64, s2: Seq<char>, b: u64)
    requires
        seq_key_spec(s1, a) == seq_key_spec(s2, b),
    ensures
        s1 == s2,
        a == b,
{
    let k1 = seq_key_spec(s1, a);
    let k2 = seq_key_spec(s2, b);
    lemma_padded_u64_len(a);
    lemma_padded_u64_len(b);
    assert(k1.len() == s1.len() + 21);
    assert(k2.len() == s2.len() + 21);
    assert(s1 =~= k1.subrange(0, s1.len() as int));
    assert(s2 =~= k2.subrange(0, s2.len() as int));
    let t: int = s1.len() as int + 1;
    assert(padded_dec(a as nat, 20) =~= k1.subrange(t, k1.len() as int));
    assert(padded_dec(b as nat, 20) =~= k2.subrange(t, k2.len() as int));
    lemma_padded_dec_value(a as nat, 20);
    lemma_padded_dec_value(b as nat, 20);
}

/// The offset-index key of record `seq` of a session.
pub fn seq_key(session_id: &str, seq: u64) -> (r: String)
    ensures
        r@ == seq_key_spec(session_id@, seq),
{
    let mut out = session_id.to_string();
    proof {
        reveal_strlit("\0");
    }
    out.append("\0");
    push_padded_decimal(&mut out, seq, 20);
    out
}

/// What the index remembers of a session's records in the log.
#[derive(Debug, Clone, Copy, PartialEq, Eq, Structural)]
pub struct SessionMeta {
    pub first_offset: u64,
    pub last_offset: u64,
    pub last_seq: u64,
}

/// The summary of a session after a batch of its `(seq, offset)` rows, ordered by seq,
/// is indexed: the first offset stays as first recorded; the last row gives the last seq
/// and offset.
pub fn next_session_meta(prior: Option<SessionMeta>, rows: &[(u64, u64)]) -> (r: SessionMeta)
    ensures
        r.first_offset == match prior {
            Some(m) => m.first_offset,
            None => if rows.len() > 0 { rows@[0].1 } else { 0 },
        },
        rows.len() > 0 ==> r.last_seq == rows@.last().0 && r.last_offset == rows@.last().1,
        rows.len() == 0 ==> r.last_seq == 0 && r.last_offset == r.first_offset,
{
    let first_offset = match prior {
        Some(m) => m.first_offset,
        None => if rows.len() > 0 { rows[0].1 } else { 0 },
    };
    if rows.len() > 0 {
        let (last_seq, last_offset) = rows[rows.len() - 1];
        SessionMeta { first_offset, last_offset, last_seq }
    } else {
        SessionMeta { first_offset, last_offset: first_offset, last_seq: 0 }
    }
}

/// The rows of `s` whose seq is `k`, in order.
pub open spec fn ties(s: Seq<(u64, u64)>, k: u64) -> Seq<(u64, u64)>
    decreases s.len(),
{
    if s.len() == 0 {
        Seq::empty()
    } else {
        ties(s.drop_last(), k) + if s.last().0 == k { seq![s.last()] } else { Seq::empty() }
    }
}

/// Ordered by seq.
pub open spec fn seq_sorted(s: Seq<(u64, u64)>) -> bool {
    forall|a: int, b: int| 0 <= a < b < s.len() ==> (#[trigger] s[a]).0 <= (#[trigger] s[b]).0
}

/// `t` is `s` stably sorted by seq: ordered by seq, with rows of equal seq in their order in `s`.
pub open spec fn stable_sorted_of(t: Seq<(u64, u64)>, s: Seq<(u64, u64)>) -> bool {
    &&& seq_sorted(t)
    &&& forall|k: u64| #[trigger] ties(t, k) == ties(s, k)
}

/// The `(seq, offset)` rows of session `sid` among the first `n` index rows, in order.
pub open spec fn session_pairs(rows: Seq<(String, u64, u64)>, sid: Seq<char>, n: int) -> Seq<(u64, u64)>
    decreases n,
{
    if n <= 0 {
        Seq::empty()
    } else {
        session_pairs(rows, sid, n - 1) + if rows[n - 1].0@ == sid {
            seq![(rows[n - 1].1, rows[n - 1].2)]
        } else {
            Seq::empty()
        }
    }
}

/// The sessions among the first `n` index rows.
pub open spec fn sessions_upto(rows: Seq<(String, u64, u64)>, n: int) -> Set<Seq<char>> {
    Set::new(|sid: Seq<char>| exists|j: int| 0 <= j < n && rows[j].0@ == sid)
}

proof fn lemma_ties_append(a: Seq<(u64, u64)>, b: Seq<(u64, u64)>, k: u64)
    ensures
        ties(a + b, k) == ties(a, k) + ties(b, k),
    decreases b.len(),
{
    if b.len() == 0 {
        assert(a + b =~= a);
        assert(ties(a, k) + ties(b, k) =~= ties(a, k));
    } else {
        assert((a + b).drop_last() =~= a + b.drop_last());
        lemma_ties_append(a, b.drop_last(), k);
        assert(ties(a, k) + ties(b, k) =~= ties(a, k) + ties(b.drop_last(), k) + if b.last().0 == k {
            seq![b.last()]
        } else {
            Seq::empty()
        });
    }
}

proof fn lemma_ties_none(s: Seq<(u64, u64)>, k: u64)
    requires
        forall|i: int| 0 <= i < s.len() ==> (#[trigger] s[i]).0 != k,
    ensures
        ties(s, k) == Seq::<(u64, u64)>::empty(),
    decreases s.len(),
{
    if s.len() > 0 {
        lemma_ties_none(s.drop_last(), k);
    }
}

/// Inserts a row after every row whose seq is not larger (keeps a stable order).
fn insert_by_seq(v: &mut Vec<(u64, u64)>, x: (u64, u64))
    requires
        seq_sorted(old(v)@),
    ensures
        seq_sorted(final(v)@),
        forall|k: u64| #[trigger] ties(final(v)@, k) == ties(old(v)@, k) + if x.0 == k { seq![x] } else { Seq::empty() },
{
    let ghost ov = v@;
    let mut p: usize = 0;
    let mut done = false;
    while !done && p < v.len()
        invariant
            p <= v.len(),
            v@ == ov,
            forall|j: int| 0 <= j < p ==> (#[trigger] v@[j]).0 <= x.0,
            done ==> p < v.len() && v@[p as int].0 > x.0,
        decreases v.len() - p + (if done { 0int } else { 1int }),
    {
        if v[p].0 <= x.0 {
            p = p + 1;
        } else {
            done = true;
        }
    }
    v.insert(p, x);
    proof {
        let nv = v@;
        assert(nv =~= ov.subrange(0, p as int) + seq![x] + ov.subrange(p as int, ov.len() as int));
        assert forall|j: int| p <= j < ov.len() implies (#[trigger] ov[j]).0 > x.0 by {
            if j > p {
                assert(ov[p as int].0 <= ov[j].0);
            }
        }
        assert forall|a: int, b: int| 0 <= a < b < nv.len() implies (#[trigger] nv[a]).0 <= (#[trigger] nv[b]).0 by {
            if b < p {
                assert(nv[a] == ov[a] && nv[b] == ov[b]);
            } else if b == p {
                assert(nv[a] == ov[a]);
            } else if a == p {
                assert(nv[b] == ov[b - 1]);
            } else if a < p {
                assert(nv[a] == ov[a] && nv[b] == ov[b - 1]);
            } else {
                assert(nv[a] == ov[a - 1] && nv[b] == ov[b - 1]);
            }
        }
        assert forall|k: u64| #[trigger] ties(nv, k) == ties(ov, k) + if x.0 == k { seq![x] } else { Seq::empty() } by {
            let lo = ov.subrange(0, p as int);
            let hi = ov.subrange(p as int, ov.len() as int);
            assert(ov =~= lo + hi);
            lemma_ties_append(lo + seq![x], hi, k);
            lemma_ties_append(lo, seq![x], k);
            lemma_ties_append(lo, hi, k);
            lemma_ties_single(x, k);
            if x.0 == k {
                assert forall|i: int| 0 <= i < hi.len() implies (#[trigger] hi[i]).0 != k by {
                    assert(hi[i] == ov[i + p]);
                }
                lemma_ties_none(hi, k);
                assert(ties(ov, k) =~= ties(lo, k));
                assert(ties(nv, k) =~= ties(lo, k) + seq![x]);
            } else {
                assert(ties(nv, k) =~= ties(lo, k) + ties(hi, k));
                assert(ties(nv, k) =~= ties(ov, k) + Seq::<(u64, u64)>::empty());
            }
        }
    }
}

proof fn lemma_ties_single(x: (u64, u64), k: u64)
    ensures
        ties(seq![x], k) == if x.0 == k { seq![x] } else { Seq::<(u64, u64)>::empty() },
{
    assert(seq![x].drop_last() =~= Seq::<(u64, u64)>::empty());
    assert(ties(Seq::<(u64, u64)>::empty(), k) =~= Seq::<(u64, u64)>::empty());
    assert(seq![x].last() == x);
}

/// Pending index rows grouped by session (ascending), each session's `(seq, offset)` rows
/// stably sorted by seq.
pub fn pending_by_session(rows: &[(String, u64, u64)]) -> (r: Vec<(String, Vec<(u64, u64)>)>)
    ensures
        table_ok(r@),
        table(r@).dom() == sessions_upto(rows@, rows@.len() as int),
        forall|sid: Seq<char>| #[trigger] table(r@).contains_key(sid)
            ==> stable_sorted_of(table(r@)[sid]@, session_pairs(rows@, sid, rows@.len() as int)),
{
    let mut t: Vec<(String, Vec<(u64, u64)>)> = Vec::new();
    let ghost rs = rows@;
    let mut i: usize = 0;
    proof {
        assert(table(t@).dom() =~= sessions_upto(rs, 0));
    }
    while i < rows.len()
        invariant
            i <= rows.len(),
            rs == rows@,
            table_ok(t@),
            table(t@).dom() == sessions_upto(rs, i as int),
            forall|sid: Seq<char>| #[trigger] table(t@).contains_key(sid)
                ==> stable_sorted_of(table(t@)[sid]@, session_pairs(rs, sid, i as int)),
        decreases rows.len() - i,
    {
        let sid = &rows[i].0;
        let x = (rows[i].1, rows[i].2);
        let ghost pre = t@;
        match table_find(&t, sid.as_str()) {
            Some(k) => {
                proof {
                    lemma_table_at(pre, k as int);
                }
                let mut entry: (String, Vec<(u64, u64)>) = (String::new(), Vec::new());
                t.set_and_swap(k, &mut entry);
                insert_by_seq(&mut entry.1, x);
                let ghost ne = entry;
                t.set_and_swap(k, &mut entry);
                proof {
                    assert(t@ == pre.update(k as int, ne));
                    lemma_table_update(pre, k as int, ne);
                }
            },
            None => {
                let mut v: Vec<(u64, u64)> = Vec::new();
                v.push(x);
                table_insert(&mut t, sid.clone(), v);
            },
        }
        proof {
            assert forall|s: Seq<char>| #[trigger] table(t@).contains_key(s)
                implies stable_sorted_of(table(t@)[s]@, session_pairs(rs, s, i + 1)) by {
                let ext = if rs[i as int].0@ == s { seq![x] } else { Seq::<(u64, u64)>::empty() };
                assert(session_pairs(rs, s, i + 1) == session_pairs(rs, s, i as int) + ext);
                assert forall|k: u64| #[trigger] ties(session_pairs(rs, s, i + 1), k)
                    == ties(session_pairs(rs, s, i as int), k) + if ext.len() > 0 && x.0 == k { seq![x] } else { Seq::empty() } by {
                    lemma_ties_append(session_pairs(rs, s, i as int), ext, k);
                    if ext.len() > 0 {
                        lemma_ties_single(x, k);
                        if x.0 != k {
                            assert(ties(session_pairs(rs, s, i + 1), k) =~= ties(session_pairs(rs, s, i as int), k) + Seq::<(u64, u64)>::empty());
                        }
                    } else {
                        assert(ties(ext, k) =~= Seq::<(u64, u64)>::empty());
                        assert(ties(session_pairs(rs, s, i + 1), k) =~= ties(session_pairs(rs, s, i as int), k) + Seq::<(u64, u64)>::empty());
                    }
                }
                if s != sid@ {
                    assert(session_pairs(rs, s, i + 1) =~= session_pairs(rs, s, i as int));
                    assert(table(t@)[s] == table(pre)[s]);
                } else if !table(pre).contains_key(s) {
                    assert(!sessions_upto(rs, i as int).contains(s));
                    assert(session_pairs(rs, s, i as int) =~= Seq::<(u64, u64)>::empty()) by {
                        if session_pairs(rs, s, i as int).len() > 0 {
                            lemma_session_pairs_has(rs, s, i as int);
                        }
                    }
                    assert(table(t@)[s]@ =~= seq![x]);
                    assert forall|k: u64| #[trigger] ties(seq![x], k) == ties(Seq::<(u64, u64)>::empty(), k)
                        + if x.0 == k { seq![x] } else { Seq::empty() } by {
                        lemma_ties_single(x, k);
                        assert(ties(Seq::<(u64, u64)>::empty(), k) =~= Seq::<(u64, u64)>::empty());
                        if x.0 == k {
                            assert(seq![x] =~= Seq::<(u64, u64)>::empty() + seq![x]);
                        } else {
                            assert(Seq::<(u64, u64)>::empty() =~= Seq::<(u64, u64)>::empty() + Seq::<(u64, u64)>::empty());
                        }
                    }
                }
            }
            assert forall|s: Seq<char>| table(t@).dom().contains(s) <==> sessions_upto(rs, i + 1).contains(s) by {
                if s == sid@ {
                    assert(rs[i as int].0@ == s);
                }
                if sessions_upto(rs, i + 1).contains(s) && s != sid@ {
                    let j = choose|j: int| 0 <= j < i + 1 && rs[j].0@ == s;
                    assert(j < i);
                    assert(sessions_upto(rs, i as int).contains(s));
                }
                if table(pre).dom().contains(s) {
                    assert(sessions_upto(rs, i as int).contains(s));
                    let j = choose|j: int| 0 <= j < i && rs[j].0@ == s;
                    assert(sessions_upto(rs, i + 1).contains(s));
                }
            }
            assert(table(t@).dom() =~= sessions_upto(rs, i + 1));
        }
        i = i + 1;
    }
    t
}

proof fn lemma_session_pairs_has(rows: Seq<(String, u64, u64)>, sid: Seq<char>, n: int)
    requires
        session_pairs(rows, sid, n).len() > 0,
    ensures
        sessions_upto(rows, n).contains(sid),
    decreases n,
{
    if n > 0 {
        if rows[n - 1].0@ != sid {
            lemma_session_pairs_has(rows, sid, n - 1);
            let j = choose|j: int| 0 <= j < n - 1 && rows[j].0@ == sid;
            assert(0 <= j < n && rows[j].0@ == sid);
        } else {
            assert(0 <= n - 1 < n && rows[n - 1].0@ == sid);
        }
    }
}

/// Bytes of payload and framing appended since the log was last synced to disk, past
/// which an append asks for a flush.
pub const SYNC_BYTES: u64 = 4096;
/// Index rows waiting past which an append asks for a flush.
pub const INDEX_BATCH: usize = 128;

/// What an open log remembers between flushes: index rows not yet written, and bytes not
/// yet synced.
#[derive(Debug)]
pub struct HotLogState {
    pub pending_index: Vec<(String, u64, u64)>,
    pub bytes_since_sync: u64,
}

impl HotLogState {
    pub fn new() -> (r: HotLogState)
        ensures
            r.pending_index@.len() == 0,
            r.bytes_since_sync == 0,
    {
        HotLogState { pending_index: Vec::new(), bytes_since_sync: 0 }
    }

    /// Notes a record of `payload_len` bytes appended at `offset`; true when the index and
    /// the file should now be flushed.
    pub fn record_append(&mut self, session_id: String, seq: u64, offset: u64, payload_len: u64) -> (r: bool)
        requires
            old(self).bytes_since_sync + 8 + payload_len <= u64::MAX,
        ensures
            final(self).pending_index@ == old(self).pending_index@.push((session_id, seq, offset)),
            final(self).bytes_since_sync == old(self).bytes_since_sync + 8 + payload_len,
            r == (final(self).bytes_since_sync >= SYNC_BYTES || final(self).pending_index@.len() >= INDEX_BATCH),
    {
        self.bytes_since_sync = self.bytes_since_sync + 8 + payload_len;
        self.pending_index.push((session_id, seq, offset));
        self.bytes_since_sync >= SYNC_BYTES || self.pending_index.len() >= INDEX_BATCH
    }
}

} // verus!
