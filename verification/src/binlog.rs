//! The binary evidence log — the production on-disk format.
//!
//! The format keeps an append-only, one-record-per-entry shape with
//! length-prefixed strings, little-endian binary numbers and no field names.
//!
//! ```text
//! file   := MAGIC record*
//! MAGIC  := "NSCLOG01"              (8 bytes)
//! record := u8 tag                  (0=interval, 1=value, 2=not_value)
//!           str entity              (u16 len + utf8)
//!           str source
//!           i64 observed_at         (little-endian)
//!           str slot
//!           tag==0 -> f64 lo, f64 hi
//!           else   -> str value
//! ```
//!
//! Recovery is WAL-style: a torn trailing record (a crash mid-append,
//! before the fsync that would have acknowledged it) is dropped, and the
//! number of ignored bytes is returned so the caller can surface it.
//!
//! [`decode`] is specified by [`decode_spec`], a direct reading of the
//! grammar above; [`encode`] by [`enc_record`]. The laws at the end of the
//! file relate the two: a log that was written is read back record for
//! record, and a log whose last record was torn off mid-write yields every
//! complete record plus the size of the torn tail.

use vstd::prelude::*;
use vstd::utf8::*;

use crate::error::Error;
use crate::model::evidence::{records_view, Claim, ClaimView, EvidenceRecord, RecordView};
use crate::text::{string_from_utf8_lossy, utf8_text};

verus! {

broadcast use vstd::utf8::group_utf8_lib;

/// Name of the log file inside a database directory.
pub const LOG_BIN: &'static str = "log.bin";

/// Longest string, in UTF-8 bytes, that a record stores in full.
pub const MAX_STR_BYTES: usize = 65535;

// ------------------------------------------------------------ the format

/// The magic header "NSCLOG01".
pub open spec fn magic() -> Seq<u8> {
    seq![78u8, 83u8, 67u8, 76u8, 79u8, 71u8, 48u8, 49u8]
}

/// A length below 2^16 as two little-endian bytes.
pub open spec fn u16_le(n: nat) -> Seq<u8> {
    seq![(n % 256) as u8, (n / 256) as u8]
}

/// A 64-bit pattern as eight little-endian bytes.
pub open spec fn u64_le(x: u64) -> Seq<u8> {
    seq![
        x as u8,
        (x >> 8u64) as u8,
        (x >> 16u64) as u8,
        (x >> 24u64) as u8,
        (x >> 32u64) as u8,
        (x >> 40u64) as u8,
        (x >> 48u64) as u8,
        (x >> 56u64) as u8,
    ]
}

/// The stored bytes of a string: its UTF-8 encoding, cut after
/// `MAX_STR_BYTES` bytes.
pub open spec fn str_bytes(s: Seq<char>) -> Seq<u8> {
    let b = encode_utf8(s);
    if b.len() <= 65535 {
        b
    } else {
        b.subrange(0, 65535)
    }
}

/// A string field: byte length, then the bytes.
pub open spec fn enc_str(s: Seq<char>) -> Seq<u8> {
    u16_le(str_bytes(s).len()) + str_bytes(s)
}

/// The tag byte of a claim.
pub open spec fn claim_tag(c: ClaimView) -> u8 {
    match c {
        ClaimView::Interval { .. } => 0u8,
        ClaimView::Value { .. } => 1u8,
        ClaimView::NotValue { .. } => 2u8,
    }
}

/// What follows the slot: the two bounds, or the value.
pub open spec fn enc_payload(c: ClaimView) -> Seq<u8> {
    match c {
        ClaimView::Interval { lo_bits, hi_bits, .. } => u64_le(lo_bits) + u64_le(hi_bits),
        ClaimView::Value { value, .. } => enc_str(value),
        ClaimView::NotValue { value, .. } => enc_str(value),
    }
}

/// The bytes of one record.
pub open spec fn enc_record(r: RecordView) -> Seq<u8> {
    seq![claim_tag(r.claim)] + enc_str(r.entity) + enc_str(r.source) + u64_le(
        r.observed_at as u64,
    ) + enc_str(r.claim.slot()) + enc_payload(r.claim)
}

/// The bytes of a run of records, in order.
pub open spec fn enc_records(rs: Seq<RecordView>) -> Seq<u8>
    decreases rs.len(),
{
    if rs.len() == 0 {
        seq![]
    } else {
        enc_record(rs[0]) + enc_records(rs.drop_first())
    }
}

/// A whole log file holding the given records.
pub open spec fn enc_log(rs: Seq<RecordView>) -> Seq<u8> {
    magic() + enc_records(rs)
}

// ------------------------------------------------------------ reading

/// The 64-bit pattern stored little-endian at `p`.
pub open spec fn le_u64_at(b: Seq<u8>, p: int) -> u64 {
    (b[p] as u64) | ((b[p + 1] as u64) << 8u64) | ((b[p + 2] as u64) << 16u64) | ((b[p
        + 3] as u64) << 24u64) | ((b[p + 4] as u64) << 32u64) | ((b[p + 5] as u64) << 40u64)
        | ((b[p + 6] as u64) << 48u64) | ((b[p + 7] as u64) << 56u64)
}

/// A 16-bit little-endian length at `p`, and the position after it.
pub open spec fn read_u16(b: Seq<u8>, p: int) -> Option<(nat, int)> {
    if 0 <= p && p + 2 <= b.len() {
        Some(((b[p] as nat + 256 * (b[p + 1] as nat)) as nat, p + 2))
    } else {
        None
    }
}

/// A 64-bit pattern at `p`, and the position after it.
pub open spec fn read_u64(b: Seq<u8>, p: int) -> Option<(u64, int)> {
    if 0 <= p && p + 8 <= b.len() {
        Some((le_u64_at(b, p), p + 8))
    } else {
        None
    }
}

/// A string field at `p`, and the position after it.
pub open spec fn read_str(b: Seq<u8>, p: int) -> Option<(Seq<char>, int)> {
    match read_u16(b, p) {
        Some((n, q)) => if q + n <= b.len() {
            Some((utf8_text(b.subrange(q, q + n)), q + n))
        } else {
            None
        },
        None => None,
    }
}

/// The claim-specific tail of a record with tag `tag` about `slot`.
pub open spec fn read_payload(b: Seq<u8>, p: int, tag: u8, slot: Seq<char>) -> Option<
    (ClaimView, int),
> {
    if tag == 0 {
        match read_u64(b, p) {
            Some((lo, q)) => match read_u64(b, q) {
                Some((hi, e)) => Some((ClaimView::Interval { slot, lo_bits: lo, hi_bits: hi }, e)),
                None => None,
            },
            None => None,
        }
    } else if tag == 1 || tag == 2 {
        match read_str(b, p) {
            Some((value, e)) => Some(
                (
                    if tag == 1 {
                        ClaimView::Value { slot, value }
                    } else {
                        ClaimView::NotValue { slot, value }
                    },
                    e,
                ),
            ),
            None => None,
        }
    } else {
        None
    }
}

/// The record at `p` and the position after it; `None` where the bytes
/// end early or the tag is unknown.
pub open spec fn read_record(b: Seq<u8>, p: int) -> Option<(RecordView, int)> {
    if 0 <= p && p + 1 <= b.len() {
        let tag = b[p];
        match read_str(b, p + 1) {
            Some((entity, p1)) => match read_str(b, p1) {
                Some((source, p2)) => match read_u64(b, p2) {
                    Some((at, p3)) => match read_str(b, p3) {
                        Some((slot, p4)) => match read_payload(b, p4, tag, slot) {
                            Some((claim, e)) => Some(
                                (
                                    RecordView {
                                        entity,
                                        claim,
                                        source,
                                        observed_at: at as i64,
                                    },
                                    e,
                                ),
                            ),
                            None => None,
                        },
                        None => None,
                    },
                    None => None,
                },
                None => None,
            },
            None => None,
        }
    } else {
        None
    }
}

/// Records read one after another from `p`, up to the first position where
/// no complete record starts; that position comes second.
pub open spec fn read_records(b: Seq<u8>, p: int) -> (Seq<RecordView>, int)
    decreases b.len() - p,
{
    match read_record(b, p) {
        Some((r, q)) => if p < q <= b.len() {
            let (rs, e) = read_records(b, q);
            (seq![r] + rs, e)
        } else {
            (seq![], p)
        },
        None => (seq![], p),
    }
}

/// What decoding a log yields: `None` for a bad magic header, else the
/// complete records and the number of trailing bytes that were ignored.
pub open spec fn decode_spec(b: Seq<u8>) -> Option<(Seq<RecordView>, nat)> {
    if b.len() == 0 {
        Some((seq![], 0))
    } else if b.len() < 8 || b.subrange(0, 8) != magic() {
        None
    } else {
        let (rs, e) = read_records(b, 8);
        Some((rs, (b.len() - e) as nat))
    }
}

// ------------------------------------------------------------ writing

/// A fresh file's contents: just the magic header.
pub fn header() -> (h: Vec<u8>)
    ensures
        h@ == magic(),
{
    let mut h: Vec<u8> = Vec::new();
    h.push(78);
    h.push(83);
    h.push(67);
    h.push(76);
    h.push(79);
    h.push(71);
    h.push(48);
    h.push(49);
    assert(h@ =~= magic());
    h
}

/// Append the bytes of one record to `out`.
pub fn encode(rec: &EvidenceRecord, out: &mut Vec<u8>)
    ensures
        final(out)@ == old(out)@ + enc_record(rec@),
{
    match &rec.claim {
        Claim::Interval { slot, lo_bits, hi_bits } => {
            out.push(0);
            common(out, rec, slot.as_str());
            put_u64(out, *lo_bits);
            put_u64(out, *hi_bits);
        },
        Claim::Value { slot, value } => {
            out.push(1);
            common(out, rec, slot.as_str());
            put_str(out, value.as_str());
        },
        Claim::NotValue { slot, value } => {
            out.push(2);
            common(out, rec, slot.as_str());
            put_str(out, value.as_str());
        },
    }
    assert(final(out)@ =~= old(out)@ + enc_record(rec@));
}

fn common(out: &mut Vec<u8>, rec: &EvidenceRecord, slot: &str)
    ensures
        final(out)@ == old(out)@ + enc_str(rec.entity@) + enc_str(rec.source@) + u64_le(
            rec.observed_at as u64,
        ) + enc_str(slot@),
{
    put_str(out, rec.entity.as_str());
    put_str(out, rec.source.as_str());
    put_u64(out, rec.observed_at as u64);
    put_str(out, slot);
    assert(final(out)@ =~= old(out)@ + enc_str(rec.entity@) + enc_str(rec.source@) + u64_le(
        rec.observed_at as u64,
    ) + enc_str(slot@));
}

fn put_u64(out: &mut Vec<u8>, x: u64)
    ensures
        final(out)@ == old(out)@ + u64_le(x),
{
    out.push(x as u8);
    out.push((x >> 8u64) as u8);
    out.push((x >> 16u64) as u8);
    out.push((x >> 24u64) as u8);
    out.push((x >> 32u64) as u8);
    out.push((x >> 40u64) as u8);
    out.push((x >> 48u64) as u8);
    out.push((x >> 56u64) as u8);
    assert(final(out)@ =~= old(out)@ + u64_le(x));
}

fn put_str(out: &mut Vec<u8>, s: &str)
    ensures
        final(out)@ == old(out)@ + enc_str(s@),
{
    let bytes = s.as_bytes();
    let len = if bytes.len() < MAX_STR_BYTES {
        bytes.len()
    } else {
        MAX_STR_BYTES
    };
    let ghost sb = str_bytes(s@);
    assert(sb =~= bytes@.subrange(0, len as int));
    out.push((len % 256) as u8);
    out.push((len / 256) as u8);
    let ghost start = out@;
    let mut i: usize = 0;
    while i < len
        invariant
            i <= len,
            len <= bytes@.len(),
            out@ == start + bytes@.subrange(0, i as int),
        decreases len - i,
    {
        out.push(bytes[i]);
        i += 1;
        assert(out@ =~= start + bytes@.subrange(0, i as int));
    }
    assert(u16_le(sb.len()) =~= seq![(len % 256) as u8, (len / 256) as u8]);
    assert(final(out)@ =~= old(out)@ + enc_str(s@));
}


proof fn lemma_enc_records_push(rs: Seq<RecordView>, r: RecordView)
    ensures
        enc_records(rs.push(r)) == enc_records(rs) + enc_record(r),
    decreases rs.len(),
{
    let c = enc_record(r);
    if rs.len() == 0 {
        assert(rs.push(r).drop_first() =~= Seq::<RecordView>::empty());
        assert(enc_records(Seq::<RecordView>::empty()) == Seq::<u8>::empty());
        assert(rs.push(r)[0] == r);
        assert(enc_records(rs.push(r)) == c + Seq::<u8>::empty());
        assert(c + Seq::<u8>::empty() =~= c);
        assert(enc_records(rs) == Seq::<u8>::empty());
        assert(Seq::<u8>::empty() + c =~= c);
    } else {
        lemma_enc_records_push(rs.drop_first(), r);
        assert(rs.push(r).drop_first() =~= rs.drop_first().push(r));
        assert(rs.push(r)[0] == rs[0]);
        let a = enc_record(rs[0]);
        let b = enc_records(rs.drop_first());
        assert(enc_records(rs.push(r)) == a + (b + c));
        assert(a + (b + c) =~= (a + b) + c);
    }
}

/// A whole log file holding `records`: the header, then each record.
#[verifier::rlimit(30)]
pub fn encode_log(records: &Vec<EvidenceRecord>) -> (out: Vec<u8>)
    ensures
        out@ == enc_log(records_view(records@)),
{
    let ghost rs = records_view(records@);
    let mut out = header();
    let mut i: usize = 0;
    assert(rs.take(0) =~= Seq::<RecordView>::empty());
    while i < records.len()
        invariant
            rs == records_view(records@),
            i <= records@.len(),
            out@ == magic() + enc_records(rs.take(i as int)),
        decreases records@.len() - i,
    {
        encode(&records[i], &mut out);
        proof {
            lemma_enc_records_push(rs.take(i as int), rs[i as int]);
            assert(rs.take(i + 1) =~= rs.take(i as int).push(rs[i as int]));
        }
        i += 1;
    }
    assert(rs.take(records@.len() as int) =~= rs);
    out
}

// ------------------------------------------------------------ reading, exec

/// Decode a whole log. Returns the records plus the count of trailing bytes
/// ignored (a torn tail from a crash). Errors only on a bad magic header.
#[verifier::rlimit(30)]
pub fn decode(bytes: &[u8]) -> (r: Result<(Vec<EvidenceRecord>, usize), Error>)
    ensures
        match r {
            Ok((recs, trailing)) => decode_spec(bytes@) == Some(
                (records_view(recs@), trailing as nat),
            ),
            Err(e) => decode_spec(bytes@) is None && (e matches Error::Invalid(m) && m@
                == "log.bin: bad magic header (not a nescioDB binary log)"@),
        },
{
    if bytes.len() == 0 {
        let out: Vec<EvidenceRecord> = Vec::new();
        assert(records_view(out@) =~= seq![]);
        return Ok((out, 0));
    }
    if bytes.len() < 8 || !(bytes[0] == 78 && bytes[1] == 83 && bytes[2] == 67 && bytes[3] == 76
        && bytes[4] == 79 && bytes[5] == 71 && bytes[6] == 48 && bytes[7] == 49) {
        proof {
            if bytes@.len() >= 8 {
                let m = bytes@.subrange(0, 8);
                if m == magic() {
                    assert(m[0] == 78 && m[1] == 83 && m[2] == 67 && m[3] == 76);
                    assert(m[4] == 79 && m[5] == 71 && m[6] == 48 && m[7] == 49);
                }
            }
        }
        return Err(
            Error::Invalid("log.bin: bad magic header (not a nescioDB binary log)".to_owned()),
        );
    }
    assert(bytes@.subrange(0, 8) =~= magic());
    let mut cur = Cursor { b: bytes, pos: 8 };
    let mut out: Vec<EvidenceRecord> = Vec::new();
    loop
        invariant
            cur.b@ == bytes@,
            8 <= cur.pos <= bytes@.len(),
            bytes@.subrange(0, 8) == magic(),
            read_records(bytes@, 8) == (
                records_view(out@) + read_records(bytes@, cur.pos as int).0,
                read_records(bytes@, cur.pos as int).1,
            ),
        decreases bytes@.len() - cur.pos,
    {
        let start = cur.pos;
        let ghost before = out@;
        match cur.record() {
            Some(rec) => {
                proof {
                    lemma_read_record_advances(bytes@, start as int);
                    let (rs, e) = read_records(bytes@, cur.pos as int);
                    assert(read_records(bytes@, start as int) == (seq![rec@] + rs, e));
                }
                out.push(rec);
                assert(records_view(out@) =~= records_view(before) + seq![rec@]);
                assert(records_view(out@) + read_records(bytes@, cur.pos as int).0
                    =~= records_view(before) + read_records(bytes@, start as int).0);
            },
            None => {
                assert(read_records(bytes@, start as int) == (Seq::<RecordView>::empty(), start as int));
                assert(records_view(out@) + Seq::<RecordView>::empty() =~= records_view(out@));
                return Ok((out, bytes.len() - start));
            },
        }
    }
}

struct Cursor<'a> {
    b: &'a [u8],
    pos: usize,
}

impl<'a> Cursor<'a> {
    fn take(&mut self, n: usize) -> (r: Option<&'a [u8]>)
        ensures
            final(self).b == old(self).b,
            match r {
                Some(s) => {
                    &&& old(self).pos + n <= old(self).b@.len()
                    &&& s@ == old(self).b@.subrange(old(self).pos as int, old(self).pos + n)
                    &&& final(self).pos == old(self).pos + n
                },
                None => old(self).pos + n > old(self).b@.len() && final(self).pos == old(
                    self,
                ).pos,
            },
    {
        let len = self.b.len();
        let end = match self.pos.checked_add(n) {
            Some(e) => e,
            None => return None,
        };
        if end > len {
            return None;
        }
        let s = &self.b[self.pos..end];
        self.pos = end;
        Some(s)
    }

    fn u8(&mut self) -> (r: Option<u8>)
        ensures
            final(self).b == old(self).b,
            match r {
                Some(x) => old(self).pos + 1 <= old(self).b@.len() && x == old(self).b@[old(
                    self,
                ).pos as int] && final(self).pos == old(self).pos + 1,
                None => old(self).pos + 1 > old(self).b@.len(),
            },
    {
        match self.take(1) {
            Some(s) => Some(s[0]),
            None => None,
        }
    }

    fn u16(&mut self) -> (r: Option<usize>)
        ensures
            final(self).b == old(self).b,
            match r {
                Some(n) => read_u16(old(self).b@, old(self).pos as int) == Some(
                    (n as nat, final(self).pos as int),
                ),
                None => read_u16(old(self).b@, old(self).pos as int) is None,
            },
    {
        match self.take(2) {
            Some(s) => Some((s[0] as usize) + (s[1] as usize) * 256),
            None => None,
        }
    }

    fn word(&mut self) -> (r: Option<u64>)
        ensures
            final(self).b == old(self).b,
            match r {
                Some(w) => read_u64(old(self).b@, old(self).pos as int) == Some(
                    (w, final(self).pos as int),
                ),
                None => read_u64(old(self).b@, old(self).pos as int) is None,
            },
    {
        match self.take(8) {
            Some(s) => Some(
                (s[0] as u64) | ((s[1] as u64) << 8u64) | ((s[2] as u64) << 16u64) | ((
                s[3] as u64) << 24u64) | ((s[4] as u64) << 32u64) | ((s[5] as u64) << 40u64)
                    | ((s[6] as u64) << 48u64) | ((s[7] as u64) << 56u64),
            ),
            None => None,
        }
    }

    fn i64(&mut self) -> (r: Option<i64>)
        ensures
            final(self).b == old(self).b,
            match r {
                Some(x) => read_u64(old(self).b@, old(self).pos as int) matches Some((w, q)) && x
                    == w as i64 && final(self).pos == q,
                None => read_u64(old(self).b@, old(self).pos as int) is None,
            },
    {
        match self.word() {
            Some(w) => Some(w as i64),
            None => None,
        }
    }

    /// A binary64 bound, as its bit pattern.
    fn f64_bits(&mut self) -> (r: Option<u64>)
        ensures
            final(self).b == old(self).b,
            match r {
                Some(w) => read_u64(old(self).b@, old(self).pos as int) == Some(
                    (w, final(self).pos as int),
                ),
                None => read_u64(old(self).b@, old(self).pos as int) is None,
            },
    {
        self.word()
    }

    fn string(&mut self) -> (r: Option<String>)
        ensures
            final(self).b == old(self).b,
            match r {
                Some(s) => read_str(old(self).b@, old(self).pos as int) == Some(
                    (s@, final(self).pos as int),
                ),
                None => read_str(old(self).b@, old(self).pos as int) is None,
            },
    {
        let n = match self.u16() {
            Some(n) => n,
            None => return None,
        };
        let s = match self.take(n) {
            Some(s) => s,
            None => return None,
        };
        Some(string_from_utf8_lossy(s))
    }

    fn record(&mut self) -> (r: Option<EvidenceRecord>)
        ensures
            final(self).b == old(self).b,
            match r {
                Some(rec) => read_record(old(self).b@, old(self).pos as int) == Some(
                    (rec@, final(self).pos as int),
                ),
                None => read_record(old(self).b@, old(self).pos as int) is None,
            },
    {
        let tag = match self.u8() {
            Some(t) => t,
            None => return None,
        };
        let entity = match self.string() {
            Some(s) => s,
            None => return None,
        };
        let source = match self.string() {
            Some(s) => s,
            None => return None,
        };
        let observed_at = match self.i64() {
            Some(x) => x,
            None => return None,
        };
        let slot = match self.string() {
            Some(s) => s,
            None => return None,
        };
        let claim = if tag == 0 {
            let lo_bits = match self.f64_bits() {
                Some(w) => w,
                None => return None,
            };
            let hi_bits = match self.f64_bits() {
                Some(w) => w,
                None => return None,
            };
            Claim::Interval { slot, lo_bits, hi_bits }
        } else if tag == 1 {
            let value = match self.string() {
                Some(s) => s,
                None => return None,
            };
            Claim::Value { slot, value }
        } else if tag == 2 {
            let value = match self.string() {
                Some(s) => s,
                None => return None,
            };
            Claim::NotValue { slot, value }
        } else {
            // unknown tag: stop (treat the rest as a torn tail)
            return None;
        };
        Some(EvidenceRecord { entity, claim, source, observed_at })
    }
}

/// A record that is read consumes at least its tag byte and stays in bounds.
pub proof fn lemma_read_record_advances(b: Seq<u8>, p: int)
    ensures
        read_record(b, p) matches Some((r, q)) ==> p < q <= b.len(),
{
}


// ------------------------------------------------------------ laws

/// Every string of a record is short enough (at most `MAX_STR_BYTES` bytes of
/// UTF-8) to be stored in full.
pub open spec fn fits(r: RecordView) -> bool {
    &&& encode_utf8(r.entity).len() <= 65535
    &&& encode_utf8(r.source).len() <= 65535
    &&& encode_utf8(r.claim.slot()).len() <= 65535
    &&& match r.claim {
        ClaimView::Value { value, .. } => encode_utf8(value).len() <= 65535,
        ClaimView::NotValue { value, .. } => encode_utf8(value).len() <= 65535,
        ClaimView::Interval { .. } => true,
    }
}

/// A log written by [`header`] and [`encode`] reads back as the records
/// written, in order, with no trailing bytes: each as it was stored (a
/// string longer than `MAX_STR_BYTES` bytes keeps only its first
/// `MAX_STR_BYTES` bytes), so exactly the records written when every string
/// fits. The header alone (`rs` empty) reads as no records.
#[verifier::rlimit(60)]
#[verifier::spinoff_prover]
pub proof fn law_log_roundtrip(rs: Seq<RecordView>)
    ensures
        decode_spec(enc_log(rs)) == Some((rs.map_values(|r: RecordView| stored(r)), 0nat)),
        (forall|i: int| 0 <= i < rs.len() ==> fits(#[trigger] rs[i])) ==> decode_spec(
            enc_log(rs),
        ) == Some((rs, 0nat)),
{
    let b = enc_log(rs);
    let encs = enc_records(rs);
    assert(b.subrange(0, 8) =~= magic());
    assert(b.subrange(8, 8 + encs.len() as int) =~= encs);
    lemma_read_records_enc(b, 8, rs);
    assert(read_records(b, 8 + encs.len() as int) == (Seq::<RecordView>::empty(), 8 + encs.len() as int));
    let m = rs.map_values(|r: RecordView| stored(r));
    assert(m + Seq::<RecordView>::empty() =~= m);
    if forall|i: int| 0 <= i < rs.len() ==> fits(#[trigger] rs[i]) {
        lemma_read_records_fitting(rs);
    }
}

/// A crash in the middle of appending a record leaves a log whose last
/// record is cut after `k` of its bytes. Such a log reads as every complete
/// record before it (as stored); the `k` bytes of the torn record are
/// reported as ignored. The torn record itself may be of any size.
#[verifier::rlimit(60)]
#[verifier::spinoff_prover]
pub proof fn law_torn_tail(rs: Seq<RecordView>, r: RecordView, k: int)
    requires
        0 <= k < enc_record(r).len(),
    ensures
        decode_spec(enc_log(rs) + enc_record(r).subrange(0, k)) == Some(
            (rs.map_values(|r: RecordView| stored(r)), k as nat),
        ),
        (forall|i: int| 0 <= i < rs.len() ==> fits(#[trigger] rs[i])) ==> decode_spec(
            enc_log(rs) + enc_record(r).subrange(0, k),
        ) == Some((rs, k as nat)),
{
    let pre = enc_log(rs);
    let t = enc_record(r).subrange(0, k);
    let b = pre + t;
    let encs = enc_records(rs);
    assert(b.subrange(0, 8) =~= magic());
    assert(b.subrange(8, 8 + encs.len() as int) =~= encs);
    lemma_read_records_enc(b, 8, rs);
    lemma_torn_record_unreadable(pre, r, k);
    assert(read_records(b, pre.len() as int) == (Seq::<RecordView>::empty(), pre.len() as int));
    let m = rs.map_values(|r: RecordView| stored(r));
    assert(m + Seq::<RecordView>::empty() =~= m);
    if forall|i: int| 0 <= i < rs.len() ==> fits(#[trigger] rs[i]) {
        lemma_read_records_fitting(rs);
    }
}

/// A string field as the grammar above lays it out: the number of UTF-8
/// bytes as a little-endian u16, then those bytes.
pub open spec fn utf8_field(s: Seq<char>) -> Seq<u8> {
    let n = encode_utf8(s).len();
    seq![(n % 0x100) as u8, (n / 0x100) as u8] + encode_utf8(s)
}

/// A 64-bit pattern as the grammar lays it out: its eight base-256 digits,
/// least significant first.
pub open spec fn base256_digits(x: u64) -> Seq<u8> {
    seq![
        (x % 0x100) as u8,
        ((x / 0x100) % 0x100) as u8,
        ((x / 0x1_0000) % 0x100) as u8,
        ((x / 0x100_0000) % 0x100) as u8,
        ((x / 0x1_0000_0000) % 0x100) as u8,
        ((x / 0x100_0000_0000) % 0x100) as u8,
        ((x / 0x1_0000_0000_0000) % 0x100) as u8,
        ((x / 0x100_0000_0000_0000) % 0x100) as u8,
    ]
}

/// One record as the grammar lays it out, field by field: the tag (0 for an
/// interval, 1 for a value, 2 for a negated value), entity, source, the
/// observation time, slot, then the two bounds or the value.
pub open spec fn grammar_record(r: RecordView) -> Seq<u8> {
    match r.claim {
        ClaimView::Interval { slot, lo_bits, hi_bits } => seq![0u8] + utf8_field(r.entity)
            + utf8_field(r.source) + base256_digits(r.observed_at as u64) + utf8_field(slot)
            + base256_digits(lo_bits) + base256_digits(hi_bits),
        ClaimView::Value { slot, value } => seq![1u8] + utf8_field(r.entity) + utf8_field(
            r.source,
        ) + base256_digits(r.observed_at as u64) + utf8_field(slot) + utf8_field(value),
        ClaimView::NotValue { slot, value } => seq![2u8] + utf8_field(r.entity) + utf8_field(
            r.source,
        ) + base256_digits(r.observed_at as u64) + utf8_field(slot) + utf8_field(value),
    }
}

proof fn lemma_base256_digits(x: u64)
    ensures
        u64_le(x) == base256_digits(x),
{
    assert(x as u8 == (x % 0x100) as u8 && (x >> 8u64) as u8 == ((x / 0x100) % 0x100) as u8
        && (x >> 16u64) as u8 == ((x / 0x1_0000) % 0x100) as u8 && (x >> 24u64) as u8 == ((x
        / 0x100_0000) % 0x100) as u8 && (x >> 32u64) as u8 == ((x / 0x1_0000_0000) % 0x100) as u8
        && (x >> 40u64) as u8 == ((x / 0x100_0000_0000) % 0x100) as u8 && (x >> 48u64) as u8 == ((x
        / 0x1_0000_0000_0000) % 0x100) as u8 && (x >> 56u64) as u8 == ((x / 0x100_0000_0000_0000)
        % 0x100) as u8) by (bit_vector);
    assert(u64_le(x) =~= base256_digits(x));
}

proof fn lemma_utf8_field(s: Seq<char>)
    requires
        encode_utf8(s).len() <= 65535,
    ensures
        enc_str(s) == utf8_field(s),
{
    assert(enc_str(s) =~= utf8_field(s));
}

proof fn lemma_record_bytes(r: RecordView)
    requires
        fits(r),
    ensures
        enc_record(r) == grammar_record(r),
{
    lemma_utf8_field(r.entity);
    lemma_utf8_field(r.source);
    lemma_utf8_field(r.claim.slot());
    lemma_base256_digits(r.observed_at as u64);
    match r.claim {
        ClaimView::Interval { lo_bits, hi_bits, .. } => {
            lemma_base256_digits(lo_bits);
            lemma_base256_digits(hi_bits);
        },
        ClaimView::Value { value, .. } => {
            lemma_utf8_field(value);
        },
        ClaimView::NotValue { value, .. } => {
            lemma_utf8_field(value);
        },
    }
}

/// The bytes that [`encode`] writes for a record are the record as the
/// grammar lays it out, and a file made of the magic "NSCLOG01" and those
/// bytes reads back as that one record, with nothing ignored (every string
/// of the record short enough to be stored in full). In particular a value
/// claim is written, and read, under tag 1.
#[verifier::rlimit(40)]
#[verifier::spinoff_prover]
pub proof fn law_record_layout(r: RecordView)
    requires
        fits(r),
    ensures
        enc_record(r) == grammar_record(r),
        r.claim is Interval ==> enc_record(r)[0] == 0u8,
        r.claim is Value ==> enc_record(r)[0] == 1u8,
        r.claim is NotValue ==> enc_record(r)[0] == 2u8,
        decode_spec(seq![78u8, 83u8, 67u8, 76u8, 79u8, 71u8, 48u8, 49u8] + grammar_record(r))
            == Some((seq![r], 0nat)),
{
    lemma_record_bytes(r);
    assert(enc_record(r)[0] == claim_tag(r.claim));
    lemma_one_record_log(r);
}

proof fn lemma_one_record_log(r: RecordView)
    requires
        fits(r),
    ensures
        decode_spec(magic() + enc_record(r)) == Some((seq![r], 0nat)),
{
    law_log_roundtrip(seq![r]);
    assert(seq![r].drop_first() =~= Seq::<RecordView>::empty());
    assert(enc_records(Seq::<RecordView>::empty()) == Seq::<u8>::empty());
    assert(seq![r][0] == r);
    assert(enc_records(seq![r]) =~= enc_record(r));
    assert(enc_log(seq![r]) =~= magic() + enc_record(r));
}

/// What reading a stored string gives back.
pub open spec fn stored_str(s: Seq<char>) -> Seq<char> {
    utf8_text(str_bytes(s))
}

/// What reading a stored claim gives back.
pub open spec fn stored_claim(c: ClaimView) -> ClaimView {
    match c {
        ClaimView::Interval { slot, lo_bits, hi_bits } => ClaimView::Interval {
            slot: stored_str(slot),
            lo_bits,
            hi_bits,
        },
        ClaimView::Value { slot, value } => ClaimView::Value {
            slot: stored_str(slot),
            value: stored_str(value),
        },
        ClaimView::NotValue { slot, value } => ClaimView::NotValue {
            slot: stored_str(slot),
            value: stored_str(value),
        },
    }
}

/// What reading a stored record gives back.
pub open spec fn stored(r: RecordView) -> RecordView {
    RecordView {
        entity: stored_str(r.entity),
        claim: stored_claim(r.claim),
        source: stored_str(r.source),
        observed_at: r.observed_at,
    }
}

proof fn lemma_stored_str_fitting(s: Seq<char>)
    requires
        encode_utf8(s).len() <= 65535,
    ensures
        stored_str(s) == s,
{
    encode_utf8_valid_utf8(s);
    encode_utf8_decode_utf8(s);
}

proof fn lemma_read_records_fitting(rs: Seq<RecordView>)
    requires
        forall|i: int| 0 <= i < rs.len() ==> fits(#[trigger] rs[i]),
    ensures
        rs.map_values(|r: RecordView| stored(r)) == rs,
{
    assert forall|i: int| 0 <= i < rs.len() implies stored(rs[i]) == rs[i] by {
        let r = rs[i];
        assert(fits(r));
        lemma_stored_str_fitting(r.entity);
        lemma_stored_str_fitting(r.source);
        lemma_stored_str_fitting(r.claim.slot());
        match r.claim {
            ClaimView::Value { value, .. } => lemma_stored_str_fitting(value),
            ClaimView::NotValue { value, .. } => lemma_stored_str_fitting(value),
            ClaimView::Interval { .. } => {},
        }
    }
    assert(rs.map_values(|r: RecordView| stored(r)) =~= rs);
}

proof fn lemma_split(b: Seq<u8>, p: int, x: Seq<u8>, y: Seq<u8>)
    requires
        0 <= p,
        p + x.len() + y.len() <= b.len(),
        b.subrange(p, p + x.len() + y.len()) == x + y,
    ensures
        b.subrange(p, p + x.len()) == x,
        b.subrange(p + x.len(), p + x.len() + y.len()) == y,
{
    assert forall|i: int| 0 <= i < x.len() implies b.subrange(p, p + x.len())[i] == x[i] by {
        assert(b.subrange(p, p + x.len() + y.len())[i] == (x + y)[i]);
    }
    assert forall|i: int| 0 <= i < y.len() implies b.subrange(
        p + x.len(),
        p + x.len() + y.len(),
    )[i] == y[i] by {
        let j = x.len() + i;
        assert(b.subrange(p, p + x.len() + y.len())[j] == (x + y)[j]);
        assert(b.subrange(p, p + x.len() + y.len())[j] == b[p + j]);
        assert(b.subrange(p + x.len(), p + x.len() + y.len())[i] == b[p + j]);
    }
    assert(b.subrange(p, p + x.len()) =~= x);
    assert(b.subrange(p + x.len(), p + x.len() + y.len()) =~= y);
}

proof fn lemma_le_bytes(x: u64, b0: u8, b1: u8, b2: u8, b3: u8, b4: u8, b5: u8, b6: u8, b7: u8)
    requires
        b0 == x as u8,
        b1 == (x >> 8u64) as u8,
        b2 == (x >> 16u64) as u8,
        b3 == (x >> 24u64) as u8,
        b4 == (x >> 32u64) as u8,
        b5 == (x >> 40u64) as u8,
        b6 == (x >> 48u64) as u8,
        b7 == (x >> 56u64) as u8,
    ensures
        (b0 as u64) | ((b1 as u64) << 8u64) | ((b2 as u64) << 16u64) | ((b3 as u64) << 24u64) | ((
        b4 as u64) << 32u64) | ((b5 as u64) << 40u64) | ((b6 as u64) << 48u64) | ((b7 as u64)
            << 56u64) == x,
{
    assert((b0 as u64) | ((b1 as u64) << 8u64) | ((b2 as u64) << 16u64) | ((b3 as u64) << 24u64)
        | ((b4 as u64) << 32u64) | ((b5 as u64) << 40u64) | ((b6 as u64) << 48u64) | ((
    b7 as u64) << 56u64) == x) by (bit_vector)
        requires
            b0 == x as u8,
            b1 == (x >> 8u64) as u8,
            b2 == (x >> 16u64) as u8,
            b3 == (x >> 24u64) as u8,
            b4 == (x >> 32u64) as u8,
            b5 == (x >> 40u64) as u8,
            b6 == (x >> 48u64) as u8,
            b7 == (x >> 56u64) as u8,
    ;
}

proof fn lemma_read_u64_enc(b: Seq<u8>, p: int, x: u64)
    requires
        0 <= p,
        p + 8 <= b.len(),
        b.subrange(p, p + 8) == u64_le(x),
    ensures
        read_u64(b, p) == Some((x, p + 8)),
{
    let s = b.subrange(p, p + 8);
    assert(b[p] == s[0] && b[p + 1] == s[1] && b[p + 2] == s[2] && b[p + 3] == s[3]);
    assert(b[p + 4] == s[4] && b[p + 5] == s[5] && b[p + 6] == s[6] && b[p + 7] == s[7]);
    lemma_le_bytes(x, b[p], b[p + 1], b[p + 2], b[p + 3], b[p + 4], b[p + 5], b[p + 6], b[p + 7]);
}

proof fn lemma_read_str_enc(b: Seq<u8>, p: int, s: Seq<char>)
    requires
        0 <= p,
        p + enc_str(s).len() <= b.len(),
        b.subrange(p, p + enc_str(s).len()) == enc_str(s),
    ensures
        read_str(b, p) == Some((stored_str(s), p + enc_str(s).len())),
{
    let sb = str_bytes(s);
    let n = sb.len();
    assert(n <= 65535);
    lemma_split(b, p, u16_le(n), sb);
    let h = b.subrange(p, p + 2);
    assert(b[p] == h[0] && b[p + 1] == h[1]);
    assert(b[p] as nat + 256 * (b[p + 1] as nat) == n);
}

/// Reading a record where its bytes stand gives back the stored record.
#[verifier::rlimit(50)]
#[verifier::spinoff_prover]
pub proof fn lemma_read_record_enc(b: Seq<u8>, p: int, r: RecordView)
    requires
        0 <= p,
        p + enc_record(r).len() <= b.len(),
        b.subrange(p, p + enc_record(r).len()) == enc_record(r),
    ensures
        read_record(b, p) == Some((stored(r), p + enc_record(r).len())),
{
    let t = seq![claim_tag(r.claim)];
    let e1 = enc_str(r.entity);
    let e2 = enc_str(r.source);
    let e3 = u64_le(r.observed_at as u64);
    let e4 = enc_str(r.claim.slot());
    let e5 = enc_payload(r.claim);
    assert(enc_record(r) == t + e1 + e2 + e3 + e4 + e5);
    lemma_split(b, p, t + e1 + e2 + e3 + e4, e5);
    lemma_split(b, p, t + e1 + e2 + e3, e4);
    lemma_split(b, p, t + e1 + e2, e3);
    lemma_split(b, p, t + e1, e2);
    lemma_split(b, p, t, e1);
    assert(b[p] == b.subrange(p, p + 1)[0]);
    let p1 = p + 1;
    lemma_read_str_enc(b, p1, r.entity);
    let p2 = p1 + e1.len();
    lemma_read_str_enc(b, p2, r.source);
    let p3 = p2 + e2.len();
    lemma_read_u64_enc(b, p3, r.observed_at as u64);
    let at = r.observed_at;
    assert((at as u64) as i64 == at) by (bit_vector);
    let p4 = p3 + 8;
    lemma_read_str_enc(b, p4, r.claim.slot());
    let p5 = p4 + e4.len();
    match r.claim {
        ClaimView::Interval { lo_bits, hi_bits, .. } => {
            lemma_split(b, p5, u64_le(lo_bits), u64_le(hi_bits));
            lemma_read_u64_enc(b, p5, lo_bits);
            lemma_read_u64_enc(b, p5 + 8, hi_bits);
        },
        ClaimView::Value { value, .. } => {
            lemma_read_str_enc(b, p5, value);
        },
        ClaimView::NotValue { value, .. } => {
            lemma_read_str_enc(b, p5, value);
        },
    }
}

/// Reading where a run of records stands gives back the stored records,
/// then whatever follows.
#[verifier::rlimit(60)]
pub proof fn lemma_read_records_enc(b: Seq<u8>, p: int, rs: Seq<RecordView>)
    requires
        0 <= p,
        p + enc_records(rs).len() <= b.len(),
        b.subrange(p, p + enc_records(rs).len()) == enc_records(rs),
    ensures
        read_records(b, p) == (
            rs.map_values(|r: RecordView| stored(r)) + read_records(
                b,
                p + enc_records(rs).len(),
            ).0,
            read_records(b, p + enc_records(rs).len()).1,
        ),
    decreases rs.len(),
{
    if rs.len() == 0 {
        assert(rs.map_values(|r: RecordView| stored(r)) =~= Seq::<RecordView>::empty());
        let rest = read_records(b, p);
        assert(Seq::<RecordView>::empty() + rest.0 =~= rest.0);
    } else {
        let e = enc_record(rs[0]);
        let tail = rs.drop_first();
        lemma_split(b, p, e, enc_records(tail));
        lemma_read_record_enc(b, p, rs[0]);
        lemma_read_records_enc(b, p + e.len(), tail);
        let m = rs.map_values(|r: RecordView| stored(r));
        let mt = tail.map_values(|r: RecordView| stored(r));
        assert(m =~= seq![stored(rs[0])] + mt);
        let rest = read_records(b, p + enc_records(rs).len());
        assert(seq![stored(rs[0])] + (mt + rest.0) =~= m + rest.0);
    }
}

proof fn lemma_read_str_prefix(b1: Seq<u8>, b2: Seq<u8>, p: int)
    requires
        b1.len() <= b2.len(),
        b2.subrange(0, b1.len() as int) == b1,
        read_str(b1, p) is Some,
    ensures
        read_str(b2, p) == read_str(b1, p),
{
    assert(b1[p] == b2.subrange(0, b1.len() as int)[p]);
    assert(b1[p + 1] == b2.subrange(0, b1.len() as int)[p + 1]);
    let (n, q) = read_u16(b1, p).unwrap();
    assert forall|i: int| 0 <= i < n implies #[trigger] b1.subrange(q, q + n)[i] == b2.subrange(q, q + n)[i] by {
        assert(b1[q + i] == b2.subrange(0, b1.len() as int)[q + i]);
    }
    assert(b1.subrange(q, q + n) =~= b2.subrange(q, q + n));
}

proof fn lemma_read_u64_prefix(b1: Seq<u8>, b2: Seq<u8>, p: int)
    requires
        b1.len() <= b2.len(),
        b2.subrange(0, b1.len() as int) == b1,
        read_u64(b1, p) is Some,
    ensures
        read_u64(b2, p) == read_u64(b1, p),
{
    let c = b2.subrange(0, b1.len() as int);
    assert(b1[p] == c[p] && b1[p + 1] == c[p + 1] && b1[p + 2] == c[p + 2] && b1[p + 3] == c[p
        + 3]);
    assert(b1[p + 4] == c[p + 4] && b1[p + 5] == c[p + 5] && b1[p + 6] == c[p + 6] && b1[p + 7]
        == c[p + 7]);
}

/// Reading a record does not look past its own bytes: what is read from a
/// prefix is read the same from any longer sequence.
pub proof fn lemma_read_record_prefix(b1: Seq<u8>, b2: Seq<u8>, p: int)
    requires
        b1.len() <= b2.len(),
        b2.subrange(0, b1.len() as int) == b1,
        read_record(b1, p) is Some,
    ensures
        read_record(b2, p) == read_record(b1, p),
{
    assert(b1[p] == b2.subrange(0, b1.len() as int)[p]);
    let (_, p1) = read_str(b1, p + 1).unwrap();
    lemma_read_str_prefix(b1, b2, p + 1);
    let (_, p2) = read_str(b1, p1).unwrap();
    lemma_read_str_prefix(b1, b2, p1);
    let (_, p3) = read_u64(b1, p2).unwrap();
    lemma_read_u64_prefix(b1, b2, p2);
    let (_, p4) = read_str(b1, p3).unwrap();
    lemma_read_str_prefix(b1, b2, p3);
    let tag = b1[p];
    if tag == 0 {
        let (_, p5) = read_u64(b1, p4).unwrap();
        lemma_read_u64_prefix(b1, b2, p4);
        lemma_read_u64_prefix(b1, b2, p5);
    } else {
        lemma_read_str_prefix(b1, b2, p4);
    }
}

/// The first `k` bytes of a record, `k` short of all of them, are not a
/// readable record.
#[verifier::rlimit(50)]
#[verifier::spinoff_prover]
pub proof fn lemma_torn_record_unreadable(pre: Seq<u8>, r: RecordView, k: int)
    requires
        0 <= k < enc_record(r).len(),
    ensures
        read_record(pre + enc_record(r).subrange(0, k), pre.len() as int) is None,
{
    let e = enc_record(r);
    let b1 = pre + e.subrange(0, k);
    let b2 = pre + e;
    if read_record(b1, pre.len() as int) is Some {
        assert(b2.subrange(0, b1.len() as int) =~= b1);
        lemma_read_record_prefix(b1, b2, pre.len() as int);
        assert(b2.subrange(pre.len() as int, pre.len() + e.len() as int) =~= e);
        lemma_read_record_enc(b2, pre.len() as int, r);
        lemma_read_record_advances(b1, pre.len() as int);
    }
}

} // verus!
