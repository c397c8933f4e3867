//! The text side of `nescio serve`: query strings, percent decoding, the
//! route table, and how a result becomes an HTTP status and JSON body.
//!
//! Routes (all responses JSON):
//!
//! ```text
//! GET  /health
//! GET  /status
//! GET  /bound?entity=&slot=[&at=][&credible=]
//! GET  /sample?entity=[&seed=][&at=]
//! GET  /certainly?entity=&slot=&op=gt|lt|between|is|is_not[&value=][&lo=&hi=][&at=]
//! GET  /find?slot=&lo=&hi=[&mode=possible|certain][&at=]
//! GET  /watches[?at=]
//! GET  /watches/check[?at=]
//! GET  /watches/events
//! POST /join /resolve /decide                       (read-only)
//! POST /ingest /ingest-batch /sources /forget-source /recalibrate
//!      /priors/register /priors/use /schema/add-slot /schema/remove-slot
//!      /schema/add-value /schema/add-coupling /schema/remove-coupling
//!      /watches /watches/remove                     (writes)
//! ```
//!
//! Axiom conflicts map to HTTP 409 — contradiction is a real state, not a
//! server failure.

use vstd::prelude::*;
use vstd::utf8::*;

use crate::error::Error;
use crate::time::{bad_time_message, parse_when, parse_when_spec, when_fits};
use crate::text::{
    concat3, debug_quoted, debug_str, starts_with, str_eq, str_starts_with, string_from_utf8_lossy,
    utf8_text,
};

verus! {

broadcast use vstd::utf8::group_utf8_lib;

// ------------------------------------------------------------ percent decoding

/// The value of an ASCII hexadecimal digit (either case).
pub open spec fn hex_digit(b: u8) -> Option<u8> {
    if 0x30 <= b <= 0x39 {
        Some((b - 0x30) as u8)
    } else if 0x61 <= b <= 0x66 {
        Some((b - 0x61 + 10) as u8)
    } else if 0x41 <= b <= 0x46 {
        Some((b - 0x41 + 10) as u8)
    } else {
        None
    }
}

/// The byte that the two characters after a `%` stand for, read as
/// `u8::from_str_radix(_, 16)` reads them: two hex digits, or a `+` sign
/// followed by one digit. Anything else stands for nothing.
pub open spec fn hex_pair(hi: u8, lo: u8) -> Option<u8> {
    match (hex_digit(hi), hex_digit(lo)) {
        (Some(h), Some(l)) => Some((16 * h + l) as u8),
        (None, Some(l)) => if hi == 0x2b {
            Some(l)
        } else {
            None
        },
        _ => None,
    }
}

/// URL percent-decoding of a byte string: `+` is a space, `%` followed by
/// two characters that `hex_pair` reads is that byte, every other byte
/// stands for itself (a `%` that starts no escape included).
pub open spec fn percent_decoded(b: Seq<u8>) -> Seq<u8>
    decreases b.len(),
{
    if b.len() == 0 {
        Seq::empty()
    } else if b[0] == 0x2b {
        seq![0x20u8] + percent_decoded(b.skip(1))
    } else if b[0] == 0x25 && b.len() > 2 && hex_pair(b[1], b[2]) is Some {
        seq![hex_pair(b[1], b[2])->0] + percent_decoded(b.skip(3))
    } else {
        seq![b[0]] + percent_decoded(b.skip(1))
    }
}

fn hex_value(b: u8) -> (r: Option<u8>)
    ensures
        r == hex_digit(b),
{
    if 0x30 <= b && b <= 0x39 {
        Some(b - 0x30)
    } else if 0x61 <= b && b <= 0x66 {
        Some(b - 0x61 + 10)
    } else if 0x41 <= b && b <= 0x46 {
        Some(b - 0x41 + 10)
    } else {
        None
    }
}

fn hex_pair_value(hi: u8, lo: u8) -> (r: Option<u8>)
    ensures
        r == hex_pair(hi, lo),
{
    match (hex_value(hi), hex_value(lo)) {
        (Some(h), Some(l)) => Some(16 * h + l),
        (None, Some(l)) => if hi == 0x2b {
            Some(l)
        } else {
            None
        },
        _ => None,
    }
}

/// Percent-decodes the bytes `b[lo..hi]`.
#[verifier::rlimit(30)]
fn decode_range(b: &[u8], lo: usize, hi: usize) -> (out: Vec<u8>)
    requires
        lo <= hi <= b@.len(),
    ensures
        out@ == percent_decoded(b@.subrange(lo as int, hi as int)),
{
    let ghost whole = b@.subrange(lo as int, hi as int);
    let mut out: Vec<u8> = Vec::new();
    let mut i: usize = lo;
    while i < hi
        invariant
            lo <= i <= hi <= b@.len(),
            whole == b@.subrange(lo as int, hi as int),
            out@ + percent_decoded(b@.subrange(i as int, hi as int)) == percent_decoded(whole),
        decreases hi - i,
    {
        let ghost rest = b@.subrange(i as int, hi as int);
        assert(rest[0] == b@[i as int]);
        assert(rest.skip(1) =~= b@.subrange(i + 1, hi as int));
        let c = b[i];
        if c == 0x2b {
            out.push(0x20);
            assert(out@ + percent_decoded(b@.subrange(i + 1, hi as int)) =~= percent_decoded(whole));
            i += 1;
        } else if c == 0x25 && hi - i > 2 && hex_pair_value(b[i + 1], b[i + 2]).is_some() {
            let v = hex_pair_value(b[i + 1], b[i + 2]).unwrap();
            assert(rest[1] == b@[i + 1] && rest[2] == b@[i + 2]);
            assert(rest.skip(3) =~= b@.subrange(i + 3, hi as int));
            out.push(v);
            assert(out@ + percent_decoded(b@.subrange(i + 3, hi as int)) =~= percent_decoded(whole));
            i += 3;
        } else {
            proof {
                if c == 0x25 && hi - i > 2 {
                    assert(rest[1] == b@[i + 1] && rest[2] == b@[i + 2]);
                }
            }
            out.push(c);
            assert(out@ + percent_decoded(b@.subrange(i + 1, hi as int)) =~= percent_decoded(whole));
            i += 1;
        }
    }
    assert(out@ =~= percent_decoded(whole));
    out
}

/// Decodes one URL component: `+` and `%XX` escapes are replaced, and the
/// resulting bytes are read as UTF-8 (invalid sequences lossily).
pub fn percent_decode(s: &str) -> (r: String)
    ensures
        r@ == utf8_text(percent_decoded(encode_utf8(s@))),
{
    let b = s.as_bytes();
    let out = decode_range(b, 0, b.len());
    assert(b@.subrange(0, b@.len() as int) =~= b@);
    string_from_utf8_lossy(out.as_slice())
}

/// Bytes without `%` and `+` are left as they are.
proof fn lemma_plain_bytes_decode(b: Seq<u8>)
    requires
        forall|i: int| 0 <= i < b.len() ==> #[trigger] b[i] != 0x25 && b[i] != 0x2b,
    ensures
        percent_decoded(b) == b,
    decreases b.len(),
{
    if b.len() > 0 {
        lemma_plain_bytes_decode(b.skip(1));
        assert(seq![b[0]] + b.skip(1) =~= b);
    }
}

/// A URL component whose text holds no `%` and no `+` decodes to itself.
pub proof fn law_plain_text_decodes_to_itself(s: Seq<char>)
    requires
        forall|i: int|
            0 <= i < encode_utf8(s).len() ==> #[trigger] encode_utf8(s)[i] != 0x25
                && encode_utf8(s)[i] != 0x2b,
    ensures
        utf8_text(percent_decoded(encode_utf8(s))) == s,
{
    lemma_plain_bytes_decode(encode_utf8(s));
    encode_utf8_valid_utf8(s);
    encode_utf8_decode_utf8(s);
}

/// The ASCII code of hexadecimal digit `n` (`n` in 0..16), upper or lower
/// case.
pub open spec fn hex_symbol(n: int, upper: bool) -> u8 {
    if n < 10 {
        (0x30 + n) as u8
    } else if upper {
        (0x41 + n - 10) as u8
    } else {
        (0x61 + n - 10) as u8
    }
}

/// The escape `%XX` of byte `x`: a percent sign and the two hexadecimal
/// digits of `x`, high digit first.
pub open spec fn escape(x: u8, upper: bool) -> Seq<u8> {
    seq![0x25u8, hex_symbol(x as int / 16, upper), hex_symbol(x as int % 16, upper)]
}

/// Every byte written as an upper-case `%XX` escape.
pub open spec fn percent_encoded(b: Seq<u8>) -> Seq<u8>
    decreases b.len(),
{
    if b.len() == 0 {
        Seq::empty()
    } else {
        escape(b[0], true) + percent_encoded(b.skip(1))
    }
}

/// A `%XX` escape decodes to exactly the byte `0xXX`, in either case of
/// hexadecimal digits, whatever follows it.
pub proof fn law_escape_decodes_to_its_byte(x: u8, upper: bool, rest: Seq<u8>)
    ensures
        percent_decoded(escape(x, upper) + rest) == seq![x] + percent_decoded(rest),
{
    let b = escape(x, upper) + rest;
    assert(hex_digit(hex_symbol(x as int / 16, upper)) == Some((x as int / 16) as u8));
    assert(hex_digit(hex_symbol(x as int % 16, upper)) == Some((x as int % 16) as u8));
    assert(b[0] == 0x25u8 && b[1] == hex_symbol(x as int / 16, upper) && b[2] == hex_symbol(x as int % 16, upper));
    assert(hex_pair(b[1], b[2]) == Some(x));
    assert(b.skip(3) =~= rest);
}

/// Percent-encoding any bytes and decoding them gives the bytes back.
pub proof fn law_encoded_bytes_decode_back(b: Seq<u8>)
    ensures
        percent_decoded(percent_encoded(b)) == b,
    decreases b.len(),
{
    if b.len() > 0 {
        law_encoded_bytes_decode_back(b.skip(1));
        law_escape_decodes_to_its_byte(b[0], true, percent_encoded(b.skip(1)));
        assert(seq![b[0]] + b.skip(1) =~= b);
    }
}

/// A URL component that percent-encodes the UTF-8 bytes of any text
/// decodes to that text.
pub proof fn law_encoded_text_decodes_back(s: Seq<char>)
    ensures
        utf8_text(percent_decoded(percent_encoded(encode_utf8(s)))) == s,
{
    law_encoded_bytes_decode_back(encode_utf8(s));
    encode_utf8_valid_utf8(s);
    encode_utf8_decode_utf8(s);
}

// ------------------------------------------------------------ query strings

/// `b` cut at every `sep`, as `str::split` cuts: `n` separators give
/// `n + 1` pieces, empty ones included.
pub open spec fn split_bytes(b: Seq<u8>, sep: u8) -> Seq<Seq<u8>>
    decreases b.len(),
{
    if b.len() == 0 {
        seq![Seq::empty()]
    } else {
        let p = split_bytes(b.drop_last(), sep);
        if b.last() == sep {
            p.push(Seq::empty())
        } else {
            p.update(p.len() - 1, p.last().push(b.last()))
        }
    }
}

/// `k` is the position of the first `=` of a query pair.
pub open spec fn is_first_eq(piece: Seq<u8>, k: int) -> bool {
    &&& 0 <= k < piece.len()
    &&& piece[k] == 0x3d
    &&& forall|j: int| 0 <= j < k ==> piece[j] != 0x3d
}

/// Length of the key of a query pair: up to the first `=`, or all of it.
pub open spec fn key_len(piece: Seq<u8>) -> int {
    if exists|k: int| is_first_eq(piece, k) {
        choose|k: int| is_first_eq(piece, k)
    } else {
        piece.len() as int
    }
}

/// The key of a query pair (`str::split_once('=')`, or the whole pair).
pub open spec fn pair_key(piece: Seq<u8>) -> Seq<u8> {
    piece.take(key_len(piece))
}

/// The value of a query pair: after the first `=`, or empty.
pub open spec fn pair_value(piece: Seq<u8>) -> Seq<u8> {
    if key_len(piece) < piece.len() {
        piece.skip(key_len(piece) + 1)
    } else {
        Seq::empty()
    }
}

/// One pair entered into the parameters: an empty pair is skipped, a key
/// given again replaces the earlier value.
pub open spec fn add_pair(m: Map<Seq<char>, Seq<char>>, piece: Seq<u8>) -> Map<Seq<char>, Seq<char>> {
    if piece.len() == 0 {
        m
    } else {
        m.insert(
            utf8_text(percent_decoded(pair_key(piece))),
            utf8_text(percent_decoded(pair_value(piece))),
        )
    }
}

/// The parameters of a sequence of pairs, entered in order.
pub open spec fn pairs_map(pieces: Seq<Seq<u8>>) -> Map<Seq<char>, Seq<char>>
    decreases pieces.len(),
{
    if pieces.len() == 0 {
        Map::empty()
    } else {
        add_pair(pairs_map(pieces.drop_last()), pieces.last())
    }
}

/// The parameters of a URL query string (`a=1&b=x%20y`): split at `&`,
/// each pair split at its first `=`, both sides percent-decoded.
pub open spec fn query_params(q: Seq<char>) -> Map<Seq<char>, Seq<char>> {
    pairs_map(split_bytes(encode_utf8(q), 0x26))
}

proof fn lemma_split_nonempty(b: Seq<u8>, sep: u8)
    ensures
        split_bytes(b, sep).len() >= 1,
    decreases b.len(),
{
    if b.len() > 0 {
        lemma_split_nonempty(b.drop_last(), sep);
    }
}

proof fn lemma_split_join(a: Seq<u8>, b: Seq<u8>, sep: u8)
    ensures
        split_bytes(a + seq![sep] + b, sep) == split_bytes(a, sep) + split_bytes(b, sep),
    decreases b.len(),
{
    let c = a + seq![sep] + b;
    if b.len() == 0 {
        assert(c.drop_last() =~= a);
        assert(split_bytes(a, sep).push(Seq::empty()) =~= split_bytes(a, sep) + seq![
            Seq::<u8>::empty(),
        ]);
    } else {
        let b1 = b.drop_last();
        lemma_split_join(a, b1, sep);
        lemma_split_nonempty(b1, sep);
        assert(c.drop_last() =~= a + seq![sep] + b1);
        assert(c.last() == b.last());
        let pa = split_bytes(a, sep);
        let pb = split_bytes(b1, sep);
        if b.last() == sep {
            assert((pa + pb).push(Seq::empty()) =~= pa + pb.push(Seq::empty()));
        } else {
            let p = pa + pb;
            assert(p.last() == pb.last());
            assert(p.update(p.len() - 1, p.last().push(b.last())) =~= pa + pb.update(
                pb.len() - 1,
                pb.last().push(b.last()),
            ));
        }
    }
}

proof fn lemma_pairs_join(p1: Seq<Seq<u8>>, p2: Seq<Seq<u8>>)
    ensures
        pairs_map(p1 + p2) == pairs_map(p1).union_prefer_right(pairs_map(p2)),
    decreases p2.len(),
{
    if p2.len() == 0 {
        assert(p1 + p2 =~= p1);
        assert(pairs_map(p1).union_prefer_right(Map::empty()) =~= pairs_map(p1));
    } else {
        let q = p2.drop_last();
        lemma_pairs_join(p1, q);
        assert((p1 + p2).drop_last() =~= p1 + q);
        assert((p1 + p2).last() == p2.last());
        let piece = p2.last();
        if piece.len() > 0 {
            let k = utf8_text(percent_decoded(pair_key(piece)));
            let v = utf8_text(percent_decoded(pair_value(piece)));
            assert(pairs_map(p1).union_prefer_right(pairs_map(q)).insert(k, v) =~= pairs_map(
                p1,
            ).union_prefer_right(pairs_map(q).insert(k, v)));
        }
    }
}

proof fn lemma_encode_utf8_concat(a: Seq<char>, b: Seq<char>)
    ensures
        encode_utf8(a + b) == encode_utf8(a) + encode_utf8(b),
    decreases a.len(),
{
    if a.len() == 0 {
        assert(a + b =~= b);
    } else {
        lemma_encode_utf8_concat(a.drop_first(), b);
        assert((a + b).drop_first() =~= a.drop_first() + b);
        assert((a + b)[0] == a[0]);
    }
}

proof fn lemma_encode_ascii(c: char, x: u8)
    requires
        c as u32 == x as u32,
        x < 0x80,
    ensures
        encode_utf8(seq![c]) == seq![x],
{
    let u = c as u32;
    assert(u < 0x80 ==> (u & 0x7f) == u) by (bit_vector);
    assert(seq![c].drop_first() =~= Seq::<char>::empty());
    assert(encode_utf8(Seq::<char>::empty()) == Seq::<u8>::empty());
    assert(encode_utf8(seq![c]) =~= seq![x]);
}

/// Pairs joined by `&` give the parameters of both sides, those on the
/// right winning where a key occurs on both: a key given again replaces
/// its earlier value.
pub proof fn law_query_pairs_join(q1: Seq<char>, q2: Seq<char>)
    ensures
        query_params(q1 + seq!['&'] + q2) == query_params(q1).union_prefer_right(
            query_params(q2),
        ),
{
    lemma_encode_utf8_concat(q1 + seq!['&'], q2);
    lemma_encode_utf8_concat(q1, seq!['&']);
    lemma_encode_ascii('&', 0x26u8);
    lemma_split_join(encode_utf8(q1), encode_utf8(q2), 0x26u8);
    lemma_pairs_join(split_bytes(encode_utf8(q1), 0x26u8), split_bytes(encode_utf8(q2), 0x26u8));
}

proof fn lemma_split_whole(b: Seq<u8>, sep: u8)
    requires
        !b.contains(sep),
    ensures
        split_bytes(b, sep) == seq![b],
    decreases b.len(),
{
    if b.len() > 0 {
        let b1 = b.drop_last();
        assert(!b1.contains(sep)) by {
            if b1.contains(sep) {
                let i = choose|i: int| 0 <= i < b1.len() && b1[i] == sep;
                assert(b[i] == sep);
            }
        }
        lemma_split_whole(b1, sep);
        assert(b[b.len() - 1] == b.last());
        assert(b.last() != sep);
        assert(b1.push(b.last()) =~= b);
        assert(seq![b1].update(0, b1.push(b.last())) =~= seq![b]);
    } else {
        assert(b =~= Seq::<u8>::empty());
    }
}

/// A single pair `key=value`, whose key holds no `=` and which holds no
/// `&`, gives one parameter: the decoded key mapped to the decoded value
/// (the value may hold further `=` signs).
pub proof fn law_query_single_pair(k: Seq<char>, v: Seq<char>)
    requires
        !encode_utf8(k).contains(0x26u8),
        !encode_utf8(k).contains(0x3du8),
        !encode_utf8(v).contains(0x26u8),
    ensures
        query_params(k + seq!['='] + v) == Map::<Seq<char>, Seq<char>>::empty().insert(
            utf8_text(percent_decoded(encode_utf8(k))),
            utf8_text(percent_decoded(encode_utf8(v))),
        ),
{
    let kb = encode_utf8(k);
    let vb = encode_utf8(v);
    lemma_encode_utf8_concat(k + seq!['='], v);
    lemma_encode_utf8_concat(k, seq!['=']);
    lemma_encode_ascii('=', 0x3du8);
    let piece = kb + seq![0x3du8] + vb;
    assert(encode_utf8(k + seq!['='] + v) == piece);
    assert(!piece.contains(0x26u8)) by {
        if piece.contains(0x26u8) {
            let i = choose|i: int| 0 <= i < piece.len() && piece[i] == 0x26u8;
            if i < kb.len() {
                assert(kb[i] == 0x26u8);
            } else if i > kb.len() {
                assert(vb[i - kb.len() - 1] == 0x26u8);
            }
        }
    }
    lemma_split_whole(piece, 0x26u8);
    let n = kb.len() as int;
    assert(is_first_eq(piece, n)) by {
        assert forall|j: int| 0 <= j < n implies piece[j] != 0x3d by {
            assert(piece[j] == kb[j]);
        }
    }
    assert(key_len(piece) == n) by {
        let c = choose|c: int| is_first_eq(piece, c);
        if c < n {
            assert(piece[c] == kb[c]);
        }
    }
    assert(pair_key(piece) =~= kb);
    assert(pair_value(piece) =~= vb);
    let one = seq![piece];
    assert(one.drop_last() =~= Seq::<Seq<u8>>::empty());
    assert(pairs_map(Seq::<Seq<u8>>::empty()) == Map::<Seq<char>, Seq<char>>::empty());
    assert(one.last() == piece);
}

/// Decoded query parameters, a key mapped to its last value.
pub struct Params {
    pairs: Vec<(String, String)>,
}

/// The map that a list of pairs builds, later pairs winning.
pub open spec fn entries_map(s: Seq<(String, String)>) -> Map<Seq<char>, Seq<char>>
    decreases s.len(),
{
    if s.len() == 0 {
        Map::empty()
    } else {
        entries_map(s.drop_last()).insert(s.last().0@, s.last().1@)
    }
}

proof fn lemma_entries_absent(s: Seq<(String, String)>, k: Seq<char>)
    requires
        forall|i: int| 0 <= i < s.len() ==> (#[trigger] s[i]).0@ != k,
    ensures
        !entries_map(s).contains_key(k),
    decreases s.len(),
{
    if s.len() > 0 {
        lemma_entries_absent(s.drop_last(), k);
    }
}

proof fn lemma_entries_last(s: Seq<(String, String)>, k: Seq<char>, i: int)
    requires
        0 <= i < s.len(),
        s[i].0@ == k,
        forall|j: int| i < j < s.len() ==> (#[trigger] s[j]).0@ != k,
    ensures
        entries_map(s).contains_key(k),
        entries_map(s)[k] == s[i].1@,
    decreases s.len(),
{
    if i < s.len() - 1 {
        lemma_entries_last(s.drop_last(), k, i);
    }
}

impl View for Params {
    type V = Map<Seq<char>, Seq<char>>;

    closed spec fn view(&self) -> Map<Seq<char>, Seq<char>> {
        entries_map(self.pairs@)
    }
}

impl Params {
    /// No parameters.
    pub fn new() -> (p: Params)
        ensures
            p@ == Map::<Seq<char>, Seq<char>>::empty(),
    {
        Params { pairs: Vec::new() }
    }

    /// Sets `key` to `value`, replacing an earlier value.
    pub fn insert(&mut self, key: String, value: String)
        ensures
            final(self)@ == old(self)@.insert(key@, value@),
    {
        self.pairs.push((key, value));
        assert(self.pairs@.drop_last() =~= old(self).pairs@);
    }

    /// The value of `key`, if given.
    pub fn get(&self, key: &str) -> (r: Option<&str>)
        ensures
            r matches Some(v) ==> self@.contains_key(key@) && v@ == self@[key@],
            r is None ==> !self@.contains_key(key@),
    {
        let mut j: usize = self.pairs.len();
        while j > 0
            invariant
                j <= self.pairs@.len(),
                forall|i: int| j <= i < self.pairs@.len() ==> (#[trigger] self.pairs@[i]).0@ != key@,
            decreases j,
        {
            if str_eq(self.pairs[j - 1].0.as_str(), key) {
                proof {
                    lemma_entries_last(self.pairs@, key@, j - 1);
                }
                return Some(self.pairs[j - 1].1.as_str());
            }
            j -= 1;
        }
        proof {
            lemma_entries_absent(self.pairs@, key@);
        }
        None
    }
}

/// The position of the first `=` in `b[lo..hi]`, or `hi`.
fn find_eq(b: &[u8], lo: usize, hi: usize) -> (k: usize)
    requires
        lo <= hi <= b@.len(),
    ensures
        lo <= k <= hi,
        key_len(b@.subrange(lo as int, hi as int)) == k - lo,
{
    let ghost piece = b@.subrange(lo as int, hi as int);
    let mut k: usize = lo;
    while k < hi && b[k] != 0x3d
        invariant
            lo <= k <= hi <= b@.len(),
            piece == b@.subrange(lo as int, hi as int),
            forall|j: int| 0 <= j < k - lo ==> piece[j] != 0x3d,
        decreases hi - k,
    {
        k += 1;
    }
    proof {
        if k < hi {
            assert(is_first_eq(piece, k - lo));
            let c = choose|c: int| is_first_eq(piece, c);
            assert(c == k - lo) by {
                if c < k - lo {
                    assert(piece[c] != 0x3d);
                } else if c > k - lo {
                    assert(piece[k - lo] != 0x3d);
                }
            }
        } else {
            assert forall|c: int| !is_first_eq(piece, c) by {
                if 0 <= c < piece.len() {
                    assert(piece[c] != 0x3d);
                }
            }
        }
    }
    k
}

/// Enters the pair `b[lo..hi]` into `params`.
fn add_piece(params: &mut Params, b: &[u8], lo: usize, hi: usize)
    requires
        lo <= hi <= b@.len(),
    ensures
        final(params)@ == add_pair(old(params)@, b@.subrange(lo as int, hi as int)),
{
    if lo == hi {
        return;
    }
    let ghost piece = b@.subrange(lo as int, hi as int);
    let k = find_eq(b, lo, hi);
    let key = decode_range(b, lo, k);
    assert(b@.subrange(lo as int, k as int) =~= pair_key(piece));
    let value = if k < hi {
        assert(b@.subrange(k + 1, hi as int) =~= pair_value(piece));
        decode_range(b, k + 1, hi)
    } else {
        assert(pair_value(piece) =~= Seq::<u8>::empty());
        assert(percent_decoded(pair_value(piece)) =~= Seq::<u8>::empty());
        Vec::new()
    };
    params.insert(string_from_utf8_lossy(key.as_slice()), string_from_utf8_lossy(value.as_slice()));
}

/// Parses a URL query string into its decoded parameters.
#[verifier::rlimit(30)]
pub fn parse_query(query: &str) -> (params: Params)
    ensures
        params@ == query_params(query@),
{
    let b = query.as_bytes();
    let ghost whole = b@;
    let mut params = Params::new();
    let mut start: usize = 0;
    let mut i: usize = 0;
    proof {
        lemma_split_nonempty(b@.take(0), 0x26);
    }
    while i < b.len()
        invariant
            b@ == whole,
            start <= i <= b@.len(),
            split_bytes(b@.take(i as int), 0x26).len() >= 1,
            split_bytes(b@.take(i as int), 0x26).last() == b@.subrange(start as int, i as int),
            params@ == pairs_map(split_bytes(b@.take(i as int), 0x26).drop_last()),
        decreases b@.len() - i,
    {
        let ghost before = split_bytes(b@.take(i as int), 0x26);
        assert(b@.take(i + 1).drop_last() =~= b@.take(i as int));
        assert(b@.take(i + 1).last() == b@[i as int]);
        if b[i] == 0x26 {
            add_piece(&mut params, b, start, i);
            proof {
                let after = split_bytes(b@.take(i + 1), 0x26);
                assert(after == before.push(Seq::empty()));
                assert(after.drop_last() =~= before);
                assert(before.drop_last() =~= before.drop_last());
                assert(pairs_map(before) == add_pair(pairs_map(before.drop_last()), before.last()));
            }
            start = i + 1;
        } else {
            proof {
                let after = split_bytes(b@.take(i + 1), 0x26);
                assert(after == before.update(before.len() - 1, before.last().push(b@[i as int])));
                assert(after.drop_last() =~= before.drop_last());
                assert(after.last() =~= b@.subrange(start as int, i + 1));
            }
        }
        i += 1;
    }
    add_piece(&mut params, b, start, b.len());
    proof {
        let all = split_bytes(b@.take(i as int), 0x26);
        assert(b@.take(i as int) =~= encode_utf8(query@));
        assert(pairs_map(all) == add_pair(pairs_map(all.drop_last()), all.last()));
    }
    params
}

/// A query parameter that the route cannot do without.
pub fn req_param<'a>(params: &'a Params, key: &str) -> (r: Result<&'a str, Error>)
    ensures
        params@.contains_key(key@) ==> (r matches Ok(v) && v@ == params@[key@]),
        !params@.contains_key(key@) ==> (r matches Err(Error::Invalid(m)) && m@ == "missing param "@
            + key@),
{
    match params.get(key) {
        Some(v) => Ok(v),
        None => {
            let m = concat3("missing param ", key, "");
            proof {
                reveal_strlit("");
            }
            assert(m@ =~= "missing param "@ + key@);
            Err(Error::Invalid(m))
        },
    }
}

/// The point in time a request asks about: its `at` parameter (unix
/// seconds or a date, as `parse_when` reads it), else `now`, the clock
/// reading that the caller took.
pub fn at_param(params: &Params, now: i64) -> (r: Result<i64, Error>)
    requires
        params@.contains_key("at"@) ==> when_fits(params@["at"@]),
    ensures
        !params@.contains_key("at"@) ==> r == Ok::<i64, Error>(now),
        params@.contains_key("at"@) ==> match r {
            Ok(t) => parse_when_spec(params@["at"@]) == Some(t as int),
            Err(e) => parse_when_spec(params@["at"@]) is None && (e matches Error::Invalid(m)
                && m@ == bad_time_message(params@["at"@])),
        },
{
    match params.get("at") {
        Some(s) => parse_when(s),
        None => Ok(now),
    }
}

/// The `at` field of a JSON request body, as the values it is read by:
/// absent, a string, a number (with its value when it is an integer that
/// fits in an `i64`), or any other JSON value.
pub enum AtField {
    Absent,
    Text(String),
    Number(Option<i64>),
    Other,
}

/// The point in time a JSON body asks about: a date string or unix
/// seconds, else `now`, the clock reading that the caller took.
pub fn at_value(v: AtField, now: i64) -> (r: Result<i64, Error>)
    requires
        v matches AtField::Text(s) ==> when_fits(s@),
    ensures
        v is Absent ==> r == Ok::<i64, Error>(now),
        v matches AtField::Number(Some(n)) ==> r == Ok::<i64, Error>(n),
        (v matches AtField::Number(None)) || v is Other ==> (r matches Err(Error::Invalid(m))
            && m@ == "'at' must be an integer or date string"@),
        v matches AtField::Text(s) ==> match r {
            Ok(t) => parse_when_spec(s@) == Some(t as int),
            Err(e) => parse_when_spec(s@) is None && (e matches Error::Invalid(m) && m@
                == bad_time_message(s@)),
        },
{
    match v {
        AtField::Absent => Ok(now),
        AtField::Text(s) => parse_when(s.as_str()),
        AtField::Number(Some(n)) => Ok(n),
        _ => Err(Error::Invalid("'at' must be an integer or date string".to_owned())),
    }
}

/// The operators of a three-valued predicate query.
#[derive(Clone, Copy, Debug, PartialEq, Eq, Structural)]
pub enum PredicateOp {
    Gt,
    Lt,
    Between,
    Is,
    IsNot,
}

/// The message for an operator that no predicate has.
pub open spec fn unknown_op_message(op: Seq<char>) -> Seq<char> {
    "unknown predicate op "@ + debug_str(op)
}

/// Reads the `op` of a predicate query: `gt`, `lt`, `between`, `is` or
/// `is_not`.
#[verifier::rlimit(30)]
pub fn predicate_op(op: &str) -> (r: Result<PredicateOp, Error>)
    ensures
        op@ == "gt"@ ==> r == Ok::<PredicateOp, Error>(PredicateOp::Gt),
        op@ == "lt"@ ==> r == Ok::<PredicateOp, Error>(PredicateOp::Lt),
        op@ == "between"@ ==> r == Ok::<PredicateOp, Error>(PredicateOp::Between),
        op@ == "is"@ ==> r == Ok::<PredicateOp, Error>(PredicateOp::Is),
        op@ == "is_not"@ ==> r == Ok::<PredicateOp, Error>(PredicateOp::IsNot),
        op@ != "gt"@ && op@ != "lt"@ && op@ != "between"@ && op@ != "is"@ && op@ != "is_not"@ ==> (
        r matches Err(Error::Invalid(m)) && m@ == unknown_op_message(op@)),
{
    proof {
        reveal_strlit("gt");
        reveal_strlit("lt");
        reveal_strlit("between");
        reveal_strlit("is");
        reveal_strlit("is_not");
        assert("gt"@[0] != "lt"@[0]);
        assert("gt"@[0] != "between"@[0] && "lt"@[0] != "between"@[0]);
        assert("is"@.len() != "is_not"@.len());
    }
    if str_eq(op, "gt") {
        Ok(PredicateOp::Gt)
    } else if str_eq(op, "lt") {
        Ok(PredicateOp::Lt)
    } else if str_eq(op, "between") {
        Ok(PredicateOp::Between)
    } else if str_eq(op, "is") {
        Ok(PredicateOp::Is)
    } else if str_eq(op, "is_not") {
        Ok(PredicateOp::IsNot)
    } else {
        let q = debug_quoted(op);
        let m = concat3("unknown predicate op ", q.as_str(), "");
        proof {
            reveal_strlit("");
        }
        assert(m@ =~= unknown_op_message(op@));
        Err(Error::Invalid(m))
    }
}

// ------------------------------------------------------------ routes

/// The routes of the service, each answered by one verb of the database.
#[derive(Clone, Copy, Debug, PartialEq, Eq, Structural)]
pub enum Route {
    Health,
    Status,
    Bound,
    Sample,
    Certainly,
    Watches,
    WatchesCheck,
    Find,
    Resolve,
    Decide,
    Join,
    Ingest,
    IngestBatch,
    Sources,
    ForgetSource,
    Recalibrate,
    PriorsRegister,
    PriorsUse,
    SchemaAddSlot,
    SchemaRemoveSlot,
    SchemaAddValue,
    SchemaAddCoupling,
    SchemaRemoveCoupling,
    AddWatch,
    RemoveWatch,
}

/// The routes that change the database.
pub open spec fn route_writes(r: Route) -> bool {
    match r {
        Route::Ingest | Route::IngestBatch | Route::Sources | Route::ForgetSource
        | Route::Recalibrate | Route::PriorsRegister | Route::PriorsUse | Route::SchemaAddSlot
        | Route::SchemaRemoveSlot | Route::SchemaAddValue | Route::SchemaAddCoupling
        | Route::SchemaRemoveCoupling | Route::AddWatch | Route::RemoveWatch => true,
        _ => false,
    }
}

/// The route table: which verb answers a method and a path.
pub open spec fn route_of(method: Seq<char>, path: Seq<char>) -> Option<Route> {
    if method == "GET"@ {
        if path == "/health"@ {
            Some(Route::Health)
        } else if path == "/status"@ {
            Some(Route::Status)
        } else if path == "/bound"@ {
            Some(Route::Bound)
        } else if path == "/sample"@ {
            Some(Route::Sample)
        } else if path == "/certainly"@ {
            Some(Route::Certainly)
        } else if path == "/watches"@ {
            Some(Route::Watches)
        } else if path == "/watches/check"@ {
            Some(Route::WatchesCheck)
        } else if path == "/find"@ {
            Some(Route::Find)
        } else {
            None
        }
    } else if method == "POST"@ {
        if path == "/resolve"@ {
            Some(Route::Resolve)
        } else if path == "/decide"@ {
            Some(Route::Decide)
        } else if path == "/join"@ {
            Some(Route::Join)
        } else if path == "/ingest"@ {
            Some(Route::Ingest)
        } else if path == "/ingest-batch"@ {
            Some(Route::IngestBatch)
        } else if path == "/sources"@ {
            Some(Route::Sources)
        } else if path == "/forget-source"@ {
            Some(Route::ForgetSource)
        } else if path == "/recalibrate"@ {
            Some(Route::Recalibrate)
        } else if path == "/priors/register"@ {
            Some(Route::PriorsRegister)
        } else if path == "/priors/use"@ {
            Some(Route::PriorsUse)
        } else if path == "/schema/add-slot"@ {
            Some(Route::SchemaAddSlot)
        } else if path == "/schema/remove-slot"@ {
            Some(Route::SchemaRemoveSlot)
        } else if path == "/schema/add-value"@ {
            Some(Route::SchemaAddValue)
        } else if path == "/schema/add-coupling"@ {
            Some(Route::SchemaAddCoupling)
        } else if path == "/schema/remove-coupling"@ {
            Some(Route::SchemaRemoveCoupling)
        } else if path == "/watches"@ {
            Some(Route::AddWatch)
        } else if path == "/watches/remove"@ {
            Some(Route::RemoveWatch)
        } else {
            None
        }
    } else {
        None
    }
}

/// Requests that mutate the database and need the exclusive write lock:
/// every POST but /resolve, /decide and /join, which only read.
pub open spec fn writes(method: Seq<char>, path: Seq<char>) -> bool {
    method == "POST"@ && path != "/resolve"@ && path != "/decide"@ && path != "/join"@
}

/// Whether a request takes the write lock.
pub fn is_write(method: &str, path: &str) -> (b: bool)
    ensures
        b == writes(method@, path@),
{
    str_eq(method, "POST") && !str_eq(path, "/resolve") && !str_eq(path, "/decide") && !str_eq(
        path,
        "/join",
    )
}

/// The Server-Sent-Events subscription, which the service answers with a
/// stream of its own rather than through the route table.
pub fn is_event_stream(method: &str, path: &str) -> (b: bool)
    ensures
        b == (method@ == "GET"@ && path@ == "/watches/events"@),
{
    str_eq(method, "GET") && str_eq(path, "/watches/events")
}

/// Looks a request up in the route table.
#[verifier::rlimit(30)]
pub fn route(method: &str, path: &str) -> (r: Option<Route>)
    ensures
        r == route_of(method@, path@),
{
    if str_eq(method, "GET") {
        if str_eq(path, "/health") {
            Some(Route::Health)
        } else if str_eq(path, "/status") {
            Some(Route::Status)
        } else if str_eq(path, "/bound") {
            Some(Route::Bound)
        } else if str_eq(path, "/sample") {
            Some(Route::Sample)
        } else if str_eq(path, "/certainly") {
            Some(Route::Certainly)
        } else if str_eq(path, "/watches") {
            Some(Route::Watches)
        } else if str_eq(path, "/watches/check") {
            Some(Route::WatchesCheck)
        } else if str_eq(path, "/find") {
            Some(Route::Find)
        } else {
            None
        }
    } else if str_eq(method, "POST") {
        if str_eq(path, "/resolve") {
            Some(Route::Resolve)
        } else if str_eq(path, "/decide") {
            Some(Route::Decide)
        } else if str_eq(path, "/join") {
            Some(Route::Join)
        } else if str_eq(path, "/ingest") {
            Some(Route::Ingest)
        } else if str_eq(path, "/ingest-batch") {
            Some(Route::IngestBatch)
        } else if str_eq(path, "/sources") {
            Some(Route::Sources)
        } else if str_eq(path, "/forget-source") {
            Some(Route::ForgetSource)
        } else if str_eq(path, "/recalibrate") {
            Some(Route::Recalibrate)
        } else if str_eq(path, "/priors/register") {
            Some(Route::PriorsRegister)
        } else if str_eq(path, "/priors/use") {
            Some(Route::PriorsUse)
        } else if str_eq(path, "/schema/add-slot") {
            Some(Route::SchemaAddSlot)
        } else if str_eq(path, "/schema/remove-slot") {
            Some(Route::SchemaRemoveSlot)
        } else if str_eq(path, "/schema/add-value") {
            Some(Route::SchemaAddValue)
        } else if str_eq(path, "/schema/add-coupling") {
            Some(Route::SchemaAddCoupling)
        } else if str_eq(path, "/schema/remove-coupling") {
            Some(Route::SchemaRemoveCoupling)
        } else if str_eq(path, "/watches") {
            Some(Route::AddWatch)
        } else if str_eq(path, "/watches/remove") {
            Some(Route::RemoveWatch)
        } else {
            None
        }
    } else {
        None
    }
}

/// The error for a request that the route table does not know.
pub fn no_such_route(method: &str, path: &str) -> (e: Error)
    ensures
        e matches Error::Invalid(m) && m@ == "no such route: "@ + method@ + " "@ + path@,
{
    let head = concat3("no such route: ", method, " ");
    let m = concat3(head.as_str(), path, "");
    proof {
        reveal_strlit("");
    }
    assert(m@ =~= "no such route: "@ + method@ + " "@ + path@);
    Error::Invalid(m)
}

/// A request that the route table knows is served under the lock that its
/// route needs: the write lock exactly for the routes that change the
/// database.
pub proof fn law_routes_take_the_right_lock(method: Seq<char>, path: Seq<char>)
    requires
        route_of(method, path) is Some,
    ensures
        writes(method, path) == route_writes(route_of(method, path)->0),
{
    reveal_strlit("GET");
    reveal_strlit("POST");
    assert("GET"@[0] != "POST"@[0]);
    if method == "POST"@ {
        reveal_strlit("/resolve");
        reveal_strlit("/decide");
        reveal_strlit("/join");
        let r = route_of(method, path)->0;
        if route_writes(r) {
            // Each write path differs from the three read-only POST paths
            // in its length or in its second character.
            assert(path.len() != "/resolve"@.len() || path[1] != "/resolve"@[1]) by {
                lemma_write_paths(path, r);
            }
            assert(path.len() != "/decide"@.len() || path[1] != "/decide"@[1]) by {
                lemma_write_paths(path, r);
            }
            assert(path.len() != "/join"@.len() || path[1] != "/join"@[1]) by {
                lemma_write_paths(path, r);
            }
        }
    }
}

proof fn lemma_write_paths(path: Seq<char>, r: Route)
    requires
        route_of("POST"@, path) == Some(r),
        route_writes(r),
    ensures
        path.len() >= 2,
        path[1] != 'r' || path.len() != 8,
        path[1] != 'd' || path.len() != 7,
        path[1] != 'j' || path.len() != 5,
{
    reveal_strlit("/resolve");
    reveal_strlit("/decide");
    reveal_strlit("/join");
    reveal_strlit("/ingest");
    reveal_strlit("/ingest-batch");
    reveal_strlit("/sources");
    reveal_strlit("/forget-source");
    reveal_strlit("/recalibrate");
    reveal_strlit("/priors/register");
    reveal_strlit("/priors/use");
    reveal_strlit("/schema/add-slot");
    reveal_strlit("/schema/remove-slot");
    reveal_strlit("/schema/add-value");
    reveal_strlit("/schema/add-coupling");
    reveal_strlit("/schema/remove-coupling");
    reveal_strlit("/watches");
    reveal_strlit("/watches/remove");
}

/// The request that each route serves: its method and its path.
pub open spec fn route_request(r: Route) -> (Seq<char>, Seq<char>) {
    match r {
        Route::Health => ("GET"@, "/health"@),
        Route::Status => ("GET"@, "/status"@),
        Route::Bound => ("GET"@, "/bound"@),
        Route::Sample => ("GET"@, "/sample"@),
        Route::Certainly => ("GET"@, "/certainly"@),
        Route::Watches => ("GET"@, "/watches"@),
        Route::WatchesCheck => ("GET"@, "/watches/check"@),
        Route::Find => ("GET"@, "/find"@),
        Route::Resolve => ("POST"@, "/resolve"@),
        Route::Decide => ("POST"@, "/decide"@),
        Route::Join => ("POST"@, "/join"@),
        Route::Ingest => ("POST"@, "/ingest"@),
        Route::IngestBatch => ("POST"@, "/ingest-batch"@),
        Route::Sources => ("POST"@, "/sources"@),
        Route::ForgetSource => ("POST"@, "/forget-source"@),
        Route::Recalibrate => ("POST"@, "/recalibrate"@),
        Route::PriorsRegister => ("POST"@, "/priors/register"@),
        Route::PriorsUse => ("POST"@, "/priors/use"@),
        Route::SchemaAddSlot => ("POST"@, "/schema/add-slot"@),
        Route::SchemaRemoveSlot => ("POST"@, "/schema/remove-slot"@),
        Route::SchemaAddValue => ("POST"@, "/schema/add-value"@),
        Route::SchemaAddCoupling => ("POST"@, "/schema/add-coupling"@),
        Route::SchemaRemoveCoupling => ("POST"@, "/schema/remove-coupling"@),
        Route::AddWatch => ("POST"@, "/watches"@),
        Route::RemoveWatch => ("POST"@, "/watches/remove"@),
    }
}

/// Each route's request is answered by the verb named after it: the
/// route table sends the method and path of a route to that route.
pub proof fn law_each_route_answers_its_request(r: Route)
    ensures
        route_of(route_request(r).0, route_request(r).1) == Some(r),
{
    reveal_strlit("GET");
    reveal_strlit("POST");
    reveal_strlit("/bound");
    reveal_strlit("/certainly");
    reveal_strlit("/decide");
    reveal_strlit("/find");
    reveal_strlit("/forget-source");
    reveal_strlit("/health");
    reveal_strlit("/ingest");
    reveal_strlit("/ingest-batch");
    reveal_strlit("/join");
    reveal_strlit("/priors/register");
    reveal_strlit("/priors/use");
    reveal_strlit("/recalibrate");
    reveal_strlit("/resolve");
    reveal_strlit("/sample");
    reveal_strlit("/schema/add-coupling");
    reveal_strlit("/schema/add-slot");
    reveal_strlit("/schema/add-value");
    reveal_strlit("/schema/remove-coupling");
    reveal_strlit("/schema/remove-slot");
    reveal_strlit("/sources");
    reveal_strlit("/status");
    reveal_strlit("/watches");
    reveal_strlit("/watches/check");
    reveal_strlit("/watches/remove");
    assert("GET"@[0] != "POST"@[0]);
    // Each path differs from every path tried before it in the table, by
    // its length or by the character named.
    match r {
        Route::Health => {},
        Route::Status => {
            assert("/status"@[1] != "/health"@[1]);
        },
        Route::Bound => {
            assert("/bound"@.len() != "/health"@.len());
            assert("/bound"@.len() != "/status"@.len());
        },
        Route::Sample => {
            assert("/sample"@[1] != "/health"@[1]);
            assert("/sample"@[2] != "/status"@[2]);
            assert("/sample"@.len() != "/bound"@.len());
        },
        Route::Certainly => {
            assert("/certainly"@.len() != "/health"@.len());
            assert("/certainly"@.len() != "/status"@.len());
            assert("/certainly"@.len() != "/bound"@.len());
            assert("/certainly"@.len() != "/sample"@.len());
        },
        Route::Watches => {
            assert("/watches"@.len() != "/health"@.len());
            assert("/watches"@.len() != "/status"@.len());
            assert("/watches"@.len() != "/bound"@.len());
            assert("/watches"@.len() != "/sample"@.len());
            assert("/watches"@.len() != "/certainly"@.len());
        },
        Route::WatchesCheck => {
            assert("/watches/check"@.len() != "/health"@.len());
            assert("/watches/check"@.len() != "/status"@.len());
            assert("/watches/check"@.len() != "/bound"@.len());
            assert("/watches/check"@.len() != "/sample"@.len());
            assert("/watches/check"@.len() != "/certainly"@.len());
            assert("/watches/check"@.len() != "/watches"@.len());
        },
        Route::Find => {
            assert("/find"@.len() != "/health"@.len());
            assert("/find"@.len() != "/status"@.len());
            assert("/find"@.len() != "/bound"@.len());
            assert("/find"@.len() != "/sample"@.len());
            assert("/find"@.len() != "/certainly"@.len());
            assert("/find"@.len() != "/watches"@.len());
            assert("/find"@.len() != "/watches/check"@.len());
        },
        Route::Resolve => {},
        Route::Decide => {
            assert("/decide"@.len() != "/resolve"@.len());
        },
        Route::Join => {
            assert("/join"@.len() != "/resolve"@.len());
            assert("/join"@.len() != "/decide"@.len());
        },
        Route::Ingest => {
            assert("/ingest"@.len() != "/resolve"@.len());
            assert("/ingest"@[1] != "/decide"@[1]);
            assert("/ingest"@.len() != "/join"@.len());
        },
        Route::IngestBatch => {
            assert("/ingest-batch"@.len() != "/resolve"@.len());
            assert("/ingest-batch"@.len() != "/decide"@.len());
            assert("/ingest-batch"@.len() != "/join"@.len());
            assert("/ingest-batch"@.len() != "/ingest"@.len());
        },
        Route::Sources => {
            assert("/sources"@[1] != "/resolve"@[1]);
            assert("/sources"@.len() != "/decide"@.len());
            assert("/sources"@.len() != "/join"@.len());
            assert("/sources"@.len() != "/ingest"@.len());
            assert("/sources"@.len() != "/ingest-batch"@.len());
        },
        Route::ForgetSource => {
            assert("/forget-source"@.len() != "/resolve"@.len());
            assert("/forget-source"@.len() != "/decide"@.len());
            assert("/forget-source"@.len() != "/join"@.len());
            assert("/forget-source"@.len() != "/ingest"@.len());
            assert("/forget-source"@.len() != "/ingest-batch"@.len());
            assert("/forget-source"@.len() != "/sources"@.len());
        },
        Route::Recalibrate => {
            assert("/recalibrate"@.len() != "/resolve"@.len());
            assert("/recalibrate"@.len() != "/decide"@.len());
            assert("/recalibrate"@.len() != "/join"@.len());
            assert("/recalibrate"@.len() != "/ingest"@.len());
            assert("/recalibrate"@.len() != "/ingest-batch"@.len());
            assert("/recalibrate"@.len() != "/sources"@.len());
            assert("/recalibrate"@.len() != "/forget-source"@.len());
        },
        Route::PriorsRegister => {
            assert("/priors/register"@.len() != "/resolve"@.len());
            assert("/priors/register"@.len() != "/decide"@.len());
            assert("/priors/register"@.len() != "/join"@.len());
            assert("/priors/register"@.len() != "/ingest"@.len());
            assert("/priors/register"@.len() != "/ingest-batch"@.len());
            assert("/priors/register"@.len() != "/sources"@.len());
            assert("/priors/register"@.len() != "/forget-source"@.len());
            assert("/priors/register"@.len() != "/recalibrate"@.len());
        },
        Route::PriorsUse => {
            assert("/priors/use"@.len() != "/resolve"@.len());
            assert("/priors/use"@.len() != "/decide"@.len());
            assert("/priors/use"@.len() != "/join"@.len());
            assert("/priors/use"@.len() != "/ingest"@.len());
            assert("/priors/use"@.len() != "/ingest-batch"@.len());
            assert("/priors/use"@.len() != "/sources"@.len());
            assert("/priors/use"@.len() != "/forget-source"@.len());
            assert("/priors/use"@.len() != "/recalibrate"@.len());
            assert("/priors/use"@.len() != "/priors/register"@.len());
        },
        Route::SchemaAddSlot => {
            assert("/schema/add-slot"@.len() != "/resolve"@.len());
            assert("/schema/add-slot"@.len() != "/decide"@.len());
            assert("/schema/add-slot"@.len() != "/join"@.len());
            assert("/schema/add-slot"@.len() != "/ingest"@.len());
            assert("/schema/add-slot"@.len() != "/ingest-batch"@.len());
            assert("/schema/add-slot"@.len() != "/sources"@.len());
            assert("/schema/add-slot"@.len() != "/forget-source"@.len());
            assert("/schema/add-slot"@.len() != "/recalibrate"@.len());
            assert("/schema/add-slot"@[1] != "/priors/register"@[1]);
            assert("/schema/add-slot"@.len() != "/priors/use"@.len());
        },
        Route::SchemaRemoveSlot => {
            assert("/schema/remove-slot"@.len() != "/resolve"@.len());
            assert("/schema/remove-slot"@.len() != "/decide"@.len());
            assert("/schema/remove-slot"@.len() != "/join"@.len());
            assert("/schema/remove-slot"@.len() != "/ingest"@.len());
            assert("/schema/remove-slot"@.len() != "/ingest-batch"@.len());
            assert("/schema/remove-slot"@.len() != "/sources"@.len());
            assert("/schema/remove-slot"@.len() != "/forget-source"@.len());
            assert("/schema/remove-slot"@.len() != "/recalibrate"@.len());
            assert("/schema/remove-slot"@.len() != "/priors/register"@.len());
            assert("/schema/remove-slot"@.len() != "/priors/use"@.len());
            assert("/schema/remove-slot"@.len() != "/schema/add-slot"@.len());
        },
        Route::SchemaAddValue => {
            assert("/schema/add-value"@.len() != "/resolve"@.len());
            assert("/schema/add-value"@.len() != "/decide"@.len());
            assert("/schema/add-value"@.len() != "/join"@.len());
            assert("/schema/add-value"@.len() != "/ingest"@.len());
            assert("/schema/add-value"@.len() != "/ingest-batch"@.len());
            assert("/schema/add-value"@.len() != "/sources"@.len());
            assert("/schema/add-value"@.len() != "/forget-source"@.len());
            assert("/schema/add-value"@.len() != "/recalibrate"@.len());
            assert("/schema/add-value"@.len() != "/priors/register"@.len());
            assert("/schema/add-value"@.len() != "/priors/use"@.len());
            assert("/schema/add-value"@.len() != "/schema/add-slot"@.len());
            assert("/schema/add-value"@.len() != "/schema/remove-slot"@.len());
        },
        Route::SchemaAddCoupling => {
            assert("/schema/add-coupling"@.len() != "/resolve"@.len());
            assert("/schema/add-coupling"@.len() != "/decide"@.len());
            assert("/schema/add-coupling"@.len() != "/join"@.len());
            assert("/schema/add-coupling"@.len() != "/ingest"@.len());
            assert("/schema/add-coupling"@.len() != "/ingest-batch"@.len());
            assert("/schema/add-coupling"@.len() != "/sources"@.len());
            assert("/schema/add-coupling"@.len() != "/forget-source"@.len());
            assert("/schema/add-coupling"@.len() != "/recalibrate"@.len());
            assert("/schema/add-coupling"@.len() != "/priors/register"@.len());
            assert("/schema/add-coupling"@.len() != "/priors/use"@.len());
            assert("/schema/add-coupling"@.len() != "/schema/add-slot"@.len());
            assert("/schema/add-coupling"@.len() != "/schema/remove-slot"@.len());
            assert("/schema/add-coupling"@.len() != "/schema/add-value"@.len());
        },
        Route::SchemaRemoveCoupling => {
            assert("/schema/remove-coupling"@.len() != "/resolve"@.len());
            assert("/schema/remove-coupling"@.len() != "/decide"@.len());
            assert("/schema/remove-coupling"@.len() != "/join"@.len());
            assert("/schema/remove-coupling"@.len() != "/ingest"@.len());
            assert("/schema/remove-coupling"@.len() != "/ingest-batch"@.len());
            assert("/schema/remove-coupling"@.len() != "/sources"@.len());
            assert("/schema/remove-coupling"@.len() != "/forget-source"@.len());
            assert("/schema/remove-coupling"@.len() != "/recalibrate"@.len());
            assert("/schema/remove-coupling"@.len() != "/priors/register"@.len());
            assert("/schema/remove-coupling"@.len() != "/priors/use"@.len());
            assert("/schema/remove-coupling"@.len() != "/schema/add-slot"@.len());
            assert("/schema/remove-coupling"@.len() != "/schema/remove-slot"@.len());
            assert("/schema/remove-coupling"@.len() != "/schema/add-value"@.len());
            assert("/schema/remove-coupling"@.len() != "/schema/add-coupling"@.len());
        },
        Route::AddWatch => {
            assert("/watches"@[1] != "/resolve"@[1]);
            assert("/watches"@.len() != "/decide"@.len());
            assert("/watches"@.len() != "/join"@.len());
            assert("/watches"@.len() != "/ingest"@.len());
            assert("/watches"@.len() != "/ingest-batch"@.len());
            assert("/watches"@[1] != "/sources"@[1]);
            assert("/watches"@.len() != "/forget-source"@.len());
            assert("/watches"@.len() != "/recalibrate"@.len());
            assert("/watches"@.len() != "/priors/register"@.len());
            assert("/watches"@.len() != "/priors/use"@.len());
            assert("/watches"@.len() != "/schema/add-slot"@.len());
            assert("/watches"@.len() != "/schema/remove-slot"@.len());
            assert("/watches"@.len() != "/schema/add-value"@.len());
            assert("/watches"@.len() != "/schema/add-coupling"@.len());
            assert("/watches"@.len() != "/schema/remove-coupling"@.len());
        },
        Route::RemoveWatch => {
            assert("/watches/remove"@.len() != "/resolve"@.len());
            assert("/watches/remove"@.len() != "/decide"@.len());
            assert("/watches/remove"@.len() != "/join"@.len());
            assert("/watches/remove"@.len() != "/ingest"@.len());
            assert("/watches/remove"@.len() != "/ingest-batch"@.len());
            assert("/watches/remove"@.len() != "/sources"@.len());
            assert("/watches/remove"@.len() != "/forget-source"@.len());
            assert("/watches/remove"@.len() != "/recalibrate"@.len());
            assert("/watches/remove"@.len() != "/priors/register"@.len());
            assert("/watches/remove"@.len() != "/priors/use"@.len());
            assert("/watches/remove"@.len() != "/schema/add-slot"@.len());
            assert("/watches/remove"@.len() != "/schema/remove-slot"@.len());
            assert("/watches/remove"@.len() != "/schema/add-value"@.len());
            assert("/watches/remove"@.len() != "/schema/add-coupling"@.len());
            assert("/watches/remove"@.len() != "/schema/remove-coupling"@.len());
            assert("/watches/remove"@.len() != "/watches"@.len());
        },
    }
}

/// The route table answers no request with a route but the route's own
/// method and path: two requests that differ are never sent to
/// the same verb.
pub proof fn law_routes_answer_only_their_request(method: Seq<char>, path: Seq<char>)
    requires
        route_of(method, path) is Some,
    ensures
        route_request(route_of(method, path)->0) == (method, path),
{
}

// ------------------------------------------------------------ responses

/// A lowercase hexadecimal digit (`n` in 0..16).
pub open spec fn hex_char(n: int) -> char {
    if n < 10 {
        (48 + n) as char
    } else {
        (87 + n) as char
    }
}

/// How `serde_json` writes one character inside a JSON string: a quote
/// mark or a backslash gets a backslash; backspace, tab, line feed, form
/// feed and carriage return get their short escapes; the other characters
/// below U+0020 become `\u00xx` in lowercase hexadecimal; every other
/// character is written as it is.
pub open spec fn json_char(c: char) -> Seq<char> {
    let u = c as u32;
    if c == '"' {
        seq!['\\', '"']
    } else if c == '\\' {
        seq!['\\', '\\']
    } else if u == 8 {
        seq!['\\', 'b']
    } else if u == 9 {
        seq!['\\', 't']
    } else if u == 10 {
        seq!['\\', 'n']
    } else if u == 12 {
        seq!['\\', 'f']
    } else if u == 13 {
        seq!['\\', 'r']
    } else if u < 0x20 {
        seq!['\\', 'u', '0', '0', hex_char((u / 16) as int), hex_char((u % 16) as int)]
    } else {
        seq![c]
    }
}

/// The characters of a string, each written as [`json_char`] writes it.
pub open spec fn json_chars(s: Seq<char>) -> Seq<char>
    decreases s.len(),
{
    if s.len() == 0 {
        Seq::empty()
    } else {
        json_chars(s.drop_last()) + json_char(s.last())
    }
}

/// What `serde_json` writes for a string: the JSON string literal, its
/// characters escaped, in double quotes.
pub open spec fn json_string(s: Seq<char>) -> Seq<char> {
    seq!['"'] + json_chars(s) + seq!['"']
}

/// Calls `serde_json::to_string` on a string slice, which writes its JSON
/// string literal with the escapes of `json_string` (serde_json's
/// `format_escaped_str` and its `ESCAPE` table, in the compact formatter).
/// Writing into memory cannot fail there, so the error arm is never taken.
#[verifier::external_body]
fn json_quote(s: &str) -> (q: String)
    ensures
        q@ == json_string(s@),
{
    match serde_json::to_string(s) {
        Ok(q) => q,
        Err(_) => String::new(),
    }
}

/// The JSON body of an error answer: `{"error":<message>}`.
pub open spec fn error_json(message: Seq<char>) -> Seq<char> {
    "{\"error\":"@ + json_string(message) + "}"@
}

fn error_body(message: &str) -> (b: String)
    ensures
        b@ == error_json(message@),
{
    let q = json_quote(message);
    concat3("{\"error\":", q.as_str(), "}")
}

/// The HTTP status of an error: 409 for an axiom conflict, 404 for an
/// unknown route, 400 for any other refused input.
pub open spec fn error_status(e: Error) -> u16 {
    match e {
        Error::AxiomConflict(_) => 409,
        Error::Invalid(m) => if starts_with(m@, "no such route"@) {
            404
        } else {
            400
        },
    }
}

/// The JSON body of an error answer.
pub open spec fn error_message(e: Error) -> Seq<char> {
    match e {
        Error::AxiomConflict(m) => error_json("axiom conflict: "@ + m@),
        Error::Invalid(m) => error_json(m@),
    }
}

/// A verb's result as an HTTP answer: 200 with the payload, or the error's
/// status with `{"error": ...}`.
pub fn to_response(result: Result<String, Error>) -> (r: (u16, String))
    ensures
        result matches Ok(p) ==> r.0 == 200 && r.1@ == p@,
        result matches Err(e) ==> r.0 == error_status(e) && r.1@ == error_message(e),
        result is Err ==> r.0 != 200,
{
    match result {
        Ok(payload) => (200, payload),
        Err(Error::AxiomConflict(m)) => {
            let text = concat3("axiom conflict: ", m.as_str(), "");
            proof {
                reveal_strlit("");
            }
            assert(text@ =~= "axiom conflict: "@ + m@);
            (409, error_body(text.as_str()))
        },
        Err(Error::Invalid(m)) => {
            let status: u16 = if str_starts_with(m.as_str(), "no such route") {
                404
            } else {
                400
            };
            (status, error_body(m.as_str()))
        },
    }
}

/// A request that the route table does not know is answered 404.
pub proof fn law_unknown_route_is_404(method: Seq<char>, path: Seq<char>, m: String)
    requires
        m@ == "no such route: "@ + method + " "@ + path,
    ensures
        error_status(Error::Invalid(m)) == 404,
{
    reveal_strlit("no such route: ");
    reveal_strlit("no such route");
    assert(m@.take(13) =~= "no such route"@);
}

/// A refused request is never answered as a success: every error has
/// status 400, 404 or 409. An axiom conflict is 409; a refused input is
/// 404 when its message begins with "no such route", and 400 otherwise.
pub proof fn law_refusals_are_never_ok(e: Error)
    ensures
        error_status(e) != 200,
        error_status(e) == 400 || error_status(e) == 404 || error_status(e) == 409,
        e is AxiomConflict ==> error_status(e) == 409,
        e matches Error::Invalid(m) && m@.len() >= 13 && m@.subrange(0, 13) == seq!['n', 'o', ' ', 's', 'u', 'c', 'h', ' ', 'r', 'o', 'u', 't', 'e'] ==> error_status(e) == 404,
        e matches Error::Invalid(m) && !(m@.len() >= 13 && m@.subrange(0, 13) == seq!['n', 'o', ' ', 's', 'u', 'c', 'h', ' ', 'r', 'o', 'u', 't', 'e']) ==> error_status(e) == 400,
{
    reveal_strlit("no such route");
    if let Error::Invalid(m) = e {
        assert(m@.take(13) =~= m@.subrange(0, 13));
        assert("no such route"@ =~= seq!['n', 'o', ' ', 's', 'u', 'c', 'h', ' ', 'r', 'o', 'u', 't', 'e']);
    }
}

/// One Server-Sent-Events frame: `event: <event>\ndata: <data>\n\n`.
pub fn sse_frame(event: &str, data: &str) -> (f: String)
    ensures
        f@ == "event: "@ + event@ + "\ndata: "@ + data@ + "\n\n"@,
{
    let head = concat3("event: ", event, "\ndata: ");
    let f = concat3(head.as_str(), data, "\n\n");
    assert(f@ =~= "event: "@ + event@ + "\ndata: "@ + data@ + "\n\n"@);
    f
}

} // verus!
