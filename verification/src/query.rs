//! Building of DNS query messages: a fixed standard-query header followed
//! by one question record holding the length-prefixed labels of the name.

use vstd::prelude::*;
use vstd::utf8::encode_utf8;

verus! {

/// The byte that separates the labels of a dotted domain name.
pub const LABEL_DOT: u8 = 46;

/// Transaction identifier placed in every outbound query. It is a fixed
/// constant, so queries for the same name are byte-identical.
pub const QUERY_TRANSACTION_ID: u16 = 0x1234;

/// Header flags of a standard query with recursion desired.
pub const QUERY_FLAGS: u16 = 0x0100;

/// The high byte of a 16-bit value in big-endian order.
pub open spec fn hi8(x: u16) -> u8 {
    (x / 256) as u8
}

/// The low byte of a 16-bit value in big-endian order.
pub open spec fn lo8(x: u16) -> u8 {
    (x % 256) as u8
}

/// The fixed 12-byte DNS message header.
#[derive(Debug, Clone, Copy)]
pub struct DnsHeader {
    pub transaction_id: u16,
    pub flags: u16,
    pub questions: u16,
    pub answers: u16,
    pub authority: u16,
    pub additional: u16,
}

/// The header every outbound query carries: fixed transaction id and
/// flags, exactly one question, no other records.
pub open spec fn spec_standard_header() -> DnsHeader {
    DnsHeader {
        transaction_id: QUERY_TRANSACTION_ID,
        flags: QUERY_FLAGS,
        questions: 1,
        answers: 0,
        authority: 0,
        additional: 0,
    }
}

/// The 12 bytes of a header on the wire: six big-endian 16-bit fields.
pub open spec fn spec_header_bytes(h: DnsHeader) -> Seq<u8> {
    seq![
        hi8(h.transaction_id),
        lo8(h.transaction_id),
        hi8(h.flags),
        lo8(h.flags),
        hi8(h.questions),
        lo8(h.questions),
        hi8(h.answers),
        lo8(h.answers),
        hi8(h.authority),
        lo8(h.authority),
        hi8(h.additional),
        lo8(h.additional),
    ]
}

impl DnsHeader {
    /// A standard-query header.
    pub fn new() -> (h: Self)
        ensures
            h == spec_standard_header(),
    {
        Self {
            transaction_id: QUERY_TRANSACTION_ID,
            flags: QUERY_FLAGS,
            questions: 1,
            answers: 0,
            authority: 0,
            additional: 0,
        }
    }

    /// Serializes the header into its 12 wire bytes.
    pub fn to_bytes(&self) -> (r: Vec<u8>)
        ensures
            r@ == spec_header_bytes(*self),
    {
        let mut bytes: Vec<u8> = Vec::new();
        bytes.push((self.transaction_id / 256) as u8);
        bytes.push((self.transaction_id % 256) as u8);
        bytes.push((self.flags / 256) as u8);
        bytes.push((self.flags % 256) as u8);
        bytes.push((self.questions / 256) as u8);
        bytes.push((self.questions % 256) as u8);
        bytes.push((self.answers / 256) as u8);
        bytes.push((self.answers % 256) as u8);
        bytes.push((self.authority / 256) as u8);
        bytes.push((self.authority % 256) as u8);
        bytes.push((self.additional / 256) as u8);
        bytes.push((self.additional % 256) as u8);
        proof {
            assert(bytes@ =~= spec_header_bytes(*self));
        }
        bytes
    }
}

/// The index of the first dot in `s`, or `s.len()` if there is none.
pub open spec fn first_dot(s: Seq<u8>) -> int
    decreases s.len(),
{
    if s.len() == 0 {
        0
    } else if s[0] == LABEL_DOT {
        0
    } else {
        1 + first_dot(s.skip(1))
    }
}

/// `first_dot` lies within the sequence, points at a dot unless it is the
/// length, and nothing before it is a dot.
pub proof fn lemma_first_dot_bounds(s: Seq<u8>)
    ensures
        0 <= first_dot(s) <= s.len(),
        first_dot(s) < s.len() ==> s[first_dot(s)] == LABEL_DOT,
        forall|k: int| 0 <= k < first_dot(s) ==> s[k] != LABEL_DOT,
    decreases s.len(),
{
    if s.len() == 0 || s[0] == LABEL_DOT {
    } else {
        lemma_first_dot_bounds(s.skip(1));
        let d = first_dot(s);
        assert forall|k: int| 0 <= k < d implies s[k] != LABEL_DOT by {
            if k >= 1 {
                assert(s.skip(1)[k - 1] == s[k]);
            }
        }
        if d < s.len() {
            assert(s.skip(1)[d - 1] == s[d]);
        }
    }
}

/// If nothing before `d` is a dot and `d` is a dot or the length, then
/// `d` is the first dot.
pub proof fn lemma_first_dot_is(s: Seq<u8>, d: int)
    requires
        0 <= d <= s.len(),
        forall|k: int| 0 <= k < d ==> s[k] != LABEL_DOT,
        d < s.len() ==> s[d] == LABEL_DOT,
    ensures
        first_dot(s) == d,
    decreases d,
{
    if d == 0 {
    } else {
        assert(s[0] != LABEL_DOT);
        assert forall|k: int| 0 <= k < d - 1 implies s.skip(1)[k] != LABEL_DOT by {
            assert(s.skip(1)[k] == s[k + 1]);
        }
        if d - 1 < s.skip(1).len() {
            assert(s.skip(1)[d - 1] == s[d]);
        }
        lemma_first_dot_is(s.skip(1), d - 1);
    }
}

/// The label encoding of a name: each run of bytes up to the next dot is
/// emitted as one length byte (the run's length, reduced modulo 256 as a
/// cast to one byte reduces it) followed by the run itself; the dots
/// themselves are consumed.
pub open spec fn encode_labels(s: Seq<u8>) -> Seq<u8>
    decreases s.len(),
{
    let d = first_dot(s);
    if d == s.len() {
        seq![((d % 256) as u8)] + s
    } else if 0 <= d < s.len() {
        seq![((d % 256) as u8)] + s.subrange(0, d) + encode_labels(s.skip(d + 1))
    } else {
        // never reached: the first dot lies within the name
        Seq::empty()
    }
}

/// Unfolds `encode_labels` over the label that runs from `start` to the
/// next dot (or the end) at `end`: the encoding of the tail starting at
/// `start` opens into one length byte, the label's bytes, and the encoding
/// of what follows the dot.
pub proof fn lemma_encode_labels_step(s: Seq<u8>, start: int, end: int)
    requires
        0 <= start <= end <= s.len(),
        forall|k: int| start <= k < end ==> s[k] != LABEL_DOT,
        end < s.len() ==> s[end] == LABEL_DOT,
    ensures
        end == s.len() ==> encode_labels(s.skip(start)) == seq![((((end - start)) % 256) as u8)]
            + s.subrange(start, end),
        end < s.len() ==> encode_labels(s.skip(start)) == seq![((((end - start)) % 256) as u8)]
            + s.subrange(start, end) + encode_labels(s.skip(end + 1)),
{
    let rest = s.skip(start);
    let d = end - start;
    assert forall|k: int| 0 <= k < d implies rest[k] != LABEL_DOT by {
        assert(rest[k] == s[k + start]);
    }
    if end < s.len() {
        assert(rest[d] == s[end]);
    }
    lemma_first_dot_is(rest, d);
    if end == s.len() {
        assert(rest =~= s.subrange(start, end));
    } else {
        assert(rest.subrange(0, d) =~= s.subrange(start, end));
        assert(rest.skip(d + 1) =~= s.skip(end + 1));
    }
}

/// A dotted name whose labels all have between 1 and 63 bytes: every run
/// between dots (and before the first and after the last dot) is non-empty
/// and at most 63 bytes long.
pub open spec fn valid_name(s: Seq<u8>) -> bool
    decreases s.len(),
{
    let d = first_dot(s);
    if d == s.len() {
        1 <= d <= 63
    } else if 0 <= d < s.len() {
        1 <= d <= 63 && valid_name(s.skip(d + 1))
    } else {
        // never reached: the first dot lies within the name
        false
    }
}

/// Reads a label encoding back into a dotted name: each length byte is
/// followed by that many label bytes, labels are joined with dots, and a
/// zero length byte ends the walk. A length byte that reaches past the
/// end takes what is there.
pub open spec fn decode_labels(e: Seq<u8>) -> Seq<u8>
    decreases e.len(),
{
    if e.len() == 0 {
        Seq::empty()
    } else {
        let l = e[0] as int;
        if l == 0 {
            Seq::empty()
        } else if 1 + l >= e.len() {
            e.skip(1)
        } else if e.skip(1 + l)[0] == 0 {
            e.subrange(1, 1 + l)
        } else {
            e.subrange(1, 1 + l) + seq![LABEL_DOT] + decode_labels(e.skip(1 + l))
        }
    }
}

/// A label encoding is never empty and starts with the first label's
/// length byte.
pub proof fn lemma_encode_labels_first(s: Seq<u8>)
    ensures
        encode_labels(s).len() >= 1,
        encode_labels(s)[0] == (((first_dot(s) % 256)) as u8),
{
    lemma_first_dot_bounds(s);
}

/// A valid name's first label has between 1 and 63 bytes.
pub proof fn lemma_valid_name_first(s: Seq<u8>)
    requires
        valid_name(s),
    ensures
        1 <= first_dot(s) <= 63,
{
    lemma_first_dot_bounds(s);
}

/// The induction behind the round trip: whatever bytes follow the zero
/// terminator, decoding stops there and gives back the name.
proof fn lemma_labels_decode_with_suffix(s: Seq<u8>, suffix: Seq<u8>)
    requires
        valid_name(s),
    ensures
        decode_labels(encode_labels(s) + seq![0u8] + suffix) == s,
    decreases s.len(),
{
    lemma_first_dot_bounds(s);
    let d = first_dot(s);
    let e = encode_labels(s) + seq![0u8] + suffix;
    assert(e[0] as int == d);
    if d == s.len() {
        assert(e =~= seq![((d % 256) as u8)] + s + seq![0u8] + suffix);
        assert(e.len() == d + 2 + suffix.len());
        assert(e.skip(1 + d)[0] == 0);
        assert(e.subrange(1, 1 + d) =~= s);
    } else {
        let tail = s.skip(d + 1);
        lemma_labels_decode_with_suffix(tail, suffix);
        lemma_encode_labels_first(tail);
        lemma_first_dot_bounds(tail);
        let e2 = encode_labels(tail) + seq![0u8] + suffix;
        assert(e =~= seq![((d % 256) as u8)] + s.subrange(0, d) + e2);
        assert(e.len() == 1 + d + e2.len());
        assert(e.skip(1 + d) =~= e2);
        // the next length byte is a label length between 1 and 63, not 0
        assert(valid_name(tail));
        lemma_valid_name_first(tail);
        assert(e2[0] as int == first_dot(tail));
        assert(e.subrange(1, 1 + d) =~= s.subrange(0, d));
        assert(decode_labels(e) == s.subrange(0, d) + seq![LABEL_DOT] + tail);
        assert(s.subrange(0, d) + seq![LABEL_DOT] + tail =~= s);
    }
}

/// Round trip of the label encoding: for a dotted name whose labels have
/// 1 to 63 bytes, decoding the encoded, zero-terminated labels gives back
/// the name exactly.
pub proof fn lemma_name_round_trip(s: Seq<u8>)
    requires
        valid_name(s),
    ensures
        decode_labels(encode_labels(s) + seq![0u8]) == s,
{
    lemma_labels_decode_with_suffix(s, Seq::empty());
    assert(encode_labels(s) + seq![0u8] + Seq::<u8>::empty() =~= encode_labels(s) + seq![0u8]);
}

/// The wire bytes of a question record: the name's labels, a zero
/// terminator, then the query type and class as big-endian 16-bit values.
pub open spec fn spec_question_bytes(name: Seq<u8>, qtype: u16, qclass: u16) -> Seq<u8> {
    encode_labels(name) + seq![0u8, hi8(qtype), lo8(qtype), hi8(qclass), lo8(qclass)]
}

/// Round trip over a whole question record: decoding the labels at the
/// front of the encoded question gives back the name exactly, for any
/// dotted name whose labels have 1 to 63 bytes.
pub proof fn lemma_question_round_trip(name: Seq<u8>, qtype: u16, qclass: u16)
    requires
        valid_name(name),
    ensures
        decode_labels(spec_question_bytes(name, qtype, qclass)) == name,
{
    let suffix = seq![hi8(qtype), lo8(qtype), hi8(qclass), lo8(qclass)];
    lemma_labels_decode_with_suffix(name, suffix);
    assert(spec_question_bytes(name, qtype, qclass) =~= encode_labels(name) + seq![0u8] + suffix);
}

/// A question record: the queried name with its type and class. Only
/// type 1 (A) and class 1 (IN) are ever built here.
#[derive(Debug, Clone)]
pub struct DnsQuestion {
    pub name: String,
    pub qtype: u16,
    pub qclass: u16,
}

impl DnsQuestion {
    /// A question asking for the A records of `name` in the IN class.
    pub fn new(name: String) -> (q: Self)
        ensures
            q.name@ == name@,
            q.qtype == 1,
            q.qclass == 1,
    {
        Self { name, qtype: 1, qclass: 1 }
    }

    /// Serializes the question: length-prefixed labels of the name's
    /// UTF-8 bytes, a zero terminator, then type and class.
    #[verifier::rlimit(50)]
    pub fn to_bytes(&self) -> (r: Vec<u8>)
        ensures
            r@ == spec_question_bytes(encode_utf8(self.name@), self.qtype, self.qclass),
    {
        let mut bytes: Vec<u8> = Vec::new();
        let name_bytes: &[u8] = self.name.as_str().as_bytes();
        let ghost s = name_bytes@;
        let n = name_bytes.len();
        let mut start: usize = 0;
        let mut done = false;
        proof {
            assert(s.skip(0) =~= s);
            assert(bytes@ + encode_labels(s) =~= encode_labels(s));
        }
        while !done
            invariant
                n == s.len(),
                s == name_bytes@,
                start <= n,
                !done ==> encode_labels(s) == bytes@ + encode_labels(s.skip(start as int)),
                done ==> encode_labels(s) == bytes@,
            decreases n - start + (if done {
                0int
            } else {
                1int
            }),
        {
            let ghost prev = bytes@;
            let mut end = start;
            while end < n && name_bytes[end] != LABEL_DOT
                invariant
                    start <= end <= n,
                    s == name_bytes@,
                    n == s.len(),
                    forall|k: int| start <= k < end ==> s[k] != LABEL_DOT,
                decreases n - end,
            {
                end = end + 1;
            }
            let label_len: u8 = #[verifier::truncate] ((end - start) as u8);
            proof {
                assert(label_len as int == (end - start) % 256) by (bit_vector)
                    requires
                        label_len == (end - start) as u8,
                        end >= start,
                ;
                lemma_encode_labels_step(s, start as int, end as int);
            }
            bytes.push(label_len);
            let ghost emitted = prev.push(label_len);
            proof {
                assert(bytes@ =~= emitted + s.subrange(start as int, start as int));
            }
            let mut i = start;
            while i < end
                invariant
                    start <= i <= end <= n,
                    s == name_bytes@,
                    n == s.len(),
                    bytes@ == emitted + s.subrange(start as int, i as int),
                decreases end - i,
            {
                bytes.push(name_bytes[i]);
                proof {
                    assert((emitted + s.subrange(start as int, i as int)).push(s[i as int]) =~= (
                    emitted + s.subrange(start as int, i + 1)));
                }
                i = i + 1;
            }
            proof {
                assert(bytes@ =~= prev + (seq![(((end - start) % 256) as u8)] + s.subrange(
                    start as int,
                    end as int,
                )));
                if end < n {
                    assert(encode_labels(s) =~= bytes@ + encode_labels(s.skip(end + 1)));
                }
            }
            if end == n {
                start = end;
                done = true;
            } else {
                start = end + 1;
            }
        }
        bytes.push(0);
        bytes.push((self.qtype / 256) as u8);
        bytes.push((self.qtype % 256) as u8);
        bytes.push((self.qclass / 256) as u8);
        bytes.push((self.qclass % 256) as u8);
        proof {
            assert(bytes@ =~= spec_question_bytes(encode_utf8(self.name@), self.qtype,
            self.qclass));
        }
        bytes
    }
}

/// A complete outbound query: the fixed standard header and one question.
pub struct DnsQuery {
    pub header: DnsHeader,
    pub question: DnsQuestion,
}

/// The wire bytes of a whole query for `name`: the 12 standard-header
/// bytes followed by the question record for the name's UTF-8 bytes.
pub open spec fn spec_build_dns_query(name: Seq<char>) -> Seq<u8> {
    spec_header_bytes(spec_standard_header()) + spec_question_bytes(encode_utf8(name), 1, 1)
}

impl DnsQuery {
    /// A standard A-record query for `name`.
    pub fn new(name: String) -> (q: Self)
        ensures
            q.header == spec_standard_header(),
            q.question.name@ == name@,
            q.question.qtype == 1,
            q.question.qclass == 1,
    {
        Self { header: DnsHeader::new(), question: DnsQuestion::new(name) }
    }

    /// Serializes the query: header bytes, then question bytes.
    pub fn to_bytes(&self) -> (r: Vec<u8>)
        ensures
            r@ == spec_header_bytes(self.header) + spec_question_bytes(
                encode_utf8(self.question.name@),
                self.question.qtype,
                self.question.qclass,
            ),
    {
        let mut bytes = self.header.to_bytes();
        let mut question_bytes = self.question.to_bytes();
        bytes.append(&mut question_bytes);
        bytes
    }
}

/// Builds the wire bytes of a standard A-record query for `name`. The
/// header's transaction id and flags are fixed constants, so the result is
/// a function of the name alone.
pub fn build_dns_query(name: &str) -> (r: Vec<u8>)
    ensures
        r@ == spec_build_dns_query(name@),
{
    DnsQuery::new(name.to_owned()).to_bytes()
}

/// Building a query is deterministic: two queries built for the same name
/// are byte-identical, because the transaction id and flags are fixed.
pub proof fn lemma_build_dns_query_deterministic(name: Seq<char>, r1: Seq<u8>, r2: Seq<u8>)
    requires
        r1 == spec_build_dns_query(name),
        r2 == spec_build_dns_query(name),
    ensures
        r1 == r2,
{
}

/// A query's bytes are exactly 12 header bytes followed by the question
/// bytes, and the first 12 bytes are the fixed standard header.
pub proof fn lemma_query_layout(name: Seq<char>)
    ensures
        spec_build_dns_query(name).len() == 12 + spec_question_bytes(encode_utf8(name), 1, 1).len(),
        spec_build_dns_query(name).subrange(0, 12) == spec_header_bytes(spec_standard_header()),
{
    assert(spec_header_bytes(spec_standard_header()).len() == 12);
    assert(spec_build_dns_query(name).subrange(0, 12) =~= spec_header_bytes(
        spec_standard_header(),
    ));
}

} // verus!
