//! Parsing of DNS response buffers: walks the question and answer sections
//! of a raw datagram and collects the IPv4 addresses of the A records.

use vstd::prelude::*;

verus! {

/// An IPv4 address read out of an A record's four data bytes.
#[derive(Clone, Copy, Debug, PartialEq, Eq, Structural)]
pub struct Ipv4Address {
    pub b0: u8,
    pub b1: u8,
    pub b2: u8,
    pub b3: u8,
}

/// Why a response buffer was rejected.
#[derive(Clone, Copy, Debug, PartialEq, Eq, Structural)]
pub enum ParseError {
    /// The buffer is shorter than the fixed 12-byte header.
    TooShort,
    /// An answer record claims more bytes than the buffer holds.
    Malformed,
}

/// The big-endian 16-bit value stored at offsets `i` and `i + 1`.
pub open spec fn be16(b: Seq<u8>, i: int) -> int
    recommends
        0 <= i,
        i + 1 < b.len(),
{
    b[i] as int * 256 + b[i + 1] as int
}

/// `p`, held back to at most `n`. Walk positions are capped at the buffer
/// end; any capped position fails every later bounds check exactly as the
/// uncapped one would, so the parse result is unchanged.
pub open spec fn cap_at(n: int, p: int) -> int {
    if p > n {
        n
    } else {
        p
    }
}

/// The position just after the length-prefixed labels that start at `pos`:
/// each length byte is skipped together with its label until a zero byte
/// or the end of the buffer stops the walk.
pub open spec fn skip_labels(b: Seq<u8>, pos: int) -> int
    recommends
        0 <= pos <= b.len(),
    decreases b.len() - pos,
{
    if 0 <= pos < b.len() && b[pos] != 0 {
        skip_labels(b, cap_at(b.len() as int, pos + 1 + b[pos] as int))
    } else {
        pos
    }
}

/// The position just after `q` question entries starting at `pos`: each is
/// a label walk followed by five bytes (zero terminator, type, class).
pub open spec fn skip_questions(b: Seq<u8>, pos: int, q: int) -> int
    recommends
        0 <= pos <= b.len(),
    decreases q,
{
    if q <= 0 {
        pos
    } else {
        skip_questions(b, cap_at(b.len() as int, skip_labels(b, pos) + 5), q - 1)
    }
}

/// The addresses of the `count` answer records starting at `pos`, or the
/// error the walk runs into. A record needs 12 bytes of fixed fields; an
/// A record (type 1, data length 4) contributes its four data bytes, any
/// other record is skipped over its declared data length.
pub open spec fn parse_answers(b: Seq<u8>, pos: int, count: int) -> Result<
    Seq<Ipv4Address>,
    ParseError,
>
    recommends
        0 <= pos <= b.len(),
    decreases count,
{
    if count <= 0 {
        Ok(Seq::empty())
    } else if pos + 12 > b.len() {
        Err(ParseError::Malformed)
    } else if be16(b, pos + 2) == 1 && be16(b, pos + 10) == 4 {
        if pos + 16 > b.len() {
            Err(ParseError::Malformed)
        } else {
            let addr = Ipv4Address {
                b0: b[pos + 12],
                b1: b[pos + 13],
                b2: b[pos + 14],
                b3: b[pos + 15],
            };
            match parse_answers(b, pos + 16, count - 1) {
                Ok(rest) => Ok(seq![addr] + rest),
                Err(e) => Err(e),
            }
        }
    } else {
        parse_answers(b, cap_at(b.len() as int, pos + 12 + be16(b, pos + 10)), count - 1)
    }
}

/// What parsing a whole response buffer yields: reject anything under the
/// 12-byte header, then skip as many questions as the header counts and
/// walk as many answers as it counts.
pub open spec fn spec_parse_response(b: Seq<u8>) -> Result<Seq<Ipv4Address>, ParseError> {
    if b.len() < 12 {
        Err(ParseError::TooShort)
    } else {
        parse_answers(b, skip_questions(b, 12, be16(b, 4)), be16(b, 6))
    }
}

/// An executable result agrees with the specification-level one.
pub open spec fn parse_result_matches(
    r: Result<Vec<Ipv4Address>, ParseError>,
    s: Result<Seq<Ipv4Address>, ParseError>,
) -> bool {
    match r {
        Ok(v) => s == Ok::<Seq<Ipv4Address>, ParseError>(v@),
        Err(e) => s == Err::<Seq<Ipv4Address>, ParseError>(e),
    }
}

/// A buffer shorter than the fixed 12-byte header is always rejected as
/// too short.
pub proof fn lemma_parse_too_short(b: Seq<u8>)
    requires
        b.len() < 12,
    ensures
        spec_parse_response(b) == Err::<Seq<Ipv4Address>, ParseError>(ParseError::TooShort),
{
}

/// An answer record whose 12 fixed bytes reach past the buffer end makes
/// the whole answer walk malformed, however many records follow.
pub proof fn lemma_answer_header_overrun(b: Seq<u8>, pos: int, count: int)
    requires
        count >= 1,
        pos + 12 > b.len(),
    ensures
        parse_answers(b, pos, count) == Err::<Seq<Ipv4Address>, ParseError>(ParseError::Malformed),
{
}

/// An A record (type 1, declared data length 4) whose four data bytes
/// reach past the buffer end makes the whole answer walk malformed.
pub proof fn lemma_answer_data_overrun(b: Seq<u8>, pos: int, count: int)
    requires
        count >= 1,
        pos + 12 <= b.len(),
        be16(b, pos + 2) == 1,
        be16(b, pos + 10) == 4,
        pos + 16 > b.len(),
    ensures
        parse_answers(b, pos, count) == Err::<Seq<Ipv4Address>, ParseError>(ParseError::Malformed),
{
}

/// Reads the big-endian 16-bit value at offset `i`.
fn be16_at(b: &[u8], i: usize) -> (r: u16)
    requires
        i + 1 < b@.len(),
    ensures
        r as int == be16(b@, i as int),
{
    (b[i] as u16) * 256 + (b[i + 1] as u16)
}

/// Extracts the IPv4 addresses of the A records in a raw DNS response.
///
/// A buffer under 12 bytes is rejected as `TooShort`. Otherwise the
/// question entries counted by the header are skipped, and each answer
/// record counted by the header is walked: an A record's four data bytes
/// become one address, any other record is stepped over. An answer record
/// that claims more bytes than the buffer holds is `Malformed`.
pub fn parse_dns_response(response: &[u8]) -> (r: Result<Vec<Ipv4Address>, ParseError>)
    ensures
        parse_result_matches(r, spec_parse_response(response@)),
{
    let n = response.len();
    if n < 12 {
        return Err(ParseError::TooShort);
    }
    let questions = be16_at(response, 4);
    let answer_rrs = be16_at(response, 6);
    let ghost goal = spec_parse_response(response@);

    // Skip the question section.
    let mut pos: usize = 12;
    let mut q_left: u16 = questions;
    while q_left > 0
        invariant
            12 <= pos <= n,
            n == response@.len(),
            n >= 12,
            goal == parse_answers(
                response@,
                skip_questions(response@, pos as int, q_left as int),
                be16(response@, 6),
            ),
        decreases q_left,
    {
        while pos < n && response[pos] != 0
            invariant
                12 <= pos <= n,
                n == response@.len(),
                q_left >= 1,
                goal == parse_answers(
                    response@,
                    skip_questions(
                        response@,
                        cap_at(n as int, skip_labels(response@, pos as int) + 5),
                        q_left - 1,
                    ),
                    be16(response@, 6),
                ),
            decreases n - pos,
        {
            let step = 1 + response[pos] as usize;
            if n - pos < step {
                pos = n;
            } else {
                pos = pos + step;
            }
        }
        if n - pos < 5 {
            pos = n;
        } else {
            pos = pos + 5;
        }
        q_left = q_left - 1;
    }

    // Walk the answer section.
    let mut addrs: Vec<Ipv4Address> = Vec::new();
    let mut a_left: u16 = answer_rrs;
    proof {
        let first = parse_answers(response@, pos as int, a_left as int);
        if first is Ok {
            assert(addrs@ + first.unwrap() =~= first.unwrap());
        }
    }
    while a_left > 0
        invariant
            12 <= pos <= n,
            n == response@.len(),
            goal == spec_parse_response(response@),
            (match parse_answers(response@, pos as int, a_left as int) {
                Ok(rest) => goal == Ok::<Seq<Ipv4Address>, ParseError>(addrs@ + rest),
                Err(e) => goal == Err::<Seq<Ipv4Address>, ParseError>(e),
            }),
        decreases a_left,
    {
        if n - pos < 12 {
            return Err(ParseError::Malformed);
        }
        let typ = be16_at(response, pos + 2);
        let data_len = be16_at(response, pos + 10);
        if typ == 1 && data_len == 4 {
            if n - (pos + 12) < 4 {
                return Err(ParseError::Malformed);
            }
            let addr = Ipv4Address {
                b0: response[pos + 12],
                b1: response[pos + 13],
                b2: response[pos + 14],
                b3: response[pos + 15],
            };
            proof {
                let b = response@;
                let p = pos as int;
                let c = a_left as int;
                let rest1 = parse_answers(b, p + 16, c - 1);
                assert(parse_answers(b, p, c) == (match rest1 {
                    Ok(rest) => Ok::<Seq<Ipv4Address>, ParseError>(seq![addr] + rest),
                    Err(e) => Err::<Seq<Ipv4Address>, ParseError>(e),
                }));
                if rest1 is Ok {
                    assert(addrs@ + (seq![addr] + rest1.unwrap()) =~= addrs@.push(addr)
                        + rest1.unwrap());
                }
            }
            addrs.push(addr);
            pos = pos + 16;
        } else {
            proof {
                let b = response@;
                let p = pos as int;
                let c = a_left as int;
                assert(parse_answers(b, p, c) == parse_answers(
                    b,
                    cap_at(b.len() as int, p + 12 + be16(b, p + 10)),
                    c - 1,
                ));
            }
            let advance = 12 + data_len as usize;
            if n - pos < advance {
                pos = n;
            } else {
                pos = pos + advance;
            }
        }
        a_left = a_left - 1;
    }
    proof {
        assert(addrs@ + Seq::<Ipv4Address>::empty() =~= addrs@);
    }
    Ok(addrs)
}

} // verus!
