use dns_codec::query::{build_dns_query, DnsHeader, DnsQuery, DnsQuestion};

// The fixed 12-byte standard-query header: transaction id 0x1234, flags
// 0x0100, one question, no other records.
const HEADER_BYTES: [u8; 12] = [0x12, 0x34, 0x01, 0x00, 0x00, 0x01, 0x00, 0x00, 0x00, 0x00, 0x00, 0x00];

#[test]
fn header_encodes_to_fixed_bytes() {
    let header = DnsHeader::new();
    assert_eq!(header.to_bytes(), HEADER_BYTES.to_vec());
}

#[test]
fn header_fields_are_standard_query() {
    let header = DnsHeader::new();
    assert_eq!(header.transaction_id, 0x1234);
    assert_eq!(header.flags, 0x0100);
    assert_eq!(header.questions, 1);
    assert_eq!(header.answers, 0);
    assert_eq!(header.authority, 0);
    assert_eq!(header.additional, 0);
}

#[test]
fn question_encodes_labels_type_and_class() {
    let question = DnsQuestion::new("ab.c".to_string());
    assert_eq!(
        question.to_bytes(),
        vec![2, b'a', b'b', 1, b'c', 0, 0x00, 0x01, 0x00, 0x01]
    );
}

#[test]
fn question_single_label() {
    let question = DnsQuestion::new("localhost".to_string());
    let mut expected = vec![9u8];
    expected.extend_from_slice(b"localhost");
    expected.extend_from_slice(&[0, 0x00, 0x01, 0x00, 0x01]);
    assert_eq!(question.to_bytes(), expected);
}

#[test]
fn question_trailing_dot_gives_empty_label() {
    let question = DnsQuestion::new("a.".to_string());
    assert_eq!(
        question.to_bytes(),
        vec![1, b'a', 0, 0, 0x00, 0x01, 0x00, 0x01]
    );
}

// Decodes length-prefixed labels back into a dotted name, stopping at the
// zero terminator; the inverse of the question's label encoding.
fn decode_label_bytes(encoded: &[u8]) -> String {
    let mut labels: Vec<String> = Vec::new();
    let mut pos = 0usize;
    while pos < encoded.len() && encoded[pos] != 0 {
        let len = encoded[pos] as usize;
        let label = &encoded[pos + 1..pos + 1 + len];
        labels.push(String::from_utf8(label.to_vec()).unwrap());
        pos += 1 + len;
    }
    labels.join(".")
}

#[test]
fn question_labels_round_trip() {
    for name in ["example.com", "a.bc.def", "www.a-very-long-subdomain-name-of-sixty-three-bytes-aaaaaaaaaaaaaa.org"] {
        let encoded = DnsQuestion::new(name.to_string()).to_bytes();
        assert_eq!(decode_label_bytes(&encoded), name);
    }
}

#[test]
fn query_is_header_then_question() {
    let query_bytes = build_dns_query("google.com");
    let question_bytes = DnsQuestion::new("google.com".to_string()).to_bytes();
    assert_eq!(query_bytes.len(), 12 + question_bytes.len());
    assert_eq!(&query_bytes[..12], &HEADER_BYTES);
    assert_eq!(&query_bytes[12..], question_bytes.as_slice());
}

#[test]
fn query_struct_matches_free_function() {
    let query = DnsQuery::new("example.org".to_string());
    assert_eq!(query.to_bytes(), build_dns_query("example.org"));
}

#[test]
fn build_dns_query_is_deterministic() {
    let first = build_dns_query("example.com");
    let second = build_dns_query("example.com");
    assert_eq!(first, second);
}
