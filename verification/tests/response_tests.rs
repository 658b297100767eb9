use dns_codec::response::{parse_dns_response, Ipv4Address, ParseError};

// A response header: the query's transaction id, response flags, and the
// four section counters, all big-endian.
fn response_header(questions: u16, answers: u16) -> Vec<u8> {
    let mut bytes = vec![0x12, 0x34, 0x81, 0x80];
    bytes.extend_from_slice(&questions.to_be_bytes());
    bytes.extend_from_slice(&answers.to_be_bytes());
    bytes.extend_from_slice(&[0, 0, 0, 0]);
    bytes
}

// The question section echoed back for "example.com".
fn example_question() -> Vec<u8> {
    let mut bytes = vec![7u8];
    bytes.extend_from_slice(b"example");
    bytes.push(3);
    bytes.extend_from_slice(b"com");
    bytes.push(0);
    bytes.extend_from_slice(&[0x00, 0x01, 0x00, 0x01]);
    bytes
}

// An answer record: 2-byte compression-pointer name, type, class IN,
// zero TTL, declared data length, then the data bytes.
fn answer_record(rtype: u16, data_len: u16, data: &[u8]) -> Vec<u8> {
    let mut bytes = vec![0xC0, 0x0C];
    bytes.extend_from_slice(&rtype.to_be_bytes());
    bytes.extend_from_slice(&[0x00, 0x01, 0x00, 0x00, 0x00, 0x3C]);
    bytes.extend_from_slice(&data_len.to_be_bytes());
    bytes.extend_from_slice(data);
    bytes
}

fn addr(b0: u8, b1: u8, b2: u8, b3: u8) -> Ipv4Address {
    Ipv4Address { b0, b1, b2, b3 }
}

#[test]
fn empty_buffer_is_too_short() {
    assert_eq!(parse_dns_response(&[]), Err(ParseError::TooShort));
}

#[test]
fn eleven_bytes_are_too_short() {
    assert_eq!(parse_dns_response(&[0u8; 11]), Err(ParseError::TooShort));
}

#[test]
fn twelve_byte_header_alone_parses_empty() {
    let response = response_header(0, 0);
    assert_eq!(parse_dns_response(&response), Ok(vec![]));
}

#[test]
fn zero_answers_parse_empty() {
    let mut response = response_header(1, 0);
    response.extend_from_slice(&example_question());
    assert_eq!(parse_dns_response(&response), Ok(vec![]));
}

#[test]
fn single_a_record_yields_one_address() {
    let mut response = response_header(1, 1);
    response.extend_from_slice(&example_question());
    response.extend_from_slice(&answer_record(1, 4, &[93, 184, 216, 34]));
    assert_eq!(
        parse_dns_response(&response),
        Ok(vec![addr(93, 184, 216, 34)])
    );
}

#[test]
fn a_record_and_cname_yield_one_address() {
    let mut response = response_header(1, 2);
    response.extend_from_slice(&example_question());
    response.extend_from_slice(&answer_record(1, 4, &[93, 184, 216, 34]));
    response.extend_from_slice(&answer_record(5, 7, &[1, 97, 1, 98, 1, 99, 0]));
    assert_eq!(
        parse_dns_response(&response),
        Ok(vec![addr(93, 184, 216, 34)])
    );
}

#[test]
fn cname_then_a_record_skips_by_declared_length() {
    let mut response = response_header(1, 2);
    response.extend_from_slice(&example_question());
    response.extend_from_slice(&answer_record(5, 7, &[1, 97, 1, 98, 1, 99, 0]));
    response.extend_from_slice(&answer_record(1, 4, &[8, 8, 8, 8]));
    assert_eq!(parse_dns_response(&response), Ok(vec![addr(8, 8, 8, 8)]));
}

#[test]
fn two_a_records_in_answer_order() {
    let mut response = response_header(1, 2);
    response.extend_from_slice(&example_question());
    response.extend_from_slice(&answer_record(1, 4, &[93, 184, 216, 34]));
    response.extend_from_slice(&answer_record(1, 4, &[8, 8, 4, 4]));
    assert_eq!(
        parse_dns_response(&response),
        Ok(vec![addr(93, 184, 216, 34), addr(8, 8, 4, 4)])
    );
}

#[test]
fn non_a_records_only_parse_empty() {
    let mut response = response_header(1, 1);
    response.extend_from_slice(&example_question());
    response.extend_from_slice(&answer_record(28, 16, &[0u8; 16]));
    assert_eq!(parse_dns_response(&response), Ok(vec![]));
}

#[test]
fn a_record_data_past_end_is_malformed() {
    let mut response = response_header(1, 1);
    response.extend_from_slice(&example_question());
    // claims 4 data bytes but carries only 2
    response.extend_from_slice(&answer_record(1, 4, &[93, 184]));
    assert_eq!(parse_dns_response(&response), Err(ParseError::Malformed));
}

#[test]
fn truncated_record_header_is_malformed() {
    let mut response = response_header(1, 1);
    response.extend_from_slice(&example_question());
    // only 5 of the record's 12 fixed bytes are present
    response.extend_from_slice(&[0xC0, 0x0C, 0x00, 0x01, 0x00]);
    assert_eq!(parse_dns_response(&response), Err(ParseError::Malformed));
}

#[test]
fn overrun_skip_makes_next_record_malformed() {
    let mut response = response_header(1, 2);
    response.extend_from_slice(&example_question());
    // the CNAME claims more data than remains, so the walk runs off the
    // end and the second record's fixed bytes are missing
    response.extend_from_slice(&answer_record(5, 200, &[0u8; 3]));
    assert_eq!(parse_dns_response(&response), Err(ParseError::Malformed));
}

#[test]
fn overrun_skip_on_last_record_parses_empty() {
    let mut response = response_header(1, 1);
    response.extend_from_slice(&example_question());
    // a non-A record's declared length is never checked against the
    // buffer; as the last record it is stepped over without error
    response.extend_from_slice(&answer_record(5, 200, &[0u8; 3]));
    assert_eq!(parse_dns_response(&response), Ok(vec![]));
}

#[test]
fn question_count_zero_leaves_section_unskipped() {
    // with no questions counted, the answer walk starts right after the
    // header
    let mut response = response_header(0, 1);
    response.extend_from_slice(&answer_record(1, 4, &[10, 0, 0, 1]));
    assert_eq!(parse_dns_response(&response), Ok(vec![addr(10, 0, 0, 1)]));
}
