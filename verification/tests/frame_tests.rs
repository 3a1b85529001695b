use negy::frame::{EncryptedPayload, DELIMITER_LEN};

#[test]
fn encrypted_payload_parse_ends_with_delimiter() {
    let mut encrypted_payload = EncryptedPayload::new();
    let delimiter = EncryptedPayload::new_delimiter().unwrap();
    let all_zeros = [0; 100];

    let mut raw_payload = vec![];
    raw_payload.extend_from_slice(&all_zeros);
    raw_payload.extend_from_slice(&delimiter);

    let parsed_payloads = encrypted_payload.read(&raw_payload, &delimiter).unwrap();
    assert_eq!(parsed_payloads.len(), 1);
    assert_eq!(parsed_payloads[0], &all_zeros[..]);
}

#[test]
fn encrypted_payload_parse_partial_delimiter() {
    let mut encrypted_payload = EncryptedPayload::new();
    let delimiter = EncryptedPayload::new_delimiter().unwrap();
    let all_zeros = [0; 100];

    let mut raw_payload = vec![];
    raw_payload.extend_from_slice(&all_zeros);
    raw_payload.extend_from_slice(&delimiter[0..DELIMITER_LEN / 2]);

    let parsed_payloads = encrypted_payload.read(&raw_payload, &delimiter).unwrap();
    assert_eq!(parsed_payloads.len(), 0);
}

#[test]
fn encrypted_payload_parse_partial_payload() {
    let mut encrypted_payload = EncryptedPayload::new();
    let delimiter = EncryptedPayload::new_delimiter().unwrap();
    let all_zeros = [0; 100];

    let mut raw_payload = vec![];
    raw_payload.extend_from_slice(&all_zeros);
    raw_payload.extend_from_slice(&delimiter);
    raw_payload.extend_from_slice(&all_zeros[0..10]);

    let parsed_payloads = encrypted_payload.read(&raw_payload, &delimiter).unwrap();
    assert_eq!(parsed_payloads.len(), 1);
    assert_eq!(parsed_payloads[0], &all_zeros[..]);
}

#[test]
fn encrypted_payload_parse_multiple_payloads() {
    let mut encrypted_payload = EncryptedPayload::new();
    let delimiter = EncryptedPayload::new_delimiter().unwrap();
    let all_zeros = [0; 100];
    let all_ones = [1; 100];

    let mut raw_payload = vec![];
    raw_payload.extend_from_slice(&all_zeros);
    raw_payload.extend_from_slice(&delimiter);
    raw_payload.extend_from_slice(&all_ones);
    raw_payload.extend_from_slice(&delimiter);

    let parsed_payloads = encrypted_payload.read(&raw_payload, &delimiter).unwrap();
    assert_eq!(parsed_payloads.len(), 2);
    assert_eq!(parsed_payloads[0], &all_zeros[..]);
    assert_eq!(parsed_payloads[1], &all_ones[..]);
}

#[test]
fn delimiter_straddles_two_feeds() {
    let mut reader = EncryptedPayload::new();
    let delimiter = EncryptedPayload::new_delimiter().unwrap();
    let frame = [7u8; 20];

    let mut first = vec![];
    first.extend_from_slice(&frame);
    first.extend_from_slice(&delimiter[0..8]);
    let parsed = reader.read(&first, &delimiter).unwrap();
    assert_eq!(parsed.len(), 0);

    let parsed = reader.read(&delimiter[8..16], &delimiter).unwrap();
    assert_eq!(parsed.len(), 1);
    assert_eq!(parsed[0], &frame[..]);
}

#[test]
fn delimiter_prefix_alone_yields_nothing() {
    let delimiter = EncryptedPayload::new_delimiter().unwrap();
    for cut in 0..DELIMITER_LEN {
        let mut reader = EncryptedPayload::new();
        let parsed = reader.read(&delimiter[0..cut], &delimiter).unwrap();
        assert_eq!(parsed.len(), 0);
    }
}

#[test]
fn chunked_feed_equals_whole_feed() {
    let delimiter = EncryptedPayload::new_delimiter().unwrap();
    let mut stream = vec![];
    stream.extend_from_slice(&[3u8; 33]);
    stream.extend_from_slice(&delimiter);
    stream.extend_from_slice(&[4u8; 5]);
    stream.extend_from_slice(&delimiter);
    stream.extend_from_slice(&[5u8; 9]);

    let mut whole = EncryptedPayload::new();
    let frames_whole = whole.read(&stream, &delimiter).unwrap();

    for chunk_size in [1usize, 2, 7, 16, 31] {
        let mut chunked = EncryptedPayload::new();
        let mut frames_chunked = vec![];
        let mut at = 0;
        while at < stream.len() {
            let hi = (at + chunk_size).min(stream.len());
            frames_chunked.extend(chunked.read(&stream[at..hi], &delimiter).unwrap());
            at = hi;
        }
        assert_eq!(frames_chunked, frames_whole);
    }
}

#[test]
fn empty_feed_yields_nothing() {
    let mut reader = EncryptedPayload::new();
    let delimiter = EncryptedPayload::new_delimiter().unwrap();
    let parsed = reader.read(&[], &delimiter).unwrap();
    assert_eq!(parsed.len(), 0);
}

#[test]
fn delimiter_exactly_at_feed_boundary() {
    let mut reader = EncryptedPayload::new();
    let delimiter = EncryptedPayload::new_delimiter().unwrap();
    let parsed = reader.read(b"abc", &delimiter).unwrap();
    assert_eq!(parsed.len(), 0);
    let parsed = reader.read(&delimiter, &delimiter).unwrap();
    assert_eq!(parsed.len(), 1);
    assert_eq!(parsed[0], b"abc");
}
