use rustweb::content_type::ContentType;
use rustweb::multipart::{BodyStep, MultiPart, NextOutcome};
use rustweb::ProtocolError;

const BOUNDARY: &[u8] = b"---------------------------974767299852498929531610575";

fn two_part_payload() -> Vec<u8> {
    let mut p = Vec::new();
    p.extend_from_slice(b"--");
    p.extend_from_slice(BOUNDARY);
    p.extend_from_slice(b"\r\n");
    p.extend_from_slice(b"Content-Disposition: form-data; name=\"description\"\r\n");
    p.extend_from_slice(b"\r\n");
    p.extend_from_slice(b"some text");
    p.extend_from_slice(b"\r\n--");
    p.extend_from_slice(BOUNDARY);
    p.extend_from_slice(b"\r\n");
    p.extend_from_slice(
        b"Content-Disposition: form-data; name=\"myFile\"; filename=\"foo.txt\"\r\n",
    );
    p.extend_from_slice(b"Content-Type: text/plain\r\n");
    p.extend_from_slice(b"\r\n");
    p.extend_from_slice(b"(content of the uploaded file foo.txt)");
    p.extend_from_slice(b"\r\n--");
    p.extend_from_slice(BOUNDARY);
    p.extend_from_slice(b"--");
    p
}

struct DecodedPart {
    disposition: Vec<u8>,
    is_text_plain: bool,
    has_no_type: bool,
    body: Vec<u8>,
}

/// Drives a full decode, delivering the payload in chunks of `chunk` bytes
/// (the first chunk `first` bytes long, to place a split at any offset).
fn decode(payload: &[u8], first: usize, chunk: usize) -> (Vec<DecodedPart>, bool, MultiPart) {
    let mut mp = MultiPart::new(BOUNDARY, payload.len());
    let mut parts = Vec::new();
    let mut fed = 0usize;
    let mut first_left = first;
    let mut steps = 0;
    let mut saw_end = false;
    loop {
        steps += 1;
        assert!(steps < 100000, "decoder made no progress");
        match mp.next() {
            NextOutcome::Found => {
                let disposition = mp.current_part.disposition.clone();
                let is_text_plain = matches!(
                    mp.current_part.content_type,
                    ContentType::Text(ref s) if s == &b"plain".to_vec()
                );
                let has_no_type = matches!(mp.current_part.content_type, ContentType::NoneType);
                loop {
                    steps += 1;
                    assert!(steps < 100000, "decoder made no progress");
                    match mp.body() {
                        BodyStep::Done(body) => {
                            parts.push(DecodedPart { disposition, is_text_plain, has_no_type, body });
                            break;
                        }
                        BodyStep::NeedMore => {
                            let size = if first_left > 0 { first_left } else { chunk };
                            let end = (fed + size).min(payload.len());
                            assert!(end > fed, "decoder asked for bytes after the payload ended");
                            mp.supply(&payload[fed..end]);
                            fed = end;
                            first_left = 0;
                        }
                    }
                }
            }
            NextOutcome::End => {
                saw_end = true;
                break;
            }
            NextOutcome::Exhausted => break,
            NextOutcome::NeedMore => {
                let size = if first_left > 0 { first_left } else { chunk };
                let end = (fed + size).min(payload.len());
                assert!(end > fed, "decoder asked for bytes after the payload ended");
                mp.supply(&payload[fed..end]);
                fed = end;
                first_left = 0;
            }
            NextOutcome::Malformed(e) => panic!("unexpected protocol error: {:?}", e),
        }
    }
    (parts, saw_end, mp)
}

fn check_two_parts(parts: &[DecodedPart]) {
    assert_eq!(parts.len(), 2);
    assert_eq!(parts[0].disposition, b"name=\"description\"".to_vec());
    assert!(parts[0].has_no_type);
    assert_eq!(parts[0].body, b"some text".to_vec());
    assert_eq!(
        parts[1].disposition,
        b"name=\"myFile\"; filename=\"foo.txt\"".to_vec()
    );
    assert!(parts[1].is_text_plain);
    assert_eq!(parts[1].body, b"(content of the uploaded file foo.txt)".to_vec());
}

#[test]
fn two_part_round_trip_in_one_chunk() {
    let payload = two_part_payload();
    let (parts, saw_end, _) = decode(&payload, payload.len(), payload.len());
    check_two_parts(&parts);
    assert!(saw_end);
}

#[test]
fn two_part_round_trip_in_small_chunks() {
    let payload = two_part_payload();
    for chunk in [1usize, 2, 3, 5, 16, 64, 1024] {
        let (parts, saw_end, _) = decode(&payload, chunk, chunk);
        check_two_parts(&parts);
        assert!(saw_end);
    }
}

#[test]
fn boundary_split_invariance_at_every_offset() {
    let payload = two_part_payload();
    for split in 1..payload.len() {
        let (parts, saw_end, _) = decode(&payload, split, payload.len());
        check_two_parts(&parts);
        assert!(saw_end, "end not reported with split at {}", split);
    }
}

#[test]
fn bytes_read_never_exceeds_content_length() {
    let payload = two_part_payload();
    for chunk in [1usize, 7, 100, 4096] {
        let (_, saw_end, mp) = decode(&payload, chunk, chunk);
        assert!(mp.bytes_read <= mp.content_length);
        assert!(saw_end);
        // once ended, the decoder keeps reporting the end
        let mut mp = mp;
        assert!(matches!(mp.next(), NextOutcome::End));
        assert!(matches!(mp.next(), NextOutcome::End));
    }
}

#[test]
fn supply_stops_at_the_declared_length() {
    let mut mp = MultiPart::new(b"xyz", 10);
    let accepted = mp.supply(b"0123456789abcdef");
    assert_eq!(accepted, 10);
    assert_eq!(mp.bytes_read, 10);
    let accepted = mp.supply(b"more");
    assert_eq!(accepted, 0);
    assert_eq!(mp.bytes_read, 10);
}

#[test]
fn wrong_boundary_line_is_malformed() {
    let mut mp = MultiPart::new(b"right", 100);
    mp.supply(b"--wrong\r\nContent-Disposition: form-data; name=\"a\"\r\n\r\nx");
    assert!(matches!(
        mp.next(),
        NextOutcome::Malformed(ProtocolError::MalformedBoundary)
    ));
}

#[test]
fn missing_disposition_line_is_malformed() {
    let mut mp = MultiPart::new(b"b", 100);
    mp.supply(b"--b\r\nContent-Length: 3\r\n\r\nx");
    assert!(matches!(
        mp.next(),
        NextOutcome::Malformed(ProtocolError::MalformedDisposition)
    ));
}

#[test]
fn truncated_payload_returns_partial_body() {
    // declared length cuts the body short of any closing delimiter
    let mut head = Vec::new();
    head.extend_from_slice(b"--b\r\nContent-Disposition: form-data; name=\"a\"\r\n\r\npartial data");
    let mut mp = MultiPart::new(b"b", head.len());
    mp.supply(&head);
    assert!(matches!(mp.next(), NextOutcome::Found));
    match mp.body() {
        BodyStep::Done(body) => assert_eq!(body, b"partial data".to_vec()),
        BodyStep::NeedMore => panic!("expected the truncated body"),
    }
    // the budget is exhausted: no further part
    assert!(matches!(mp.next(), NextOutcome::Exhausted));
}

#[test]
fn delimiter_straddling_two_reads_is_not_leaked() {
    // a false candidate: body contains CR LF dash dash that is not the boundary
    let mut p = Vec::new();
    p.extend_from_slice(b"--b\r\nContent-Disposition: form-data; name=\"a\"\r\n\r\n");
    p.extend_from_slice(b"line\r\n--not-the-boundary\r\nmore");
    p.extend_from_slice(b"\r\n--b--");
    let mut mp = MultiPart::new(b"b", p.len());
    // one-byte reads force the candidate to straddle every read
    let mut fed = 0;
    let mut parts: Vec<Vec<u8>> = Vec::new();
    let mut steps = 0;
    loop {
        steps += 1;
        assert!(steps < 100000);
        match mp.next() {
            NextOutcome::Found => loop {
                steps += 1;
                assert!(steps < 100000);
                match mp.body() {
                    BodyStep::Done(b) => {
                        parts.push(b);
                        break;
                    }
                    BodyStep::NeedMore => {
                        mp.supply(&p[fed..fed + 1]);
                        fed += 1;
                    }
                }
            },
            NextOutcome::End => break,
            NextOutcome::Exhausted => break,
            NextOutcome::NeedMore => {
                mp.supply(&p[fed..fed + 1]);
                fed += 1;
            }
            NextOutcome::Malformed(e) => panic!("unexpected protocol error: {:?}", e),
        }
    }
    assert_eq!(parts.len(), 1);
    assert_eq!(parts[0], b"line\r\n--not-the-boundary\r\nmore".to_vec());
}
