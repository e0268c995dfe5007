use quic3::header::{encode_header, try_decode_header, EncodeError, HEADER_PREFIX_LEN};
use quic3::receive::{Completion, ReceiveError, Receiver, Step};
use quic3::sanitize::sanitize_file_name;

fn feed(receiver: &mut Receiver, chunk: &[u8], sink: &mut Vec<u8>) {
    match receiver.on_chunk(chunk) {
        Step::NeedMore => {}
        Step::HeaderReady(bytes) => sink.extend_from_slice(&bytes),
        Step::Body(bytes) => sink.extend_from_slice(&bytes),
    }
}

fn report_stream(body: &[u8]) -> Vec<u8> {
    let mut wire = encode_header("report.pdf", 5).unwrap();
    wire.extend_from_slice(body);
    wire
}

#[test]
fn encode_exact_bytes() {
    let h = encode_header("ab", 0x0102030405060708).unwrap();
    assert_eq!(h, vec![2, 0, 8, 7, 6, 5, 4, 3, 2, 1, b'a', b'b']);
}

#[test]
fn encode_length_is_prefix_plus_name() {
    let h = encode_header("report.pdf", 5).unwrap();
    assert_eq!(h.len(), HEADER_PREFIX_LEN + 10);
    assert_eq!(&h[0..2], &[10, 0]);
    assert_eq!(&h[2..10], &[5, 0, 0, 0, 0, 0, 0, 0]);
}

#[test]
fn round_trip_ascii() {
    let h = encode_header("report.pdf", 5).unwrap();
    let (header, used) = try_decode_header(&h).unwrap();
    assert_eq!(header.file_name, "report.pdf");
    assert_eq!(header.file_size, 5);
    assert_eq!(used, h.len());
}

#[test]
fn round_trip_unicode_and_large_size() {
    let name = "résumé-日本.txt";
    let h = encode_header(name, u64::MAX).unwrap();
    assert_eq!(h.len(), 10 + name.len());
    let (header, used) = try_decode_header(&h).unwrap();
    assert_eq!(header.file_name, name);
    assert_eq!(header.file_size, u64::MAX);
    assert_eq!(used, h.len());
}

#[test]
fn round_trip_empty_name() {
    let h = encode_header("", 7).unwrap();
    assert_eq!(h.len(), 10);
    let (header, used) = try_decode_header(&h).unwrap();
    assert_eq!(header.file_name, "");
    assert_eq!(header.file_size, 7);
    assert_eq!(used, 10);
}

#[test]
fn every_proper_prefix_decodes_to_none() {
    let h = encode_header("report.pdf", 5).unwrap();
    for k in 0..h.len() {
        assert!(try_decode_header(&h[..k]).is_none(), "prefix of length {k}");
    }
    assert_eq!(try_decode_header(&h).unwrap().1, h.len());
}

#[test]
fn trailing_body_bytes_are_not_consumed() {
    let wire = report_stream(&[1, 2, 3, 4, 5]);
    let (header, used) = try_decode_header(&wire).unwrap();
    assert_eq!(header.file_name, "report.pdf");
    assert_eq!(used, 20);
    assert_eq!(&wire[used..], &[1, 2, 3, 4, 5]);
}

#[test]
fn invalid_name_bytes_are_replaced() {
    let mut buf = vec![2, 0, 1, 0, 0, 0, 0, 0, 0, 0];
    buf.extend_from_slice(&[b'f', 0xff]);
    let (header, used) = try_decode_header(&buf).unwrap();
    assert_eq!(header.file_name, "f\u{FFFD}");
    assert_eq!(header.file_size, 1);
    assert_eq!(used, 12);
}

#[test]
fn oversized_name_is_rejected() {
    let name = "x".repeat(65536);
    assert_eq!(encode_header(&name, 1), Err(EncodeError::NameTooLong));
}

#[test]
fn largest_name_is_accepted() {
    let name = "x".repeat(65535);
    let h = encode_header(&name, 1).unwrap();
    assert_eq!(h.len(), 10 + 65535);
    assert_eq!(&h[0..2], &[0xff, 0xff]);
    let (header, used) = try_decode_header(&h).unwrap();
    assert_eq!(header.file_name, name);
    assert_eq!(used, h.len());
}

#[test]
fn sanitize_traversal() {
    assert_eq!(sanitize_file_name("../../etc/passwd"), "passwd");
}

#[test]
fn sanitize_nested_path() {
    assert_eq!(sanitize_file_name("a/b/c.txt"), "c.txt");
}

#[test]
fn sanitize_empty_and_root() {
    assert_eq!(sanitize_file_name(""), "received_file");
    assert_eq!(sanitize_file_name("/"), "received_file");
    assert_eq!(sanitize_file_name("///"), "received_file");
}

#[test]
fn sanitize_dots() {
    assert_eq!(sanitize_file_name("."), "received_file");
    assert_eq!(sanitize_file_name(".."), "received_file");
    assert_eq!(sanitize_file_name("a/.."), "received_file");
    assert_eq!(sanitize_file_name("a/b/."), "b");
    assert_eq!(sanitize_file_name("./x"), "x");
    assert_eq!(sanitize_file_name("..."), "...");
}

#[test]
fn sanitize_plain_and_trailing_separator() {
    assert_eq!(sanitize_file_name("report.pdf"), "report.pdf");
    assert_eq!(sanitize_file_name("/abs/dir/"), "dir");
    assert_eq!(sanitize_file_name("dir/日本.txt"), "日本.txt");
}

#[test]
fn end_to_end_byte_by_byte() {
    let wire = report_stream(&[1, 2, 3, 4, 5]);
    let mut r = Receiver::new();
    let mut sink = Vec::new();
    for b in &wire {
        feed(&mut r, std::slice::from_ref(b), &mut sink);
    }
    assert_eq!(r.bytes_written(), 5);
    assert_eq!(r.received_len(), wire.len() as u64);
    let header = r.header().unwrap();
    assert_eq!(header.file_name, "report.pdf");
    assert_eq!(header.file_size, 5);
    assert_eq!(sink, vec![1, 2, 3, 4, 5]);
    assert_eq!(r.finish(), Ok(Completion::Complete { bytes: 5 }));
}

#[test]
fn end_to_end_all_at_once() {
    let wire = report_stream(&[1, 2, 3, 4, 5]);
    let mut r = Receiver::new();
    match r.on_chunk(&wire) {
        Step::HeaderReady(rest) => assert_eq!(rest, vec![1, 2, 3, 4, 5]),
        other => panic!("unexpected step {other:?}"),
    }
    assert_eq!(r.bytes_written(), 5);
    assert_eq!(r.header().unwrap().file_size, 5);
    assert_eq!(r.finish(), Ok(Completion::Complete { bytes: 5 }));
}

#[test]
fn end_to_end_uneven_chunks() {
    let wire = report_stream(&[1, 2, 3, 4, 5]);
    let mut r = Receiver::new();
    assert!(matches!(r.on_chunk(&wire[..7]), Step::NeedMore));
    match r.on_chunk(&wire[7..22]) {
        Step::HeaderReady(rest) => assert_eq!(rest, vec![1, 2]),
        other => panic!("unexpected step {other:?}"),
    }
    match r.on_chunk(&wire[22..]) {
        Step::Body(b) => assert_eq!(b, vec![3, 4, 5]),
        other => panic!("unexpected step {other:?}"),
    }
    assert_eq!(r.finish(), Ok(Completion::Complete { bytes: 5 }));
}

#[test]
fn integrity_mismatch_short_body() {
    let wire = report_stream(&[1, 2, 3]);
    for split in [1usize, wire.len()] {
        let mut r = Receiver::new();
        let mut sink = Vec::new();
        for chunk in wire.chunks(split) {
            feed(&mut r, chunk, &mut sink);
        }
        assert_eq!(r.bytes_written(), 3);
        assert_eq!(sink, vec![1, 2, 3]);
        assert_eq!(
            r.finish(),
            Ok(Completion::SizeMismatch { expected: 5, actual: 3 })
        );
    }
}

#[test]
fn integrity_mismatch_long_body() {
    let wire = report_stream(&[1, 2, 3, 4, 5, 6, 7]);
    let mut r = Receiver::new();
    let mut sink = Vec::new();
    feed(&mut r, &wire, &mut sink);
    assert_eq!(sink.len(), 7);
    assert_eq!(
        r.finish(),
        Ok(Completion::SizeMismatch { expected: 5, actual: 7 })
    );
}

#[test]
fn protocol_violation_on_short_stream() {
    let mut r = Receiver::new();
    assert!(matches!(r.on_chunk(&[1, 2, 3, 4, 5]), Step::NeedMore));
    assert!(r.header().is_none());
    assert_eq!(r.bytes_written(), 0);
    assert_eq!(r.finish(), Err(ReceiveError::ProtocolViolation));
}

#[test]
fn protocol_violation_on_empty_stream() {
    let r = Receiver::new();
    assert_eq!(r.finish(), Err(ReceiveError::ProtocolViolation));
}

#[test]
fn protocol_violation_with_incomplete_name() {
    let wire = encode_header("report.pdf", 5).unwrap();
    let mut r = Receiver::new();
    assert!(matches!(r.on_chunk(&wire[..15]), Step::NeedMore));
    assert_eq!(r.finish(), Err(ReceiveError::ProtocolViolation));
}

#[test]
fn empty_file_transfer_completes() {
    let wire = encode_header("empty", 0).unwrap();
    let mut r = Receiver::new();
    match r.on_chunk(&wire) {
        Step::HeaderReady(rest) => assert!(rest.is_empty()),
        other => panic!("unexpected step {other:?}"),
    }
    assert_eq!(r.finish(), Ok(Completion::Complete { bytes: 0 }));
}

#[test]
fn chunkings_hand_out_the_same_body() {
    let wire = report_stream(&[1, 2, 3, 4, 5]);
    let mut outcomes = Vec::new();
    for split in [1usize, 3, 11, 20, wire.len()] {
        let mut r = Receiver::new();
        let mut sink = Vec::new();
        for chunk in wire.chunks(split) {
            feed(&mut r, chunk, &mut sink);
        }
        outcomes.push((sink, r.bytes_written(), r.finish()));
    }
    for o in &outcomes {
        assert_eq!(o, &(vec![1, 2, 3, 4, 5], 5, Ok(Completion::Complete { bytes: 5 })));
    }
}
