use comiconv_server::digest::{bytes_equal, digest, verify};
use comiconv_server::frame::{
    accept_bytes, ack_bytes, clamp_quality, clamp_speed, decode_be_u32, decode_header,
    decode_response, encode_be_u32, encode_header, encode_response, format_from_tag, format_tag,
    is_handshake, next_chunk_len, ImageFormat, RequestHeader, MAX_CHUNK,
};
use comiconv_server::session::{Event, Next, Session, Step};

fn hex(b: &[u8]) -> String {
    b.iter().map(|x| format!("{:02x}", x)).collect()
}

fn header(format: ImageFormat, quality: u8, speed: u8, length: u32) -> RequestHeader {
    RequestHeader { format, quality, speed, length }
}

fn expect_read(step: &Step, n: usize) {
    match step.next {
        Next::Read(m) => assert_eq!(m, n),
        _ => panic!("expected a read of {} bytes", n),
    }
}

fn expect_close(step: &Step) {
    assert!(matches!(step.next, Next::Close));
}

/// Drives a session through handshake, header, digest and body; returns the
/// session and the last step, with every byte the session sent.
fn send_request(
    session: Session,
    first: Step,
    header_bytes: &[u8],
    declared: &[u8],
    body: &[u8],
    sent: &mut Vec<u8>,
    acks: &mut usize,
) -> (Session, Step) {
    let mut session = session;
    let mut step = first;
    sent.extend_from_slice(&step.send);
    expect_read(&step, 8);
    let (s, st) = session.step(Event::Received(header_bytes.to_vec()));
    session = s;
    step = st;
    sent.extend_from_slice(&step.send);
    expect_read(&step, 32);
    let (s, st) = session.step(Event::Received(declared.to_vec()));
    session = s;
    step = st;
    sent.extend_from_slice(&step.send);
    let mut at = 0usize;
    while let Next::Read(n) = step.next {
        let chunk = body[at..at + n].to_vec();
        at += n;
        let (s, st) = session.step(Event::Received(chunk));
        session = s;
        step = st;
        assert_eq!(step.send, b"ok".to_vec());
        *acks += 1;
        sent.extend_from_slice(&step.send);
    }
    (session, step)
}

fn open_session() -> (Session, Step) {
    let (session, step) = Session::start();
    assert!(step.send.is_empty());
    expect_read(&step, 4);
    let (session, step) = session.step(Event::Received(b"comi".to_vec()));
    assert_eq!(step.send, b"conv".to_vec());
    (session, step)
}

#[test]
fn digest_of_known_inputs() {
    assert_eq!(
        hex(&digest(b"")),
        "e3b0c44298fc1c149afbf4c8996fb92427ae41e4649b934ca495991b7852b855"
    );
    assert_eq!(
        hex(&digest(b"abc")),
        "ba7816bf8f01cfea414140de5dae2223b00361a396177a9cb410ff61f20015ad"
    );
}

#[test]
fn verify_own_digest_and_reject_others() {
    let data: Vec<u8> = (0..1000u32).map(|i| (i * 7 % 256) as u8).collect();
    let d = digest(&data);
    assert!(verify(&data, &d));
    let mut other = data.clone();
    other[500] ^= 1;
    assert!(!verify(&data, &digest(&other)));
    assert!(!verify(&data, &d[..31]));
    let mut longer = d.clone();
    longer.push(0);
    assert!(!verify(&data, &longer));
}

#[test]
fn bytes_equal_is_exact() {
    assert!(bytes_equal(b"abc", b"abc"));
    assert!(!bytes_equal(b"abc", b"abd"));
    assert!(!bytes_equal(b"ab", b"abc"));
    assert!(bytes_equal(b"", b""));
}

#[test]
fn clamping_is_idempotent() {
    for v in 0..=255u8 {
        let q = clamp_quality(v);
        assert!(q <= 100);
        assert_eq!(clamp_quality(q), q);
        let s = clamp_speed(v);
        assert!(s <= 10);
        assert_eq!(clamp_speed(s), s);
    }
    assert_eq!(clamp_quality(80), 80);
    assert_eq!(clamp_quality(101), 100);
    assert_eq!(clamp_quality(255), 100);
    assert_eq!(clamp_speed(5), 5);
    assert_eq!(clamp_speed(11), 10);
    assert_eq!(clamp_speed(0), 0);
}

#[test]
fn format_tags() {
    assert_eq!(format_from_tag(b'J'), Some(ImageFormat::Jpeg));
    assert_eq!(format_from_tag(b'P'), Some(ImageFormat::Png));
    assert_eq!(format_from_tag(b'W'), Some(ImageFormat::Webp));
    assert_eq!(format_from_tag(b'A'), Some(ImageFormat::Avif));
    assert_eq!(format_from_tag(b'j'), None);
    assert_eq!(format_from_tag(b'X'), None);
    for f in [ImageFormat::Jpeg, ImageFormat::Png, ImageFormat::Webp, ImageFormat::Avif] {
        assert_eq!(format_from_tag(format_tag(f)), Some(f));
    }
}

#[test]
fn handshake_token_is_exact() {
    assert!(is_handshake(b"comi"));
    assert!(!is_handshake(b"conv"));
    assert!(!is_handshake(b"com"));
    assert!(!is_handshake(b"comix"));
    assert_eq!(accept_bytes(), b"conv".to_vec());
    assert_eq!(ack_bytes(), b"ok".to_vec());
}

#[test]
fn big_endian_lengths() {
    assert_eq!(encode_be_u32(0x01020304), vec![1, 2, 3, 4]);
    assert_eq!(encode_be_u32(1024), vec![0, 0, 4, 0]);
    assert_eq!(decode_be_u32(0, 0, 4, 0), 1024);
    assert_eq!(decode_be_u32(255, 255, 255, 255), u32::MAX);
    assert_eq!(decode_be_u32(0x12, 0x34, 0x56, 0x78), 0x12345678);
}

#[test]
fn header_decoding() {
    let h = decode_header(&[b'J', 80, 5, 0, 0, 0, 4, 0]).unwrap();
    assert_eq!(h, header(ImageFormat::Jpeg, 80, 5, 1024));
    let h = decode_header(&[b'A', 200, 99, 7, 1, 0, 0, 0]).unwrap();
    assert_eq!(h, header(ImageFormat::Avif, 100, 10, 16777216));
    assert_eq!(decode_header(&[b'Z', 80, 5, 0, 0, 0, 4, 0]), None);
    assert_eq!(decode_header(&[b'J', 80, 5, 0, 0, 0, 4]), None);
    assert_eq!(decode_header(&[b'J', 80, 5, 0, 0, 0, 4, 0, 0]), None);
}

#[test]
fn header_encoding_round_trip() {
    let h = header(ImageFormat::Webp, 42, 3, 0xdeadbeef);
    let b = encode_header(h);
    assert_eq!(b, vec![b'W', 42, 3, 0, 0xde, 0xad, 0xbe, 0xef]);
    assert_eq!(decode_header(&b), Some(h));
}

#[test]
fn response_frame_layout() {
    let frame = encode_response(b"abc").unwrap();
    assert_eq!(frame.len(), 4 + 32 + 3);
    assert_eq!(&frame[..4], &[0, 0, 0, 3]);
    assert_eq!(
        hex(&frame[4..36]),
        "ba7816bf8f01cfea414140de5dae2223b00361a396177a9cb410ff61f20015ad"
    );
    assert_eq!(&frame[36..], b"abc");
}

#[test]
fn response_round_trip() {
    for output in [Vec::new(), vec![1u8], (0..5000u32).map(|i| i as u8).collect::<Vec<u8>>()] {
        let frame = encode_response(&output).unwrap();
        let r = decode_response(&frame).unwrap();
        assert_eq!(r.length as usize, output.len());
        assert_eq!(r.digest, digest(&output));
        assert_eq!(r.output, output);
        assert!(verify(&r.output, &r.digest));
    }
}

#[test]
fn response_decoding_rejects_bad_frames() {
    assert!(decode_response(&[0u8; 35]).is_none());
    let mut frame = encode_response(b"hello").unwrap();
    frame.push(0);
    assert!(decode_response(&frame).is_none());
    frame.truncate(frame.len() - 2);
    assert!(decode_response(&frame).is_none());
}

#[test]
fn chunk_sizes() {
    assert_eq!(MAX_CHUNK, 1024 * 1024);
    assert_eq!(next_chunk_len(0), 0);
    assert_eq!(next_chunk_len(1), 1);
    assert_eq!(next_chunk_len(MAX_CHUNK), MAX_CHUNK);
    assert_eq!(next_chunk_len(MAX_CHUNK + 1), MAX_CHUNK);
}

#[test]
fn bad_handshake_is_silent() {
    let (session, _) = Session::start();
    let (session, step) = session.step(Event::Received(b"GET ".to_vec()));
    assert!(step.send.is_empty());
    expect_close(&step);
    assert!(session.is_closed());
    let (session, step) = session.step(Event::Received(b"comi".to_vec()));
    assert!(step.send.is_empty());
    assert!(session.is_closed());
}

#[test]
fn unknown_format_is_silent() {
    let (session, _) = open_session();
    let (session, step) = session.step(Event::Received(vec![b'Q', 80, 5, 0, 0, 0, 0, 1]));
    assert!(step.send.is_empty());
    expect_close(&step);
    assert!(session.is_closed());
}

#[test]
fn transport_failure_closes() {
    let (session, _) = open_session();
    let (session, step) = session.step(Event::Failed);
    assert!(step.send.is_empty());
    expect_close(&step);
    assert!(session.is_closed());
}

#[test]
fn digest_mismatch_is_silent() {
    let (session, first) = open_session();
    let body = vec![7u8; 1024];
    let mut wrong = digest(&body);
    wrong[0] ^= 0xff;
    let mut sent = Vec::new();
    let mut acks = 0usize;
    let (session, step) = send_request(
        session,
        first,
        &[b'J', 80, 5, 0, 0, 0, 4, 0],
        &wrong,
        &body,
        &mut sent,
        &mut acks,
    );
    expect_close(&step);
    assert!(session.is_closed());
    assert_eq!(acks, 1);
    assert_eq!(sent, b"convok".to_vec());
}

#[test]
fn end_to_end_and_session_persistence() {
    let (session, first) = open_session();
    let body: Vec<u8> = (0..1024u32).map(|i| (i * 31 % 251) as u8).collect();
    let mut sent = Vec::new();
    let mut acks = 0usize;
    let (session, step) = send_request(
        session,
        first,
        &[b'J', 80, 5, 0, 0, 0, 4, 0],
        &digest(&body),
        &body,
        &mut sent,
        &mut acks,
    );
    assert_eq!(acks, 1);
    let input = match step.next {
        Next::Convert(h, input) => {
            assert_eq!(h, header(ImageFormat::Jpeg, 80, 5, 1024));
            input
        }
        _ => panic!("expected a conversion"),
    };
    assert_eq!(input, body);
    let output: Vec<u8> = input.iter().rev().copied().collect();
    let (session, step) = session.step(Event::Converted(output.clone()));
    let r = decode_response(&step.send).unwrap();
    assert_eq!(r.length, 1024);
    assert_eq!(r.digest, digest(&output));
    assert_eq!(r.output, output);

    // A second request on the same session, with no handshake.
    let second = b"second payload".to_vec();
    let mut sent2 = Vec::new();
    let (session, step) = send_request(
        session,
        step,
        &[b'P', 250, 200, 0, 0, 0, 0, 14],
        &digest(&second),
        &second,
        &mut sent2,
        &mut acks,
    );
    match step.next {
        Next::Convert(h, input) => {
            assert_eq!(h, header(ImageFormat::Png, 100, 10, 14));
            assert_eq!(input, second);
        }
        _ => panic!("expected a conversion"),
    }
    assert!(!session.is_closed());
}

#[test]
fn chunk_acknowledgement_count() {
    let len = 2 * MAX_CHUNK + 5;
    let body: Vec<u8> = (0..len).map(|i| (i % 253) as u8).collect();
    let (session, first) = open_session();
    let mut sent = Vec::new();
    let mut acks = 0usize;
    let mut hb = vec![b'W', 50, 4, 0];
    hb.extend_from_slice(&(len as u32).to_be_bytes());
    let (_session, step) =
        send_request(session, first, &hb, &digest(&body), &body, &mut sent, &mut acks);
    assert_eq!(acks, (len + MAX_CHUNK - 1) / MAX_CHUNK);
    assert_eq!(acks, 3);
    assert_eq!(sent, b"convokokok".to_vec());
    assert!(matches!(step.next, Next::Convert(_, _)));
}

#[test]
fn empty_body_is_verified_then_converted() {
    let (session, first) = open_session();
    expect_read(&first, 8);
    let (session, step) = session.step(Event::Received(vec![b'A', 30, 3, 0, 0, 0, 0, 0]));
    expect_read(&step, 32);
    let (session, step) = session.step(Event::Received(digest(b"")));
    assert!(step.send.is_empty());
    assert!(matches!(step.next, Next::Convert(_, ref b) if b.is_empty()));
    let (_, step) = session.step(Event::Converted(Vec::new()));
    assert_eq!(step.send.len(), 36);
    expect_read(&step, 8);
}

#[test]
fn wrong_chunk_size_closes() {
    let (session, _) = open_session();
    let (session, _) = session.step(Event::Received(vec![b'J', 80, 5, 0, 0, 0, 0, 10]));
    let (session, step) = session.step(Event::Received(vec![0u8; 32]));
    expect_read(&step, 10);
    let (session, step) = session.step(Event::Received(vec![0u8; 9]));
    expect_close(&step);
    assert!(step.send.is_empty());
    assert!(session.is_closed());
}

#[test]
fn unexpected_event_closes() {
    let (session, _) = Session::start();
    let (session, step) = session.step(Event::Converted(vec![1, 2, 3]));
    expect_close(&step);
    assert!(step.send.is_empty());
    assert!(session.is_closed());
}
