use sodiumoxide::crypto::secretbox;
use unboxer::{Key, Nonce, ReaderBuffer, UnboxError, CYPHER_HEADER_SIZE, MAX_PACKET_USIZE};

const KEY: [u8; 32] = [7u8; 32];
const N0: [u8; 24] = [0u8; 24];

/// Advance a 24-byte big-endian counter by one, wrapping on overflow.
fn inc_be(n: &mut [u8; 24]) {
    for i in (0..24).rev() {
        if n[i] == 255 {
            n[i] = 0;
        } else {
            n[i] += 1;
            return;
        }
    }
}

/// Conforming sender-side framer: encrypt one frame, advancing `nonce` by two
/// steps (header first, body second).
fn seal_frame(plain: &[u8], key: &[u8; 32], nonce: &mut [u8; 24]) -> Vec<u8> {
    assert!(plain.len() <= MAX_PACKET_USIZE);
    let k = secretbox::Key::from_slice(key).unwrap();
    let hn = secretbox::Nonce::from_slice(nonce).unwrap();
    inc_be(nonce);
    let bn = secretbox::Nonce::from_slice(nonce).unwrap();
    inc_be(nonce);
    let mut body = plain.to_vec();
    let body_tag = secretbox::seal_detached(&mut body, &bn, &k);
    let mut plain_header = Vec::new();
    plain_header.extend_from_slice(&(plain.len() as u16).to_be_bytes());
    plain_header.extend_from_slice(&body_tag.0);
    let header_tag = secretbox::seal_detached(&mut plain_header, &hn, &k);
    let mut frame = Vec::new();
    frame.extend_from_slice(&header_tag.0);
    frame.extend_from_slice(&plain_header);
    frame.extend_from_slice(&body);
    frame
}

fn seal_frames(plains: &[&[u8]], key: &[u8; 32], n0: &[u8; 24]) -> Vec<u8> {
    let mut nonce = *n0;
    let mut stream = Vec::new();
    for p in plains {
        stream.extend_from_slice(&seal_frame(p, key, &mut nonce));
    }
    stream
}

fn mk_key(key: &[u8; 32]) -> Key {
    Key::from_bytes(key.to_vec()).unwrap()
}

fn mk_nonce(n0: &[u8; 24]) -> Nonce {
    Nonce::from_bytes(n0.to_vec()).unwrap()
}

/// Run the machine the way the stream facade does: feed `feed_chunk` bytes at
/// a time, drain `read_chunk` plaintext bytes at a time.
fn drive(
    buf: &mut ReaderBuffer,
    key: &Key,
    nonce: &mut Nonce,
    stream: &[u8],
    feed_chunk: usize,
    read_chunk: usize,
) -> Result<Vec<u8>, UnboxError> {
    let mut pos = 0;
    let mut out = Vec::new();
    loop {
        if buf.is_readable() {
            let part = buf.read_to(read_chunk, key, nonce)?;
            out.extend_from_slice(&part);
            continue;
        }
        if !buf.needs_input() {
            buf.fill(&Vec::new(), key, nonce)?;
            continue;
        }
        if pos >= stream.len() {
            buf.finish()?;
            return Ok(out);
        }
        let mut n = feed_chunk;
        if n > stream.len() - pos {
            n = stream.len() - pos;
        }
        if n > buf.space() {
            n = buf.space();
        }
        buf.fill(&stream[pos..pos + n].to_vec(), key, nonce)?;
        pos += n;
    }
}

fn run(stream: &[u8], feed_chunk: usize, read_chunk: usize) -> Result<Vec<u8>, UnboxError> {
    let key = mk_key(&KEY);
    let mut nonce = mk_nonce(&N0);
    let mut buf = ReaderBuffer::new();
    drive(&mut buf, &key, &mut nonce, stream, feed_chunk, read_chunk)
}

#[test]
fn round_trip_single_frame() {
    let stream = seal_frames(&[b"hello world"], &KEY, &N0);
    assert_eq!(run(&stream, stream.len(), 4096).unwrap(), b"hello world".to_vec());
}

#[test]
fn round_trip_many_frames_any_chunking() {
    let big: Vec<u8> = (0..4096u32).map(|i| (i % 251) as u8).collect();
    let mid: Vec<u8> = (0..1000u32).map(|i| (i * 7 % 256) as u8).collect();
    let plains: Vec<&[u8]> = vec![b"first", &big, b"", &mid];
    let mut expected = Vec::new();
    for p in &plains {
        expected.extend_from_slice(p);
    }
    let stream = seal_frames(&plains, &KEY, &N0);
    assert_eq!(run(&stream, stream.len(), 4096).unwrap(), expected);
    assert_eq!(run(&stream, 1, 4096).unwrap(), expected);
    assert_eq!(run(&stream, 37, 512).unwrap(), expected);
}

#[test]
fn small_buffer_resumption() {
    let plain: Vec<u8> = (0..3000u32).map(|i| (i % 241) as u8).collect();
    let stream = seal_frames(&[&plain], &KEY, &N0);
    let all_at_once = run(&stream, stream.len(), 4096).unwrap();
    let one_by_one = run(&stream, stream.len(), 1).unwrap();
    assert_eq!(all_at_once, plain);
    assert_eq!(one_by_one, plain);
}

#[test]
fn hello_two_then_one_then_rest() {
    let stream = seal_frames(&[b"hello"], &KEY, &N0);
    let key = mk_key(&KEY);
    let mut nonce = mk_nonce(&N0);
    let mut buf = ReaderBuffer::new();
    buf.fill(&stream[0..2].to_vec(), &key, &mut nonce).unwrap();
    assert!(!buf.is_readable());
    buf.fill(&stream[2..3].to_vec(), &key, &mut nonce).unwrap();
    assert!(!buf.is_readable());
    buf.fill(&stream[3..].to_vec(), &key, &mut nonce).unwrap();
    assert!(buf.is_readable());
    let first = buf.read_to(3, &key, &mut nonce).unwrap();
    assert_eq!(first, b"hel".to_vec());
    assert!(buf.is_readable());
    let second = buf.read_to(2, &key, &mut nonce).unwrap();
    assert_eq!(second, b"lo".to_vec());
    assert!(!buf.is_readable());
    assert!(buf.needs_input());
    assert_eq!(buf.finish(), Ok(()));
}

#[test]
fn tamper_header_detected() {
    let mut stream = seal_frames(&[b"hello"], &KEY, &N0);
    stream[3] ^= 0x10;
    assert_eq!(run(&stream, stream.len(), 4096), Err(UnboxError::AuthenticationFailure));
}

#[test]
fn tamper_header_cipher_detected() {
    let mut stream = seal_frames(&[b"hello"], &KEY, &N0);
    stream[20] ^= 0x01;
    assert_eq!(run(&stream, stream.len(), 4096), Err(UnboxError::AuthenticationFailure));
}

#[test]
fn tamper_body_detected() {
    let mut stream = seal_frames(&[b"hello"], &KEY, &N0);
    let last = stream.len() - 1;
    stream[last] ^= 0x80;
    assert_eq!(run(&stream, stream.len(), 4096), Err(UnboxError::AuthenticationFailure));
}

#[test]
fn tamper_second_frame_keeps_first() {
    let mut stream = seal_frames(&[b"good frame", b"bad frame"], &KEY, &N0);
    let last = stream.len() - 1;
    stream[last] ^= 0x01;
    let key = mk_key(&KEY);
    let mut nonce = mk_nonce(&N0);
    let mut buf = ReaderBuffer::new();
    let r = drive(&mut buf, &key, &mut nonce, &stream, stream.len(), 4096);
    assert_eq!(r, Err(UnboxError::AuthenticationFailure));
    let mut buf2 = ReaderBuffer::new();
    let key2 = mk_key(&KEY);
    let mut nonce2 = mk_nonce(&N0);
    buf2.fill(&stream.to_vec(), &key2, &mut nonce2).unwrap();
    let first = buf2.read_to(4096, &key2, &mut nonce2).unwrap();
    assert_eq!(first, b"good frame".to_vec());
    buf2.fill(&Vec::new(), &key2, &mut nonce2).unwrap();
    assert_eq!(
        buf2.read_to(4096, &key2, &mut nonce2),
        Err(UnboxError::AuthenticationFailure)
    );
}

#[test]
fn oversize_rejected() {
    let k = secretbox::Key::from_slice(&KEY).unwrap();
    let hn = secretbox::Nonce::from_slice(&N0).unwrap();
    let mut plain_header = Vec::new();
    plain_header.extend_from_slice(&4097u16.to_be_bytes());
    plain_header.extend_from_slice(&[0u8; 16]);
    let header_tag = secretbox::seal_detached(&mut plain_header, &hn, &k);
    let mut header = Vec::new();
    header.extend_from_slice(&header_tag.0);
    header.extend_from_slice(&plain_header);
    assert_eq!(header.len(), CYPHER_HEADER_SIZE);
    let key = mk_key(&KEY);
    let mut nonce = mk_nonce(&N0);
    let mut buf = ReaderBuffer::new();
    assert_eq!(
        buf.fill(&header, &key, &mut nonce),
        Err(UnboxError::OversizedPacket)
    );
}

#[test]
fn largest_allowed_packet_accepted() {
    let plain: Vec<u8> = vec![9u8; MAX_PACKET_USIZE];
    let stream = seal_frames(&[&plain], &KEY, &N0);
    assert_eq!(run(&stream, stream.len(), 4096).unwrap(), plain);
}

#[test]
fn truncation_mid_header() {
    let stream = seal_frames(&[b"hello"], &KEY, &N0);
    assert_eq!(run(&stream[..10], 10, 4096), Err(UnboxError::TruncatedStream));
}

#[test]
fn truncation_mid_body() {
    let stream = seal_frames(&[b"hello"], &KEY, &N0);
    assert_eq!(
        run(&stream[..stream.len() - 2], stream.len(), 4096),
        Err(UnboxError::TruncatedStream)
    );
}

#[test]
fn clean_end_of_empty_stream() {
    assert_eq!(run(&[], 1, 4096).unwrap(), Vec::<u8>::new());
    assert_eq!(ReaderBuffer::new().finish(), Ok(()));
}

#[test]
fn nonce_advances_two_steps_per_frame() {
    let plains: Vec<&[u8]> = vec![b"one", b"two", b"three"];
    let stream = seal_frames(&plains, &KEY, &N0);
    let key = mk_key(&KEY);
    let mut nonce = mk_nonce(&N0);
    let mut buf = ReaderBuffer::new();
    let out = drive(&mut buf, &key, &mut nonce, &stream, stream.len(), 4096).unwrap();
    assert_eq!(out, b"onetwothree".to_vec());
    let mut expected = N0;
    for _ in 0..6 {
        inc_be(&mut expected);
    }
    assert_eq!(nonce.as_bytes().clone(), expected.to_vec());
}

#[test]
fn nonce_increment_wraps_big_endian() {
    let mut n = Nonce::from_bytes(vec![255u8; 24]).unwrap();
    n.increment();
    assert_eq!(n.as_bytes().clone(), vec![0u8; 24]);
    let mut carry = vec![0u8; 24];
    carry[22] = 3;
    carry[23] = 255;
    let mut n2 = Nonce::from_bytes(carry).unwrap();
    n2.increment();
    let mut expected = [0u8; 24];
    expected[22] = 4;
    assert_eq!(n2.as_bytes().clone(), expected.to_vec());
}

#[test]
fn round_trip_near_nonce_wraparound() {
    let n0 = [255u8; 24];
    let stream = seal_frames(&[b"wrap one", b"wrap two"], &KEY, &n0);
    let key = mk_key(&KEY);
    let mut nonce = mk_nonce(&n0);
    let mut buf = ReaderBuffer::new();
    let out = drive(&mut buf, &key, &mut nonce, &stream, 3, 2).unwrap();
    assert_eq!(out, b"wrap onewrap two".to_vec());
}
