use resp_server::buffer::RingBufReader;
use resp_server::error::DecodeError;

/// Feeds `source` through a ring of capacity 4 in reads of at most `chunk` bytes and
/// takes `length` bytes out with `read_exact`, reading what is missing straight from
/// the source as a caller does.
fn through_ring(source: &[u8], chunk: usize, skip: usize, length: usize) -> Vec<u8> {
    let mut ring: RingBufReader<4> = RingBufReader::new();
    let mut at = 0;
    let mut skipped = 0;
    while skipped < skip {
        if ring.is_empty() {
            let n = chunk.min(ring.fill_capacity()).min(source.len() - at);
            ring.fill(&source[at..at + n]).unwrap();
            at += n;
        }
        ring.read_u8().unwrap();
        skipped += 1;
    }
    let room = chunk.min(ring.fill_capacity()).min(source.len() - at);
    if room > 0 {
        ring.fill(&source[at..at + room]).unwrap();
        at += room;
    }
    let mut out = Vec::new();
    ring.read_exact(&mut out, length);
    if out.len() < length {
        let missing = length - out.len();
        out.extend_from_slice(&source[at..at + missing]);
    }
    out
}

#[test]
fn read_exact_matches_plain_reads() {
    let source: Vec<u8> = (0u8..40).collect();
    for chunk in 1..6 {
        for skip in 0..6 {
            for length in 0..12 {
                let got = through_ring(&source, chunk, skip, length);
                assert_eq!(got, source[skip..skip + length].to_vec(), "chunk {} skip {} length {}", chunk, skip, length);
            }
        }
    }
}

#[test]
fn read_exact_across_wraparound() {
    let mut ring: RingBufReader<4> = RingBufReader::new();
    ring.fill(b"abc").unwrap();
    assert_eq!(ring.read_u8(), Some(b'a'));
    assert_eq!(ring.read_u8(), Some(b'b'));
    assert_eq!(ring.fill_capacity(), 1);
    ring.fill(b"d").unwrap();
    assert_eq!(ring.fill_capacity(), 2);
    ring.fill(b"ef").unwrap();
    assert_eq!(ring.fill_capacity(), 0);
    let mut out = b"x".to_vec();
    ring.read_exact(&mut out, 5);
    assert_eq!(out, b"xcdef".to_vec());
    assert!(ring.is_empty());
}

#[test]
fn read_exact_stops_at_length() {
    let mut ring: RingBufReader<8> = RingBufReader::new();
    ring.fill(b"hello").unwrap();
    let mut out = Vec::new();
    ring.read_exact(&mut out, 2);
    assert_eq!(out, b"he".to_vec());
    assert_eq!(ring.read_u8(), Some(b'l'));
}

#[test]
fn zero_byte_read_is_connection_closed() {
    let mut ring: RingBufReader<4> = RingBufReader::new();
    ring.fill(b"ab").unwrap();
    assert_eq!(ring.fill(b""), Err(DecodeError::ConnectionClosed));
    assert_eq!(ring.read_u8(), Some(b'a'));
    assert_eq!(ring.read_u8(), Some(b'b'));
    assert_eq!(ring.read_u8(), None);
    assert_eq!(ring.fill(b""), Err(DecodeError::ConnectionClosed));
    assert!(ring.is_empty());
}

#[test]
fn new_ring_is_empty() {
    let ring: RingBufReader<8196> = RingBufReader::new();
    assert!(ring.is_empty());
    assert_eq!(ring.fill_capacity(), 8196);
}

#[test]
fn read_exact_appends_length_bytes_to_filled_target() {
    let mut ring: RingBufReader<8> = RingBufReader::new();
    ring.fill(b"abcdef").unwrap();
    let mut out = b"xyz".to_vec();
    ring.read_exact(&mut out, 2);
    assert_eq!(out, b"xyzab".to_vec());
    ring.read_exact(&mut out, 10);
    assert_eq!(out, b"xyzabcdef".to_vec());
    assert!(ring.is_empty());
}
