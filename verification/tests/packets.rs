use demovoice::packet::{parse_voice_packet, PacketError, VoicePayload};
use demovoice::session::{PacketWork, ProcessError, SessionTable};
use demovoice::speaker::VoiceError;

fn le16(v: u16) -> [u8; 2] {
    [(v & 0xFF) as u8, (v >> 8) as u8]
}

fn le32(v: u32) -> [u8; 4] {
    [
        (v & 0xFF) as u8,
        ((v >> 8) & 0xFF) as u8,
        ((v >> 16) & 0xFF) as u8,
        ((v >> 24) & 0xFF) as u8,
    ]
}

fn le64(v: u64) -> [u8; 8] {
    let mut out = [0u8; 8];
    let mut i: usize = 0;
    while i < 8 {
        out[i] = ((v >> (8 * i)) & 0xFF) as u8;
        i += 1;
    }
    out
}

/// Builds a packet body: speaker id, marker, sample rate, type selector,
/// then the given tail.
fn body(speaker: u64, marker: u8, rate: u16, typ: u8, tail: &[u8]) -> Vec<u8> {
    let mut b = Vec::new();
    b.extend_from_slice(&le64(speaker));
    b.push(marker);
    b.extend_from_slice(&le16(rate));
    b.push(typ);
    b.extend_from_slice(tail);
    b
}

/// Appends the matching CRC-32 checksum to a body.
fn seal(mut b: Vec<u8>) -> Vec<u8> {
    let crc = crc::crc32::checksum_ieee(&b);
    b.extend_from_slice(&le32(crc));
    b
}

/// One chunk region: length-prefixed records of {length, frame, payload}.
fn region(chunks: &[(u16, &[u8])]) -> Vec<u8> {
    let mut r = Vec::new();
    for (frame, payload) in chunks {
        r.extend_from_slice(&le16(payload.len() as u16));
        r.extend_from_slice(&le16(*frame));
        r.extend_from_slice(payload);
    }
    r
}

fn chunk_packet(speaker: u64, chunks: &[(u16, &[u8])]) -> Vec<u8> {
    let r = region(chunks);
    let mut tail = Vec::new();
    tail.extend_from_slice(&le16(r.len() as u16));
    tail.extend_from_slice(&r);
    seal(body(speaker, 0x0B, 24000, 0x06, &tail))
}

fn silence_packet(speaker: u64, duration_ns: u16) -> Vec<u8> {
    seal(body(speaker, 0x0B, 24000, 0x00, &le16(duration_ns)))
}

#[test]
fn parses_chunk_packet() {
    let p = chunk_packet(77, &[(0, &[1, 2, 3]), (1, &[4, 5])]);
    match parse_voice_packet(&p) {
        Ok(VoicePayload::Chunks { speaker, chunks }) => {
            assert_eq!(speaker, 77);
            assert_eq!(chunks.len(), 2);
            assert_eq!(chunks[0].frame, 0);
            assert_eq!(chunks[0].data, vec![1, 2, 3]);
            assert_eq!(chunks[1].frame, 1);
            assert_eq!(chunks[1].data, vec![4, 5]);
        }
        other => panic!("expected chunks, got {:?}", other.is_ok()),
    }
}

#[test]
fn parses_silence_packet() {
    let p = silence_packet(5, 1234);
    match parse_voice_packet(&p) {
        Ok(VoicePayload::Silence {
            speaker,
            duration_ns,
        }) => {
            assert_eq!(speaker, 5);
            assert_eq!(duration_ns, 1234);
        }
        other => panic!("expected silence, got {:?}", other.is_ok()),
    }
}

#[test]
fn sentinel_chunk_length_is_skipped() {
    // region: a -1 length sentinel between two real records
    let mut r = Vec::new();
    r.extend_from_slice(&le16(2));
    r.extend_from_slice(&le16(0));
    r.extend_from_slice(&[9, 9]);
    r.extend_from_slice(&le16(0xFFFF));
    r.extend_from_slice(&le16(1));
    r.extend_from_slice(&le16(1));
    r.extend_from_slice(&[7]);
    let mut tail = Vec::new();
    tail.extend_from_slice(&le16(r.len() as u16));
    tail.extend_from_slice(&r);
    let p = seal(body(3, 0x0B, 24000, 0x06, &tail));
    match parse_voice_packet(&p) {
        Ok(VoicePayload::Chunks { chunks, .. }) => {
            assert_eq!(chunks.len(), 2);
            assert_eq!(chunks[0].data, vec![9, 9]);
            assert_eq!(chunks[1].frame, 1);
            assert_eq!(chunks[1].data, vec![7]);
        }
        _ => panic!("expected chunks"),
    }
}

#[test]
fn corrupted_payload_is_rejected() {
    let mut p = chunk_packet(77, &[(0, &[1, 2, 3])]);
    p[2] ^= 0x10; // flip one payload bit, leave the checksum untouched
    assert_eq!(parse_voice_packet(&p), Err(PacketError::ChecksumMismatch));
    assert!(!PacketError::ChecksumMismatch.is_fatal());
}

#[test]
fn corrupted_packet_creates_no_session() {
    let mut table = SessionTable::new();
    let mut p = chunk_packet(42, &[(0, &[1, 2, 3])]);
    p[0] ^= 0x01;
    match table.prepare_packet(&p, 10) {
        Ok(PacketWork::Dropped) => {}
        _ => panic!("expected the packet to be dropped"),
    }
    assert_eq!(table.len(), 0);
}

#[test]
fn bad_marker_is_fatal() {
    let p = seal(body(1, 0x0C, 24000, 0x00, &le16(0)));
    assert_eq!(parse_voice_packet(&p), Err(PacketError::BadMarker(0x0C)));
    assert!(PacketError::BadMarker(0x0C).is_fatal());
}

#[test]
fn bad_sample_rate_is_fatal() {
    let p = seal(body(1, 0x0B, 44100, 0x00, &le16(0)));
    assert_eq!(
        parse_voice_packet(&p),
        Err(PacketError::BadSampleRate(44100))
    );
}

#[test]
fn unknown_type_is_fatal() {
    let p = seal(body(1, 0x0B, 24000, 0x07, &le16(0)));
    assert_eq!(parse_voice_packet(&p), Err(PacketError::UnknownType(0x07)));
}

#[test]
fn truncated_packet_is_rejected() {
    assert_eq!(
        parse_voice_packet(&vec![1, 2, 3]),
        Err(PacketError::Truncated)
    );
    // a sealed body too short for the fixed header
    let p = seal(vec![1, 2, 3, 4]);
    assert_eq!(parse_voice_packet(&p), Err(PacketError::Truncated));
}

#[test]
fn negative_chunk_length_is_rejected() {
    let mut r = Vec::new();
    r.extend_from_slice(&le16(0x8002)); // -32766: unreadable record
    r.extend_from_slice(&le16(0));
    let mut tail = Vec::new();
    tail.extend_from_slice(&le16(r.len() as u16));
    tail.extend_from_slice(&r);
    let p = seal(body(3, 0x0B, 24000, 0x06, &tail));
    assert_eq!(parse_voice_packet(&p), Err(PacketError::Truncated));
}

#[test]
fn prepare_stages_conceal_counts() {
    let mut table = SessionTable::new();
    let p = chunk_packet(9, &[(0, &[1]), (2, &[2])]);
    match table.prepare_packet(&p, 100) {
        Ok(PacketWork::Voice {
            index,
            chunks,
            conceal,
        }) => {
            assert_eq!(index, 0);
            assert_eq!(chunks.len(), 2);
            // frame 0 owes nothing; frame 2 after frame 0 owes one
            // concealment frame for the missing index 1
            assert_eq!(conceal, vec![0, 1]);
        }
        _ => panic!("expected staged voice work"),
    }
    assert_eq!(table.len(), 1);
}

#[test]
fn protocol_violation_stops_processing() {
    let mut table = SessionTable::new();
    let p = seal(body(6, 0x0C, 24000, 0x00, &le16(0)));
    match table.prepare_packet(&p, 1) {
        Err(ProcessError::Packet(PacketError::BadMarker(0x0C))) => {}
        _ => panic!("expected a marker violation"),
    }
    assert_eq!(table.len(), 0);
}

#[test]
fn chunk_before_any_clip_is_an_error() {
    let mut table = SessionTable::new();
    let p = chunk_packet(9, &[(4, &[1])]);
    match table.prepare_packet(&p, 100) {
        Err(ProcessError::Chunk(VoiceError::NoActiveClip)) => {}
        _ => panic!("expected a missing-clip error"),
    }
}

#[test]
fn largest_frame_number_is_an_error() {
    let mut table = SessionTable::new();
    let p = chunk_packet(9, &[(0, &[1]), (0xFFFE, &[2])]);
    match table.prepare_packet(&p, 100) {
        Ok(PacketWork::Voice { conceal, .. }) => {
            assert_eq!(conceal, vec![0, 0xFFFD]);
        }
        _ => panic!("expected staged voice work"),
    }
    let q = chunk_packet(8, &[(0, &[1]), (0xFFFF, &[2])]);
    match table.prepare_packet(&q, 100) {
        Err(ProcessError::Chunk(VoiceError::FrameIndexOverflow)) => {}
        _ => panic!("expected a frame-index overflow error"),
    }
}
