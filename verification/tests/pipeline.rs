use demovoice::batch::{aggregate_batch, DemoSummary};
use demovoice::inputs::{is_input_command, lookup_key, parse_keymap, trailing_keycode};
use demovoice::session::{PacketWork, SessionTable};
use demovoice::FRAME_SIZE;

fn le16(v: u16) -> [u8; 2] {
    [(v & 0xFF) as u8, (v >> 8) as u8]
}

fn le32(v: u32) -> [u8; 4] {
    [
        (v & 0xFF) as u8,
        ((v >> 8) & 0xFF) as u8,
        ((v >> 16) & 0xFF) as u8,
        ((v >> 24) & 0xFF) as u8,
    ]
}

fn le64(v: u64) -> [u8; 8] {
    let mut out = [0u8; 8];
    let mut i: usize = 0;
    while i < 8 {
        out[i] = ((v >> (8 * i)) & 0xFF) as u8;
        i += 1;
    }
    out
}

fn chunk_packet(speaker: u64, chunks: &[(u16, &[u8])]) -> Vec<u8> {
    let mut r = Vec::new();
    for (frame, payload) in chunks {
        r.extend_from_slice(&le16(payload.len() as u16));
        r.extend_from_slice(&le16(*frame));
        r.extend_from_slice(payload);
    }
    let mut b = Vec::new();
    b.extend_from_slice(&le64(speaker));
    b.push(0x0B);
    b.extend_from_slice(&le16(24000));
    b.push(0x06);
    b.extend_from_slice(&le16(r.len() as u16));
    b.extend_from_slice(&r);
    let crc = crc::crc32::checksum_ieee(&b);
    b.extend_from_slice(&le32(crc));
    b
}

fn silence_packet(speaker: u64, duration_ns: u16) -> Vec<u8> {
    let mut b = Vec::new();
    b.extend_from_slice(&le64(speaker));
    b.push(0x0B);
    b.extend_from_slice(&le16(24000));
    b.push(0x00);
    b.extend_from_slice(&le16(duration_ns));
    let crc = crc::crc32::checksum_ieee(&b);
    b.extend_from_slice(&le32(crc));
    b
}

/// Runs one packet through the whole prepare/decode/commit cycle, with a
/// stand-in decoder that yields constant samples.
fn process(table: &mut SessionTable, raw: &Vec<u8>, tick: u32, value: i16) {
    match table.prepare_packet(raw, tick).expect("packet refused") {
        PacketWork::Voice {
            index,
            chunks,
            conceal,
        } => {
            let mut decoded = Vec::new();
            for c in &conceal {
                decoded.push(vec![value; FRAME_SIZE * (*c as usize + 1)]);
            }
            table.commit_chunks(index, &chunks, tick, decoded);
        }
        PacketWork::Silence { .. } => {}
        PacketWork::Dropped => panic!("unexpected drop"),
    }
}

#[test]
fn packets_drive_sessions_end_to_end() {
    let mut table = SessionTable::new();
    process(&mut table, &chunk_packet(1, &[(0, &[9])]), 50, 5);
    process(&mut table, &chunk_packet(2, &[(0, &[9])]), 52, 6);
    process(&mut table, &chunk_packet(1, &[(1, &[9]), (3, &[9])]), 55, 5);
    assert_eq!(table.len(), 2);
    let p1 = &table.entries[0].1;
    assert_eq!(table.entries[0].0, 1);
    // speaker 1: frames 0,1,3 with index 2 concealed: 4 frames in one clip
    assert_eq!(p1.audio.len(), 1);
    assert_eq!(p1.audio[0].start_tick, 50);
    assert_eq!(p1.audio[0].data.len(), 4 * 480);
    let p2 = &table.entries[1].1;
    assert_eq!(table.entries[1].0, 2);
    assert_eq!(p2.audio.len(), 1);
    assert_eq!(p2.audio[0].data.len(), 480);
}

#[test]
fn silence_only_speaker_has_a_session_and_no_clips() {
    let mut table = SessionTable::new();
    process(&mut table, &silence_packet(7, 100), 10, 0);
    process(&mut table, &silence_packet(7, 200), 20, 0);
    assert_eq!(table.len(), 1);
    assert_eq!(table.entries[0].1.audio.len(), 0);
    // in merged mode such a speaker still gets a file: the pad alone
    let plan = table.merged_tracks().expect("plan failed");
    assert_eq!(plan.len(), 1);
    assert_eq!(plan[0].samples.len(), 24000);
    assert!(plan[0].samples.iter().all(|s| *s == 0));
    // in split mode it has no clips, so no files
    let split = table.split_tracks().expect("plan failed");
    assert_eq!(split.len(), 1);
    assert_eq!(split[0].clips.len(), 0);
}

fn summary(path: &str, parsed: Option<&[(&str, &str)]>) -> DemoSummary {
    DemoSummary {
        path: path.to_string(),
        players: parsed.map(|ps| {
            ps.iter()
                .map(|(a, b)| (a.to_string(), b.to_string()))
                .collect()
        }),
    }
}

#[test]
fn batch_with_one_corrupted_file_reports_it_once() {
    let results = vec![
        summary("a.dem", Some(&[("alice", "1"), ("bob", "2")])),
        summary("b.dem", None),
        summary("c.dem", Some(&[("carol", "3")])),
        summary("d.dem", Some(&[])),
    ];
    let report = aggregate_batch(results);
    assert_eq!(report.entries.len(), 3);
    assert_eq!(report.failures, vec!["b.dem".to_string()]);
    assert_eq!(report.entries[0].0, "a.dem");
    assert_eq!(
        report.entries[0].1,
        vec![
            ("alice".to_string(), "1".to_string()),
            ("bob".to_string(), "2".to_string())
        ]
    );
}

#[test]
fn batch_failure_position_does_not_matter() {
    for bad in 0..3 {
        let mut results = Vec::new();
        for i in 0..3 {
            if i == bad {
                results.push(summary("bad.dem", None));
            } else {
                results.push(summary("good.dem", Some(&[])));
            }
        }
        let report = aggregate_batch(results);
        assert_eq!(report.entries.len(), 2);
        assert_eq!(report.failures.len(), 1);
    }
}

#[test]
fn input_commands_are_recognized() {
    assert!(is_input_command(&b"+jump 57".to_vec()));
    assert!(is_input_command(&b"-attack 58".to_vec()));
    assert!(!is_input_command(&b"say hello".to_vec()));
    assert!(!is_input_command(&b"".to_vec()));
}

#[test]
fn trailing_keycode_is_sliced_out() {
    assert_eq!(trailing_keycode(&b"+jump 57".to_vec()), Some(b"57".to_vec()));
    assert_eq!(
        trailing_keycode(&b"+jump 57  ".to_vec()),
        Some(b"57".to_vec())
    );
    assert_eq!(
        trailing_keycode(&b"say 12 34".to_vec()),
        Some(b"34".to_vec())
    );
    assert_eq!(
        trailing_keycode(&b"+duck 9\t\n".to_vec()),
        Some(b"9".to_vec())
    );
    assert_eq!(trailing_keycode(&b"-attack".to_vec()), None);
    assert_eq!(trailing_keycode(&b"+x 12x".to_vec()), None);
    assert_eq!(trailing_keycode(&b"57".to_vec()), None); // no space before
}

#[test]
fn keymap_parses_and_resolves() {
    let text = b"(57, Space)\n(13, Enter)\nnoise (9, Tab)".to_vec();
    let map = parse_keymap(&text);
    assert_eq!(map.len(), 3);
    assert_eq!(map[0], (b"57".to_vec(), b"Space".to_vec()));
    assert_eq!(map[1], (b"13".to_vec(), b"Enter".to_vec()));
    assert_eq!(map[2], (b"9".to_vec(), b"Tab".to_vec()));
    assert_eq!(
        lookup_key(&map, &b"13".to_vec()),
        Some(b"Enter".to_vec())
    );
    assert_eq!(lookup_key(&map, &b"99".to_vec()), None);
}

#[test]
fn keymap_later_records_override_earlier_ones() {
    let text = b"(57, Space)\n(57, Jump)".to_vec();
    let map = parse_keymap(&text);
    assert_eq!(map.len(), 2);
    assert_eq!(
        lookup_key(&map, &b"57".to_vec()),
        Some(b"Jump".to_vec())
    );
}
