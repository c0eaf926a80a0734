use demovoice::output::{SynthError, SpeakerClips, SpeakerTrack};
use demovoice::session::SessionTable;
use demovoice::speaker::{AudioClip, Player};
use demovoice::FRAME_SIZE;

/// A frame's worth of samples with one constant value.
fn frame(value: i16) -> Vec<i16> {
    vec![value; FRAME_SIZE]
}

/// A buffer of `n` frames with one constant value.
fn frames(n: usize, value: i16) -> Vec<i16> {
    vec![value; FRAME_SIZE * n]
}

/// Feeds one chunk through plan and commit.
fn feed(p: &mut Player, frame_index: u16, tick: u32, value: i16) {
    let conceal = p.plan_chunk(frame_index).expect("chunk refused");
    p.decode_chunk(frames(conceal as usize + 1, value), frame_index, tick);
}

#[test]
fn consecutive_frames_make_one_exact_clip() {
    let n: u16 = 5;
    let mut p = Player::new();
    for f in 0..n {
        feed(&mut p, f, 40, 7);
    }
    assert_eq!(p.audio.len(), 1);
    assert_eq!(p.audio[0].start_tick, 40);
    assert_eq!(p.audio[0].data.len(), n as usize * 480);
}

#[test]
fn skipped_frame_is_concealed_exactly() {
    let mut p = Player::new();
    feed(&mut p, 0, 40, 7);
    feed(&mut p, 1, 41, 7);
    feed(&mut p, 3, 43, 7);
    // indices 0,1,3 received, index 2 concealed: 4 frames in all
    assert_eq!(p.audio.len(), 1);
    assert_eq!(p.audio[0].data.len(), 4 * 480);
}

#[test]
fn frame_zero_closes_the_clip_and_opens_a_new_one() {
    let mut p = Player::new();
    feed(&mut p, 0, 40, 1);
    feed(&mut p, 1, 41, 1);
    feed(&mut p, 0, 300, 2);
    assert_eq!(p.audio.len(), 2);
    assert_eq!(p.audio[0].start_tick, 40);
    assert_eq!(p.audio[0].data.len(), 2 * 480);
    assert_eq!(p.audio[1].start_tick, 300);
    assert_eq!(p.audio[1].data.len(), 480);
    // the first clip's samples are untouched by the new clip
    assert!(p.audio[0].data.iter().all(|s| *s == 1));
    assert!(p.audio[1].data.iter().all(|s| *s == 2));
}

#[test]
fn two_clip_timeline_inserts_the_exact_gap() {
    // clip A: start tick 0, 24000 samples; clip B: start tick 200, 4800
    // samples.  A ends at sample position 24000, B starts at position
    // 200 * 360 = 72000: the synthesizer owes 48000 zeros between them.
    let mut a = AudioClip::new(0);
    a.data = vec![3; 24000];
    let mut b = AudioClip::new(200);
    b.data = vec![4; 4800];
    let p = Player {
        current_frame: 0,
        audio: vec![a, b],
    };
    let track = p.get_continuous_audio();
    assert_eq!(track.len(), 24000 + 48000 + 4800 + 24000);
    assert!(track[..24000].iter().all(|s| *s == 3));
    assert!(track[24000..72000].iter().all(|s| *s == 0));
    assert!(track[72000..76800].iter().all(|s| *s == 4));
    assert!(track[76800..].iter().all(|s| *s == 0));
}

#[test]
fn overlapping_clips_degrade_to_no_gap() {
    // clip B starts before A's audio ends: no zeros between them
    let mut a = AudioClip::new(0);
    a.data = vec![3; 24000];
    let mut b = AudioClip::new(10); // position 3600, well inside A
    b.data = vec![4; 480];
    let p = Player {
        current_frame: 0,
        audio: vec![a, b],
    };
    let track = p.get_continuous_audio();
    assert_eq!(track.len(), 24000 + 480 + 24000);
    assert_eq!(track[24000], 4);
}

#[test]
fn empty_player_synthesizes_the_pad_alone() {
    let p = Player::new();
    let track = p.get_continuous_audio();
    assert_eq!(track.len(), 24000);
    assert!(track.iter().all(|s| *s == 0));
}

#[test]
fn end_tick_rounds_up() {
    let mut c = AudioClip::new(100);
    c.data = vec![0; 480];
    // 480 samples span 1.33 ticks: the derived end tick rounds up to 102
    assert_eq!(c.end_tick(), 102);
    let mut d = AudioClip::new(100);
    d.data = vec![0; 720]; // exactly two ticks
    assert_eq!(d.end_tick(), 102);
    let e = AudioClip::new(7);
    assert_eq!(e.end_tick(), 7);
}

fn two_speaker_table() -> SessionTable {
    let mut p1 = Player::new();
    feed(&mut p1, 0, 10, 1);
    feed(&mut p1, 0, 500, 1); // second clip
    let mut p2 = Player::new();
    feed(&mut p2, 0, 20, 2);
    SessionTable {
        entries: vec![(111, p1), (222, p2)],
    }
}

#[test]
fn split_mode_plans_one_file_per_clip() {
    let table = two_speaker_table();
    let plan: Vec<SpeakerClips> = table.split_tracks().expect("plan failed");
    assert_eq!(plan.len(), 2);
    assert_eq!(plan[0].speaker, 111);
    assert_eq!(plan[0].clips.len(), 2);
    assert_eq!(plan[1].speaker, 222);
    assert_eq!(plan[1].clips.len(), 1);
    assert_eq!(plan[0].clips[0].start_tick, 10);
    assert_eq!(plan[0].clips[0].end_tick, 12); // 480 samples: 2 ticks up
    assert_eq!(plan[0].clips[1].start_tick, 500);
    assert_eq!(plan[1].clips[0].samples.len(), 480);
}

#[test]
fn merged_mode_plans_one_file_per_speaker() {
    let table = two_speaker_table();
    let plan: Vec<SpeakerTrack> = table.merged_tracks().expect("plan failed");
    assert_eq!(plan.len(), 2);
    assert_eq!(plan[0].speaker, 111);
    assert_eq!(plan[1].speaker, 222);
    // speaker 222: one clip at tick 20 (position 7200), 480 samples, pad
    assert_eq!(plan[1].samples.len(), 7200 + 480 + 24000);
}

#[test]
fn unrepresentable_end_tick_is_reported() {
    // a clip at the very last tick: its derived end tick passes the
    // largest representable tick number
    let mut c = AudioClip::new(u32::MAX);
    c.data = vec![0; 480];
    let mut p = Player::new();
    p.audio.push(c);
    let table = SessionTable {
        entries: vec![(1, p)],
    };
    match table.split_tracks() {
        Err(e) => assert_eq!(e, SynthError::TickRangeOverflow),
        Ok(_) => panic!("expected an end tick out of range"),
    }
}
