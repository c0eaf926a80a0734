//! Per-speaker decoder state: clips, frame sequencing and loss concealment.
//!
//! A speaker's frames arrive tagged with per-clip sequence numbers.  A
//! number of 0 closes the active clip and opens a new one at the arrival
//! tick; a number beyond the next expected one means packets were lost, and
//! the decoder owes one synthesized concealment frame per missing index
//! before the real frame, so that a clip's sample count always tracks the
//! frame cadence exactly.
//!
//! The codec itself runs outside the library; [`Player::plan_chunk`] decides
//! how many concealment frames a chunk owes, and [`Player::decode_chunk`]
//! commits the decoded samples and advances the state.  Both sides of that
//! split are fully specified, so the clip-boundary and alignment rules are
//! proved for every loss pattern.

use vstd::prelude::*;

use crate::FRAME_SIZE;

verus! {

/// One contiguous run of decoded audio for one speaker, positioned in
/// tick time by the tick of the frame that opened it.
pub struct AudioClip {
    pub data: Vec<i16>,
    pub start_tick: u32,
}

/// Spec-level image of an [`AudioClip`].
pub struct ClipView {
    pub start_tick: u32,
    pub data: Seq<i16>,
}

impl View for AudioClip {
    type V = ClipView;

    open spec fn view(&self) -> ClipView {
        ClipView { start_tick: self.start_tick, data: self.data@ }
    }
}

impl AudioClip {
    /// Opens an empty clip at the given tick.
    pub fn new(tick: u32) -> (c: AudioClip)
        ensures
            c@ == (ClipView { start_tick: tick, data: Seq::<i16>::empty() }),
    {
        let c = AudioClip { data: Vec::new(), start_tick: tick };
        proof {
            assert(c@.data =~= Seq::<i16>::empty());
        }
        c
    }
}

/// Size-and-position summary of a clip: everything the boundary and
/// alignment rules depend on, with the sample values abstracted away.
pub struct ClipShape {
    pub start_tick: u32,
    pub len: int,
}

/// The shape of a clip.
pub open spec fn clip_shape(c: ClipView) -> ClipShape {
    ClipShape { start_tick: c.start_tick, len: c.data.len() as int }
}

/// Shape of a whole speaker session: the next expected frame index and
/// the shapes of its clips in arrival order.
pub struct SessionShape {
    pub current_frame: u16,
    pub clips: Seq<ClipShape>,
}

/// Spec-level image of a [`Player`].
pub struct PlayerView {
    pub current_frame: u16,
    pub audio: Seq<ClipView>,
}

/// The shape of a player's session.
pub open spec fn player_shape(p: PlayerView) -> SessionShape {
    SessionShape {
        current_frame: p.current_frame,
        clips: p.audio.map(|i: int, c: ClipView| clip_shape(c)),
    }
}

/// Decoder state for one speaker: the next expected frame sequence number
/// and the clips accumulated so far.
pub struct Player {
    pub current_frame: u16,
    pub audio: Vec<AudioClip>,
}

impl View for Player {
    type V = PlayerView;

    open spec fn view(&self) -> PlayerView {
        PlayerView {
            current_frame: self.current_frame,
            audio: self.audio@.map(|i: int, c: AudioClip| c@),
        }
    }
}

/// Why a chunk cannot be accepted in the current state.
#[derive(PartialEq, Eq, Structural, Debug, Clone, Copy)]
pub enum VoiceError {
    /// The frame sequence number is the largest representable one, so the
    /// next-expected counter cannot advance past it.
    FrameIndexOverflow,
    /// A chunk with a non-zero frame number arrived before any clip was
    /// opened for this speaker.
    NoActiveClip,
}

/// Number of concealment frames owed before a chunk with sequence number
/// `frame` is decoded, when the next expected number is `cur`.
pub open spec fn spec_conceal(cur: u16, frame: u16) -> int {
    if cur < frame {
        frame - cur
    } else {
        0
    }
}

/// The next-expected counter a chunk is measured against: a frame number
/// of 0 resets it before the gap is computed.
pub open spec fn cur_after_reset(cur: u16, frame: u16) -> u16 {
    if frame == 0 {
        0
    } else {
        cur
    }
}

/// Why a chunk with this frame number is rejected in this state, if it is.
pub open spec fn chunk_error(s: SessionShape, frame: u16) -> Option<VoiceError> {
    if frame == 0xFFFF {
        Some(VoiceError::FrameIndexOverflow)
    } else if frame != 0 && s.clips.len() == 0 {
        Some(VoiceError::NoActiveClip)
    } else {
        None
    }
}

/// Shape of the session after one chunk is accepted: a frame number of 0
/// opens a new clip at `tick`; the active clip then grows by one frame per
/// concealed index plus the real frame; the counter moves past `frame`.
pub open spec fn step_shape(s: SessionShape, frame: u16, tick: u32) -> SessionShape
    recommends
        chunk_error(s, frame) is None,
{
    let clips1 = if frame == 0 {
        s.clips.push(ClipShape { start_tick: tick, len: 0 })
    } else {
        s.clips
    };
    let cur1 = cur_after_reset(s.current_frame, frame);
    let grown = FRAME_SIZE * (spec_conceal(cur1, frame) + 1);
    let last = clips1.last();
    SessionShape {
        current_frame: (frame + 1) as u16,
        clips: clips1.update(
            clips1.len() - 1,
            ClipShape { start_tick: last.start_tick, len: last.len + grown },
        ),
    }
}

impl Player {
    /// A fresh session: no clips, next expected frame number 0.
    pub fn new() -> (p: Player)
        ensures
            p@ == (PlayerView { current_frame: 0, audio: Seq::<ClipView>::empty() }),
    {
        let p = Player { current_frame: 0, audio: Vec::new() };
        proof {
            assert(p@.audio =~= Seq::<ClipView>::empty());
        }
        p
    }

    /// Decides how many concealment frames the decoder owes before the
    /// real frame of a chunk with this sequence number, or why the chunk
    /// cannot be accepted.
    pub fn plan_chunk(&self, frame: u16) -> (r: Result<u16, VoiceError>)
        ensures
            match r {
                Ok(c) => chunk_error(player_shape(self@), frame) is None && c == spec_conceal(
                    cur_after_reset(self.current_frame, frame),
                    frame,
                ),
                Err(e) => chunk_error(player_shape(self@), frame) == Some(e),
            },
    {
        if frame == 0xFFFF {
            Err(VoiceError::FrameIndexOverflow)
        } else if frame == 0 {
            Ok(0)
        } else if self.audio.len() == 0 {
            Err(VoiceError::NoActiveClip)
        } else if self.current_frame < frame {
            Ok(frame - self.current_frame)
        } else {
            Ok(0)
        }
    }

    /// Commits the decoded output of one chunk: the samples of the owed
    /// concealment frames followed by the real frame, one fixed-size frame
    /// each.  A frame number of 0 closes the active clip and opens a new
    /// one at `tick`; otherwise the samples extend the active clip; the
    /// next-expected counter moves past `frame`.
    pub fn decode_chunk(&mut self, decoded: Vec<i16>, frame: u16, tick: u32)
        requires
            chunk_error(player_shape(old(self)@), frame) is None,
            decoded@.len() == FRAME_SIZE * (spec_conceal(
                cur_after_reset(old(self).current_frame, frame),
                frame,
            ) + 1),
        ensures
            player_shape(final(self)@) == step_shape(player_shape(old(self)@), frame, tick),
            frame == 0 ==> final(self)@.audio == old(self)@.audio.push(
                ClipView { start_tick: tick, data: decoded@ },
            ),
            frame != 0 ==> final(self)@.audio == old(self)@.audio.update(
                old(self)@.audio.len() - 1,
                ClipView {
                    start_tick: old(self)@.audio.last().start_tick,
                    data: old(self)@.audio.last().data + decoded@,
                },
            ),
            final(self)@.current_frame == frame + 1,
    {
        let ghost n = decoded@.len() as int;
        if frame == 0 {
            self.audio.push(AudioClip { data: decoded, start_tick: tick });
            self.current_frame = frame + 1;
            proof {
                let pre = old(self)@;
                let post = self@;
                assert(post.audio =~= pre.audio.push(
                    ClipView { start_tick: tick, data: decoded@ },
                ));
                let target = step_shape(player_shape(pre), frame, tick);
                assert(player_shape(post).clips =~= target.clips);
                assert(player_shape(post) == target);
            }
        } else {
            let mut clip = match self.audio.pop() {
                Some(c) => c,
                None => {
                    proof {
                        assert(old(self)@.audio.len() > 0);
                        assert(false);
                    }
                    AudioClip::new(tick)
                },
            };
            let ghost clip0 = clip@;
            let mut i: usize = 0;
            while i < decoded.len()
                invariant
                    i <= decoded@.len(),
                    clip@.start_tick == clip0.start_tick,
                    clip@.data == clip0.data + decoded@.subrange(0, i as int),
                decreases decoded@.len() - i,
            {
                clip.data.push(decoded[i]);
                proof {
                    assert(clip@.data =~= clip0.data + decoded@.subrange(0, i + 1));
                }
                i = i + 1;
            }
            proof {
                assert(decoded@.subrange(0, decoded@.len() as int) =~= decoded@);
            }
            self.audio.push(clip);
            self.current_frame = frame + 1;
            proof {
                let pre = old(self)@;
                let post = self@;
                assert(clip0 == pre.audio.last());
                assert(post.audio =~= pre.audio.update(
                    pre.audio.len() - 1,
                    ClipView {
                        start_tick: pre.audio.last().start_tick,
                        data: pre.audio.last().data + decoded@,
                    },
                ));
                let target = step_shape(player_shape(pre), frame, tick);
                assert(player_shape(post).clips =~= target.clips);
                assert(player_shape(post) == target);
            }
        }
    }
}

/// The session after a whole run of chunks, one [`step_shape`] per frame
/// number, all arriving at the same tick.
pub open spec fn run_shape(s: SessionShape, frames: Seq<u16>, tick: u32) -> SessionShape
    decreases frames.len(),
{
    if frames.len() == 0 {
        s
    } else {
        run_shape(step_shape(s, frames[0], tick), frames.drop_first(), tick)
    }
}

/// Processing one more frame at the end of a run is one more step.
pub proof fn lemma_run_snoc(s: SessionShape, frames: Seq<u16>, frame: u16, tick: u32)
    ensures
        run_shape(s, frames.push(frame), tick) == step_shape(run_shape(s, frames, tick), frame, tick),
    decreases frames.len(),
{
    if frames.len() == 0 {
        reveal_with_fuel(run_shape, 2);
        assert(frames.push(frame)[0] == frame);
        assert(frames.push(frame).drop_first() =~= frames);
        assert(run_shape(s, frames.push(frame), tick) == step_shape(s, frame, tick));
    } else {
        assert(frames.push(frame)[0] == frames[0]);
        assert(frames.push(frame).drop_first() =~= frames.drop_first().push(frame));
        lemma_run_snoc(step_shape(s, frames[0], tick), frames.drop_first(), frame, tick);
    }
}

/// A frame number of 0 closes the active clip and opens a new one at the
/// arrival tick: every clip already present is left exactly as it was, and
/// the new clip starts at `tick` with one frame of samples.  Clips never
/// merge across this boundary.
pub proof fn lemma_reset_opens_clip(s: SessionShape, tick: u32)
    ensures
        step_shape(s, 0, tick).clips.len() == s.clips.len() + 1,
        forall|i: int| 0 <= i < s.clips.len() ==> step_shape(s, 0, tick).clips[i] == s.clips[i],
        step_shape(s, 0, tick).clips.last() == (ClipShape {
            start_tick: tick,
            len: FRAME_SIZE as int,
        }),
        step_shape(s, 0, tick).current_frame == 1,
{
    let t = step_shape(s, 0, tick);
    assert(spec_conceal(0, 0) == 0);
    assert(t.clips.last() == ClipShape { start_tick: tick, len: FRAME_SIZE as int });
}

/// A chunk with a non-zero frame number never opens or closes a clip: it
/// only grows the active clip, and every earlier clip is left exactly as
/// it was.
pub proof fn lemma_no_reset_grows_active_clip(s: SessionShape, frame: u16, tick: u32)
    requires
        frame != 0,
        s.clips.len() > 0,
    ensures
        step_shape(s, frame, tick).clips.len() == s.clips.len(),
        forall|i: int|
            0 <= i < s.clips.len() - 1 ==> step_shape(s, frame, tick).clips[i] == s.clips[i],
        step_shape(s, frame, tick).clips.last().start_tick == s.clips.last().start_tick,
        step_shape(s, frame, tick).clips.last().len == s.clips.last().len + FRAME_SIZE * (
        spec_conceal(s.current_frame, frame) + 1),
{
}

/// A run of strictly increasing frame numbers, all at least the next
/// expected one, keeps the session aligned: the active clip ends the run
/// with exactly one frame of samples per index up to the highest seen.
proof fn lemma_run_aligned(s: SessionShape, frames: Seq<u16>, tick: u32)
    requires
        s.clips.len() > 0,
        s.current_frame >= 1,
        s.clips.last().len == FRAME_SIZE * s.current_frame,
        forall|i: int| 0 <= i < frames.len() ==> #[trigger] frames[i] >= s.current_frame,
        forall|i: int| 0 <= i < frames.len() ==> #[trigger] frames[i] < 0xFFFF,
        forall|i: int, j: int| 0 <= i < j < frames.len() ==> frames[i] < frames[j],
    ensures
        run_shape(s, frames, tick).clips.len() == s.clips.len(),
        forall|i: int|
            0 <= i < s.clips.len() - 1 ==> run_shape(s, frames, tick).clips[i] == s.clips[i],
        run_shape(s, frames, tick).clips.last().start_tick == s.clips.last().start_tick,
        frames.len() == 0 ==> run_shape(s, frames, tick) == s,
        frames.len() > 0 ==> run_shape(s, frames, tick).clips.last().len == FRAME_SIZE * (
        frames.last() + 1) && run_shape(s, frames, tick).current_frame == frames.last() + 1,
    decreases frames.len(),
{
    if frames.len() > 0 {
        let f0 = frames[0];
        let s1 = step_shape(s, f0, tick);
        lemma_no_reset_grows_active_clip(s, f0, tick);
        assert(s1.clips.last().len == FRAME_SIZE * s.current_frame + FRAME_SIZE * (f0
            - s.current_frame + 1));
        assert(s1.clips.last().len == FRAME_SIZE * (f0 + 1)) by (nonlinear_arith)
            requires
                s1.clips.last().len == FRAME_SIZE * s.current_frame + FRAME_SIZE * (f0
                    - s.current_frame + 1),
        ;
        assert(s1.current_frame == f0 + 1);
        let rest = frames.drop_first();
        assert(forall|i: int| 0 <= i < rest.len() ==> #[trigger] rest[i] == frames[i + 1]);
        lemma_run_aligned(s1, rest, tick);
    }
}

/// The clip-alignment guarantee: when one speaker's chunks carry a
/// strictly increasing run of frame numbers that starts at 0, the clip
/// that the run opens ends with exactly one fixed-size frame of samples
/// per index from 0 up to the highest number seen — received or concealed,
/// whatever the loss pattern — and no other clip is touched.
pub proof fn lemma_clip_alignment(s: SessionShape, frames: Seq<u16>, tick: u32)
    requires
        frames.len() > 0,
        frames[0] == 0,
        forall|i: int| 0 <= i < frames.len() ==> #[trigger] frames[i] < 0xFFFF,
        forall|i: int, j: int| 0 <= i < j < frames.len() ==> frames[i] < frames[j],
    ensures
        run_shape(s, frames, tick).clips.len() == s.clips.len() + 1,
        forall|i: int|
            0 <= i < s.clips.len() ==> run_shape(s, frames, tick).clips[i] == s.clips[i],
        run_shape(s, frames, tick).clips.last() == (ClipShape {
            start_tick: tick,
            len: FRAME_SIZE * (frames.last() + 1),
        }),
        run_shape(s, frames, tick).current_frame == frames.last() + 1,
{
    let s1 = step_shape(s, 0, tick);
    lemma_reset_opens_clip(s, tick);
    let rest = frames.drop_first();
    assert(forall|i: int| 0 <= i < rest.len() ==> #[trigger] rest[i] == frames[i + 1]);
    assert(forall|i: int| 0 <= i < rest.len() ==> #[trigger] rest[i] >= 1) by {
        assert(forall|i: int| 0 <= i < rest.len() ==> #[trigger] rest[i] > frames[0]);
    }
    lemma_run_aligned(s1, rest, tick);
    if rest.len() > 0 {
        assert(frames.last() == rest.last());
    }
}

} // verus!
