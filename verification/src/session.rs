//! The per-speaker session table and the packet-processing state machine.
//!
//! One table owns every speaker's [`Player`], keyed by speaker id and kept
//! in first-arrival order.  Processing a packet splits in two verified
//! halves around the outside codec: [`SessionTable::prepare_packet`]
//! validates and parses the raw bytes, creates the addressed session if
//! need be, and works out exactly which decoder calls the packet demands;
//! the caller runs the codec on those demands and hands the samples to
//! [`SessionTable::commit_chunks`], which advances the session state.  A
//! packet whose checksum does not match is dropped without touching any
//! session at all.

use vstd::prelude::*;

use crate::packet::{
    parse_voice_packet, spec_parse_packet, view_chunks, PacketError, SpecChunk, SpecPayload,
    VoiceChunk, VoicePayload,
};
use crate::speaker::{
    chunk_error, cur_after_reset, player_shape, run_shape, spec_conceal, step_shape, ClipView,
    Player, PlayerView, SessionShape, VoiceError,
};
use crate::FRAME_SIZE;

verus! {

/// A fatal condition met while processing one packet.
#[derive(PartialEq, Eq, Structural, Debug, Clone, Copy)]
pub enum ProcessError {
    /// The packet violates the wire format (anything but a checksum
    /// mismatch, which is dropped instead).
    Packet(PacketError),
    /// A chunk cannot be accepted by the addressed session.
    Chunk(VoiceError),
}

/// What one prepared packet asks of the caller.
pub enum PacketWork {
    /// Codec chunks for the session at `index`: decode `conceal[i]`
    /// concealment frames and then `chunks[i]`'s payload, for each `i`,
    /// and hand the samples to [`SessionTable::commit_chunks`].
    Voice { index: usize, chunks: Vec<VoiceChunk>, conceal: Vec<u16> },
    /// A silence marker for the session at `index`; no audio follows.
    Silence { index: usize, duration_ns: u16 },
    /// The packet failed its checksum and was dropped.
    Dropped,
}

/// The sequence of frame numbers carried by a chunk list.
pub open spec fn frames_of(chunks: Seq<SpecChunk>) -> Seq<u16> {
    chunks.map(|i: int, c: SpecChunk| c.frame)
}

/// A session that has seen no frames yet.
pub open spec fn empty_player() -> PlayerView {
    PlayerView { current_frame: 0, audio: Seq::<ClipView>::empty() }
}

/// Index of the entry for `id`, or -1 when there is none.
pub open spec fn spec_find(s: Seq<(u64, PlayerView)>, id: u64) -> int
    decreases s.len(),
{
    if s.len() == 0 {
        -1
    } else if s[0].0 == id {
        0
    } else {
        let r = spec_find(s.drop_first(), id);
        if r == -1 {
            -1
        } else {
            r + 1
        }
    }
}

/// The table after making sure `id` has a session: unchanged when one
/// exists, with a fresh empty session appended otherwise.
pub open spec fn spec_ensure(s: Seq<(u64, PlayerView)>, id: u64) -> Seq<(u64, PlayerView)> {
    if spec_find(s, id) >= 0 {
        s
    } else {
        s.push((id, empty_player()))
    }
}

/// Where `id`'s session sits once it is sure to exist.
pub open spec fn spec_slot(s: Seq<(u64, PlayerView)>, id: u64) -> int {
    if spec_find(s, id) >= 0 {
        spec_find(s, id)
    } else {
        s.len() as int
    }
}

/// Each speaker id owns at most one session.
pub open spec fn wf_table(s: Seq<(u64, PlayerView)>) -> bool {
    forall|i: int, j: int| 0 <= i < j < s.len() ==> s[i].0 != s[j].0
}

/// What `spec_find` finds: a valid index bearing the id when one exists,
/// -1 exactly when no entry bears it.
pub proof fn lemma_find_properties(s: Seq<(u64, PlayerView)>, id: u64)
    ensures
        -1 <= spec_find(s, id) < s.len(),
        spec_find(s, id) >= 0 ==> s[spec_find(s, id)].0 == id,
        spec_find(s, id) == -1 ==> forall|i: int| 0 <= i < s.len() ==> s[i].0 != id,
    decreases s.len(),
{
    if s.len() > 0 && s[0].0 != id {
        lemma_find_properties(s.drop_first(), id);
        assert(forall|i: int|
            0 <= i < s.drop_first().len() ==> #[trigger] s.drop_first()[i] == s[i + 1]);
        if spec_find(s, id) == -1 {
            assert forall|i: int| 0 <= i < s.len() implies s[i].0 != id by {
                if i > 0 {
                    assert(s.drop_first()[i - 1] == s[i]);
                }
            }
        }
    }
}

/// The first index bearing `id` is what `spec_find` returns.
proof fn lemma_find_first(s: Seq<(u64, PlayerView)>, id: u64, k: int)
    requires
        0 <= k < s.len(),
        s[k].0 == id,
        forall|i: int| 0 <= i < k ==> s[i].0 != id,
    ensures
        spec_find(s, id) == k,
    decreases s.len(),
{
    if k > 0 {
        assert(s[0].0 != id);
        let rest = s.drop_first();
        assert(forall|i: int| 0 <= i < rest.len() ==> #[trigger] rest[i] == s[i + 1]);
        lemma_find_first(rest, id, k - 1);
    }
}

/// The decoder work a run of chunk frame numbers demands of a session in
/// this state: one concealment count per chunk, or the first reason a
/// chunk cannot be accepted.
pub open spec fn spec_demands(s: SessionShape, frames: Seq<u16>, tick: u32) -> Result<
    Seq<u16>,
    VoiceError,
>
    decreases frames.len(),
{
    if frames.len() == 0 {
        Ok(Seq::empty())
    } else {
        match chunk_error(s, frames[0]) {
            Some(e) => Err(e),
            None => {
                let c = spec_conceal(cur_after_reset(s.current_frame, frames[0]), frames[0]);
                match spec_demands(step_shape(s, frames[0], tick), frames.drop_first(), tick) {
                    Ok(rest) => Ok(seq![c as u16] + rest),
                    Err(e) => Err(e),
                }
            },
        }
    }
}

/// When the whole run of frames is accepted, so is each chunk at its own
/// intermediate state, owing exactly its listed concealment count.
pub proof fn lemma_demands_index(s: SessionShape, frames: Seq<u16>, tick: u32, i: int)
    requires
        spec_demands(s, frames, tick) is Ok,
        0 <= i < frames.len(),
    ensures
        spec_demands(s, frames, tick)->Ok_0.len() == frames.len(),
        chunk_error(run_shape(s, frames.take(i), tick), frames[i]) is None,
        spec_demands(s, frames, tick)->Ok_0[i] == spec_conceal(
            cur_after_reset(run_shape(s, frames.take(i), tick).current_frame, frames[i]),
            frames[i],
        ),
    decreases frames.len(),
{
    lemma_demands_len(s, frames, tick);
    if i == 0 {
        assert(frames.take(0) =~= Seq::<u16>::empty());
    } else {
        let s1 = step_shape(s, frames[0], tick);
        let rest = frames.drop_first();
        assert(forall|j: int| 0 <= j < rest.len() ==> #[trigger] rest[j] == frames[j + 1]);
        lemma_demands_index(s1, rest, tick, i - 1);
        assert(rest.take(i - 1) =~= frames.take(i).drop_first());
        assert(frames.take(i)[0] == frames[0]);
        assert(run_shape(s, frames.take(i), tick) == run_shape(s1, rest.take(i - 1), tick));
        assert(spec_demands(s, frames, tick)->Ok_0[i] == spec_demands(s1, rest, tick)->Ok_0[i
            - 1]);
    }
}

/// An accepted run lists one concealment count per chunk.
proof fn lemma_demands_len(s: SessionShape, frames: Seq<u16>, tick: u32)
    requires
        spec_demands(s, frames, tick) is Ok,
    ensures
        spec_demands(s, frames, tick)->Ok_0.len() == frames.len(),
    decreases frames.len(),
{
    if frames.len() > 0 {
        lemma_demands_len(step_shape(s, frames[0], tick), frames.drop_first(), tick);
    }
}

/// One committed chunk at the data level: what
/// [`Player::decode_chunk`] does to the session's clips.
pub open spec fn apply_chunk(p: PlayerView, frame: u16, tick: u32, samples: Seq<i16>)
    -> PlayerView {
    if frame == 0 {
        PlayerView {
            current_frame: (frame + 1) as u16,
            audio: p.audio.push(ClipView { start_tick: tick, data: samples }),
        }
    } else {
        PlayerView {
            current_frame: (frame + 1) as u16,
            audio: p.audio.update(
                p.audio.len() - 1,
                ClipView {
                    start_tick: p.audio.last().start_tick,
                    data: p.audio.last().data + samples,
                },
            ),
        }
    }
}

/// A whole run of committed chunks at the data level.
pub open spec fn apply_chunks(
    p: PlayerView,
    frames: Seq<u16>,
    tick: u32,
    samples: Seq<Seq<i16>>,
) -> PlayerView
    decreases frames.len(),
{
    if frames.len() == 0 {
        p
    } else {
        apply_chunks(
            apply_chunk(p, frames[0], tick, samples[0]),
            frames.drop_first(),
            tick,
            samples.drop_first(),
        )
    }
}

/// Committing one more chunk at the end of a run is one more step.
proof fn lemma_apply_snoc(
    p: PlayerView,
    frames: Seq<u16>,
    frame: u16,
    tick: u32,
    samples: Seq<Seq<i16>>,
    smp: Seq<i16>,
)
    requires
        samples.len() == frames.len(),
    ensures
        apply_chunks(p, frames.push(frame), tick, samples.push(smp)) == apply_chunk(
            apply_chunks(p, frames, tick, samples),
            frame,
            tick,
            smp,
        ),
    decreases frames.len(),
{
    if frames.len() == 0 {
        reveal_with_fuel(apply_chunks, 2);
        assert(frames.push(frame)[0] == frame);
        assert(samples.push(smp)[0] == smp);
        assert(frames.push(frame).drop_first() =~= frames);
        assert(samples.push(smp).drop_first() =~= samples);
    } else {
        assert(frames.push(frame)[0] == frames[0]);
        assert(samples.push(smp)[0] == samples[0]);
        assert(frames.push(frame).drop_first() =~= frames.drop_first().push(frame));
        assert(samples.push(smp).drop_first() =~= samples.drop_first().push(smp));
        lemma_apply_snoc(
            apply_chunk(p, frames[0], tick, samples[0]),
            frames.drop_first(),
            frame,
            tick,
            samples.drop_first(),
            smp,
        );
    }
}

/// The shape of a committed chunk is the shape step, whenever the chunk is
/// acceptable and the sample count is the owed one.
proof fn lemma_apply_chunk_shape(p: PlayerView, frame: u16, tick: u32, samples: Seq<i16>)
    requires
        chunk_error(player_shape(p), frame) is None,
        samples.len() == FRAME_SIZE * (spec_conceal(cur_after_reset(p.current_frame, frame), frame)
            + 1),
    ensures
        player_shape(apply_chunk(p, frame, tick, samples)) == step_shape(
            player_shape(p),
            frame,
            tick,
        ),
{
    let post = apply_chunk(p, frame, tick, samples);
    let target = step_shape(player_shape(p), frame, tick);
    assert(player_shape(post).clips =~= target.clips);
}

impl Player {
    /// Stages the decoder work a whole chunk run demands of this session
    /// as it stands: one concealment count per chunk, or the first reason
    /// a chunk cannot be accepted.
    pub fn plan_chunks(&self, chunks: &Vec<VoiceChunk>, tick: u32) -> (r: Result<
        Vec<u16>,
        VoiceError,
    >)
        ensures
            match r {
                Ok(v) => spec_demands(
                    player_shape(self@),
                    frames_of(view_chunks(chunks@)),
                    tick,
                ) == Ok::<Seq<u16>, VoiceError>(v@),
                Err(e) => spec_demands(
                    player_shape(self@),
                    frames_of(view_chunks(chunks@)),
                    tick,
                ) == Err::<Seq<u16>, VoiceError>(e),
            },
    {
        let ghost s0 = player_shape(self@);
        let ghost frames = frames_of(view_chunks(chunks@));
        let mut conceal: Vec<u16> = Vec::new();
        let mut cur: u16 = self.current_frame;
        let mut has_clip: bool = self.audio.len() > 0;
        let ghost sim = s0;
        let mut k: usize = 0;
        proof {
            assert(frames.take(0) =~= Seq::<u16>::empty());
            assert(frames.skip(0) =~= frames);
        }
        while k < chunks.len()
            invariant
                k <= chunks@.len(),
                s0 == player_shape(self@),
                frames == frames_of(view_chunks(chunks@)),
                frames.len() == chunks@.len(),
                sim == run_shape(s0, frames.take(k as int), tick),
                cur == sim.current_frame,
                has_clip == (sim.clips.len() > 0),
                conceal@.len() == k,
                (match spec_demands(sim, frames.skip(k as int), tick) {
                    Ok(rest) => spec_demands(s0, frames, tick) == Ok::<Seq<u16>, VoiceError>(
                        conceal@ + rest,
                    ),
                    Err(e) => spec_demands(s0, frames, tick) == Err::<Seq<u16>, VoiceError>(e),
                }),
            decreases chunks@.len() - k,
        {
            let frame = chunks[k].frame;
            proof {
                assert(frames[k as int] == frame);
                assert(frames.skip(k as int)[0] == frame);
                assert(frames.skip(k as int).drop_first() =~= frames.skip(k + 1));
            }
            if frame == 0xFFFF {
                return Err(VoiceError::FrameIndexOverflow);
            }
            if frame != 0 && !has_clip {
                return Err(VoiceError::NoActiveClip);
            }
            let c: u16 = if frame == 0 {
                0
            } else if cur < frame {
                frame - cur
            } else {
                0
            };
            let ghost pre_conceal = conceal@;
            conceal.push(c);
            proof {
                assert(chunk_error(sim, frame) is None);
                assert(c == spec_conceal(cur_after_reset(cur, frame), frame));
                let sim1 = step_shape(sim, frame, tick);
                lemma_run_snoc_frames(s0, frames, k as int, tick);
                match spec_demands(sim1, frames.skip(k + 1), tick) {
                    Ok(rest) => {
                        assert(spec_demands(sim, frames.skip(k as int), tick) == Ok::<
                            Seq<u16>,
                            VoiceError,
                        >(seq![c] + rest));
                        assert(conceal@ + rest =~= pre_conceal + (seq![c] + rest));
                    },
                    Err(_) => {},
                }
            }
            cur = frame + 1;
            has_clip = true;
            proof {
                sim = step_shape(sim, frame, tick);
                assert(sim.clips.len() > 0);
            }
            k = k + 1;
        }
        proof {
            assert(frames.skip(k as int) =~= Seq::<u16>::empty());
            assert(conceal@ + Seq::<u16>::empty() =~= conceal@);
        }
        Ok(conceal)
    }
}

/// Spec-level image of a vector of sample buffers.
pub open spec fn view_samples(d: Seq<Vec<i16>>) -> Seq<Seq<i16>> {
    d.map(|i: int, v: Vec<i16>| v@)
}

/// Every speaker session of one run, keyed by speaker id, in first-arrival
/// order.
pub struct SessionTable {
    pub entries: Vec<(u64, Player)>,
}

impl View for SessionTable {
    type V = Seq<(u64, PlayerView)>;

    open spec fn view(&self) -> Seq<(u64, PlayerView)> {
        self.entries@.map(|i: int, e: (u64, Player)| (e.0, e.1@))
    }
}

impl SessionTable {
    /// An empty table.
    pub fn new() -> (t: SessionTable)
        ensures
            t@ == Seq::<(u64, PlayerView)>::empty(),
            wf_table(t@),
    {
        let t = SessionTable { entries: Vec::new() };
        proof {
            assert(t@ =~= Seq::<(u64, PlayerView)>::empty());
        }
        t
    }

    /// Number of sessions.
    pub fn len(&self) -> (n: usize)
        ensures
            n == self@.len(),
    {
        self.entries.len()
    }

    /// Looks up the session for a speaker id.
    pub fn find_session(&self, id: u64) -> (r: Option<usize>)
        ensures
            match r {
                Some(k) => spec_find(self@, id) == k,
                None => spec_find(self@, id) == -1,
            },
    {
        let mut k: usize = 0;
        while k < self.entries.len()
            invariant
                k <= self@.len(),
                forall|i: int| 0 <= i < k ==> (#[trigger] self@[i]).0 != id,
            decreases self@.len() - k,
        {
            if self.entries[k].0 == id {
                proof {
                    lemma_find_first(self@, id, k as int);
                }
                return Some(k);
            }
            k = k + 1;
        }
        proof {
            lemma_find_properties(self@, id);
            if spec_find(self@, id) >= 0 {
                assert(self@[spec_find(self@, id)].0 == id);
                assert(false);
            }
        }
        None
    }

    /// Makes sure the speaker has a session, creating an empty one on its
    /// first packet, and returns where it sits.
    fn ensure_session(&mut self, id: u64) -> (idx: usize)
        requires
            wf_table(old(self)@),
        ensures
            final(self)@ == spec_ensure(old(self)@, id),
            idx == spec_slot(old(self)@, id),
            wf_table(final(self)@),
            final(self)@[idx as int].0 == id,
            idx < final(self)@.len(),
    {
        proof {
            lemma_find_properties(self@, id);
        }
        match self.find_session(id) {
            Some(k) => k,
            None => {
                let k = self.entries.len();
                self.entries.push((id, Player::new()));
                proof {
                    assert(self@ =~= old(self)@.push((id, empty_player())));
                }
                k
            },
        }
    }

    /// Validates and parses one raw voice packet and stages the decoder
    /// work it demands.
    ///
    /// A checksum mismatch drops the packet: no session is created or
    /// changed.  A silence marker and a chunk packet both make sure the
    /// addressed speaker has a session; a chunk packet additionally lists,
    /// per chunk, how many concealment frames the decoder owes, computed
    /// against the session as it stands.  Protocol violations and chunks
    /// the session cannot accept are returned as errors.
    pub fn prepare_packet(&mut self, raw: &Vec<u8>, tick: u32) -> (r: Result<
        PacketWork,
        ProcessError,
    >)
        requires
            wf_table(old(self)@),
        ensures
            wf_table(final(self)@),
            match spec_parse_packet(raw@) {
                Err(pe) => {
                    if pe == PacketError::ChecksumMismatch {
                        final(self)@ == old(self)@ && (r matches Ok(w) && w is Dropped)
                    } else {
                        final(self)@ == old(self)@ && r == Err::<PacketWork, ProcessError>(
                            ProcessError::Packet(pe),
                        )
                    }
                },
                Ok(SpecPayload::Silence { speaker, duration_ns }) => {
                    &&& final(self)@ == spec_ensure(old(self)@, speaker)
                    &&& (r matches Ok(w) && w matches PacketWork::Silence {
                        index,
                        duration_ns: d,
                    } && index == spec_slot(old(self)@, speaker) && d == duration_ns)
                },
                Ok(SpecPayload::Chunks { speaker, chunks }) => {
                    &&& final(self)@ == spec_ensure(old(self)@, speaker)
                    &&& match spec_demands(
                        player_shape(final(self)@[spec_slot(old(self)@, speaker)].1),
                        frames_of(chunks),
                        tick,
                    ) {
                        Ok(d) => r matches Ok(w) && w matches PacketWork::Voice {
                            index,
                            chunks: cs,
                            conceal,
                        } && index == spec_slot(old(self)@, speaker) && view_chunks(cs@) == chunks
                            && conceal@ == d,
                        Err(ve) => r == Err::<PacketWork, ProcessError>(ProcessError::Chunk(ve)),
                    }
                },
            },
    {
        let payload = match parse_voice_packet(raw) {
            Ok(p) => p,
            Err(e) => {
                if !e.is_fatal() {
                    return Ok(PacketWork::Dropped);
                }
                return Err(ProcessError::Packet(e));
            },
        };
        match payload {
            VoicePayload::Silence { speaker, duration_ns } => {
                let index = self.ensure_session(speaker);
                Ok(PacketWork::Silence { index, duration_ns })
            },
            VoicePayload::Chunks { speaker, chunks } => {
                let index = self.ensure_session(speaker);
                match self.entries[index].1.plan_chunks(&chunks, tick) {
                    Ok(conceal) => Ok(PacketWork::Voice { index, chunks, conceal }),
                    Err(e) => Err(ProcessError::Chunk(e)),
                }
            },
        }
    }

    /// Commits the decoded samples for every staged chunk of one packet:
    /// `decoded[i]` holds the owed concealment frames followed by the real
    /// frame of `chunks[i]`.  Only the addressed session changes, and it
    /// changes exactly as the chunk run prescribes.
    pub fn commit_chunks(
        &mut self,
        index: usize,
        chunks: &Vec<VoiceChunk>,
        tick: u32,
        decoded: Vec<Vec<i16>>,
    )
        requires
            wf_table(old(self)@),
            index < old(self)@.len(),
            spec_demands(
                player_shape(old(self)@[index as int].1),
                frames_of(view_chunks(chunks@)),
                tick,
            ) is Ok,
            decoded@.len() == chunks@.len(),
            forall|i: int|
                0 <= i < chunks@.len() ==> (#[trigger] decoded@[i])@.len() == FRAME_SIZE * (
                spec_demands(
                    player_shape(old(self)@[index as int].1),
                    frames_of(view_chunks(chunks@)),
                    tick,
                )->Ok_0[i] + 1),
        ensures
            wf_table(final(self)@),
            final(self)@.len() == old(self)@.len(),
            forall|j: int|
                0 <= j < old(self)@.len() && j != index ==> final(self)@[j] == old(self)@[j],
            final(self)@[index as int].0 == old(self)@[index as int].0,
            final(self)@[index as int].1 == apply_chunks(
                old(self)@[index as int].1,
                frames_of(view_chunks(chunks@)),
                tick,
                view_samples(decoded@),
            ),
            player_shape(final(self)@[index as int].1) == run_shape(
                player_shape(old(self)@[index as int].1),
                frames_of(view_chunks(chunks@)),
                tick,
            ),
    {
        let ghost p0 = old(self)@[index as int].1;
        let ghost frames = frames_of(view_chunks(chunks@));
        let ghost all_samples = view_samples(decoded@);
        let (id, mut player) = self.entries.remove(index);
        let mut decoded = decoded;
        let mut k: usize = 0;
        proof {
            assert(player@ == p0);
            assert(frames.take(0) =~= Seq::<u16>::empty());
            assert(all_samples.take(0) =~= Seq::<Seq<i16>>::empty());
        }
        while k < chunks.len()
            invariant
                k <= chunks@.len(),
                frames == frames_of(view_chunks(chunks@)),
                frames.len() == chunks@.len(),
                all_samples.len() == chunks@.len(),
                decoded@.len() == chunks@.len() - k,
                forall|i: int|
                    0 <= i < decoded@.len() ==> #[trigger] decoded@[i]@ == all_samples[i
                        + k],
                spec_demands(player_shape(p0), frames, tick) is Ok,
                forall|i: int|
                    0 <= i < chunks@.len() ==> #[trigger] all_samples[i].len() == FRAME_SIZE * (
                    spec_demands(player_shape(p0), frames, tick)->Ok_0[i] + 1),
                player@ == apply_chunks(p0, frames.take(k as int), tick, all_samples.take(k as int)),
                player_shape(player@) == run_shape(player_shape(p0), frames.take(k as int), tick),
            decreases chunks@.len() - k,
        {
            let frame = chunks[k].frame;
            let samples = decoded.remove(0);
            proof {
                assert(frames[k as int] == frame);
                assert(samples@ == all_samples[k as int]);
                lemma_demands_index(player_shape(p0), frames, tick, k as int);
            }
            player.decode_chunk(samples, frame, tick);
            proof {
                lemma_apply_chunk_shape(
                    apply_chunks(p0, frames.take(k as int), tick, all_samples.take(k as int)),
                    frame,
                    tick,
                    all_samples[k as int],
                );
                lemma_apply_snoc(
                    p0,
                    frames.take(k as int),
                    frame,
                    tick,
                    all_samples.take(k as int),
                    all_samples[k as int],
                );
                assert(frames.take(k as int).push(frame) =~= frames.take(k + 1));
                assert(all_samples.take(k as int).push(all_samples[k as int]) =~= all_samples.take(
                    k + 1,
                ));
                lemma_run_snoc_frames(player_shape(p0), frames, k as int, tick);
                assert(forall|i: int|
                    0 <= i < decoded@.len() ==> #[trigger] decoded@[i]@ == all_samples[i + k
                        + 1]);
            }
            k = k + 1;
        }
        self.entries.insert(index, (id, player));
        proof {
            assert(frames.take(k as int) =~= frames);
            assert(all_samples.take(k as int) =~= all_samples);
            assert(self@ =~= old(self)@.update(
                index as int,
                (old(self)@[index as int].0, apply_chunks(p0, frames, tick, all_samples)),
            ));
        }
    }
}

/// Extending a run of steps by the frame at its cut point.
proof fn lemma_run_snoc_frames(s: SessionShape, frames: Seq<u16>, k: int, tick: u32)
    requires
        0 <= k < frames.len(),
    ensures
        run_shape(s, frames.take(k + 1), tick) == step_shape(
            run_shape(s, frames.take(k), tick),
            frames[k],
            tick,
        ),
{
    assert(frames.take(k + 1) =~= frames.take(k).push(frames[k]));
    crate::speaker::lemma_run_snoc(s, frames.take(k), frames[k], tick);
}

} // verus!
