//! Timeline synthesis: laying a speaker's clips out on one sample buffer.
//!
//! The simulation advances 200/3 ticks per second while audio runs at
//! 24000 samples per second, so one tick spans exactly 360 samples and the
//! whole synthesis is integer arithmetic: a clip that starts at tick `t`
//! begins at sample position `t * 360`, the gap to the end of the previous
//! audio is filled with zero samples (and clamped at zero when clips
//! overlap), and the track ends with one second of trailing silence.

use vstd::prelude::*;

use crate::speaker::{AudioClip, ClipView, Player};
use crate::{SAMPLES_PER_TICK, SAMPLE_RATE};

verus! {

/// `n` zero samples; empty when `n` is not positive.
pub open spec fn zeros(n: int) -> Seq<i16> {
    Seq::new(
        if n < 0 {
            0
        } else {
            n as nat
        },
        |i: int| 0i16,
    )
}

/// Sample position on the common timeline where a clip begins.
pub open spec fn clip_target(c: ClipView) -> int {
    c.start_tick * SAMPLES_PER_TICK
}

/// Sample position on the common timeline where a clip ends.
pub open spec fn clip_end(c: ClipView) -> int {
    clip_target(c) + c.data.len()
}

/// The synthesized samples from clip `k` on, when the audio laid out so
/// far ends at sample position `running`: the gap up to the clip's start
/// position in zeros (none if the positions overlap), the clip's samples,
/// then the rest of the clips from the clip's own end position.
pub open spec fn spec_timeline_from(clips: Seq<ClipView>, k: int, running: int) -> Seq<i16>
    decreases clips.len() - k,
{
    if k < 0 || k >= clips.len() {
        Seq::empty()
    } else {
        let c = clips[k];
        zeros(clip_target(c) - running) + c.data + spec_timeline_from(clips, k + 1, clip_end(c))
    }
}

/// The whole continuous track for a clip list: every clip at its
/// tick-derived sample position, then one second of trailing silence.
pub open spec fn spec_continuous(clips: Seq<ClipView>) -> Seq<i16> {
    spec_timeline_from(clips, 0, 0) + zeros(SAMPLE_RATE as int)
}

/// First tick at or after the position where the clip ends: the clip's
/// duration in ticks, rounded up, added to its start tick.
pub open spec fn spec_end_tick(c: ClipView) -> int {
    c.start_tick + (c.data.len() + (SAMPLES_PER_TICK - 1)) / (SAMPLES_PER_TICK as int)
}

/// Appends `n` zero samples.
fn push_zeros(v: &mut Vec<i16>, n: u64)
    ensures
        final(v)@ == old(v)@ + zeros(n as int),
{
    let mut j: u64 = 0;
    while j < n
        invariant
            j <= n,
            v@ == old(v)@ + zeros(j as int),
        decreases n - j,
    {
        v.push(0i16);
        proof {
            assert(v@ =~= old(v)@ + zeros(j + 1));
        }
        j = j + 1;
    }
}

impl AudioClip {
    /// The first tick at or after this clip's end on the timeline.
    pub fn end_tick(&self) -> (r: u32)
        requires
            spec_end_tick(self@) <= u32::MAX,
        ensures
            r == spec_end_tick(self@),
    {
        let len = self.data.len();
        proof {
            assert(len + 359 <= u64::MAX) by (nonlinear_arith)
                requires
                    self@.start_tick + (len + 359) / 360 <= u32::MAX,
                    len == self@.data.len(),
                    self@.start_tick >= 0,
            ;
        }
        let q = (len as u64 + 359) / 360;
        self.start_tick as u32 + q as u32
    }
}

impl Player {
    /// Synthesizes this speaker's clips into one continuous sample buffer:
    /// inter-clip gaps become runs of zero samples sized by the tick
    /// distance (clamped at zero), and the buffer ends with one second of
    /// trailing silence.
    pub fn get_continuous_audio(&self) -> (r: Vec<i16>)
        requires
            forall|i: int|
                0 <= i < self@.audio.len() ==> clip_end(#[trigger] self@.audio[i]) <= u64::MAX,
        ensures
            r@ == spec_continuous(self@.audio),
    {
        let ghost clips = self@.audio;
        let mut samples: Vec<i16> = Vec::new();
        let mut running: u64 = 0;
        let mut k: usize = 0;
        while k < self.audio.len()
            invariant
                k <= self.audio.len(),
                clips == self@.audio,
                forall|i: int|
                    0 <= i < clips.len() ==> clip_end(#[trigger] clips[i]) <= u64::MAX,
                samples@ + spec_timeline_from(clips, k as int, running as int)
                    == spec_timeline_from(clips, 0, 0),
                k > 0 ==> running == clip_end(clips[k - 1]),
                k == 0 ==> running == 0,
            decreases self.audio.len() - k,
        {
            let ghost pre = samples@;
            let ghost c = clips[k as int];
            let clip_ref = &self.audio[k];
            let target: u64 = clip_ref.start_tick as u64 * SAMPLES_PER_TICK as u64;
            proof {
                assert(target == clip_target(c));
            }
            if target > running {
                push_zeros(&mut samples, target - running);
            }
            proof {
                assert(samples@ =~= pre + zeros(clip_target(c) - running));
            }
            let ghost pre2 = samples@;
            let mut t: usize = 0;
            while t < clip_ref.data.len()
                invariant
                    t <= clip_ref.data.len(),
                    clip_ref@ == c,
                    samples@ == pre2 + c.data.subrange(0, t as int),
                decreases clip_ref.data.len() - t,
            {
                samples.push(clip_ref.data[t]);
                proof {
                    assert(samples@ =~= pre2 + c.data.subrange(0, t + 1));
                }
                t = t + 1;
            }
            proof {
                assert(c.data.subrange(0, c.data.len() as int) =~= c.data);
                assert(samples@ =~= pre + (zeros(clip_target(c) - running) + c.data));
                assert(pre + (zeros(clip_target(c) - running) + c.data + spec_timeline_from(
                    clips,
                    k + 1,
                    clip_end(c),
                )) =~= samples@ + spec_timeline_from(clips, k + 1, clip_end(c)));
            }
            running = target + clip_ref.data.len() as u64;
            k = k + 1;
        }
        proof {
            assert(samples@ + Seq::<i16>::empty() =~= samples@);
        }
        push_zeros(&mut samples, SAMPLE_RATE as u64);
        samples
    }
}

/// A speaker with no clips synthesizes to the one-second trailing pad
/// alone.
pub proof fn lemma_silent_track(clips: Seq<ClipView>)
    requires
        clips.len() == 0,
    ensures
        spec_continuous(clips) == zeros(SAMPLE_RATE as int),
{
    assert(spec_continuous(clips) =~= zeros(SAMPLE_RATE as int));
}

/// Between two clips the synthesizer inserts exactly the distance from the
/// first clip's derived end position to the second clip's start position,
/// in zero samples — and never a negative number of them: an overlapping
/// start degrades to no gap at all.
pub proof fn lemma_inter_clip_gap(a: ClipView, b: ClipView)
    ensures
        spec_continuous(seq![a, b]) == zeros(clip_target(a)) + a.data + zeros(
            clip_target(b) - clip_end(a),
        ) + b.data + zeros(SAMPLE_RATE as int),
        zeros(clip_target(b) - clip_end(a)).len() == (if clip_target(b) >= clip_end(a) {
            clip_target(b) - clip_end(a)
        } else {
            0
        }),
{
    let s = seq![a, b];
    reveal_with_fuel(spec_timeline_from, 4);
    assert(s[0] == a);
    assert(s[1] == b);
    assert(spec_timeline_from(s, 2, clip_end(b)) =~= Seq::<i16>::empty());
    assert(spec_timeline_from(s, 1, clip_end(a)) =~= zeros(clip_target(b) - clip_end(a))
        + b.data);
    assert(spec_continuous(s) =~= zeros(clip_target(a)) + a.data + zeros(
        clip_target(b) - clip_end(a),
    ) + b.data + zeros(SAMPLE_RATE as int));
}

} // verus!
