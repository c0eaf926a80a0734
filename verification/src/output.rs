//! Output planning: which audio files a finished run writes.
//!
//! After the packet stream is consumed the session table is turned into a
//! list of files to write, one of two ways: split mode plans exactly one
//! file per clip per speaker, carrying the clip's samples and its tick
//! range; merged mode plans exactly one file per speaker, carrying the
//! speaker's whole synthesized track.  Writing the bytes is the caller's
//! business; the plan itself — counts, names' ingredients and sample
//! content — is fully specified here.

use vstd::prelude::*;

use crate::session::SessionTable;
use crate::speaker::PlayerView;
use crate::timeline::{clip_end, spec_continuous, spec_end_tick};
use crate::SAMPLES_PER_TICK;

verus! {

/// One file of split mode: a clip's samples and its tick range, which
/// names the file.
pub struct ClipFile {
    pub start_tick: u32,
    pub end_tick: u32,
    pub samples: Vec<i16>,
}

/// All planned files of one speaker in split mode.
pub struct SpeakerClips {
    pub speaker: u64,
    pub clips: Vec<ClipFile>,
}

/// The one planned file of one speaker in merged mode.
pub struct SpeakerTrack {
    pub speaker: u64,
    pub samples: Vec<i16>,
}

/// Why a plan cannot be laid out.
#[derive(PartialEq, Eq, Structural, Debug, Clone, Copy)]
pub enum SynthError {
    /// A clip sits too late on the timeline for its position or derived
    /// end tick to be represented.
    TickRangeOverflow,
}

/// Whether every clip of every speaker ends at a representable sample
/// position.
pub open spec fn positions_representable(s: Seq<(u64, PlayerView)>) -> bool {
    forall|i: int, j: int|
        0 <= i < s.len() && 0 <= j < s[i].1.audio.len() ==> clip_end(
            #[trigger] s[i].1.audio[j],
        ) <= u64::MAX
}

/// Whether every clip of every speaker has a representable derived end
/// tick.
pub open spec fn end_ticks_representable(s: Seq<(u64, PlayerView)>) -> bool {
    forall|i: int, j: int|
        0 <= i < s.len() && 0 <= j < s[i].1.audio.len() ==> spec_end_tick(
            #[trigger] s[i].1.audio[j],
        ) <= u32::MAX
}

/// Copies a sample buffer.
fn copy_samples(v: &Vec<i16>) -> (r: Vec<i16>)
    ensures
        r@ == v@,
{
    let mut out: Vec<i16> = Vec::new();
    let mut i: usize = 0;
    while i < v.len()
        invariant
            i <= v@.len(),
            out@ == v@.subrange(0, i as int),
        decreases v@.len() - i,
    {
        out.push(v[i]);
        proof {
            assert(out@ =~= v@.subrange(0, i + 1));
        }
        i = i + 1;
    }
    proof {
        assert(v@.subrange(0, v@.len() as int) =~= v@);
    }
    out
}

impl SessionTable {
    /// Plans merged-mode output: exactly one file per speaker, silent-only
    /// speakers included, each carrying the speaker's whole synthesized
    /// track.  Fails exactly when some clip sits beyond the representable
    /// timeline.
    pub fn merged_tracks(&self) -> (r: Result<Vec<SpeakerTrack>, SynthError>)
        ensures
            r is Ok <==> positions_representable(self@),
            match r {
                Ok(v) => {
                    &&& v@.len() == self@.len()
                    &&& forall|i: int|
                        0 <= i < self@.len() ==> (#[trigger] v@[i]).speaker == self@[i].0
                            && v@[i].samples@ == spec_continuous(self@[i].1.audio)
                },
                Err(e) => e == SynthError::TickRangeOverflow,
            },
    {
        let mut out: Vec<SpeakerTrack> = Vec::new();
        let mut i: usize = 0;
        while i < self.entries.len()
            invariant
                i <= self@.len(),
                out@.len() == i,
                forall|k: int|
                    0 <= k < i ==> (#[trigger] out@[k]).speaker == self@[k].0
                        && out@[k].samples@ == spec_continuous(self@[k].1.audio),
                forall|k: int, j: int|
                    0 <= k < i && 0 <= j < self@[k].1.audio.len() ==> clip_end(
                        #[trigger] self@[k].1.audio[j],
                    ) <= u64::MAX,
            decreases self@.len() - i,
        {
            let player = &self.entries[i].1;
            let mut j: usize = 0;
            while j < player.audio.len()
                invariant
                    j <= player@.audio.len(),
                    player@ == self@[i as int].1,
                    i < self@.len(),
                    forall|t: int|
                        0 <= t < j ==> clip_end(#[trigger] player@.audio[t]) <= u64::MAX,
                decreases player@.audio.len() - j,
            {
                let clip = &player.audio[j];
                proof {
                    assert(clip.start_tick as int * (SAMPLES_PER_TICK as int) <= 0xFFFF_FFFF
                        * 360) by (nonlinear_arith)
                        requires
                            clip.start_tick <= 0xFFFF_FFFFu32,
                            SAMPLES_PER_TICK == 360,
                    ;
                }
                let target: u64 = clip.start_tick as u64 * SAMPLES_PER_TICK as u64;
                if clip.data.len() as u64 > u64::MAX - target {
                    proof {
                        assert(clip_end(self@[i as int].1.audio[j as int]) > u64::MAX);
                        assert(!positions_representable(self@));
                    }
                    return Err(SynthError::TickRangeOverflow);
                }
                j = j + 1;
            }
            let samples = player.get_continuous_audio();
            out.push(SpeakerTrack { speaker: self.entries[i].0, samples });
            i = i + 1;
        }
        Ok(out)
    }

    /// Plans split-mode output: exactly one file per clip per speaker,
    /// each carrying the clip's samples and its tick range.  Fails
    /// exactly when some clip's derived end tick is not representable.
    pub fn split_tracks(&self) -> (r: Result<Vec<SpeakerClips>, SynthError>)
        ensures
            r is Ok <==> end_ticks_representable(self@),
            match r {
                Ok(v) => {
                    &&& v@.len() == self@.len()
                    &&& forall|i: int|
                        0 <= i < self@.len() ==> (#[trigger] v@[i]).speaker == self@[i].0
                            && v@[i].clips@.len() == self@[i].1.audio.len()
                    &&& forall|i: int, j: int|
                        0 <= i < self@.len() && 0 <= j < self@[i].1.audio.len() ==> {
                            let c = (#[trigger] v@[i]).clips@[j];
                            let src = #[trigger] self@[i].1.audio[j];
                            c.samples@ == src.data && c.start_tick == src.start_tick
                                && c.end_tick == spec_end_tick(src)
                        }
                },
                Err(e) => e == SynthError::TickRangeOverflow,
            },
    {
        let mut out: Vec<SpeakerClips> = Vec::new();
        let mut i: usize = 0;
        while i < self.entries.len()
            invariant
                i <= self@.len(),
                out@.len() == i,
                forall|k: int|
                    0 <= k < i ==> (#[trigger] out@[k]).speaker == self@[k].0
                        && out@[k].clips@.len() == self@[k].1.audio.len(),
                forall|k: int, j: int|
                    0 <= k < i && 0 <= j < self@[k].1.audio.len() ==> {
                        let c = (#[trigger] out@[k]).clips@[j];
                        let src = #[trigger] self@[k].1.audio[j];
                        c.samples@ == src.data && c.start_tick == src.start_tick && c.end_tick
                            == spec_end_tick(src)
                    },
            decreases self@.len() - i,
        {
            let player = &self.entries[i].1;
            let mut clips: Vec<ClipFile> = Vec::new();
            let mut j: usize = 0;
            while j < player.audio.len()
                invariant
                    j <= player@.audio.len(),
                    player@ == self@[i as int].1,
                    i < self@.len(),
                    clips@.len() == j,
                    forall|t: int|
                        0 <= t < j ==> {
                            let c = #[trigger] clips@[t];
                            let src = player@.audio[t];
                            c.samples@ == src.data && c.start_tick == src.start_tick
                                && c.end_tick == spec_end_tick(src)
                        },
                decreases player@.audio.len() - j,
            {
                let clip = &player.audio[j];
                let len = clip.data.len();
                if len as u64 > u64::MAX - 359 {
                    proof {
                        assert(spec_end_tick(clip@) > u32::MAX) by (nonlinear_arith)
                            requires
                                spec_end_tick(clip@) == clip@.start_tick + (clip@.data.len()
                                    + 359) / 360,
                                clip@.data.len() > u64::MAX - 359,
                                clip@.start_tick >= 0,
                        ;
                        assert(spec_end_tick(self@[i as int].1.audio[j as int]) > u32::MAX);
                        assert(!end_ticks_representable(self@));
                    }
                    return Err(SynthError::TickRangeOverflow);
                }
                let q: u64 = (len as u64 + 359) / 360;
                if q > u32::MAX as u64 - clip.start_tick as u64 {
                    proof {
                        assert(spec_end_tick(self@[i as int].1.audio[j as int]) > u32::MAX);
                        assert(!end_ticks_representable(self@));
                    }
                    return Err(SynthError::TickRangeOverflow);
                }
                let end = clip.start_tick + q as u32;
                clips.push(
                    ClipFile {
                        start_tick: clip.start_tick,
                        end_tick: end,
                        samples: copy_samples(&clip.data),
                    },
                );
                j = j + 1;
            }
            out.push(SpeakerClips { speaker: self.entries[i].0, clips });
            i = i + 1;
        }
        proof {
            assert forall|k: int, j: int|
                0 <= k < self@.len() && 0 <= j < self@[k].1.audio.len() implies spec_end_tick(
                #[trigger] self@[k].1.audio[j],
            ) <= u32::MAX by {
                assert(out@[k].clips@[j].end_tick == spec_end_tick(self@[k].1.audio[j]));
            }
        }
        Ok(out)
    }
}

} // verus!
