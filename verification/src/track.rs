//! Track identity and the track itself: playback state plus an ordered
//! sequence of non-overlapping clips.
//!
//! The only clip mutation is an append that starts one frame after the
//! previous clip's end, so clips are stored in increasing start order with
//! a gap between neighbours; at most one clip is active at any playhead
//! frame, and "find the active clip" is a single unambiguous lookup.

use vstd::prelude::*;
use vstd::string::StringExecFns;

use crate::NORM_ONE;
use crate::clip::{Clip, ClipView};
use crate::error::AudioError;
use crate::utils::{decimal_string, spec_clamp, spec_decimal};

verus! {

/// Opaque handle for a track: a positive integer assigned by the timeline
/// in creation order. Identity is value equality and ids are never reused
/// within a session.
#[derive(Debug, Clone, Copy, PartialEq, Eq, Hash, Structural)]
pub struct TrackId(pub u32);

impl TrackId {
    pub fn new(id: u32) -> (r: Self)
        ensures
            r.0 == id,
    {
        Self(id)
    }

    pub fn as_u32(self) -> (r: u32)
        ensures
            r == self.0,
    {
        self.0
    }
}

/// Mathematical model of a track.
pub struct TrackView {
    pub id: u32,
    pub name: Seq<char>,
    pub volume_percent: u32,
    pub clips: Seq<ClipView>,
    pub muted: bool,
    pub soloed: bool,
}

impl TrackView {
    /// Structural invariant: the volume fraction lies in [0.0, 1.0], every
    /// clip is well formed, and each clip ends strictly before the next one
    /// starts (the one-frame gap enforced on append).
    pub open spec fn wf(self) -> bool {
        &&& self.volume_percent <= 100
        &&& forall|i: int| 0 <= i < self.clips.len() ==> (#[trigger] self.clips[i]).wf()
        &&& forall|i: int|
            0 <= i < self.clips.len() - 1 ==> (#[trigger] self.clips[i]).end() < self.clips[i
                + 1].start
    }

    /// Whether some clip covers playhead frame `ph`.
    pub open spec fn has_active_clip(self, ph: int) -> bool {
        exists|i: int| 0 <= i < self.clips.len() && (#[trigger] self.clips[i]).active_at(ph)
    }

    /// The clip covering playhead frame `ph`, if any; under `wf` it is
    /// unique.
    pub open spec fn active_clip(self, ph: int) -> Option<ClipView> {
        if self.has_active_clip(ph) {
            Some(
                self.clips[choose|i: int|
                    0 <= i < self.clips.len() && (#[trigger] self.clips[i]).active_at(ph)],
            )
        } else {
            None
        }
    }

    /// What this track adds to output channel `ch` at playhead frame `ph`
    /// when it is audible: its active clip's contribution at the track's
    /// volume, or silence when no clip is active.
    pub open spec fn contribution(self, ph: int, ch: int, oc: int) -> int {
        match self.active_clip(ph) {
            Some(cl) => cl.contribution(ph, self.volume_percent as int, ch, oc),
            None => 0,
        }
    }

    /// Start position for the next appended clip: one frame past the last
    /// clip's end, or 0 on an empty track.
    pub open spec fn next_start(self) -> int {
        if self.clips.len() == 0 {
            0
        } else {
            self.clips.last().end() + 1
        }
    }

    /// Largest clip end position, 0 when the track is empty.
    pub open spec fn duration(self) -> int {
        spec_tracks_duration(self.clips)
    }
}

/// Largest end position among a sequence of clips.
pub open spec fn spec_tracks_duration(clips: Seq<ClipView>) -> int
    decreases clips.len(),
{
    if clips.len() == 0 {
        0
    } else {
        let rest = spec_tracks_duration(clips.drop_last());
        if clips.last().end() > rest {
            clips.last().end()
        } else {
            rest
        }
    }
}

/// On a well-formed track every earlier clip ends strictly before every
/// later clip starts, not only adjacent ones.
pub proof fn lemma_clips_ordered(t: TrackView, i: int, j: int)
    requires
        t.wf(),
        0 <= i < j < t.clips.len(),
    ensures
        t.clips[i].end() < t.clips[j].start,
    decreases j - i,
{
    vstd::arithmetic::div_mod::lemma_div_pos_is_pos(
        t.clips[j - 1].data.len() as int,
        t.clips[j - 1].channel as int,
    );
    if i < j - 1 {
        lemma_clips_ordered(t, i, j - 1);
    }
}

/// Law: at most one clip of a well-formed track is active at a frame.
pub proof fn lemma_active_clip_unique(t: TrackView, ph: int, i: int, j: int)
    requires
        t.wf(),
        0 <= i < t.clips.len(),
        0 <= j < t.clips.len(),
        t.clips[i].active_at(ph),
        t.clips[j].active_at(ph),
    ensures
        i == j,
{
    if i < j {
        lemma_clips_ordered(t, i, j);
    }
    if j < i {
        lemma_clips_ordered(t, j, i);
    }
}

/// An ordered collection of non-overlapping clips plus playback state.
pub struct Track {
    pub id: TrackId,
    pub name: String,
    volume_percent: u32,
    clips: Vec<Clip>,
    is_muted: bool,
    is_soloed: bool,
}

impl View for Track {
    type V = TrackView;

    closed spec fn view(&self) -> TrackView {
        TrackView {
            id: self.id.0,
            name: self.name@,
            volume_percent: self.volume_percent,
            clips: Seq::new(self.clips@.len(), |i: int| self.clips@[i]@),
            muted: self.is_muted,
            soloed: self.is_soloed,
        }
    }
}

impl Track {
    pub fn id(&self) -> (r: TrackId)
        ensures
            r.0 == self@.id,
    {
        self.id
    }

    /// Rename the track.
    pub fn set_name(&mut self, new_name: String)
        ensures
            final(self)@ == (TrackView { name: new_name@, ..old(self)@ }),
    {
        self.name = new_name;
    }

    /// A fresh track: named after its id, full volume, no clips, neither
    /// muted nor soloed.
    pub fn new(id: TrackId) -> (r: Track)
        ensures
            r@.id == id.0,
            r@.name == "Track "@ + spec_decimal(id.0 as int),
            r@.volume_percent == 100,
            r@.clips.len() == 0,
            !r@.muted,
            !r@.soloed,
            r@.wf(),
    {
        let mut name = String::from_str("Track ");
        name.append(decimal_string(id.as_u32()).as_str());
        Track { id, name, volume_percent: 100, clips: Vec::new(), is_muted: false, is_soloed: false }
    }

    pub fn clip_count(&self) -> (r: usize)
        ensures
            r == self@.clips.len(),
    {
        self.clips.len()
    }

    pub fn is_empty(&self) -> (r: bool)
        ensures
            r == (self@.clips.len() == 0),
    {
        self.clips.len() == 0
    }

    /// The track's volume as a normalized fraction (1.0 == `NORM_ONE`).
    pub fn volume(&self) -> (r: i64)
        ensures
            r == self@.volume_percent * (NORM_ONE as int / 100),
    {
        (self.volume_percent as i64) * (NORM_ONE / 100)
    }

    pub fn volume_percent(&self) -> (r: u32)
        ensures
            r == self@.volume_percent,
    {
        self.volume_percent
    }

    pub fn is_muted(&self) -> (r: bool)
        ensures
            r == self@.muted,
    {
        self.is_muted
    }

    pub fn is_soloed(&self) -> (r: bool)
        ensures
            r == self@.soloed,
    {
        self.is_soloed
    }

    /// Clear the mute flag; the solo flag is untouched.
    pub fn unmute(&mut self)
        ensures
            final(self)@ == (TrackView { muted: false, ..old(self)@ }),
    {
        self.is_muted = false;
    }

    /// Set the mute flag; the solo flag is untouched (the caller owning the
    /// cross-track policy clears it).
    pub fn mute(&mut self)
        ensures
            final(self)@ == (TrackView { muted: true, ..old(self)@ }),
    {
        self.is_muted = true;
    }

    /// Set the solo flag; the mute flag is untouched.
    pub fn solo(&mut self)
        ensures
            final(self)@ == (TrackView { soloed: true, ..old(self)@ }),
    {
        self.is_soloed = true;
    }

    /// Clear the solo flag; the mute flag is untouched.
    pub fn unsolo(&mut self)
        ensures
            final(self)@ == (TrackView { soloed: false, ..old(self)@ }),
    {
        self.is_soloed = false;
    }

    pub fn toggle_mute(&mut self)
        ensures
            final(self)@ == (TrackView { muted: !old(self)@.muted, ..old(self)@ }),
    {
        self.is_muted = !self.is_muted;
    }

    pub fn toggle_solo(&mut self)
        ensures
            final(self)@ == (TrackView { soloed: !old(self)@.soloed, ..old(self)@ }),
    {
        self.is_soloed = !self.is_soloed;
    }

    /// Store a volume given in percent; values above 100 are rejected with
    /// `InvalidVolume` and leave the track unchanged.
    pub fn set_volume_percent(&mut self, percent: u32) -> (r: Result<(), AudioError>)
        ensures
            match r {
                Ok(()) => percent <= 100 && final(self)@ == (TrackView {
                    volume_percent: percent,
                    ..old(self)@
                }),
                Err(e) => percent > 100 && e == AudioError::InvalidVolume(percent) && final(self)@
                    == old(self)@,
            },
    {
        if percent > 100 {
            return Err(AudioError::InvalidVolume(percent));
        }
        self.volume_percent = percent;
        Ok(())
    }

    /// The single clip whose `[start, end)` range contains `playhead_position`,
    /// or none.
    #[verifier::rlimit(30)]
    pub fn find_clip_at_playhead_position(&self, playhead_position: u64) -> (r: Option<&Clip>)
        requires
            self@.wf(),
        ensures
            match r {
                Some(c) => self@.active_clip(playhead_position as int) == Some(c@),
                None => self@.active_clip(playhead_position as int) is None,
            },
    {
        let ghost ph = playhead_position as int;
        let n = self.clips.len();
        let mut k: usize = 0;
        while k < n
            invariant
                k <= n,
                n == self@.clips.len(),
                self@.wf(),
                ph == playhead_position as int,
                forall|i: int| 0 <= i < k ==> !(#[trigger] self@.clips[i]).active_at(ph),
            decreases n - k,
        {
            let c = &self.clips[k];
            proof {
                assert(c@ == self@.clips[k as int]);
            }
            if playhead_position >= c.start_time_in_samples() && playhead_position
                < c.end_time_in_samples() {
                proof {
                    assert(self@.clips[k as int].active_at(ph));
                    assert(self@.has_active_clip(ph));
                    let w = choose|i: int|
                        0 <= i < self@.clips.len() && (#[trigger] self@.clips[i]).active_at(ph);
                    lemma_active_clip_unique(self@, ph, w, k as int);
                }
                return Some(c);
            }
            k = k + 1;
        }
        proof {
            assert(!self@.has_active_clip(ph));
        }
        None
    }

    /// Largest clip end position on this track, 0 when it has no clips.
    pub fn duration_in_samples(&self) -> (r: u64)
        requires
            self@.wf(),
        ensures
            r == self@.duration(),
    {
        let mut best: u64 = 0;
        let mut k: usize = 0;
        let n = self.clips.len();
        while k < n
            invariant
                k <= n,
                n == self@.clips.len(),
                self@.wf(),
                best == spec_tracks_duration(self@.clips.take(k as int)),
            decreases n - k,
        {
            proof {
                assert(self@.clips.take(k + 1).drop_last() =~= self@.clips.take(k as int));
                assert(self@.clips.take(k + 1).last() == self@.clips[k as int]);
                assert(self@.clips[k as int].wf());
            }
            let e = self.clips[k].end_time_in_samples();
            if e > best {
                best = e;
            }
            k = k + 1;
        }
        proof {
            assert(self@.clips.take(n as int) =~= self@.clips);
        }
        best
    }

    /// Append a decoded clip. It starts one frame after the previous clip's
    /// end (or at 0 on an empty track). On failure the track is unchanged.
    pub fn add_clip(&mut self, data: Vec<i64>, channel: u16) -> (r: Result<(), AudioError>)
        requires
            old(self)@.wf(),
            old(self)@.next_start() + data@.len() <= u64::MAX,
        ensures
            match r {
                Ok(()) => {
                    &&& final(self)@.clips.len() == old(self)@.clips.len() + 1
                    &&& final(self)@.clips.last().start == old(self)@.next_start()
                    &&& final(self)@.clips.last().channel == channel
                    &&& final(self)@.clips.last().data.len() == data@.len()
                    &&& forall|i: int|
                        0 <= i < data@.len() ==> final(self)@.clips.last().data[i] == spec_clamp(
                            data@[i] as int,
                            -NORM_ONE as int,
                            NORM_ONE as int,
                        )
                    &&& final(self)@.clips.take(old(self)@.clips.len() as int) == old(self)@.clips
                    &&& final(self)@ == (TrackView { clips: final(self)@.clips, ..old(self)@ })
                    &&& final(self)@.wf()
                },
                Err(e) => {
                    &&& channel != 1 && channel != 2
                    &&& e == AudioError::UnsupportedChannelCount(channel)
                    &&& final(self)@ == old(self)@
                },
            },
    {
        let start: u64 = if self.clips.len() > 0 {
            let last = &self.clips[self.clips.len() - 1];
            proof {
                assert(last@ == self@.clips.last());
            }
            last.end_time_in_samples() + 1
        } else {
            0
        };
        let clip = match Clip::from_decoded(data, channel, start) {
            Ok(c) => c,
            Err(e) => {
                proof {
                    assert(self@ =~= old(self)@);
                }
                return Err(e);
            },
        };
        self.clips.push(clip);
        proof {
            let new = self@;
            let olds = old(self)@;
            assert(new.clips.take(olds.clips.len() as int) =~= olds.clips);
            assert(new.clips.last().wf());
            assert forall|i: int| 0 <= i < new.clips.len() implies (
            #[trigger] new.clips[i]).wf() by {
                if i < olds.clips.len() {
                    assert(new.clips[i] == olds.clips[i]);
                }
            }
            assert forall|i: int| 0 <= i < new.clips.len() - 1 implies (
            #[trigger] new.clips[i]).end() < new.clips[i + 1].start by {
                if i < olds.clips.len() - 1 {
                    assert(new.clips[i] == olds.clips[i]);
                    assert(new.clips[i + 1] == olds.clips[i + 1]);
                }
            }
            assert(new == (TrackView { clips: new.clips, ..olds }));
        }
        Ok(())
    }
}

impl Default for Track {
    /// The default track: id 1, a placeholder name, full volume, no clips.
    fn default() -> (r: Track)
        ensures
            r@.id == 1,
            r@.name == "Default Track"@,
            r@.volume_percent == 100,
            r@.clips.len() == 0,
            !r@.muted,
            !r@.soloed,
            r@.wf(),
    {
        Track {
            id: TrackId(1),
            name: String::from_str("Default Track"),
            volume_percent: 100,
            clips: Vec::new(),
            is_muted: false,
            is_soloed: false,
        }
    }
}

} // verus!
