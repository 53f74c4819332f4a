//! The timeline: all tracks, the transport playhead, and the mute/solo
//! policy across tracks.
//!
//! The audible-track set is cached incrementally as state changes and obeys
//! one invariant: it is exactly the soloed tracks while any track is
//! soloed, else exactly the unmuted tracks. Soloing is exclusive: soloing a
//! track forces every other track out of solo and into mute; muting a track
//! always clears its own solo flag. Unsoloing deliberately does not restore
//! the mute state that soloing forced onto the other tracks.

use vstd::prelude::*;

use crate::clip::spec_frame_add;
use crate::error::AudioError;
use crate::track::{Track, TrackId, TrackView, spec_tracks_duration};

verus! {

/// Mathematical model of the timeline.
pub struct TimelineView {
    pub tracks: Seq<TrackView>,
    pub active: Seq<u32>,
    pub sample_rate: u32,
    pub playhead: u64,
}

impl TimelineView {
    /// Whether any track is currently soloed.
    pub open spec fn any_soloed(self) -> bool {
        exists|i: int| 0 <= i < self.tracks.len() && (#[trigger] self.tracks[i]).soloed
    }

    /// The audible-track predicate: while any track is soloed only soloed
    /// tracks sound; otherwise every unmuted track sounds.
    pub open spec fn audible(self, i: int) -> bool
        recommends
            0 <= i < self.tracks.len(),
    {
        if self.any_soloed() {
            self.tracks[i].soloed
        } else {
            !self.tracks[i].muted
        }
    }

    /// Track part of the invariant: every track is well formed, track ids
    /// are handed out consecutively from 1 in creation order (so ids are
    /// unique and index = id - 1), and at most one track is soloed.
    pub open spec fn tracks_wf(self) -> bool {
        &&& forall|i: int| 0 <= i < self.tracks.len() ==> (#[trigger] self.tracks[i]).wf()
        &&& forall|i: int| 0 <= i < self.tracks.len() ==> (#[trigger] self.tracks[i]).id == i + 1
        &&& forall|i: int, j: int|
            0 <= i < j < self.tracks.len() ==> !((#[trigger] self.tracks[i]).soloed && (
            #[trigger] self.tracks[j]).soloed)
    }

    /// Cache part of the invariant: the audible-set cache holds exactly the
    /// ids of the audible tracks, each at most once.
    pub open spec fn active_coherent(self) -> bool {
        &&& forall|id: u32|
            #[trigger] self.active.contains(id) <==> (1 <= id <= self.tracks.len() && self.audible(
                id - 1,
            ))
        &&& forall|k1: int, k2: int|
            0 <= k1 < k2 < self.active.len() ==> self.active[k1] != self.active[k2]
    }

    /// Structural invariant of the timeline.
    pub open spec fn wf(self) -> bool {
        self.tracks_wf() && self.active_coherent()
    }

    /// Largest clip end position over all tracks, 0 with no tracks/clips.
    pub open spec fn duration(self) -> int {
        spec_timeline_duration(self.tracks)
    }
}

/// Largest clip end position among a sequence of tracks.
pub open spec fn spec_timeline_duration(tracks: Seq<TrackView>) -> int
    decreases tracks.len(),
{
    if tracks.len() == 0 {
        0
    } else {
        let rest = spec_timeline_duration(tracks.drop_last());
        if spec_tracks_duration(tracks.last().clips) > rest {
            spec_tracks_duration(tracks.last().clips)
        } else {
            rest
        }
    }
}

/// The mixed value accumulated at output channel `ch` after the first `t`
/// tracks have been considered: the sum of the contributions of those of
/// them that are audible.
pub open spec fn spec_mix_prefix(tl: TimelineView, t: int, ph: int, ch: int, oc: int) -> int
    decreases t,
{
    if t <= 0 {
        0
    } else {
        spec_mix_prefix(tl, t - 1, ph, ch, oc) + (if tl.audible(t - 1) {
            tl.tracks[t - 1].contribution(ph, ch, oc)
        } else {
            0
        })
    }
}

/// The rendered sample at output channel `ch` for playhead frame `ph`: the
/// sum over all audible tracks of their active clip's contribution, over a
/// zero-initialized slot.
pub open spec fn spec_mix(tl: TimelineView, ph: int, ch: int, oc: int) -> int {
    spec_mix_prefix(tl, tl.tracks.len() as int, ph, ch, oc)
}

/// Law: a timeline without tracks renders silence.
pub proof fn lemma_mix_no_tracks(tl: TimelineView, ph: int, ch: int, oc: int)
    requires
        tl.tracks.len() == 0,
    ensures
        spec_mix(tl, ph, ch, oc) == 0,
{
}

/// A well-formed track contributes at most two full-scale samples per slot.
pub proof fn lemma_track_contribution_bound(t: TrackView, ph: int, ch: int, oc: int)
    requires
        t.wf(),
        0 <= ch < oc,
    ensures
        -2 * crate::NORM_ONE <= t.contribution(ph, ch, oc) <= 2 * crate::NORM_ONE,
{
    if t.has_active_clip(ph) {
        let w = choose|i: int|
            0 <= i < t.clips.len() && (#[trigger] t.clips[i]).active_at(ph);
        assert(t.clips[w].wf());
        crate::clip::lemma_contribution_bound(t.clips[w], ph, t.volume_percent as int, ch, oc);
    }
}

/// The running mix stays within `t` track contributions of silence.
pub proof fn lemma_mix_prefix_bound(tl: TimelineView, t: int, ph: int, ch: int, oc: int)
    requires
        tl.tracks_wf(),
        0 <= t <= tl.tracks.len(),
        0 <= ch < oc,
    ensures
        -2 * crate::NORM_ONE * t <= spec_mix_prefix(tl, t, ph, ch, oc) <= 2 * crate::NORM_ONE * t,
    decreases t,
{
    if t > 0 {
        lemma_mix_prefix_bound(tl, t - 1, ph, ch, oc);
        assert(tl.tracks[t - 1].wf());
        lemma_track_contribution_bound(tl.tracks[t - 1], ph, ch, oc);
        let p1 = spec_mix_prefix(tl, t - 1, ph, ch, oc);
        let a: int = if tl.audible(t - 1) {
            tl.tracks[t - 1].contribution(ph, ch, oc)
        } else {
            0
        };
        assert(spec_mix_prefix(tl, t, ph, ch, oc) == p1 + a);
        assert(-2 * crate::NORM_ONE * t <= p1 + a <= 2 * crate::NORM_ONE * t)
            by (nonlinear_arith)
            requires
                -2 * crate::NORM_ONE * (t - 1) <= p1 <= 2 * crate::NORM_ONE * (t - 1),
                -2 * crate::NORM_ONE <= a <= 2 * crate::NORM_ONE,
        ;
    }
}

/// The mix depends only on the tracks, not on the playhead field or cache
/// of the view it is computed from.
pub proof fn lemma_mix_same_tracks(a: TimelineView, b: TimelineView, t: int, ph: int, ch: int, oc: int)
    requires
        a.tracks == b.tracks,
    ensures
        spec_mix_prefix(a, t, ph, ch, oc) == spec_mix_prefix(b, t, ph, ch, oc),
    decreases t,
{
    if t > 0 {
        lemma_mix_same_tracks(a, b, t - 1, ph, ch, oc);
        assert(a.any_soloed() == b.any_soloed()) by {
            if a.any_soloed() {
                let w = choose|i: int| 0 <= i < a.tracks.len() && (#[trigger] a.tracks[i]).soloed;
                assert(b.tracks[w].soloed);
            }
            if b.any_soloed() {
                let w = choose|i: int| 0 <= i < b.tracks.len() && (#[trigger] b.tracks[i]).soloed;
                assert(a.tracks[w].soloed);
            }
        }
    }
}

/// A running mix value sits far enough from the `i64` bounds to absorb one
/// more track contribution.
proof fn lemma_mix_value_in_range(tl: TimelineView, t: int, ph: int, ch: int, oci: int)
    requires
        tl.tracks_wf(),
        0 <= t <= tl.tracks.len(),
        tl.tracks.len() <= u32::MAX,
        0 <= ch < oci,
    ensures
        i64::MIN + 2 * crate::NORM_ONE <= spec_mix_prefix(tl, t, ph, ch, oci) <= i64::MAX - 2
            * crate::NORM_ONE,
{
    lemma_mix_prefix_bound(tl, t, ph, ch, oci);
    assert(crate::NORM_ONE == 1_000_000_000);
    assert(2 * crate::NORM_ONE * t <= 2 * crate::NORM_ONE * (u32::MAX as int) && -(2
        * crate::NORM_ONE * (u32::MAX as int)) <= -2 * crate::NORM_ONE * t) by (nonlinear_arith)
        requires
            0 <= t <= u32::MAX as int,
            crate::NORM_ONE >= 0,
    ;
}

/// Track ids fit in 32 bits and are consecutive, so a well-formed timeline
/// cannot hold more tracks than ids.
pub proof fn lemma_tracks_len_bound(tl: TimelineView)
    requires
        tl.tracks_wf(),
    ensures
        tl.tracks.len() <= u32::MAX,
{
    if tl.tracks.len() > u32::MAX {
        assert(tl.tracks[u32::MAX as int].id == u32::MAX + 1);
    }
}

/// Two timelines whose tracks carry the same mute and solo flags agree on
/// the audible-track predicate and on the audible-set invariant.
pub proof fn lemma_same_flags_same_audible(a: TimelineView, b: TimelineView)
    requires
        a.tracks.len() == b.tracks.len(),
        forall|i: int|
            0 <= i < a.tracks.len() ==> (#[trigger] a.tracks[i]).muted == b.tracks[i].muted
                && a.tracks[i].soloed == b.tracks[i].soloed,
        a.active == b.active,
        a.active_coherent(),
    ensures
        a.any_soloed() == b.any_soloed(),
        forall|i: int| 0 <= i < a.tracks.len() ==> a.audible(i) == #[trigger] b.audible(i),
        b.active_coherent(),
{
    assert(a.any_soloed() == b.any_soloed()) by {
        if a.any_soloed() {
            let w = choose|i: int| 0 <= i < a.tracks.len() && (#[trigger] a.tracks[i]).soloed;
            assert(b.tracks[w].soloed);
        }
        if b.any_soloed() {
            let w = choose|i: int| 0 <= i < b.tracks.len() && (#[trigger] b.tracks[i]).soloed;
            assert(a.tracks[w].soloed);
        }
    }
    assert forall|id: u32| #[trigger] b.active.contains(id) implies (1 <= id <= b.tracks.len()
        && b.audible(id - 1)) by {
        assert(a.active.contains(id));
    }
    assert forall|id: u32| (1 <= id <= b.tracks.len() && b.audible(id - 1)) implies (
    #[trigger] b.active.contains(id)) by {
        assert(a.audible(id - 1));
        assert(a.active.contains(id));
    }
}

/// Owns all tracks, the canonical sample rate and the transport position.
pub struct Timeline {
    tracks: Vec<Track>,
    active_track_ids: Vec<u32>,
    sample_rate: u32,
    playhead_position: u64,
}

impl View for Timeline {
    type V = TimelineView;

    closed spec fn view(&self) -> TimelineView {
        TimelineView {
            tracks: Seq::new(self.tracks@.len(), |i: int| self.tracks@[i]@),
            active: self.active_track_ids@,
            sample_rate: self.sample_rate,
            playhead: self.playhead_position,
        }
    }
}

impl Timeline {
    /// An empty timeline at the given canonical sample rate, playhead at 0.
    pub fn new(sample_rate: u32) -> (r: Timeline)
        ensures
            r@.tracks.len() == 0,
            r@.active.len() == 0,
            r@.sample_rate == sample_rate,
            r@.playhead == 0,
            r@.wf(),
    {
        let t = Timeline {
            tracks: Vec::new(),
            active_track_ids: Vec::new(),
            sample_rate,
            playhead_position: 0,
        };
        proof {
            assert forall|id: u32| #[trigger] t@.active.contains(id) implies false by {
                assert(t@.active.len() == 0);
            }
        }
        t
    }

    /// Index of the track with the given id, by scanning in creation order.
    fn index_of(&self, track_id: TrackId) -> (r: Option<usize>)
        ensures
            match r {
                Some(i) => i < self@.tracks.len() && self@.tracks[i as int].id == track_id.0,
                None => forall|i: int|
                    0 <= i < self@.tracks.len() ==> (#[trigger] self@.tracks[i]).id != track_id.0,
            },
    {
        let n = self.tracks.len();
        let mut k: usize = 0;
        while k < n
            invariant
                k <= n,
                n == self@.tracks.len(),
                forall|i: int|
                    0 <= i < k ==> (#[trigger] self@.tracks[i]).id != track_id.0,
            decreases n - k,
        {
            proof {
                assert(self.tracks@[k as int]@ == self@.tracks[k as int]);
            }
            if self.tracks[k].id().as_u32() == track_id.as_u32() {
                return Some(k);
            }
            k = k + 1;
        }
        None
    }

    /// The track with the given id, if it exists.
    pub fn get_track(&self, track_id: TrackId) -> (r: Option<&Track>)
        ensures
            match r {
                Some(t) => exists|i: int|
                    0 <= i < self@.tracks.len() && (#[trigger] self@.tracks[i]).id == track_id.0
                        && t@ == self@.tracks[i],
                None => forall|i: int|
                    0 <= i < self@.tracks.len() ==> (#[trigger] self@.tracks[i]).id != track_id.0,
            },
    {
        match self.index_of(track_id) {
            Some(i) => {
                proof {
                    assert(self.tracks@[i as int]@ == self@.tracks[i as int]);
                }
                Some(&self.tracks[i])
            },
            None => None,
        }
    }

    pub fn track_count(&self) -> (r: usize)
        ensures
            r == self@.tracks.len(),
    {
        self.tracks.len()
    }

    /// The ids of all tracks, in creation order.
    pub fn get_track_ids(&self) -> (r: Vec<TrackId>)
        ensures
            r@.len() == self@.tracks.len(),
            forall|i: int| 0 <= i < r@.len() ==> (#[trigger] r@[i]).0 == self@.tracks[i].id,
    {
        let n = self.tracks.len();
        let mut out: Vec<TrackId> = Vec::new();
        let mut k: usize = 0;
        while k < n
            invariant
                k <= n,
                n == self@.tracks.len(),
                out@.len() == k,
                forall|i: int| 0 <= i < k ==> (#[trigger] out@[i]).0 == self@.tracks[i].id,
            decreases n - k,
        {
            proof {
                assert(self.tracks@[k as int]@ == self@.tracks[k as int]);
            }
            out.push(self.tracks[k].id());
            k = k + 1;
        }
        out
    }

    /// Rebuild the audible-set cache from the current flags.
    #[verifier::rlimit(100)]
    fn refresh_active(&mut self)
        requires
            old(self)@.tracks_wf(),
        ensures
            final(self)@.tracks == old(self)@.tracks,
            final(self)@.sample_rate == old(self)@.sample_rate,
            final(self)@.playhead == old(self)@.playhead,
            final(self)@.active_coherent(),
            final(self)@.wf(),
    {
        let any_solo = self.find_soloed_index().is_some();
        proof {
            assert(any_solo == self@.any_soloed());
        }
        let n = self.tracks.len();
        let mut act: Vec<u32> = Vec::new();
        let mut k: usize = 0;
        while k < n
            invariant
                k <= n,
                n == self@.tracks.len(),
                any_solo == self@.any_soloed(),
                self@.tracks_wf(),
                forall|id: u32|
                    #[trigger] act@.contains(id) <==> (1 <= id <= k && self@.audible(id - 1)),
                forall|k1: int| 0 <= k1 < act@.len() ==> act@[k1] <= k,
                forall|k1: int, k2: int| 0 <= k1 < k2 < act@.len() ==> act@[k1] != act@[k2],
            decreases n - k,
        {
            proof {
                assert(self.tracks@[k as int]@ == self@.tracks[k as int]);
            }
            let tr = &self.tracks[k];
            let aud = if any_solo {
                tr.is_soloed()
            } else {
                !tr.is_muted()
            };
            let ghost prev = act@;
            if aud {
                act.push(tr.id().as_u32());
                proof {
                    assert(act@ == prev.push(self@.tracks[k as int].id));
                    assert forall|id: u32| #[trigger] act@.contains(id) implies (1 <= id <= k + 1
                        && self@.audible(id - 1)) by {
                        let w = choose|w: int| 0 <= w < act@.len() && act@[w] == id;
                        if w < prev.len() {
                            assert(prev[w] == id);
                            assert(prev.contains(id));
                        } else {
                            assert(id == self@.tracks[k as int].id);
                        }
                    }
                    assert forall|id: u32| (1 <= id <= k + 1 && self@.audible(id - 1)) implies (
                    #[trigger] act@.contains(id)) by {
                        if id <= k {
                            assert(prev.contains(id));
                            let w = choose|w: int| 0 <= w < prev.len() && prev[w] == id;
                            assert(act@[w] == id);
                        } else {
                            assert(act@.last() == id);
                        }
                    }
                }
            } else {
                proof {
                    assert forall|id: u32| #[trigger] act@.contains(id) implies (1 <= id <= k + 1
                        && self@.audible(id - 1)) by {}
                    assert forall|id: u32| (1 <= id <= k + 1 && self@.audible(id - 1)) implies (
                    #[trigger] act@.contains(id)) by {
                        if id == k + 1 {
                            assert(self@.tracks[k as int].id == id);
                            assert(!self@.audible(id - 1));
                        }
                    }
                }
            }
            k = k + 1;
        }
        self.active_track_ids = act;
    }

    /// Index of the first soloed track, if any; under the invariant it is
    /// the only one.
    fn find_soloed_index(&self) -> (r: Option<usize>)
        ensures
            match r {
                Some(s) => s < self@.tracks.len() && self@.tracks[s as int].soloed,
                None => !self@.any_soloed(),
            },
    {
        let n = self.tracks.len();
        let mut k: usize = 0;
        while k < n
            invariant
                k <= n,
                n == self@.tracks.len(),
                forall|i: int| 0 <= i < k ==> !(#[trigger] self@.tracks[i]).soloed,
            decreases n - k,
        {
            proof {
                assert(self.tracks@[k as int]@ == self@.tracks[k as int]);
            }
            if self.tracks[k].is_soloed() {
                return Some(k);
            }
            k = k + 1;
        }
        None
    }

    pub fn playhead_position(&self) -> (r: u64)
        ensures
            r == self@.playhead,
    {
        self.playhead_position
    }

    /// Seek the transport to an absolute frame position. Never called
    /// concurrently with rendering; the embedding converts seconds to
    /// frames at the timeline's sample rate.
    pub fn set_playhead_position(&mut self, frames: u64)
        ensures
            final(self)@ == (TimelineView { playhead: frames, ..old(self)@ }),
    {
        self.playhead_position = frames;
    }

    /// Rewind the transport to the origin (transport stop).
    pub fn reset_playhead(&mut self)
        ensures
            final(self)@ == (TimelineView { playhead: 0, ..old(self)@ }),
    {
        self.playhead_position = 0;
    }

    pub fn sample_rate(&self) -> (r: u32)
        ensures
            r == self@.sample_rate,
    {
        self.sample_rate
    }

    /// Largest clip end position over all tracks.
    pub fn duration_in_samples(&self) -> (r: u64)
        requires
            self@.wf(),
        ensures
            r == self@.duration(),
    {
        let n = self.tracks.len();
        let mut best: u64 = 0;
        let mut k: usize = 0;
        while k < n
            invariant
                k <= n,
                n == self@.tracks.len(),
                self@.tracks_wf(),
                best == spec_timeline_duration(self@.tracks.take(k as int)),
            decreases n - k,
        {
            proof {
                assert(self@.tracks.take(k + 1).drop_last() =~= self@.tracks.take(k as int));
                assert(self@.tracks.take(k + 1).last() == self@.tracks[k as int]);
                assert(self.tracks@[k as int]@ == self@.tracks[k as int]);
            }
            let d = self.tracks[k].duration_in_samples();
            if d > best {
                best = d;
            }
            k = k + 1;
        }
        proof {
            assert(self@.tracks.take(n as int) =~= self@.tracks);
        }
        best
    }

    /// Create a track; its id is one past the last track's id (ids start
    /// at 1). A newcomer is unmuted but not soloed, so while some track is
    /// soloed it joins inaudible, and the audible-set cache reflects that.
    pub fn new_track(&mut self) -> (r: TrackId)
        requires
            old(self)@.wf(),
            old(self)@.tracks.len() < u32::MAX,
        ensures
            r.0 == old(self)@.tracks.len() + 1,
            final(self)@.tracks.len() == old(self)@.tracks.len() + 1,
            final(self)@.tracks.take(old(self)@.tracks.len() as int) == old(self)@.tracks,
            final(self)@.tracks.last().id == r.0,
            final(self)@.tracks.last().name == "Track "@ + crate::utils::spec_decimal(r.0 as int),
            final(self)@.tracks.last().volume_percent == 100,
            final(self)@.tracks.last().clips.len() == 0,
            !final(self)@.tracks.last().muted,
            !final(self)@.tracks.last().soloed,
            final(self)@.sample_rate == old(self)@.sample_rate,
            final(self)@.playhead == old(self)@.playhead,
            final(self)@.wf(),
    {
        let n = self.tracks.len();
        let id_val: u32 = if n > 0 {
            proof {
                assert(self.tracks@[n - 1]@ == self@.tracks[n - 1]);
            }
            self.tracks[n - 1].id().as_u32() + 1
        } else {
            1
        };
        let track_id = TrackId::new(id_val);
        let track = Track::new(track_id);
        self.tracks.push(track);
        proof {
            let new = self@;
            let olds = old(self)@;
            assert(new.tracks.take(olds.tracks.len() as int) =~= olds.tracks);
            assert(new.tracks.last() == self.tracks@[n as int]@);
            assert forall|i: int| 0 <= i < new.tracks.len() implies (
            #[trigger] new.tracks[i]).wf() && new.tracks[i].id == i + 1 by {
                if i < olds.tracks.len() {
                    assert(new.tracks[i] == olds.tracks[i]);
                }
            }
            assert forall|i: int, j: int| 0 <= i < j < new.tracks.len() implies !((
            #[trigger] new.tracks[i]).soloed && (#[trigger] new.tracks[j]).soloed) by {
                if j < olds.tracks.len() {
                    assert(new.tracks[i] == olds.tracks[i]);
                    assert(new.tracks[j] == olds.tracks[j]);
                } else {
                    assert(!new.tracks[j].soloed);
                }
            }
        }
        self.refresh_active();
        track_id
    }

    /// Append a decoded clip to the given track; on failure nothing
    /// changes.
    #[verifier::rlimit(100)]
    pub fn add_clip(&mut self, track_id: TrackId, data: Vec<i64>, channel: u16) -> (r: Result<
        (),
        AudioError,
    >)
        requires
            old(self)@.wf(),
            1 <= track_id.0 <= old(self)@.tracks.len() ==> old(self)@.tracks[track_id.0
                - 1].next_start() + data@.len() <= u64::MAX,
        ensures
            match r {
                Ok(()) => {
                    &&& 1 <= track_id.0 <= old(self)@.tracks.len()
                    &&& final(self)@.tracks.len() == old(self)@.tracks.len()
                    &&& final(self)@.tracks == old(self)@.tracks.update(
                        track_id.0 - 1,
                        final(self)@.tracks[track_id.0 - 1],
                    )
                    &&& final(self)@.tracks[track_id.0 - 1].clips.len() == old(
                        self,
                    )@.tracks[track_id.0 - 1].clips.len() + 1
                    &&& final(self)@.tracks[track_id.0 - 1].clips.last().start == old(
                        self,
                    )@.tracks[track_id.0 - 1].next_start()
                    &&& final(self)@.tracks[track_id.0 - 1].clips.last().channel == channel
                    &&& final(self)@.tracks[track_id.0 - 1].clips.last().data.len() == data@.len()
                    &&& final(self)@.tracks[track_id.0 - 1].clips.take(
                        old(self)@.tracks[track_id.0 - 1].clips.len() as int,
                    ) == old(self)@.tracks[track_id.0 - 1].clips
                    &&& final(self)@.tracks[track_id.0 - 1] == (TrackView {
                        clips: final(self)@.tracks[track_id.0 - 1].clips,
                        ..old(self)@.tracks[track_id.0 - 1]
                    })
                    &&& final(self)@.sample_rate == old(self)@.sample_rate
                    &&& final(self)@.playhead == old(self)@.playhead
                    &&& final(self)@.active == old(self)@.active
                    &&& final(self)@.wf()
                },
                Err(AudioError::TrackNotFound(t)) => t == track_id && final(self)@ == old(self)@
                    && (track_id.0 < 1 || track_id.0 > old(self)@.tracks.len()),
                Err(e) => {
                    &&& channel != 1 && channel != 2
                    &&& e == AudioError::UnsupportedChannelCount(channel)
                    &&& final(self)@ == old(self)@
                },
            },
    {
        let i = match self.index_of(track_id) {
            Some(i) => i,
            None => {
                proof {
                    assert(self@ =~= old(self)@);
                    if 1 <= track_id.0 <= self@.tracks.len() {
                        assert(self@.tracks[track_id.0 - 1].id == track_id.0);
                    }
                }
                return Err(AudioError::TrackNotFound(track_id));
            },
        };
        proof {
            assert(i == track_id.0 - 1);
        }
        let r = self.tracks[i].add_clip(data, channel);
        proof {
            let new = self@;
            let olds = old(self)@;
            assert(new.tracks =~= olds.tracks.update(i as int, new.tracks[i as int]));
            if r is Ok {
                lemma_same_flags_same_audible(olds, new);
                assert forall|i2: int, j2: int| 0 <= i2 < j2 < new.tracks.len() implies !((
                #[trigger] new.tracks[i2]).soloed && (#[trigger] new.tracks[j2]).soloed) by {
                    assert(olds.tracks[i2].soloed == new.tracks[i2].soloed);
                    assert(olds.tracks[j2].soloed == new.tracks[j2].soloed);
                }
            } else {
                assert(new.tracks =~= olds.tracks);
                assert(new =~= olds);
            }
        }
        r
    }

    /// Set a track's volume from a percentage; rejects values above 100.
    pub fn set_volume(&mut self, track_id: TrackId, volume_percent: u32) -> (r: Result<
        (),
        AudioError,
    >)
        requires
            old(self)@.wf(),
        ensures
            match r {
                Ok(()) => {
                    &&& 1 <= track_id.0 <= old(self)@.tracks.len()
                    &&& volume_percent <= 100
                    &&& final(self)@ == (TimelineView {
                        tracks: old(self)@.tracks.update(
                            track_id.0 - 1,
                            (TrackView {
                                volume_percent: volume_percent,
                                ..old(self)@.tracks[track_id.0 - 1]
                            }),
                        ),
                        ..old(self)@
                    })
                    &&& final(self)@.wf()
                },
                Err(AudioError::TrackNotFound(t)) => t == track_id && final(self)@ == old(self)@
                    && (track_id.0 < 1 || track_id.0 > old(self)@.tracks.len()),
                Err(e) => e == AudioError::InvalidVolume(volume_percent) && volume_percent > 100
                    && final(self)@ == old(self)@,
            },
    {
        let i = match self.index_of(track_id) {
            Some(i) => i,
            None => {
                proof {
                    assert(self@ =~= old(self)@);
                    if 1 <= track_id.0 <= self@.tracks.len() {
                        assert(self@.tracks[track_id.0 - 1].id == track_id.0);
                    }
                }
                return Err(AudioError::TrackNotFound(track_id));
            },
        };
        proof {
            assert(i == track_id.0 - 1);
        }
        let r = self.tracks[i].set_volume_percent(volume_percent);
        proof {
            let new = self@;
            let olds = old(self)@;
            if r is Ok {
                assert(new.tracks =~= olds.tracks.update(i as int, new.tracks[i as int]));
                assert(new =~= (TimelineView {
                    tracks: olds.tracks.update(
                        i as int,
                        (TrackView {
                            volume_percent: volume_percent,
                            ..olds.tracks[i as int]
                        }),
                    ),
                    ..olds
                }));
                lemma_same_flags_same_audible(olds, new);
                assert forall|i2: int, j2: int| 0 <= i2 < j2 < new.tracks.len() implies !((
                #[trigger] new.tracks[i2]).soloed && (#[trigger] new.tracks[j2]).soloed) by {
                    assert(olds.tracks[i2].soloed == new.tracks[i2].soloed);
                    assert(olds.tracks[j2].soloed == new.tracks[j2].soloed);
                }
            } else {
                assert(new.tracks =~= olds.tracks);
                assert(new =~= olds);
            }
        }
        r
    }

    /// Rename a track.
    pub fn set_track_name(&mut self, track_id: TrackId, new_name: String) -> (r: Result<
        (),
        AudioError,
    >)
        requires
            old(self)@.wf(),
        ensures
            match r {
                Ok(()) => {
                    &&& 1 <= track_id.0 <= old(self)@.tracks.len()
                    &&& final(self)@ == (TimelineView {
                        tracks: old(self)@.tracks.update(
                            track_id.0 - 1,
                            (TrackView { name: new_name@, ..old(self)@.tracks[track_id.0 - 1] }),
                        ),
                        ..old(self)@
                    })
                    &&& final(self)@.wf()
                },
                Err(e) => e == AudioError::TrackNotFound(track_id) && final(self)@ == old(self)@
                    && (track_id.0 < 1 || track_id.0 > old(self)@.tracks.len()),
            },
    {
        let i = match self.index_of(track_id) {
            Some(i) => i,
            None => {
                proof {
                    assert(self@ =~= old(self)@);
                    if 1 <= track_id.0 <= self@.tracks.len() {
                        assert(self@.tracks[track_id.0 - 1].id == track_id.0);
                    }
                }
                return Err(AudioError::TrackNotFound(track_id));
            },
        };
        proof {
            assert(i == track_id.0 - 1);
        }
        self.tracks[i].set_name(new_name);
        proof {
            let new = self@;
            let olds = old(self)@;
            assert(new.tracks =~= olds.tracks.update(i as int, new.tracks[i as int]));
            lemma_same_flags_same_audible(olds, new);
            assert forall|i2: int, j2: int| 0 <= i2 < j2 < new.tracks.len() implies !((
            #[trigger] new.tracks[i2]).soloed && (#[trigger] new.tracks[j2]).soloed) by {
                assert(olds.tracks[i2].soloed == new.tracks[i2].soloed);
                assert(olds.tracks[j2].soloed == new.tracks[j2].soloed);
            }
        }
        Ok(())
    }

    /// Mute a track: sets its mute flag and always clears its solo flag
    /// (mute wins over solo on the same track).
    pub fn mute(&mut self, track_id: TrackId) -> (r: Result<(), AudioError>)
        requires
            old(self)@.wf(),
        ensures
            match r {
                Ok(()) => {
                    &&& 1 <= track_id.0 <= old(self)@.tracks.len()
                    &&& final(self)@.tracks == old(self)@.tracks.update(
                        track_id.0 - 1,
                        (TrackView {
                            muted: true,
                            soloed: false,
                            ..old(self)@.tracks[track_id.0 - 1]
                        }),
                    )
                    &&& final(self)@.sample_rate == old(self)@.sample_rate
                    &&& final(self)@.playhead == old(self)@.playhead
                    &&& final(self)@.wf()
                },
                Err(e) => e == AudioError::TrackNotFound(track_id) && final(self)@ == old(self)@
                    && (track_id.0 < 1 || track_id.0 > old(self)@.tracks.len()),
            },
    {
        let i = match self.index_of(track_id) {
            Some(i) => i,
            None => {
                proof {
                    assert(self@ =~= old(self)@);
                    if 1 <= track_id.0 <= self@.tracks.len() {
                        assert(self@.tracks[track_id.0 - 1].id == track_id.0);
                    }
                }
                return Err(AudioError::TrackNotFound(track_id));
            },
        };
        proof {
            assert(i == track_id.0 - 1);
        }
        self.tracks[i].mute();
        self.tracks[i].unsolo();
        proof {
            let new = self@;
            let olds = old(self)@;
            assert(new.tracks =~= olds.tracks.update(
                i as int,
                (TrackView { muted: true, soloed: false, ..olds.tracks[i as int] }),
            ));
            assert forall|i2: int, j2: int| 0 <= i2 < j2 < new.tracks.len() implies !((
            #[trigger] new.tracks[i2]).soloed && (#[trigger] new.tracks[j2]).soloed) by {
                if i2 != i {
                    assert(new.tracks[i2] == olds.tracks[i2]);
                }
                if j2 != i {
                    assert(new.tracks[j2] == olds.tracks[j2]);
                }
            }
        }
        self.refresh_active();
        Ok(())
    }

    /// Unmute a track; its solo flag is untouched.
    pub fn unmute(&mut self, track_id: TrackId) -> (r: Result<(), AudioError>)
        requires
            old(self)@.wf(),
        ensures
            match r {
                Ok(()) => {
                    &&& 1 <= track_id.0 <= old(self)@.tracks.len()
                    &&& final(self)@.tracks == old(self)@.tracks.update(
                        track_id.0 - 1,
                        (TrackView { muted: false, ..old(self)@.tracks[track_id.0 - 1] }),
                    )
                    &&& final(self)@.sample_rate == old(self)@.sample_rate
                    &&& final(self)@.playhead == old(self)@.playhead
                    &&& final(self)@.wf()
                },
                Err(e) => e == AudioError::TrackNotFound(track_id) && final(self)@ == old(self)@
                    && (track_id.0 < 1 || track_id.0 > old(self)@.tracks.len()),
            },
    {
        let i = match self.index_of(track_id) {
            Some(i) => i,
            None => {
                proof {
                    assert(self@ =~= old(self)@);
                    if 1 <= track_id.0 <= self@.tracks.len() {
                        assert(self@.tracks[track_id.0 - 1].id == track_id.0);
                    }
                }
                return Err(AudioError::TrackNotFound(track_id));
            },
        };
        proof {
            assert(i == track_id.0 - 1);
        }
        self.tracks[i].unmute();
        proof {
            let new = self@;
            let olds = old(self)@;
            assert(new.tracks =~= olds.tracks.update(
                i as int,
                (TrackView { muted: false, ..olds.tracks[i as int] }),
            ));
            assert forall|i2: int, j2: int| 0 <= i2 < j2 < new.tracks.len() implies !((
            #[trigger] new.tracks[i2]).soloed && (#[trigger] new.tracks[j2]).soloed) by {
                if i2 != i {
                    assert(new.tracks[i2] == olds.tracks[i2]);
                }
                if j2 != i {
                    assert(new.tracks[j2] == olds.tracks[j2]);
                }
            }
        }
        self.refresh_active();
        Ok(())
    }

    /// Solo a track exclusively: sets its solo flag and forces every other
    /// track out of solo and into mute. The track's own mute flag is kept
    /// (solo precedence makes it audible regardless).
    pub fn solo(&mut self, track_id: TrackId) -> (r: Result<(), AudioError>)
        requires
            old(self)@.wf(),
        ensures
            match r {
                Ok(()) => {
                    &&& 1 <= track_id.0 <= old(self)@.tracks.len()
                    &&& final(self)@.tracks.len() == old(self)@.tracks.len()
                    &&& final(self)@.tracks[track_id.0 - 1] == (TrackView {
                        soloed: true,
                        ..old(self)@.tracks[track_id.0 - 1]
                    })
                    &&& forall|j: int|
                        0 <= j < old(self)@.tracks.len() && j != track_id.0 - 1
                            ==> #[trigger] final(self)@.tracks[j] == (TrackView {
                            soloed: false,
                            muted: true,
                            ..old(self)@.tracks[j]
                        })
                    &&& final(self)@.sample_rate == old(self)@.sample_rate
                    &&& final(self)@.playhead == old(self)@.playhead
                    &&& final(self)@.wf()
                },
                Err(e) => e == AudioError::TrackNotFound(track_id) && final(self)@ == old(self)@
                    && (track_id.0 < 1 || track_id.0 > old(self)@.tracks.len()),
            },
    {
        let i = match self.index_of(track_id) {
            Some(i) => i,
            None => {
                proof {
                    assert(self@ =~= old(self)@);
                    if 1 <= track_id.0 <= self@.tracks.len() {
                        assert(self@.tracks[track_id.0 - 1].id == track_id.0);
                    }
                }
                return Err(AudioError::TrackNotFound(track_id));
            },
        };
        proof {
            assert(i == track_id.0 - 1);
        }
        self.tracks[i].solo();
        let n = self.tracks.len();
        let mut k: usize = 0;
        while k < n
            invariant
                k <= n,
                i < n,
                n == self@.tracks.len(),
                n == old(self)@.tracks.len(),
                self@.tracks[i as int] == (TrackView {
                    soloed: true,
                    ..old(self)@.tracks[i as int]
                }),
                forall|j: int|
                    0 <= j < k && j != i ==> self@.tracks[j] == (TrackView {
                        soloed: false,
                        muted: true,
                        ..old(self)@.tracks[j]
                    }),
                forall|j: int| k <= j < n && j != i ==> self@.tracks[j] == old(self)@.tracks[j],
                self@.active == old(self)@.active,
                self@.sample_rate == old(self)@.sample_rate,
                self@.playhead == old(self)@.playhead,
                old(self)@.tracks_wf(),
            decreases n - k,
        {
            if k != i {
                let ghost before = self@;
                self.tracks[k].unsolo();
                self.tracks[k].mute();
                proof {
                    assert(self@.tracks =~= before.tracks.update(
                        k as int,
                        (TrackView { soloed: false, muted: true, ..before.tracks[k as int] }),
                    ));
                    assert forall|j: int|
                        0 <= j < k + 1 && j != i implies self@.tracks[j] == (TrackView {
                            soloed: false,
                            muted: true,
                            ..old(self)@.tracks[j]
                        }) by {
                        if j < k {
                            assert(before.tracks[j] == self@.tracks[j]);
                        }
                    }
                }
            }
            k = k + 1;
        }
        proof {
            let new = self@;
            let olds = old(self)@;
            assert forall|i2: int| 0 <= i2 < new.tracks.len() implies (
            #[trigger] new.tracks[i2]).wf() && new.tracks[i2].id == i2 + 1 by {
                assert(olds.tracks[i2].wf());
            }
            assert forall|i2: int, j2: int| 0 <= i2 < j2 < new.tracks.len() implies !((
            #[trigger] new.tracks[i2]).soloed && (#[trigger] new.tracks[j2]).soloed) by {
                if i2 != i {
                    assert(!new.tracks[i2].soloed);
                }
                if j2 != i {
                    assert(!new.tracks[j2].soloed);
                }
            }
        }
        self.refresh_active();
        Ok(())
    }

    /// Clear a track's solo flag. This deliberately does not restore the
    /// mute state that soloing forced onto the other tracks.
    pub fn unsolo(&mut self, track_id: TrackId) -> (r: Result<(), AudioError>)
        requires
            old(self)@.wf(),
        ensures
            match r {
                Ok(()) => {
                    &&& 1 <= track_id.0 <= old(self)@.tracks.len()
                    &&& final(self)@.tracks == old(self)@.tracks.update(
                        track_id.0 - 1,
                        (TrackView { soloed: false, ..old(self)@.tracks[track_id.0 - 1] }),
                    )
                    &&& final(self)@.sample_rate == old(self)@.sample_rate
                    &&& final(self)@.playhead == old(self)@.playhead
                    &&& final(self)@.wf()
                },
                Err(e) => e == AudioError::TrackNotFound(track_id) && final(self)@ == old(self)@
                    && (track_id.0 < 1 || track_id.0 > old(self)@.tracks.len()),
            },
    {
        let i = match self.index_of(track_id) {
            Some(i) => i,
            None => {
                proof {
                    assert(self@ =~= old(self)@);
                    if 1 <= track_id.0 <= self@.tracks.len() {
                        assert(self@.tracks[track_id.0 - 1].id == track_id.0);
                    }
                }
                return Err(AudioError::TrackNotFound(track_id));
            },
        };
        proof {
            assert(i == track_id.0 - 1);
        }
        self.tracks[i].unsolo();
        proof {
            let new = self@;
            let olds = old(self)@;
            assert(new.tracks =~= olds.tracks.update(
                i as int,
                (TrackView { soloed: false, ..olds.tracks[i as int] }),
            ));
            assert forall|i2: int, j2: int| 0 <= i2 < j2 < new.tracks.len() implies !((
            #[trigger] new.tracks[i2]).soloed && (#[trigger] new.tracks[j2]).soloed) by {
                if i2 != i {
                    assert(new.tracks[i2] == olds.tracks[i2]);
                }
                if j2 != i {
                    assert(new.tracks[j2] == olds.tracks[j2]);
                }
            }
        }
        self.refresh_active();
        Ok(())
    }

    /// Whether the given track is muted.
    pub fn is_muted(&self, track_id: TrackId) -> (r: Result<bool, AudioError>)
        ensures
            match r {
                Ok(b) => exists|i: int|
                    0 <= i < self@.tracks.len() && (#[trigger] self@.tracks[i]).id == track_id.0
                        && b == self@.tracks[i].muted,
                Err(e) => e == AudioError::TrackNotFound(track_id) && forall|i: int|
                    0 <= i < self@.tracks.len() ==> (#[trigger] self@.tracks[i]).id != track_id.0,
            },
    {
        match self.index_of(track_id) {
            Some(i) => {
                proof {
                    assert(self.tracks@[i as int]@ == self@.tracks[i as int]);
                }
                Ok(self.tracks[i].is_muted())
            },
            None => Err(AudioError::TrackNotFound(track_id)),
        }
    }

    /// Whether the given track is soloed.
    pub fn is_soloed(&self, track_id: TrackId) -> (r: Result<bool, AudioError>)
        ensures
            match r {
                Ok(b) => exists|i: int|
                    0 <= i < self@.tracks.len() && (#[trigger] self@.tracks[i]).id == track_id.0
                        && b == self@.tracks[i].soloed,
                Err(e) => e == AudioError::TrackNotFound(track_id) && forall|i: int|
                    0 <= i < self@.tracks.len() ==> (#[trigger] self@.tracks[i]).id != track_id.0,
            },
    {
        match self.index_of(track_id) {
            Some(i) => {
                proof {
                    assert(self.tracks@[i as int]@ == self@.tracks[i as int]);
                }
                Ok(self.tracks[i].is_soloed())
            },
            None => Err(AudioError::TrackNotFound(track_id)),
        }
    }

    /// Mix one playhead frame: every audible track's active clip
    /// accumulates into the `output_channels` slots of frame `f` of the
    /// buffer; all other slots are untouched.
    #[verifier::rlimit(100)]
    fn mix_frame(&self, buffer: &mut Vec<i64>, soloed_idx: Option<usize>, f: usize, output_channels: u16)
        requires
            self@.wf(),
            output_channels >= 1,
            f * output_channels + output_channels <= old(buffer)@.len(),
            match soloed_idx {
                Some(s) => s < self@.tracks.len() && self@.tracks[s as int].soloed,
                None => !self@.any_soloed(),
            },
            forall|ch: int|
                0 <= ch < output_channels ==> #[trigger] old(buffer)@[f * output_channels + ch]
                    == 0,
            forall|j: int|
                0 <= j < old(buffer)@.len() ==> i64::MIN + 2 * crate::NORM_ONE <= #[trigger] old(
                    buffer,
                )@[j] <= i64::MAX - 2 * crate::NORM_ONE,
        ensures
            final(buffer)@.len() == old(buffer)@.len(),
            forall|ch: int|
                0 <= ch < output_channels ==> #[trigger] final(buffer)@[f * output_channels + ch]
                    == spec_mix(self@, self@.playhead as int, ch, output_channels as int),
            forall|j: int|
                0 <= j < old(buffer)@.len() && !(f * output_channels <= j < f * output_channels
                    + output_channels) ==> #[trigger] final(buffer)@[j] == old(buffer)@[j],
    {
        let ghost tl0 = self@;
        let ghost oci = output_channels as int;
        let blen: usize = buffer.len();
        let ghost len = old(buffer)@.len() as int;
        let ph = self.playhead_position;
        let n = self.tracks.len();
        proof {
            lemma_tracks_len_bound(tl0);
        }
        let mut t: usize = 0;
        while t < n
            invariant
                t <= n,
                n == tl0.tracks.len(),
                tl0 == self@,
                oci == output_channels as int,
                oci >= 1,
                tl0.wf(),
                ph == tl0.playhead,
                len == old(buffer)@.len(),
                len == buffer@.len(),
                len == blen,
                f * oci + oci <= len,
                tl0.tracks.len() <= u32::MAX,
                match soloed_idx {
                    Some(s) => s < tl0.tracks.len() && tl0.tracks[s as int].soloed,
                    None => !tl0.any_soloed(),
                },
                forall|ch: int|
                    0 <= ch < oci ==> #[trigger] buffer@[f * oci + ch] == spec_mix_prefix(
                        tl0,
                        t as int,
                        ph as int,
                        ch,
                        oci,
                    ),
                forall|j: int|
                    0 <= j < len && !(f * oci <= j < f * oci + oci) ==> #[trigger] buffer@[j]
                        == old(buffer)@[j],
                forall|j: int|
                    0 <= j < len ==> i64::MIN + 2 * crate::NORM_ONE <= #[trigger] old(
                        buffer,
                    )@[j] <= i64::MAX - 2 * crate::NORM_ONE,
            decreases n - t,
        {
            proof {
                assert(self.tracks@[t as int]@ == self@.tracks[t as int]);
                assert(tl0.tracks[t as int].wf());
            }
            let aud: bool = match soloed_idx {
                Some(s) => {
                    proof {
                        assert(self.tracks@[s as int]@ == self@.tracks[s as int]);
                    }
                    self.tracks[t].id().as_u32() == self.tracks[s].id().as_u32()
                },
                None => !self.tracks[t].is_muted(),
            };
            proof {
                match soloed_idx {
                    Some(s) => {
                        assert(tl0.any_soloed());
                        if aud {
                            assert(tl0.tracks[t as int].id == tl0.tracks[s as int].id);
                            assert(t == s);
                        } else {
                            assert(t != s);
                            if tl0.tracks[t as int].soloed {
                                if t < s {
                                    assert(!(tl0.tracks[t as int].soloed
                                        && tl0.tracks[s as int].soloed));
                                } else {
                                    assert(!(tl0.tracks[s as int].soloed
                                        && tl0.tracks[t as int].soloed));
                                }
                            }
                        }
                    },
                    None => {},
                }
                assert(aud == tl0.audible(t as int));
            }
            let ghost before = buffer@;
            if aud {
                let volume_pct = self.tracks[t].volume_percent();
                match self.tracks[t].find_clip_at_playhead_position(ph) {
                    Some(clip) => {
                        proof {
                            assert(tl0.tracks[t as int].active_clip(ph as int) == Some(clip@));
                            let w = choose|i: int|
                                0 <= i < tl0.tracks[t as int].clips.len() && (
                                #[trigger] tl0.tracks[t as int].clips[i]).active_at(ph as int);
                            assert(clip@ == tl0.tracks[t as int].clips[w]);
                            assert(clip@.wf());
                            assert(clip@.active_at(ph as int));
                            assert forall|j: int| 0 <= j < buffer@.len() implies i64::MIN + 2
                                * crate::NORM_ONE <= #[trigger] buffer@[j] <= i64::MAX - 2
                                * crate::NORM_ONE by {
                                if f * oci <= j < f * oci + oci {
                                    let ch = j - f * oci;
                                    lemma_mix_value_in_range(tl0, t as int, ph as int, ch, oci);
                                    assert(buffer@[f * oci + ch] == spec_mix_prefix(
                                        tl0,
                                        t as int,
                                        ph as int,
                                        ch,
                                        oci,
                                    ));
                                }
                            }
                        }
                        clip.process_sample(buffer, volume_pct, output_channels, ph, f);
                        proof {
                            assert forall|ch: int| 0 <= ch < oci implies #[trigger] buffer@[f * oci
                                + ch] == spec_mix_prefix(tl0, t + 1, ph as int, ch, oci) by {
                                assert(buffer@[f * oci + ch] == before[f * oci + ch]
                                    + spec_frame_add(
                                    clip@,
                                    ph as int,
                                    volume_pct as int,
                                    oci,
                                    f as int,
                                    f * oci + ch,
                                ));
                                assert(spec_frame_add(
                                    clip@,
                                    ph as int,
                                    volume_pct as int,
                                    oci,
                                    f as int,
                                    f * oci + ch,
                                ) == clip@.contribution(ph as int, volume_pct as int, ch, oci));
                                assert(tl0.tracks[t as int].contribution(ph as int, ch, oci)
                                    == clip@.contribution(ph as int, volume_pct as int, ch, oci));
                            }
                            assert forall|j: int|
                                0 <= j < len && !(f * oci <= j < f * oci
                                    + oci) implies #[trigger] buffer@[j] == before[j] by {
                                assert(buffer@[j] == before[j] + spec_frame_add(
                                    clip@,
                                    ph as int,
                                    volume_pct as int,
                                    oci,
                                    f as int,
                                    j,
                                ));
                            }
                        }
                    },
                    None => {
                        proof {
                            assert(tl0.tracks[t as int].active_clip(ph as int) is None);
                            assert forall|ch: int| 0 <= ch < oci implies #[trigger] buffer@[f * oci
                                + ch] == spec_mix_prefix(tl0, t + 1, ph as int, ch, oci) by {
                                assert(tl0.tracks[t as int].contribution(ph as int, ch, oci) == 0);
                            }
                        }
                    },
                }
            } else {
                proof {
                    assert forall|ch: int| 0 <= ch < oci implies #[trigger] buffer@[f * oci + ch]
                        == spec_mix_prefix(tl0, t + 1, ph as int, ch, oci) by {}
                }
            }
            t = t + 1;
        }
    }

    /// Fill a caller-owned interleaved buffer with the next block of mixed
    /// output and advance the playhead one frame per rendered frame.
    ///
    /// The buffer is zeroed first; every audible track's active clip then
    /// accumulates into it. A trailing part of the buffer shorter than one
    /// frame stays zero. The tracks themselves never change here: the
    /// render path cannot fail, a missing clip simply contributes silence.
    #[verifier::rlimit(100)]
    pub fn process(&mut self, buffer: &mut Vec<i64>, output_channels: u16)
        requires
            old(self)@.wf(),
            output_channels >= 1,
            old(self)@.playhead + old(buffer)@.len() as int / output_channels as int <= u64::MAX,
        ensures
            final(self)@ == (TimelineView {
                playhead: final(self)@.playhead,
                ..old(self)@
            }),
            final(self)@.playhead == old(self)@.playhead + old(buffer)@.len() as int
                / output_channels as int,
            final(buffer)@.len() == old(buffer)@.len(),
            forall|j: int|
                0 <= j < old(buffer)@.len() ==> #[trigger] final(buffer)@[j] == (if j < (old(
                    buffer,
                )@.len() as int / output_channels as int) * output_channels {
                    spec_mix(
                        old(self)@,
                        old(self)@.playhead + j / (output_channels as int),
                        j % (output_channels as int),
                        output_channels as int,
                    )
                } else {
                    0
                }),
    {
        let ghost tl0 = old(self)@;
        let ghost oci = output_channels as int;
        let oc = output_channels as usize;
        let len = buffer.len();
        let num_frames = len / oc;
        proof {
            vstd::arithmetic::div_mod::lemma_fundamental_div_mod(len as int, oci);
            vstd::arithmetic::div_mod::lemma_mod_bound(len as int, oci);
            assert(num_frames * oci <= len);
            lemma_tracks_len_bound(tl0);
        }

        let mut z: usize = 0;
        while z < len
            invariant
                z <= len,
                len == buffer@.len(),
                forall|j: int| 0 <= j < z ==> #[trigger] buffer@[j] == 0,
            decreases len - z,
        {
            buffer.set(z, 0);
            z = z + 1;
        }

        let soloed_idx = self.find_soloed_index();

        let mut f: usize = 0;
        while f < num_frames
            invariant
                f <= num_frames,
                oc == output_channels as usize,
                oci == output_channels as int,
                oc >= 1,
                tl0.wf(),
                self@.tracks == tl0.tracks,
                self@.active == tl0.active,
                self@.sample_rate == tl0.sample_rate,
                self@.playhead == tl0.playhead + f,
                tl0.playhead + num_frames <= u64::MAX,
                len == buffer@.len(),
                num_frames == len as int / oci,
                num_frames * oci <= len,
                tl0.tracks.len() <= u32::MAX,
                match soloed_idx {
                    Some(s) => s < tl0.tracks.len() && tl0.tracks[s as int].soloed,
                    None => !tl0.any_soloed(),
                },
                forall|j: int|
                    0 <= j < f * oci ==> #[trigger] buffer@[j] == spec_mix(
                        tl0,
                        tl0.playhead + j / oci,
                        j % oci,
                        oci,
                    ),
                forall|j: int| f * oci <= j < len ==> #[trigger] buffer@[j] == 0,
            decreases num_frames - f,
        {
            proof {
                assert((f + 1) * oci == f * oci + oci) by (nonlinear_arith);
                assert((f + 1) * oci <= num_frames * oci) by (nonlinear_arith)
                    requires
                        f + 1 <= num_frames,
                        oci >= 1,
                ;
                assert forall|j: int| 0 <= j < buffer@.len() implies i64::MIN + 2
                    * crate::NORM_ONE <= #[trigger] buffer@[j] <= i64::MAX - 2
                    * crate::NORM_ONE by {
                    if j < f * oci {
                        vstd::arithmetic::div_mod::lemma_fundamental_div_mod(j, oci);
                        vstd::arithmetic::div_mod::lemma_mod_bound(j, oci);
                        vstd::arithmetic::div_mod::lemma_div_pos_is_pos(j, oci);
                        lemma_mix_value_in_range(
                            tl0,
                            tl0.tracks.len() as int,
                            tl0.playhead + j / oci,
                            j % oci,
                            oci,
                        );
                    }
                }
            }
            let ghost before_frame = buffer@;
            let ghost ph = self@.playhead;
            self.mix_frame(buffer, soloed_idx, f, output_channels);
            proof {
                assert forall|j: int| 0 <= j < (f + 1) * oci implies #[trigger] buffer@[j]
                    == spec_mix(tl0, tl0.playhead + j / oci, j % oci, oci) by {
                    if j >= f * oci {
                        let ch = j - f * oci;
                        vstd::arithmetic::div_mod::lemma_fundamental_div_mod_converse(
                            j,
                            oci,
                            f as int,
                            ch,
                        );
                        lemma_mix_same_tracks(
                            (TimelineView { playhead: (tl0.playhead + f) as u64, ..tl0 }),
                            tl0,
                            tl0.tracks.len() as int,
                            ph as int,
                            ch,
                            oci,
                        );
                        assert(buffer@[f * oci + ch] == spec_mix(tl0, ph as int, ch, oci));
                    } else {
                        assert(buffer@[j] == before_frame[j]);
                    }
                }
                assert forall|j: int| (f + 1) * oci <= j < len implies #[trigger] buffer@[j]
                    == 0 by {
                    assert(buffer@[j] == before_frame[j]);
                }
            }
            self.playhead_position = self.playhead_position + 1;
            f = f + 1;
        }
        proof {
            assert(f * oci == num_frames * oci);
            assert forall|j: int| 0 <= j < len implies #[trigger] buffer@[j] == (if j < (len
                as int / oci) * oci {
                spec_mix(tl0, tl0.playhead + j / oci, j % oci, oci)
            } else {
                0
            }) by {}
            assert(self@ =~= (TimelineView { playhead: self@.playhead, ..tl0 }));
        }
    }

    /// Render the next `frame_count` frames into a fresh interleaved buffer
    /// of `frame_count * output_channels` samples, advancing the playhead
    /// by exactly `frame_count`.
    pub fn render(&mut self, frame_count: usize, output_channels: u16) -> (r: Vec<i64>)
        requires
            old(self)@.wf(),
            frame_count * output_channels <= usize::MAX,
            old(self)@.playhead + frame_count <= u64::MAX,
        ensures
            final(self)@ == (TimelineView {
                playhead: final(self)@.playhead,
                ..old(self)@
            }),
            final(self)@.playhead == old(self)@.playhead + frame_count,
            r@.len() == frame_count * output_channels,
            forall|j: int|
                0 <= j < r@.len() ==> #[trigger] r@[j] == spec_mix(
                    old(self)@,
                    old(self)@.playhead + j / (output_channels as int),
                    j % (output_channels as int),
                    output_channels as int,
                ),
    {
        if output_channels == 0 {
            self.playhead_position = self.playhead_position + (frame_count as u64);
            proof {
                assert(self@ =~= (TimelineView { playhead: self@.playhead, ..old(self)@ }));
            }
            return Vec::new();
        }
        let total = frame_count * (output_channels as usize);
        let mut buf: Vec<i64> = Vec::new();
        let mut z: usize = 0;
        while z < total
            invariant
                z <= total,
                buf@.len() == z,
            decreases total - z,
        {
            buf.push(0);
            z = z + 1;
        }
        proof {
            vstd::arithmetic::div_mod::lemma_fundamental_div_mod_converse(
                total as int,
                output_channels as int,
                frame_count as int,
                0,
            );
        }
        self.process(&mut buf, output_channels);
        buf
    }

    /// Whether the audible-set cache currently holds this track's id.
    pub fn is_active(&self, track_id: TrackId) -> (r: bool)
        ensures
            r == self@.active.contains(track_id.0),
    {
        let n = self.active_track_ids.len();
        let mut k: usize = 0;
        while k < n
            invariant
                k <= n,
                n == self@.active.len(),
                forall|i: int| 0 <= i < k ==> self@.active[i] != track_id.0,
            decreases n - k,
        {
            if self.active_track_ids[k] == track_id.as_u32() {
                return true;
            }
            k = k + 1;
        }
        proof {
            assert forall|i: int| 0 <= i < self@.active.len() implies self@.active[i]
                != track_id.0 by {}
        }
        false
    }
}

} // verus!
