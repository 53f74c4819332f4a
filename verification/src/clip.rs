//! A time-placed, immutable audio clip.
//!
//! A clip owns a normalized, channel-interleaved sample buffer (mono or
//! stereo), anchored at a start position in timeline sample-frames. Once
//! constructed it never changes; it knows how to add its contribution for
//! one playhead frame into a caller-owned output buffer.

use vstd::prelude::*;

use crate::NORM_ONE;
use crate::error::AudioError;
use crate::utils::{norm_in_range, spec_clamp, tdiv, clamp_i64, div_trunc, lemma_tdiv_ordered};

verus! {

/// Mathematical model of a clip.
pub struct ClipView {
    pub data: Seq<i64>,
    pub channel: u16,
    pub start: u64,
}

impl ClipView {
    /// Clip length in frames: one frame holds one sample per channel.
    /// A trailing partial frame (from a truncated source) is not counted.
    pub open spec fn duration(self) -> int
        recommends
            self.channel >= 1,
    {
        self.data.len() as int / self.channel as int
    }

    /// First frame past the clip.
    pub open spec fn end(self) -> int {
        self.start as int + self.duration()
    }

    /// Whether the clip covers playhead frame `ph`.
    pub open spec fn active_at(self, ph: int) -> bool {
        self.start <= ph < self.end()
    }

    /// Structural invariant: mono or stereo, every sample normalized, and
    /// the end position representable in sample-frame arithmetic.
    pub open spec fn wf(self) -> bool {
        &&& self.channel == 1 || self.channel == 2
        &&& forall|i: int| 0 <= i < self.data.len() ==> norm_in_range(self.data[i] as int)
        &&& self.end() <= u64::MAX
    }

    /// What this clip adds to output channel `ch` (of `oc` interleaved
    /// output channels) at playhead frame `ph`, at `v` percent volume.
    ///
    /// A mono clip contributes its one sample, scaled, to every output
    /// channel. A stereo clip rendered to mono contributes the unattenuated
    /// sum of left and right, scaled; rendered to two or more channels it
    /// contributes left to channel 0, right to channel 1 and nothing
    /// elsewhere.
    pub open spec fn contribution(self, ph: int, v: int, ch: int, oc: int) -> int
        recommends
            self.wf(),
            self.active_at(ph),
            0 <= ch < oc,
    {
        let off = ph - self.start;
        if self.channel == 1 {
            tdiv(self.data[off] * v, 100)
        } else {
            let l = self.data[2 * off];
            let r = self.data[2 * off + 1];
            if oc == 1 {
                if ch == 0 {
                    tdiv((l + r) * v, 100)
                } else {
                    0
                }
            } else {
                if ch == 0 {
                    tdiv(l * v, 100)
                } else if ch == 1 {
                    tdiv(r * v, 100)
                } else {
                    0
                }
            }
        }
    }
}

/// What one `process_sample` call adds at buffer index `j`, when the frame
/// being mixed occupies indices `fi * oc .. fi * oc + oc`.
pub open spec fn spec_frame_add(cl: ClipView, ph: int, v: int, oc: int, fi: int, j: int) -> int {
    if fi * oc <= j < fi * oc + oc {
        cl.contribution(ph, v, j - fi * oc, oc)
    } else {
        0
    }
}

/// A clip's contribution to any channel is at most two full-scale samples
/// in magnitude (the stereo-to-mono sum of two normalized samples).
pub proof fn lemma_contribution_bound(cl: ClipView, ph: int, v: int, ch: int, oc: int)
    requires
        cl.wf(),
        cl.active_at(ph),
        0 <= v <= 100,
        0 <= ch < oc,
    ensures
        -2 * NORM_ONE <= cl.contribution(ph, v, ch, oc) <= 2 * NORM_ONE,
{
    let off = ph - cl.start;
    vstd::arithmetic::div_mod::lemma_div_nonincreasing(cl.data.len() as int, cl.channel as int);
    if cl.channel == 1 {
        lemma_scaled_bound(cl.data[off] as int, v, 1);
    } else {
        assert(2 * off + 1 < cl.data.len()) by (nonlinear_arith)
            requires
                off < cl.data.len() as int / 2,
                cl.data.len() as int / 2 * 2 <= cl.data.len(),
        ;
        assert(cl.data.len() as int / 2 * 2 <= cl.data.len()) by {
            vstd::arithmetic::div_mod::lemma_fundamental_div_mod(cl.data.len() as int, 2);
            vstd::arithmetic::div_mod::lemma_mod_bound(cl.data.len() as int, 2);
        }
        let l = cl.data[2 * off] as int;
        let r = cl.data[2 * off + 1] as int;
        lemma_scaled_bound(l + r, v, 2);
        lemma_scaled_bound(l, v, 1);
        lemma_scaled_bound(r, v, 1);
    }
}

/// `tdiv(s * v, 100)` keeps the magnitude of `s` whenever `v <= 100`.
proof fn lemma_scaled_bound(s: int, v: int, k: int)
    requires
        0 <= v <= 100,
        1 <= k,
        -k * NORM_ONE <= s <= k * NORM_ONE,
    ensures
        -k * NORM_ONE <= tdiv(s * v, 100) <= k * NORM_ONE,
        -(k * NORM_ONE * 100) <= s * v <= k * NORM_ONE * 100,
{
    assert(s * v <= k * NORM_ONE * 100) by (nonlinear_arith)
        requires
            0 <= v <= 100,
            s <= k * NORM_ONE,
            1 <= k,
    ;
    assert(-(k * NORM_ONE * 100) <= s * v) by (nonlinear_arith)
        requires
            0 <= v <= 100,
            -k * NORM_ONE <= s,
            1 <= k,
    ;
    lemma_tdiv_ordered(s * v, k * NORM_ONE * 100, 100);
    lemma_tdiv_ordered(-(k * NORM_ONE * 100), s * v, 100);
    assert(tdiv(k * NORM_ONE * 100, 100) == k * NORM_ONE) by (nonlinear_arith)
        requires
            k >= 1,
    ;
}

/// An immutable decoded audio buffer anchored on the timeline.
pub struct Clip {
    data: Vec<i64>,
    channel: u16,
    start_time_in_samples: u64,
}

impl View for Clip {
    type V = ClipView;

    closed spec fn view(&self) -> ClipView {
        ClipView { data: self.data@, channel: self.channel, start: self.start_time_in_samples }
    }
}

impl Clip {
    /// Build a clip from an already decoded (and, if needed, resampled)
    /// normalized buffer. Channel counts other than mono and stereo are
    /// rejected; samples are snapped into [-1.0, 1.0].
    pub fn from_decoded(data: Vec<i64>, channel: u16, start_time_in_samples: u64) -> (r: Result<
        Clip,
        AudioError,
    >)
        requires
            start_time_in_samples + data@.len() <= u64::MAX,
        ensures
            match r {
                Ok(c) => {
                    &&& channel == 1 || channel == 2
                    &&& c@.wf()
                    &&& c@.channel == channel
                    &&& c@.start == start_time_in_samples
                    &&& c@.data.len() == data@.len()
                    &&& forall|i: int|
                        0 <= i < data@.len() ==> c@.data[i] == spec_clamp(
                            data@[i] as int,
                            -NORM_ONE as int,
                            NORM_ONE as int,
                        )
                },
                Err(e) => {
                    &&& channel != 1 && channel != 2
                    &&& e == AudioError::UnsupportedChannelCount(channel)
                },
            },
    {
        if channel != 1 && channel != 2 {
            return Err(AudioError::UnsupportedChannelCount(channel));
        }
        let mut norm: Vec<i64> = Vec::new();
        let mut k: usize = 0;
        while k < data.len()
            invariant
                k <= data@.len(),
                norm@.len() == k,
                forall|i: int|
                    0 <= i < k ==> norm@[i] == spec_clamp(
                        data@[i] as int,
                        -NORM_ONE as int,
                        NORM_ONE as int,
                    ),
            decreases data@.len() - k,
        {
            let v = clamp_i64(data[k], -NORM_ONE, NORM_ONE);
            norm.push(v);
            k = k + 1;
        }
        let c = Clip { data: norm, channel, start_time_in_samples };
        proof {
            vstd::arithmetic::div_mod::lemma_div_nonincreasing(
                c@.data.len() as int,
                channel as int,
            );
            vstd::arithmetic::div_mod::lemma_div_pos_is_pos(c@.data.len() as int, channel as int);
        }
        Ok(c)
    }

    /// Clip length in frames.
    pub fn duration_in_samples(&self) -> (r: u64)
        requires
            self@.wf(),
        ensures
            r == self@.duration(),
    {
        self.data.len() as u64 / self.channel as u64
    }

    pub fn start_time_in_samples(&self) -> (r: u64)
        ensures
            r == self@.start,
    {
        self.start_time_in_samples
    }

    /// First frame past the clip.
    pub fn end_time_in_samples(&self) -> (r: u64)
        requires
            self@.wf(),
        ensures
            r == self@.end(),
    {
        proof {
            vstd::arithmetic::div_mod::lemma_div_pos_is_pos(
                self@.data.len() as int,
                self@.channel as int,
            );
        }
        self.start_time_in_samples + self.duration_in_samples()
    }

    pub fn is_mono(&self) -> (r: bool)
        ensures
            r == (self@.channel == 1),
    {
        self.channel == 1
    }

    pub fn is_stereo(&self) -> (r: bool)
        ensures
            r == (self@.channel == 2),
    {
        self.channel == 2
    }

    /// Total sample count, all channels interleaved.
    pub fn sample_count(&self) -> (r: usize)
        ensures
            r == self@.data.len(),
    {
        self.data.len()
    }

    /// Add `sample` into the slot of channel `channel` of frame
    /// `frame_index` of the interleaved output buffer; out-of-range slots
    /// are silently skipped.
    fn write_to_frame(
        buffer: &mut Vec<i64>,
        frame_index: usize,
        channel: usize,
        sample: i64,
        output_channels: u16,
    )
        requires
            frame_index * output_channels + channel <= usize::MAX,
            frame_index * output_channels + channel < old(buffer)@.len() ==> i64::MIN <= old(
                buffer,
            )@[frame_index * output_channels + channel] + sample <= i64::MAX,
        ensures
            final(buffer)@.len() == old(buffer)@.len(),
            forall|j: int|
                0 <= j < old(buffer)@.len() ==> final(buffer)@[j] == (if j == frame_index
                    * output_channels + channel {
                    old(buffer)@[j] + sample
                } else {
                    old(buffer)@[j] as int
                }),
    {
        let position = frame_index * (output_channels as usize) + channel;
        if position < buffer.len() {
            let v = buffer[position] + sample;
            buffer.set(position, v);
        }
    }

    /// Mix this clip's samples for one playhead frame into the output
    /// buffer, additively. The caller guarantees the playhead lies inside
    /// the clip; every write lands in frame `frame_index` of the buffer.
    pub fn process_sample(
        &self,
        buffer: &mut Vec<i64>,
        volume_percent: u32,
        output_channels: u16,
        playhead_position: u64,
        frame_index: usize,
    )
        requires
            self@.wf(),
            volume_percent <= 100,
            output_channels >= 1,
            self@.active_at(playhead_position as int),
            frame_index * output_channels + output_channels <= usize::MAX,
            forall|j: int|
                0 <= j < old(buffer)@.len() ==> i64::MIN + 2 * NORM_ONE <= #[trigger] old(
                    buffer,
                )@[j] <= i64::MAX - 2 * NORM_ONE,
        ensures
            final(buffer)@.len() == old(buffer)@.len(),
            forall|j: int|
                0 <= j < old(buffer)@.len() ==> final(buffer)@[j] == old(buffer)@[j]
                    + spec_frame_add(
                    self@,
                    playhead_position as int,
                    volume_percent as int,
                    output_channels as int,
                    frame_index as int,
                    j,
                ),
    {
        let ghost ph = playhead_position as int;
        let ghost v = volume_percent as int;
        let ghost oc = output_channels as int;
        let ghost fi = frame_index as int;
        let frame_within_clip: u64 = playhead_position - self.start_time_in_samples;
        let _data_len: usize = self.data.len();
        let ghost off = ph - self@.start;
        proof {
            vstd::arithmetic::div_mod::lemma_div_nonincreasing(
                self@.data.len() as int,
                self@.channel as int,
            );
        }
        if self.is_mono() {
            proof {
                vstd::arithmetic::div_mod::lemma_div_basics(self@.data.len() as int);
                assert(off < self@.data.len());
                assert(norm_in_range(self@.data[off] as int));
            }
            let sample = self.data[frame_within_clip as usize];
            proof {
                lemma_scaled_bound(sample as int, v, 1);
            }
            let scaled = div_trunc(sample * (volume_percent as i64), 100);
            let mut ch: usize = 0;
            while ch < output_channels as usize
                invariant
                    ch <= oc,
                    oc == output_channels as int,
                    oc >= 1,
                    fi == frame_index as int,
                    fi * oc + oc <= usize::MAX,
                    scaled == self@.contribution(ph, v, 0, oc),
                    -2 * NORM_ONE <= scaled <= 2 * NORM_ONE,
                    self@.wf(),
                    self@.channel == 1,
                    self@.active_at(ph),
                    0 <= v <= 100,
                    buffer@.len() == old(buffer)@.len(),
                    forall|j: int|
                        0 <= j < old(buffer)@.len() ==> i64::MIN + 2 * NORM_ONE <= #[trigger] old(
                            buffer,
                        )@[j] <= i64::MAX - 2 * NORM_ONE,
                    forall|j: int|
                        0 <= j < old(buffer)@.len() ==> buffer@[j] == old(buffer)@[j] + (if fi * oc
                            <= j < fi * oc + ch {
                            self@.contribution(ph, v, j - fi * oc, oc)
                        } else {
                            0
                        }),
                decreases oc - ch,
            {
                proof {
                    if fi * oc + ch < old(buffer)@.len() {
                        assert(buffer@[fi * oc + ch] == old(buffer)@[fi * oc + ch]);
                    }
                }
                Self::write_to_frame(buffer, frame_index, ch, scaled, output_channels);
                proof {
                    assert(self@.contribution(ph, v, ch as int, oc) == scaled);
                }
                ch = ch + 1;
            }
            proof {
                assert forall|j: int| 0 <= j < old(buffer)@.len() implies buffer@[j] == old(
                    buffer,
                )@[j] + spec_frame_add(self@, ph, v, oc, fi, j) by {
                    if fi * oc <= j < fi * oc + oc {
                        assert(self@.contribution(ph, v, j - fi * oc, oc) == self@.contribution(
                            ph,
                            v,
                            0,
                            oc,
                        ));
                    }
                }
            }
        } else {
            proof {
                assert(self@.data.len() as int / 2 * 2 <= self@.data.len()) by {
                    vstd::arithmetic::div_mod::lemma_fundamental_div_mod(
                        self@.data.len() as int,
                        2,
                    );
                    vstd::arithmetic::div_mod::lemma_mod_bound(self@.data.len() as int, 2);
                }
                assert(2 * off + 1 < self@.data.len()) by (nonlinear_arith)
                    requires
                        0 <= off < self@.data.len() as int / 2,
                        self@.data.len() as int / 2 * 2 <= self@.data.len(),
                ;
                assert(norm_in_range(self@.data[2 * off] as int));
                assert(norm_in_range(self@.data[2 * off + 1] as int));
            }
            let idx = 2 * (frame_within_clip as usize);
            let left = self.data[idx];
            let right = self.data[idx + 1];
            if output_channels == 1 {
                proof {
                    lemma_scaled_bound(left + right, v, 2);
                }
                let scaled = div_trunc((left + right) * (volume_percent as i64), 100);
                Self::write_to_frame(buffer, frame_index, 0, scaled, output_channels);
                proof {
                    assert forall|j: int| 0 <= j < old(buffer)@.len() implies buffer@[j] == old(
                        buffer,
                    )@[j] + spec_frame_add(self@, ph, v, oc, fi, j) by {}
                }
            } else {
                proof {
                    lemma_scaled_bound(left as int, v, 1);
                    lemma_scaled_bound(right as int, v, 1);
                }
                let left_scaled = div_trunc(left * (volume_percent as i64), 100);
                let right_scaled = div_trunc(right * (volume_percent as i64), 100);
                Self::write_to_frame(buffer, frame_index, 0, left_scaled, output_channels);
                proof {
                    if fi * oc + 1 < old(buffer)@.len() {
                        assert(buffer@[fi * oc + 1] == old(buffer)@[fi * oc + 1]);
                    }
                }
                Self::write_to_frame(buffer, frame_index, 1, right_scaled, output_channels);
                proof {
                    assert forall|j: int| 0 <= j < old(buffer)@.len() implies buffer@[j] == old(
                        buffer,
                    )@[j] + spec_frame_add(self@, ph, v, oc, fi, j) by {}
                }
            }
        }
    }
}

} // verus!
