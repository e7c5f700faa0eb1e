use crate::float::number::{Double, Single, SINGLE_INFINITY, SINGLE_NEG_INFINITY};
use vstd::arithmetic::div_mod::*;
use vstd::prelude::*;

verus! {

/// The range of a stretch of audio.
#[derive(Clone, Copy, Debug, PartialEq, Eq, Structural)]
pub struct Peak {
    pub min: Single,
    pub max: Single,
}

impl Peak {
    /// Silence.
    pub open spec fn silent() -> Peak {
        Peak { min: Single::of(0), max: Single::of(0) }
    }
}

impl Default for Peak {
    fn default() -> (r: Peak)
        ensures
            r == Peak::silent(),
    {
        Peak { min: Single { bits: 0 }, max: Single { bits: 0 } }
    }
}

/// The sum of the first `upto` channels of a frame, added up in order.
pub open spec fn channel_sum(samples: Seq<Single>, channels: int, frame: int, upto: nat) -> Single
    decreases upto,
{
    if upto == 0 {
        Single::of(0)
    } else {
        channel_sum(samples, channels, frame, (upto - 1) as nat).plus(
            samples[frame * channels + upto - 1],
        )
    }
}

/// A frame mixed to one channel: the mean of its channels.
pub open spec fn mono(samples: Seq<Single>, channels: int, frame: int) -> Single {
    channel_sum(samples, channels, frame, channels as nat).over(Single::of_integer(channels))
}

/// The least mono value of the frames from `start` up to `end`.
pub open spec fn lowest(samples: Seq<Single>, channels: int, start: int, end: int) -> Single
    decreases end - start,
{
    if end <= start {
        Single::of(SINGLE_INFINITY as int)
    } else {
        lowest(samples, channels, start, end - 1).lesser(mono(samples, channels, end - 1))
    }
}

/// The greatest mono value of the frames from `start` up to `end`.
pub open spec fn highest(samples: Seq<Single>, channels: int, start: int, end: int) -> Single
    decreases end - start,
{
    if end <= start {
        Single::of(SINGLE_NEG_INFINITY as int)
    } else {
        highest(samples, channels, start, end - 1).greater(mono(samples, channels, end - 1))
    }
}

/// How many frames go into one peak.
pub open spec fn frames_per_peak(total_frames: int, num_peaks: int) -> int {
    let share = Double::of_integer(total_frames).over(Double::of_integer(num_peaks)).whole_above(
        usize::MAX as int,
    );
    if share < 1 {
        1
    } else {
        share
    }
}

/// The peak number `i` of `num_peaks`: the range of its stretch of frames, or
/// silence where it has none.
pub open spec fn peak_at(samples: Seq<Single>, channels: int, num_peaks: int, i: int) -> Peak {
    if samples.len() == 0 || channels == 0 {
        Peak::silent()
    } else {
        let total = samples.len() as int / channels;
        let share = frames_per_peak(total, num_peaks);
        let start = i * share;
        let end = if (i + 1) * share < total {
            (i + 1) * share
        } else {
            total
        };
        let min = lowest(samples, channels, start, end);
        if start >= total || min == Single::of(SINGLE_INFINITY as int) {
            Peak::silent()
        } else {
            Peak { min, max: highest(samples, channels, start, end) }
        }
    }
}

fn mix_frame(samples: &[Single], channels: usize, frame: usize) -> (r: Single)
    requires
        channels > 0,
        frame < samples@.len() / channels as nat,
    ensures
        r == mono(samples@, channels as int, frame as int),
{
    let length: usize = samples.len();
    let ghost total = length as int / channels as int;
    proof {
        lemma_fundamental_div_mod(length as int, channels as int);
        lemma_mod_bound(length as int, channels as int);
        assert(frame * channels + channels <= length) by (nonlinear_arith)
            requires
                channels * total <= length,
                frame + 1 <= total,
                channels > 0,
        ;
        assert(0 <= frame * channels) by (nonlinear_arith)
            requires
                0 <= frame,
                0 < channels,
        ;
    }
    let base: usize = frame * channels;
    let mut mixed: Single = Single { bits: 0 };
    let mut ch: usize = 0;
    while ch < channels
        invariant
            ch <= channels,
            base == frame * channels,
            base + channels <= length,
            length == samples@.len(),
            mixed == channel_sum(samples@, channels as int, frame as int, ch as nat),
        decreases channels - ch,
    {
        mixed = mixed.add(samples[base + ch]);
        ch = ch + 1;
    }
    mixed.div(Single::from_integer(channels as u64))
}

fn peak_between(samples: &[Single], channels: usize, start: usize, end: usize) -> (r: Peak)
    requires
        channels > 0,
        start < end <= samples@.len() / channels as nat,
    ensures
        r == if lowest(samples@, channels as int, start as int, end as int) == Single::of(
            SINGLE_INFINITY as int,
        ) {
            Peak::silent()
        } else {
            Peak {
                min: lowest(samples@, channels as int, start as int, end as int),
                max: highest(samples@, channels as int, start as int, end as int),
            }
        },
{
    let mut min: Single = Single { bits: SINGLE_INFINITY };
    let mut max: Single = Single { bits: SINGLE_NEG_INFINITY };
    let mut frame: usize = start;
    while frame < end
        invariant
            channels > 0,
            start <= frame <= end <= samples@.len() / channels as nat,
            min == lowest(samples@, channels as int, start as int, frame as int),
            max == highest(samples@, channels as int, start as int, frame as int),
        decreases end - frame,
    {
        let mixed: Single = mix_frame(samples, channels, frame);
        min = min.min(mixed);
        max = max.max(mixed);
        frame = frame + 1;
    }
    if min.bits == SINGLE_INFINITY {
        Peak::default()
    } else {
        Peak { min, max }
    }
}

/// Computes `num_peaks` ranges over interleaved samples, all channels mixed to
/// one, for display.
pub fn compute_waveform_peaks(samples: &[Single], channels: usize, num_peaks: usize) -> (r: Vec<
    Peak,
>)
    ensures
        r@.len() == num_peaks,
        forall|i: int|
            0 <= i < num_peaks ==> #[trigger] r@[i] == peak_at(
                samples@,
                channels as int,
                num_peaks as int,
                i,
            ),
{
    let mut peaks: Vec<Peak> = Vec::new();
    if samples.len() == 0 || channels == 0 || num_peaks == 0 {
        while peaks.len() < num_peaks
            invariant
                peaks@.len() <= num_peaks,
                forall|i: int| 0 <= i < peaks@.len() ==> #[trigger] peaks@[i] == Peak::silent(),
            decreases num_peaks - peaks@.len(),
        {
            peaks.push(Peak::default());
        }
        return peaks;
    }
    let total: usize = samples.len() / channels;
    let rounded: usize = Double::from_integer(total as u64).div(
        Double::from_integer(num_peaks as u64),
    ).ceil_to_usize();
    let share: usize = if rounded < 1 {
        1
    } else {
        rounded
    };
    assert(share == frames_per_peak(total as int, num_peaks as int));
    let mut i: usize = 0;
    while i < num_peaks
        invariant
            i <= num_peaks,
            channels > 0,
            samples@.len() > 0,
            total == samples@.len() as int / channels as int,
            share == frames_per_peak(total as int, num_peaks as int),
            peaks@.len() == i,
            forall|j: int|
                0 <= j < i ==> #[trigger] peaks@[j] == peak_at(
                    samples@,
                    channels as int,
                    num_peaks as int,
                    j,
                ),
        decreases num_peaks - i,
    {
        assert(0 <= i * share && (i + 1) * share == i * share + share && i * share
            <= 0xffff_ffff_ffff_ffff * 0xffff_ffff_ffff_ffff) by (nonlinear_arith)
            requires
                0 <= i <= 0xffff_ffff_ffff_ffff,
                0 <= share <= 0xffff_ffff_ffff_ffff,
        ;
        let start: u128 = (i as u128) * (share as u128);
        let next: u128 = start + (share as u128);
        let peak: Peak = if start >= total as u128 {
            Peak::default()
        } else {
            let end: usize = if next < total as u128 {
                next as usize
            } else {
                total
            };
            assert(share >= 1);
            peak_between(samples, channels, start as usize, end)
        };
        peaks.push(peak);
        i = i + 1;
    }
    peaks
}

} // verus!
