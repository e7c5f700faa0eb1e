use crate::audio::engine::{AtomicStore, BufferInfo, PlaybackAtomics, NO_SEEK};
use crate::float::number::{Double, Single, SINGLE_ONE};
use vstd::arithmetic::div_mod::*;
use vstd::prelude::*;

verus! {

/// What the callback finds when it looks for the loaded audio without waiting.
pub enum BufferAccess<'a> {
    /// Another file is being loaded this moment.
    Busy,
    /// Nothing is loaded.
    Empty,
    Ready(&'a BufferInfo),
}

/// How the position moves while one buffer is filled.
#[derive(Clone, Copy, Debug, PartialEq, Eq, Structural)]
pub struct Transport {
    /// Frames of the file that go by per frame of output.
    pub rate: Double,
    /// Whether `end` leads back to `loop_start`.
    pub looping: bool,
    pub loop_start: Double,
    /// The frame that is not played any more.
    pub end: Double,
    pub volume: Single,
}

impl Transport {
    /// The movement that the shared cells ask for.
    pub open spec fn of(atomics: PlaybackAtomics, info: BufferInfo, out_sr: u32) -> Transport {
        let loop_start = Double::of(atomics.loop_start as int);
        let loop_end = Double::of(atomics.loop_end as int);
        let looping = atomics.loop_enabled && loop_start.less(loop_end);
        Transport {
            rate: Single::of(atomics.speed as int).widened().times(info.rate()).over(
                Double::of_integer(out_sr as int),
            ),
            looping,
            loop_start,
            end: if looping {
                loop_end
            } else {
                info.end()
            },
            volume: Single::of(atomics.volume as int),
        }
    }

    /// The position a frame is played from: at the end of a loop, its start.
    pub open spec fn settled(self, position: Double) -> Double {
        if self.looping && self.end.at_most(position) {
            self.loop_start
        } else {
            position
        }
    }

    /// Whether the file is over at this position.
    pub open spec fn finished(self, position: Double) -> bool {
        !self.looping && self.end.at_most(position)
    }

    /// The position reached after `frames` frames of output.
    pub open spec fn position_at(self, start: Double, frames: nat) -> Double
        decreases frames,
    {
        if frames == 0 {
            start
        } else {
            self.settled(self.position_at(start, (frames - 1) as nat)).plus(self.rate)
        }
    }

    /// How many of `frames` frames of output are played before the file is over.
    pub open spec fn played(self, start: Double, frames: nat) -> nat
        decreases frames,
    {
        if frames == 0 {
            0
        } else {
            let before = self.played(start, (frames - 1) as nat);
            if before < frames - 1 {
                before
            } else if self.finished(self.position_at(start, before)) {
                before
            } else {
                frames
            }
        }
    }

    /// The sample of one output channel at a position: the two nearest frames
    /// of the file, weighted by their distance, times the volume.
    pub open spec fn mixed(self, info: BufferInfo, position: Double, channel: int) -> Single {
        let first = position.whole(usize::MAX as int);
        let part = position.minus(Double::of_integer(first)).narrowed();
        let source = channel % info.channels as int;
        let near = sample_at(info, first * info.channels + source);
        let far = sample_at(info, (first + 1) * info.channels + source);
        near.times(Single::of(SINGLE_ONE as int).minus(part)).plus(far.times(part)).times(
            self.volume,
        )
    }

    pub fn new(atomics: &PlaybackAtomics, info: &BufferInfo, out_sr: u32) -> (r: Transport)
        ensures
            r == Transport::of(*atomics, *info, out_sr),
    {
        let loop_start: Double = Double { bits: atomics.loop_start };
        let loop_end: Double = Double { bits: atomics.loop_end };
        let looping: bool = atomics.loop_enabled && loop_start.lt(loop_end);
        let speed: Double = Single { bits: atomics.speed }.to_double();
        let rate: Double = speed.mul(Double::from_integer(info.sample_rate as u64)).div(
            Double::from_integer(out_sr as u64),
        );
        let end: Double = if looping {
            loop_end
        } else {
            Double::from_integer(info.total_frames)
        };
        Transport { rate, looping, loop_start, end, volume: Single { bits: atomics.volume } }
    }

    fn mix(&self, info: &BufferInfo, position: Double, channel: usize) -> (r: Single)
        requires
            info.channels > 0,
        ensures
            r == self.mixed(*info, position, channel as int),
    {
        let first: usize = position.to_usize();
        let part: Single = position.sub(Double::from_integer(first as u64)).to_single();
        let source: usize = channel % info.channels;
        let near: Single = sample(info, first as u128, source);
        let far: Single = sample(info, first as u128 + 1, source);
        let one: Single = Single { bits: SINGLE_ONE };
        near.mul(one.sub(part)).add(far.mul(part)).mul(self.volume)
    }

    /// Every frame counted as played starts before the end, and where fewer
    /// than all are played, the next one does not.
    pub proof fn lemma_played(self, start: Double, frames: nat)
        ensures
            self.played(start, frames) <= frames,
            forall|i: nat|
                i < self.played(start, frames) ==> !self.finished(
                    #[trigger] self.position_at(start, i),
                ),
            self.played(start, frames) < frames ==> self.finished(
                self.position_at(start, self.played(start, frames)),
            ),
        decreases frames,
    {
        if frames > 0 {
            self.lemma_played(start, (frames - 1) as nat);
        }
    }

    /// The first frame that does not play ends the count, however many follow.
    proof fn lemma_played_stays(self, start: Double, at: nat, frames: nat)
        requires
            at < frames,
            self.played(start, at) == at,
            self.finished(self.position_at(start, at)),
        ensures
            self.played(start, frames) == at,
        decreases frames,
    {
        if frames > at + 1 {
            self.lemma_played_stays(start, at, (frames - 1) as nat);
        }
    }
}

/// A sample of the file, or silence past its end.
pub open spec fn sample_at(info: BufferInfo, index: int) -> Single {
    if 0 <= index < info.samples@.len() {
        info.samples@[index]
    } else {
        Single::of(0)
    }
}

fn sample(info: &BufferInfo, frame: u128, source: usize) -> (r: Single)
    requires
        frame <= 0x1_0000_0000_0000_0000,
        source < info.channels,
    ensures
        r == sample_at(*info, frame * info.channels + source),
{
    let channels: u128 = info.channels as u128;
    assert(0 <= frame * channels <= 0x1_0000_0000_0000_0000 * 0xffff_ffff_ffff_ffff)
        by (nonlinear_arith)
        requires
            0 <= frame <= 0x1_0000_0000_0000_0000,
            0 <= channels <= 0xffff_ffff_ffff_ffff,
    ;
    let index: u128 = frame * channels + source as u128;
    if index < info.samples.len() as u128 {
        info.samples[index as usize]
    } else {
        Single { bits: 0 }
    }
}

/// Writes silence from an index on.
fn silence(output: &mut Vec<Single>, from: usize)
    requires
        from <= old(output)@.len(),
    ensures
        final(output)@.len() == old(output)@.len(),
        forall|j: int|
            0 <= j < old(output)@.len() ==> #[trigger] final(output)@[j] == if j < from {
                old(output)@[j]
            } else {
                Single::of(0)
            },
{
    let ghost before = output@;
    let mut i: usize = from;
    while i < output.len()
        invariant
            from <= i <= output@.len(),
            output@.len() == before.len(),
            forall|j: int|
                0 <= j < before.len() ==> #[trigger] output@[j] == if from <= j < i {
                    Single::of(0)
                } else {
                    before[j]
                },
        decreases output@.len() - i,
    {
        output.set(i, Single { bits: 0 });
        i = i + 1;
    }
}

/// Where playback starts in this buffer: at a pending seek, if there is one.
pub open spec fn start_position(atomics: PlaybackAtomics) -> Double {
    if atomics.seek_to != NO_SEEK {
        Double::of(atomics.seek_to as int)
    } else {
        Double::of(atomics.position as int)
    }
}

/// The writes that carry out a pending seek.
pub open spec fn seek_stores(atomics: PlaybackAtomics) -> Seq<AtomicStore> {
    if atomics.seek_to != NO_SEEK {
        seq![AtomicStore::Position(atomics.seek_to), AtomicStore::TakeSeek(atomics.seek_to)]
    } else {
        seq![]
    }
}

/// How many frames of output are played from what is loaded.
pub open spec fn frames_played(
    atomics: PlaybackAtomics,
    info: BufferInfo,
    out_sr: u32,
    frames: nat,
) -> nat {
    Transport::of(atomics, info, out_sr).played(start_position(atomics), frames)
}

/// The writes that carry out a pending seek: the position, and that the seek is
/// done with unless another was asked for meanwhile.
pub fn take_seek(atomics: &PlaybackAtomics) -> (stores: Vec<AtomicStore>)
    ensures
        stores@ == seek_stores(*atomics),
{
    let mut stores: Vec<AtomicStore> = Vec::new();
    push_seek(atomics, &mut stores);
    stores
}

fn push_seek(atomics: &PlaybackAtomics, stores: &mut Vec<AtomicStore>)
    ensures
        final(stores)@ == old(stores)@ + seek_stores(*atomics),
{
    let ghost before = stores@;
    if atomics.seek_to != NO_SEEK {
        stores.push(AtomicStore::Position(atomics.seek_to));
        stores.push(AtomicStore::TakeSeek(atomics.seek_to));
    }
    assert(stores@ =~= before + seek_stores(*atomics));
}

impl Transport {
    /// What a buffer of `frames` frames holds at an index afterwards, where it held
    /// `before`: the frames that are played, one after the other, and silence behind
    /// them once the file is over.
    pub open spec fn filled_at(
        self,
        info: BufferInfo,
        start: Double,
        out_channels: int,
        frames: nat,
        before: Single,
        j: int,
    ) -> Single {
        let played = self.played(start, frames);
        if j < played * out_channels {
            self.mixed(
                info,
                self.settled(self.position_at(start, (j / out_channels) as nat)),
                j % out_channels,
            )
        } else if played < frames {
            Single::of(0)
        } else {
            before
        }
    }

    /// What is written after a buffer of `frames` frames: where it came to, and
    /// once the file is over, that playback is off and back at the start.
    pub open spec fn end_stores(self, start: Double, frames: nat) -> Seq<AtomicStore> {
        let played = self.played(start, frames);
        let reached = self.position_at(start, played);
        if played < frames {
            seq![
                AtomicStore::Position(reached.bits),
                AtomicStore::Playing(false),
                AtomicStore::Position(0),
            ]
        } else {
            seq![AtomicStore::Position(reached.bits)]
        }
    }
}

/// What the audio callback puts at an index of a buffer of `len` samples that held
/// `before` there.
pub open spec fn output_at(
    atomics: PlaybackAtomics,
    info: Option<BufferInfo>,
    out_sr: u32,
    out_channels: nat,
    len: nat,
    before: Single,
    j: int,
) -> Single {
    match info {
        Some(info) if atomics.playing => Transport::of(atomics, info, out_sr).filled_at(
            info,
            start_position(atomics),
            out_channels as int,
            len / out_channels,
            before,
            j,
        ),
        _ => Single::of(0),
    }
}

/// What the audio callback writes for a buffer of `len` samples.
pub open spec fn callback_stores(
    atomics: PlaybackAtomics,
    info: Option<BufferInfo>,
    out_sr: u32,
    out_channels: nat,
    len: nat,
) -> Seq<AtomicStore> {
    match info {
        Some(info) if atomics.playing => seek_stores(atomics) + Transport::of(
            atomics,
            info,
            out_sr,
        ).end_stores(start_position(atomics), len / out_channels),
        _ => seek_stores(atomics),
    }
}

/// The audio at hand, if there is any.
pub open spec fn at_hand(buffer: BufferAccess<'_>) -> Option<BufferInfo> {
    match buffer {
        BufferAccess::Ready(info) => Some(*info),
        _ => None,
    }
}

/// Fills one buffer of interleaved output and adds the writes to the shared cells
/// to `stores`.
///
/// A pending seek is carried out first. While paused, or without audio at hand,
/// the output is silence. Otherwise frames are mixed from the file until the
/// buffer is full or the file is over; in the second case the rest is silence,
/// and playback stops and returns to the start. A part of a frame at the end of
/// a buffer is left as it is while frames last.
pub fn audio_callback(
    output: &mut Vec<Single>,
    out_channels: usize,
    out_sr: u32,
    atomics: &PlaybackAtomics,
    buffer: BufferAccess<'_>,
    stores: &mut Vec<AtomicStore>,
)
    requires
        atomics.playing && buffer is Ready ==> out_channels > 0 && (buffer->Ready_0.channels > 0
            || frames_played(
            *atomics,
            *buffer->Ready_0,
            out_sr,
            (old(output)@.len() / out_channels as nat),
        ) == 0),
    ensures
        final(output)@.len() == old(output)@.len(),
        final(stores)@ == old(stores)@ + callback_stores(
            *atomics,
            at_hand(buffer),
            out_sr,
            out_channels as nat,
            old(output)@.len(),
        ),
        forall|j: int|
            0 <= j < final(output)@.len() ==> #[trigger] final(output)@[j] == output_at(
                *atomics,
                at_hand(buffer),
                out_sr,
                out_channels as nat,
                old(output)@.len(),
                old(output)@[j],
                j,
            ),
{
    let ghost before = stores@;
    push_seek(atomics, stores);
    let position: Double = if atomics.seek_to != NO_SEEK {
        Double { bits: atomics.seek_to }
    } else {
        Double { bits: atomics.position }
    };
    if !atomics.playing {
        silence(output, 0);
        return;
    }
    let info: &BufferInfo = match buffer {
        BufferAccess::Ready(info) => info,
        BufferAccess::Busy => {
            silence(output, 0);
            return;
        },
        BufferAccess::Empty => {
            silence(output, 0);
            return;
        },
    };
    let transport: Transport = Transport::new(atomics, info, out_sr);
    let frames: usize = output.len() / out_channels;
    let (played, reached) = play_frames(output, out_channels, frames, &transport, info, position);
    stores.push(AtomicStore::Position(reached.bits));
    if played < frames {
        silence(output, played * out_channels);
        stores.push(AtomicStore::Playing(false));
        stores.push(AtomicStore::Position(0));
    }
    assert(stores@ =~= before + seek_stores(*atomics) + transport.end_stores(
        position,
        frames as nat,
    ));
}

/// Mixes frames until the buffer is full or the file is over.
fn play_frames(
    output: &mut Vec<Single>,
    out_channels: usize,
    frames: usize,
    transport: &Transport,
    info: &BufferInfo,
    start: Double,
) -> (r: (usize, Double))
    requires
        out_channels > 0,
        frames == old(output)@.len() / out_channels as nat,
        info.channels > 0 || transport.played(start, frames as nat) == 0,
    ensures
        r.0 == transport.played(start, frames as nat),
        r.0 <= frames,
        r.0 * out_channels <= old(output)@.len(),
        r.1 == transport.position_at(start, r.0 as nat),
        final(output)@.len() == old(output)@.len(),
        forall|j: int|
            0 <= j < final(output)@.len() ==> #[trigger] final(output)@[j] == if j < r.0
                * out_channels {
                transport.mixed(
                    *info,
                    transport.settled(
                        transport.position_at(start, (j / out_channels as int) as nat),
                    ),
                    j % out_channels as int,
                )
            } else {
                old(output)@[j]
            },
{
    let ghost before = output@;
    let mut position: Double = start;
    let mut frame: usize = 0;
    let mut over: bool = false;
    proof {
        lemma_fundamental_div_mod(output@.len() as int, out_channels as int);
        lemma_mod_bound(output@.len() as int, out_channels as int);
        assert(frames * out_channels == out_channels * frames) by (nonlinear_arith);
        assert(0 * out_channels == 0);
    }
    while frame < frames && !over
        invariant
            frame <= frames,
            frames * out_channels <= output@.len(),
            output@.len() == before.len(),
            out_channels > 0,
            info.channels > 0 || transport.played(start, frames as nat) == 0,
            position == transport.position_at(start, frame as nat),
            transport.played(start, frame as nat) == frame,
            over ==> frame < frames && transport.finished(position),
            forall|j: int|
                0 <= j < output@.len() ==> #[trigger] output@[j] == if j < frame * out_channels {
                    transport.mixed(
                        *info,
                        transport.settled(
                            transport.position_at(start, (j / out_channels as int) as nat),
                        ),
                        j % out_channels as int,
                    )
                } else {
                    before[j]
                },
        decreases
            frames - frame,
            if over {
                0int
            } else {
                1int
            },
    {
        let at_end: bool = transport.end.le(position);
        if at_end && !transport.looping {
            over = true;
        } else {
            let settled: Double = if at_end {
                transport.loop_start
            } else {
                position
            };
            proof {
                transport.lemma_played(start, frames as nat);
                transport.lemma_played(start, (frame + 1) as nat);
                if transport.played(start, frames as nat) == 0 {
                    // A first frame that plays would have been counted.
                    lemma_counted(*transport, start, frame as nat, frames as nat);
                }
            }
            play_frame(output, out_channels, frame, frames, transport, info, settled);
            position = settled.add(transport.rate);
            proof {
                lemma_frame_indices(frame as int, out_channels as int);
            }
            frame = frame + 1;
        }
    }
    proof {
        if over {
            transport.lemma_played_stays(start, frame as nat, frames as nat);
        }
        assert(frame * out_channels <= frames * out_channels) by (nonlinear_arith)
            requires
                frame <= frames,
        ;
    }
    (frame, position)
}

/// A count of frames played goes on as long as frames play.
proof fn lemma_counted(transport: Transport, start: Double, at: nat, frames: nat)
    requires
        at < frames,
        transport.played(start, at) == at,
        !transport.finished(transport.position_at(start, at)),
    ensures
        transport.played(start, frames) > at,
    decreases frames,
{
    if frames > at + 1 {
        lemma_counted(transport, start, at, (frames - 1) as nat);
    }
}

/// The frame and the channel of the samples of one output frame.
proof fn lemma_frame_indices(frame: int, channels: int)
    requires
        frame >= 0,
        channels > 0,
    ensures
        (frame + 1) * channels == frame * channels + channels,
        forall|j: int|
            frame * channels <= j < frame * channels + channels ==> #[trigger] (j / channels)
                == frame && j % channels == j - frame * channels,
{
    assert((frame + 1) * channels == frame * channels + channels) by (nonlinear_arith);
    assert forall|j: int|
        frame * channels <= j < frame * channels + channels implies #[trigger] (j / channels)
        == frame && j % channels == j - frame * channels by {
        lemma_fundamental_div_mod_converse(j, channels, frame, j - frame * channels);
    }
}

/// Mixes one frame of output.
fn play_frame(
    output: &mut Vec<Single>,
    out_channels: usize,
    frame: usize,
    frames: usize,
    transport: &Transport,
    info: &BufferInfo,
    position: Double,
)
    requires
        info.channels > 0,
        frame < frames,
        frames * out_channels <= old(output)@.len(),
    ensures
        final(output)@.len() == old(output)@.len(),
        forall|j: int|
            0 <= j < final(output)@.len() ==> #[trigger] final(output)@[j] == if frame
                * out_channels <= j < frame * out_channels + out_channels {
                transport.mixed(*info, position, j - frame * out_channels)
            } else {
                old(output)@[j]
            },
{
    let ghost before = output@;
    let length: usize = output.len();
    assert(frame * out_channels + out_channels <= frames * out_channels) by (nonlinear_arith)
        requires
            frame + 1 <= frames,
    ;
    assert(0 <= frame * out_channels) by (nonlinear_arith)
        requires
            0 <= frame,
            0 <= out_channels,
    ;
    let base: usize = frame * out_channels;
    let mut channel: usize = 0;
    while channel < out_channels
        invariant
            info.channels > 0,
            channel <= out_channels,
            base == frame * out_channels,
            base + out_channels <= length,
            output@.len() == before.len() == length,
            forall|j: int|
                0 <= j < output@.len() ==> #[trigger] output@[j] == if base <= j < base + channel {
                    transport.mixed(*info, position, j - base)
                } else {
                    before[j]
                },
        decreases out_channels - channel,
    {
        let mixed: Single = transport.mix(info, position, channel);
        output.set(base + channel, mixed);
        channel = channel + 1;
    }
}

} // verus!
