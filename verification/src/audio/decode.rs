use crate::audio::data::AudioData;
use crate::float::format::Format;
use crate::float::number::{Double, Single};
use std::sync::Arc;
use vstd::arithmetic::div_mod::*;
use vstd::arithmetic::power2::*;
use vstd::prelude::*;

verus! {

/// The sample rate of a track that does not tell its own.
pub const ASSUMED_SAMPLE_RATE: u32 = 44100;

/// The number of channels of a track that does not tell its own.
pub const ASSUMED_CHANNELS: usize = 2;

/// What is known of a track before it is decoded.
#[derive(Clone, Copy, Debug, PartialEq, Eq, Structural)]
pub struct TrackInfo {
    pub id: u32,
    /// Whether the track has a codec at all.
    pub has_codec: bool,
    pub sample_rate: Option<u32>,
    /// The channels of the track, one bit each.
    pub channel_mask: Option<u32>,
}

/// The track that is decoded, and how its samples are read.
#[derive(Clone, Copy, Debug, PartialEq, Eq, Structural)]
pub struct TrackChoice {
    pub index: usize,
    pub id: u32,
    pub sample_rate: u32,
    pub channels: usize,
}

#[derive(Clone, Copy, Debug, PartialEq, Eq, Structural)]
pub enum DecodeError {
    NoTrack,
}

impl DecodeError {
    pub fn message(self) -> (r: String)
        ensures
            r@ == "No supported audio track found"@,
    {
        match self {
            DecodeError::NoTrack => "No supported audio track found".to_owned(),
        }
    }
}

/// How many binary digits of `n` are one.
pub open spec fn ones(n: nat) -> nat
    decreases n,
{
    if n == 0 {
        0
    } else {
        n % 2 + ones(n / 2)
    }
}

/// How many channels a mask stands for: `symphonia::core::audio::Channels::count`.
/// Twenty-six channels are defined, by the lowest bits; a bit above them counts
/// for nothing.
#[verifier::external_body]
pub(crate) fn channel_count(mask: u32) -> (r: usize)
    ensures
        r == ones(mask as nat % 0x400_0000),
{
    symphonia::core::audio::Channels::from_bits_truncate(mask).count()
}

/// How many channels a track is read with: at least one.
pub open spec fn channels_of(track: TrackInfo) -> nat {
    match track.channel_mask {
        Some(mask) => if ones(mask as nat % 0x400_0000) == 0 {
            1
        } else {
            ones(mask as nat % 0x400_0000)
        },
        None => ASSUMED_CHANNELS as nat,
    }
}

pub open spec fn sample_rate_of(track: TrackInfo) -> u32 {
    match track.sample_rate {
        Some(rate) => rate,
        None => ASSUMED_SAMPLE_RATE,
    }
}

/// Chooses the first track that has a codec.
pub fn select_track(tracks: &Vec<TrackInfo>) -> (r: Result<TrackChoice, DecodeError>)
    ensures
        match r {
            Ok(choice) => {
                &&& choice.index < tracks@.len()
                &&& tracks@[choice.index as int].has_codec
                &&& forall|i: int| 0 <= i < choice.index ==> !(#[trigger] tracks@[i]).has_codec
                &&& choice.id == tracks@[choice.index as int].id
                &&& choice.sample_rate == sample_rate_of(tracks@[choice.index as int])
                &&& choice.channels == channels_of(tracks@[choice.index as int])
            },
            Err(_) => forall|i: int|
                0 <= i < tracks@.len() ==> !(#[trigger] tracks@[i]).has_codec,
        },
{
    let mut i: usize = 0;
    while i < tracks.len()
        invariant
            i <= tracks@.len(),
            forall|j: int| 0 <= j < i ==> !(#[trigger] tracks@[j]).has_codec,
        decreases tracks@.len() - i,
    {
        let track: TrackInfo = tracks[i];
        if track.has_codec {
            let told: usize = match track.channel_mask {
                Some(mask) => channel_count(mask),
                None => ASSUMED_CHANNELS,
            };
            let channels: usize = if told < 1 {
                1
            } else {
                told
            };
            let sample_rate: u32 = match track.sample_rate {
                Some(rate) => rate,
                None => ASSUMED_SAMPLE_RATE,
            };
            return Ok(TrackChoice { index: i, id: track.id, sample_rate, channels });
        }
        i = i + 1;
    }
    Err(DecodeError::NoTrack)
}

/// What came of a step of decoding.
pub enum DecodeEvent {
    /// A packet of the track with this number was read.
    PacketRead(u32),
    /// The stream is over.
    EndOfStream,
    /// The reader asks for the decoder to be reset.
    ResetRequired,
    /// Reading failed otherwise.
    ReadFailed,
    /// The packet was decoded to these samples.
    Decoded(Vec<Single>),
    /// The packet was damaged.
    PacketDamaged,
    /// Decoding failed otherwise.
    DecodeFailed(String),
}

/// What to do next.
pub enum DecodeStep {
    ReadPacket,
    DecodePacket,
    /// Reset the decoder, then read a packet.
    ResetDecoder,
    Finish,
    Fail(String),
}

/// A track on its way to samples.
pub struct DecodeSession {
    pub track: TrackChoice,
    pub samples: Vec<Single>,
}

/// The samples that an event adds.
pub open spec fn event_samples(event: DecodeEvent) -> Seq<Single> {
    match event {
        DecodeEvent::Decoded(samples) => samples@,
        _ => Seq::<Single>::empty(),
    }
}

/// The samples that a run of events adds, in order.
pub open spec fn collected(events: Seq<DecodeEvent>) -> Seq<Single>
    decreases events.len(),
{
    if events.len() == 0 {
        Seq::<Single>::empty()
    } else {
        collected(events.drop_last()) + event_samples(events.last())
    }
}

/// Whether an event takes a session from one state to the other.
pub open spec fn stepped(before: DecodeSession, event: DecodeEvent, after: DecodeSession) -> bool {
    &&& after.track == before.track
    &&& after.samples@ == before.samples@ + event_samples(event)
}

/// What to do after an event: packets of other tracks and damaged packets are
/// passed over, a failure to read ends the stream, and a failure to decode ends it
/// all.
pub open spec fn answers(track: TrackChoice, event: DecodeEvent, next: DecodeStep) -> bool {
    match event {
        DecodeEvent::PacketRead(id) => if id == track.id {
            next is DecodePacket
        } else {
            next is ReadPacket
        },
        DecodeEvent::EndOfStream => next is Finish,
        DecodeEvent::ResetRequired => next is ResetDecoder,
        DecodeEvent::ReadFailed => next is Finish,
        DecodeEvent::Decoded(_) => next is ReadPacket,
        DecodeEvent::PacketDamaged => next is ReadPacket,
        DecodeEvent::DecodeFailed(reason) => next matches DecodeStep::Fail(told) && told@
            == reason@,
    }
}

/// Over a run of events a new session collects the decoded samples, all of them
/// and in order, and stays with its track.
pub proof fn law_run_collects_samples(states: Seq<DecodeSession>, events: Seq<DecodeEvent>)
    requires
        states.len() == events.len() + 1,
        states[0].samples@ == Seq::<Single>::empty(),
        forall|i: int|
            0 <= i < events.len() ==> stepped(states[i], #[trigger] events[i], states[i + 1]),
    ensures
        states.last().samples@ == collected(events),
        states.last().track == states[0].track,
    decreases events.len(),
{
    if events.len() > 0 {
        let shorter = events.drop_last();
        assert forall|i: int| 0 <= i < shorter.len() implies stepped(
            states.drop_last()[i],
            #[trigger] shorter[i],
            states.drop_last()[i + 1],
        ) by {
            assert(shorter[i] == events[i]);
        }
        law_run_collects_samples(states.drop_last(), shorter);
        assert(stepped(states[events.len() - 1], events[events.len() - 1], states.last()));
    }
}

/// How long a number of frames lasts, in seconds.
pub open spec fn duration_of(total_frames: int, sample_rate: int) -> Double {
    Double::of_integer(total_frames).over(Double::of_integer(sample_rate))
}

/// A file lasts as long as its frames at its sample rate, up to one rounding. `k`
/// bounds the duration.
pub proof fn law_duration_is_frames_over_rate(total_frames: int, sample_rate: int, k: nat)
    requires
        0 <= total_frames < 0x20_0000_0000_0000,
        0 < sample_rate < 0x1_0000_0000,
        k <= 60,
        total_frames * Format::Double.one() <= sample_rate * Format::Double.most(k),
    ensures
        duration_of(total_frames, sample_rate).is_finite(),
        Format::distance(
            sample_rate * duration_of(total_frames, sample_rate).value(),
            total_frames * Format::Double.one(),
        ) <= sample_rate * Format::Double.error(k),
{
    let one = Format::Double.one();
    let most = Format::Double.most(k);
    let error = Format::Double.error(k);
    Double::lemma_count(total_frames);
    Double::lemma_count(sample_rate);
    lemma_pow2_pos(1074);
    let frames = total_frames * one;
    assert(sample_rate * one > 0 && 0 <= frames * one <= (sample_rate * one) * most)
        by (nonlinear_arith)
        requires
            frames == total_frames * one,
            0 <= total_frames,
            frames <= sample_rate * most,
            sample_rate > 0,
            one > 0,
    ;
    Double::of_integer(total_frames).lemma_over(Double::of_integer(sample_rate), k);
    let secs = duration_of(total_frames, sample_rate).value();
    assert(Format::distance(sample_rate * secs, frames) <= sample_rate * error)
        by (nonlinear_arith)
        requires
            Format::distance((sample_rate * one) * secs, frames * one) <= (sample_rate * one)
                * error,
            one > 0,
    ;
}

impl DecodeSession {
    /// Starts on a track: the first thing to do is to read a packet.
    pub fn new(track: TrackChoice) -> (r: DecodeSession)
        ensures
            r.track == track,
            r.samples@ == Seq::<Single>::empty(),
    {
        DecodeSession { track, samples: Vec::new() }
    }

    /// Takes note of what happened and says what to do next.
    pub fn step(&mut self, event: DecodeEvent) -> (next: DecodeStep)
        ensures
            stepped(*old(self), event, *final(self)),
            answers(old(self).track, event, next),
    {
        let ghost before = self.samples@;
        assert(before + Seq::<Single>::empty() =~= before);
        match event {
            DecodeEvent::PacketRead(id) => if id == self.track.id {
                DecodeStep::DecodePacket
            } else {
                DecodeStep::ReadPacket
            },
            DecodeEvent::EndOfStream => DecodeStep::Finish,
            DecodeEvent::ResetRequired => DecodeStep::ResetDecoder,
            DecodeEvent::ReadFailed => DecodeStep::Finish,
            DecodeEvent::Decoded(samples) => {
                let mut more: Vec<Single> = samples;
                self.samples.append(&mut more);
                DecodeStep::ReadPacket
            },
            DecodeEvent::PacketDamaged => DecodeStep::ReadPacket,
            DecodeEvent::DecodeFailed(reason) => DecodeStep::Fail(reason),
        }
    }

    /// The decoded audio.
    pub fn finish(self) -> (r: AudioData)
        requires
            self.track.channels > 0,
        ensures
            r.samples@ == self.samples@,
            r.channels == self.track.channels,
            r.sample_rate == self.track.sample_rate,
            r.total_frames == self.samples@.len() / self.track.channels as nat,
            r.duration_secs == duration_of(r.total_frames as int, r.sample_rate as int),
    {
        let total: u64 = (self.samples.len() / self.track.channels) as u64;
        let duration_secs: Double = Double::from_integer(total).div(
            Double::from_integer(self.track.sample_rate as u64),
        );
        AudioData {
            samples: Arc::new(self.samples),
            channels: self.track.channels,
            sample_rate: self.track.sample_rate,
            total_frames: total,
            duration_secs,
        }
    }
}

/// A bit that is set counts once: setting one that was clear adds one.
pub proof fn law_ones_counts_bits(n: nat, j: nat)
    requires
        (n / pow2(j)) % 2 == 0,
    ensures
        ones(0) == 0,
        ones(n + pow2(j)) == ones(n) + 1,
    decreases j,
{
    if j == 0 {
        lemma2_to64();
        assert((n + 1) / 2 == n / 2);
        assert(n / pow2(0) == n);
    } else {
        let less = (j - 1) as nat;
        lemma_pow2_unfold(j);
        lemma_pow2_pos(less);
        let power = pow2(less);
        lemma_div_denominator(n as int, 2, power as int);
        assert(n / pow2(j) == (n / 2) / power);
        law_ones_counts_bits(n / 2, less);
        assert((n + 2 * power) / 2 == n / 2 + power);
        assert((n + 2 * power) % 2 == n % 2);
        assert(n + pow2(j) > 0);
    }
}

/// How a track is read: with the channels it tells, at least one, or two where it
/// tells none, and with the sample rate it tells, or 44100.
pub proof fn law_track_is_read_as_it_tells(track: TrackInfo)
    ensures
        track.channel_mask is None ==> channels_of(track) == 2,
        track.channel_mask matches Some(mask) ==> channels_of(track) >= 1 && (ones(
            mask as nat % 0x400_0000,
        ) >= 1 ==> channels_of(track) == ones(mask as nat % 0x400_0000)) && (ones(
            mask as nat % 0x400_0000,
        ) == 0 ==> channels_of(track) == 1),
        track.sample_rate is None ==> sample_rate_of(track) == 44100,
        track.sample_rate matches Some(rate) ==> sample_rate_of(track) == rate,
{
}

/// Decoding goes on past packets of other tracks and damaged ones, decodes every
/// packet of its own track, ends with the stream or when it cannot be read, and
/// fails only where a packet cannot be decoded, with the reason.
pub proof fn law_decoding_goes_on_as_long_as_it_can(
    track: TrackChoice,
    event: DecodeEvent,
    next: DecodeStep,
)
    requires
        answers(track, event, next),
    ensures
        next is DecodePacket <==> event is PacketRead && event->PacketRead_0 == track.id,
        next is ReadPacket <==> event is Decoded || event is PacketDamaged || event is PacketRead
            && event->PacketRead_0 != track.id,
        next is ResetDecoder <==> event is ResetRequired,
        next is Finish <==> event is EndOfStream || event is ReadFailed,
        next is Fail <==> event is DecodeFailed,
        next is Fail ==> next->Fail_0@ == event->DecodeFailed_0@,
{
}

/// Only a decoded packet adds samples, and all of its own.
pub proof fn law_only_decoded_packets_add_samples(event: DecodeEvent)
    ensures
        event matches DecodeEvent::Decoded(samples) ==> event_samples(event) == samples@,
        !(event is Decoded) ==> event_samples(event).len() == 0,
{
}

} // verus!
