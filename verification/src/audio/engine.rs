use crate::audio::data::{share_samples, AudioData};
use crate::float::number::{Double, Single, SINGLE_ONE, SINGLE_QUARTER, SINGLE_TWO};
use std::sync::Arc;
use vstd::prelude::*;

verus! {

/// The content of `seek_to` when no seek is pending. It is no number, so no
/// position has this bit pattern.
pub const NO_SEEK: u64 = 0xffff_ffff_ffff_ffff;

/// The sample rate reported against while nothing is loaded.
pub const DEFAULT_SAMPLE_RATE: u32 = 44100;

/// What stands in the atomic cells that the user interface and the audio
/// callback share: one field per cell, numbers as bit patterns.
#[derive(Clone, Copy, Debug, PartialEq, Eq, Structural)]
pub struct PlaybackAtomics {
    /// Current frame, in double precision.
    pub position: u64,
    pub playing: bool,
    pub loop_enabled: bool,
    /// First frame of the loop, in double precision.
    pub loop_start: u64,
    /// Frame at which the loop starts over, in double precision.
    pub loop_end: u64,
    /// Volume, in single precision, from 0 to 2.
    pub volume: u32,
    /// Playback speed, in single precision, from 0.25 to 2.
    pub speed: u32,
    /// Pending seek, in double precision, or `NO_SEEK`.
    pub seek_to: u64,
}

/// One write to one of the shared cells.
#[derive(Clone, Copy, Debug, PartialEq, Eq, Structural)]
pub enum AtomicStore {
    Position(u64),
    Playing(bool),
    LoopEnabled(bool),
    LoopStart(u64),
    LoopEnd(u64),
    Volume(u32),
    Speed(u32),
    SeekTo(u64),
    /// Clears the pending seek if it is still this one.
    TakeSeek(u64),
}

impl PlaybackAtomics {
    /// The cells after one write.
    pub open spec fn stored(self, store: AtomicStore) -> PlaybackAtomics {
        match store {
            AtomicStore::Position(bits) => PlaybackAtomics { position: bits, ..self },
            AtomicStore::Playing(on) => PlaybackAtomics { playing: on, ..self },
            AtomicStore::LoopEnabled(on) => PlaybackAtomics { loop_enabled: on, ..self },
            AtomicStore::LoopStart(bits) => PlaybackAtomics { loop_start: bits, ..self },
            AtomicStore::LoopEnd(bits) => PlaybackAtomics { loop_end: bits, ..self },
            AtomicStore::Volume(bits) => PlaybackAtomics { volume: bits, ..self },
            AtomicStore::Speed(bits) => PlaybackAtomics { speed: bits, ..self },
            AtomicStore::SeekTo(bits) => PlaybackAtomics { seek_to: bits, ..self },
            AtomicStore::TakeSeek(bits) => if self.seek_to == bits {
                PlaybackAtomics { seek_to: NO_SEEK, ..self }
            } else {
                self
            },
        }
    }

    /// The cells after a sequence of writes.
    pub open spec fn after(self, stores: Seq<AtomicStore>) -> PlaybackAtomics
        decreases stores.len(),
    {
        if stores.len() == 0 {
            self
        } else {
            self.after(stores.drop_last()).stored(stores.last())
        }
    }

    /// Writes one after the other are writes in one go.
    pub proof fn lemma_after_concat(self, first: Seq<AtomicStore>, second: Seq<AtomicStore>)
        ensures
            self.after(first + second) == self.after(first).after(second),
        decreases second.len(),
    {
        if second.len() == 0 {
            assert(first + second =~= first);
        } else {
            self.lemma_after_concat(first, second.drop_last());
            assert((first + second).drop_last() =~= first + second.drop_last());
        }
    }

    /// Stopped at the start, without a loop, at full volume and normal speed.
    pub fn new() -> (r: PlaybackAtomics)
        ensures
            r == (PlaybackAtomics {
                position: 0,
                playing: false,
                loop_enabled: false,
                loop_start: 0,
                loop_end: 0,
                volume: SINGLE_ONE,
                speed: SINGLE_ONE,
                seek_to: NO_SEEK,
            }),
    {
        PlaybackAtomics {
            position: 0,
            playing: false,
            loop_enabled: false,
            loop_start: 0,
            loop_end: 0,
            volume: SINGLE_ONE,
            speed: SINGLE_ONE,
            seek_to: NO_SEEK,
        }
    }

    /// Carries out one write.
    pub fn store(&mut self, store: AtomicStore)
        ensures
            *final(self) == old(self).stored(store),
    {
        match store {
            AtomicStore::Position(bits) => {
                self.position = bits;
            },
            AtomicStore::Playing(on) => {
                self.playing = on;
            },
            AtomicStore::LoopEnabled(on) => {
                self.loop_enabled = on;
            },
            AtomicStore::LoopStart(bits) => {
                self.loop_start = bits;
            },
            AtomicStore::LoopEnd(bits) => {
                self.loop_end = bits;
            },
            AtomicStore::Volume(bits) => {
                self.volume = bits;
            },
            AtomicStore::Speed(bits) => {
                self.speed = bits;
            },
            AtomicStore::SeekTo(bits) => {
                self.seek_to = bits;
            },
            AtomicStore::TakeSeek(bits) => {
                if self.seek_to == bits {
                    self.seek_to = NO_SEEK;
                }
            },
        }
    }

    /// Carries out a sequence of writes.
    pub fn store_all(&mut self, stores: &Vec<AtomicStore>)
        ensures
            *final(self) == old(self).after(stores@),
    {
        let ghost before = *self;
        assert(stores@.take(0) =~= Seq::<AtomicStore>::empty());
        for i in 0..stores.len()
            invariant
                *self == before.after(stores@.take(i as int)),
        {
            assert(stores@.take(i + 1).drop_last() =~= stores@.take(i as int));
            self.store(stores[i]);
        }
        assert(stores@.take(stores@.len() as int) =~= stores@);
    }
}

/// What the audio callback plays from.
pub struct BufferInfo {
    pub samples: Arc<Vec<Single>>,
    pub channels: usize,
    pub sample_rate: u32,
    pub total_frames: u64,
}

/// What the user interface shows of the engine.
#[derive(Clone, Copy, Debug, PartialEq, Eq, Structural)]
pub struct EngineState {
    pub position_secs: Double,
    pub is_playing: bool,
}

/// The user interface's side of the engine: the shared cells as last seen and
/// what is loaded. Each command says which cells it writes, in order, and keeps
/// `atomics` up to date with its own writes.
pub struct AudioEngine {
    pub atomics: PlaybackAtomics,
    pub buffer: Option<BufferInfo>,
}

/// What the output device plays by default.
#[derive(Clone, Copy, Debug, PartialEq, Eq, Structural)]
pub struct SupportedOutput {
    pub channels: u16,
    pub sample_rate: u32,
}

/// How the output stream is opened; the device chooses the buffer size.
#[derive(Clone, Copy, Debug, PartialEq, Eq, Structural)]
pub struct StreamSettings {
    pub channels: u16,
    pub sample_rate: u32,
}

#[derive(Clone, Copy, Debug, PartialEq, Eq, Structural)]
pub enum EngineError {
    NoOutputDevice,
}

impl EngineError {
    pub fn message(self) -> (r: String)
        ensures
            r@ == "No output audio device found"@,
    {
        match self {
            EngineError::NoOutputDevice => "No output audio device found".to_owned(),
        }
    }
}

impl BufferInfo {
    /// The sample rate as a number.
    pub open spec fn rate(self) -> Double {
        Double::of_integer(self.sample_rate as int)
    }

    /// The number of frames as a number.
    pub open spec fn end(self) -> Double {
        Double::of_integer(self.total_frames as int)
    }
}

impl AudioEngine {
    /// The frame a seek to `secs` goes to.
    pub open spec fn seek_frame(info: BufferInfo, secs: Double) -> Double {
        secs.times(info.rate()).greater(Double::of(0)).lesser(info.end())
    }

    /// The frame a loop boundary at `secs` stands for.
    pub open spec fn loop_frame(info: BufferInfo, secs: Double) -> Double {
        secs.times(info.rate()).clamped(Double::of(0), info.end())
    }

    /// What a seek writes.
    pub open spec fn seek_writes(buffer: Option<BufferInfo>, secs: Double) -> Seq<AtomicStore> {
        match buffer {
            Some(info) => seq![AtomicStore::SeekTo(AudioEngine::seek_frame(info, secs).bits)],
            None => seq![],
        }
    }

    /// What setting the loop writes.
    pub open spec fn loop_writes(
        buffer: Option<BufferInfo>,
        enabled: bool,
        start_secs: Double,
        end_secs: Double,
    ) -> Seq<AtomicStore> {
        match buffer {
            Some(info) => seq![
                AtomicStore::LoopStart(AudioEngine::loop_frame(info, start_secs).bits),
                AtomicStore::LoopEnd(AudioEngine::loop_frame(info, end_secs).bits),
                AtomicStore::LoopEnabled(enabled),
            ],
            None => seq![],
        }
    }

    /// What loading writes.
    pub open spec fn load_writes(total_frames: u64) -> Seq<AtomicStore> {
        seq![
            AtomicStore::Playing(false),
            AtomicStore::Position(0),
            AtomicStore::LoopEnabled(false),
            AtomicStore::LoopStart(0),
            AtomicStore::LoopEnd(Double::of_integer(total_frames as int).bits),
            AtomicStore::SeekTo(NO_SEEK),
        ]
    }

    /// A volume kept from 0 to 2.
    pub open spec fn kept_volume(vol: Single) -> Single {
        vol.clamped(Single::of(0), Single::of(SINGLE_TWO as int))
    }

    /// A speed kept from 0.25 to 2.
    pub open spec fn kept_speed(speed: Single) -> Single {
        speed.clamped(Single::of(SINGLE_QUARTER as int), Single::of(SINGLE_TWO as int))
    }

    /// An engine with nothing loaded, and how to open its output stream: with
    /// the device's own channels and sample rate.
    pub fn new(output: Option<SupportedOutput>) -> (r: Result<
        (AudioEngine, StreamSettings),
        EngineError,
    >)
        ensures
            match output {
                Some(supported) => r matches Ok(made) && {
                    &&& made.0.buffer is None
                    &&& made.0.atomics == (PlaybackAtomics {
                        position: 0,
                        playing: false,
                        loop_enabled: false,
                        loop_start: 0,
                        loop_end: 0,
                        volume: SINGLE_ONE,
                        speed: SINGLE_ONE,
                        seek_to: NO_SEEK,
                    })
                    &&& made.1.channels == supported.channels
                    &&& made.1.sample_rate == supported.sample_rate
                },
                None => r == Err::<(AudioEngine, StreamSettings), EngineError>(
                    EngineError::NoOutputDevice,
                ),
            },
    {
        match output {
            Some(supported) => Ok(
                (
                    AudioEngine { atomics: PlaybackAtomics::new(), buffer: None },
                    StreamSettings {
                        channels: supported.channels,
                        sample_rate: supported.sample_rate,
                    },
                ),
            ),
            None => Err(EngineError::NoOutputDevice),
        }
    }

    /// Takes over what the shared cells hold now.
    pub fn observe(&mut self, atomics: PlaybackAtomics)
        ensures
            final(self).atomics == atomics,
            final(self).buffer == old(self).buffer,
    {
        self.atomics = atomics;
    }

    fn write(&mut self, stores: &Vec<AtomicStore>)
        ensures
            final(self).atomics == old(self).atomics.after(stores@),
            final(self).buffer == old(self).buffer,
    {
        let mut atomics: PlaybackAtomics = self.atomics;
        atomics.store_all(stores);
        self.atomics = atomics;
    }

    /// Loads decoded audio and resets playback: stopped at the start, with no
    /// loop and no pending seek. Volume and speed stay.
    pub fn load(&mut self, data: &AudioData) -> (stores: Vec<AtomicStore>)
        ensures
            stores@ == AudioEngine::load_writes(data.total_frames),
            final(self).atomics == old(self).atomics.after(stores@),
            final(self).atomics == (PlaybackAtomics {
                position: 0,
                playing: false,
                loop_enabled: false,
                loop_start: 0,
                loop_end: Double::of_integer(data.total_frames as int).bits,
                seek_to: NO_SEEK,
                ..old(self).atomics
            }),
            final(self).buffer == Some(
                BufferInfo {
                    samples: data.samples,
                    channels: data.channels,
                    sample_rate: data.sample_rate,
                    total_frames: data.total_frames,
                },
            ),
    {
        let end: Double = Double::from_integer(data.total_frames);
        let stores: Vec<AtomicStore> = vec![
            AtomicStore::Playing(false),
            AtomicStore::Position(0),
            AtomicStore::LoopEnabled(false),
            AtomicStore::LoopStart(0),
            AtomicStore::LoopEnd(end.bits),
            AtomicStore::SeekTo(NO_SEEK),
        ];
        self.write(&stores);
        self.buffer = Some(
            BufferInfo {
                samples: share_samples(&data.samples),
                channels: data.channels,
                sample_rate: data.sample_rate,
                total_frames: data.total_frames,
            },
        );
        proof {
            reveal_with_fuel(PlaybackAtomics::after, 7);
            let all = stores@;
            assert(all.drop_last() =~= all.take(5));
            assert(all.take(5).drop_last() =~= all.take(4));
            assert(all.take(4).drop_last() =~= all.take(3));
            assert(all.take(3).drop_last() =~= all.take(2));
            assert(all.take(2).drop_last() =~= all.take(1));
            assert(all.take(1).drop_last() =~= all.take(0));
        }
        stores
    }

    pub fn play(&mut self) -> (stores: Vec<AtomicStore>)
        ensures
            stores@ == seq![AtomicStore::Playing(true)],
            final(self).atomics == old(self).atomics.after(stores@),
            final(self).atomics == (PlaybackAtomics { playing: true, ..old(self).atomics }),
            final(self).buffer == old(self).buffer,
    {
        let stores: Vec<AtomicStore> = vec![AtomicStore::Playing(true)];
        self.write(&stores);
        proof {
            reveal_with_fuel(PlaybackAtomics::after, 2);
        }
        stores
    }

    pub fn pause(&mut self) -> (stores: Vec<AtomicStore>)
        ensures
            stores@ == seq![AtomicStore::Playing(false)],
            final(self).atomics == old(self).atomics.after(stores@),
            final(self).atomics == (PlaybackAtomics { playing: false, ..old(self).atomics }),
            final(self).buffer == old(self).buffer,
    {
        let stores: Vec<AtomicStore> = vec![AtomicStore::Playing(false)];
        self.write(&stores);
        proof {
            reveal_with_fuel(PlaybackAtomics::after, 2);
        }
        stores
    }

    pub fn stop(&mut self) -> (stores: Vec<AtomicStore>)
        ensures
            stores@ == seq![AtomicStore::Playing(false), AtomicStore::Position(0)],
            final(self).atomics == old(self).atomics.after(stores@),
            final(self).atomics == (PlaybackAtomics {
                playing: false,
                position: 0,
                ..old(self).atomics
            }),
            final(self).buffer == old(self).buffer,
    {
        let stores: Vec<AtomicStore> = vec![AtomicStore::Playing(false), AtomicStore::Position(0)];
        self.write(&stores);
        proof {
            reveal_with_fuel(PlaybackAtomics::after, 3);
            assert(stores@.drop_last() =~= seq![AtomicStore::Playing(false)]);
        }
        stores
    }

    /// Requests a seek to a time in seconds, kept within what is loaded; the
    /// audio callback carries it out with its next buffer.
    pub fn seek(&mut self, secs: Double) -> (stores: Vec<AtomicStore>)
        ensures
            stores@ == AudioEngine::seek_writes(old(self).buffer, secs),
            final(self).atomics == old(self).atomics.after(stores@),
            final(self).atomics == match old(self).buffer {
                Some(info) => PlaybackAtomics {
                    seek_to: AudioEngine::seek_frame(info, secs).bits,
                    ..old(self).atomics
                },
                None => old(self).atomics,
            },
            final(self).buffer == old(self).buffer,
    {
        let stores: Vec<AtomicStore> = match &self.buffer {
            Some(info) => {
                let rate: Double = Double::from_integer(info.sample_rate as u64);
                let end: Double = Double::from_integer(info.total_frames);
                let zero: Double = Double { bits: 0 };
                let frame: Double = secs.mul(rate).max(zero).min(end);
                vec![AtomicStore::SeekTo(frame.bits)]
            },
            None => Vec::new(),
        };
        self.write(&stores);
        proof {
            reveal_with_fuel(PlaybackAtomics::after, 2);
        }
        stores
    }

    /// Sets the loop region, in seconds, kept within what is loaded, and
    /// switches the loop on or off.
    pub fn set_loop(&mut self, enabled: bool, start_secs: Double, end_secs: Double) -> (stores: Vec<
        AtomicStore,
    >)
        ensures
            stores@ == AudioEngine::loop_writes(old(self).buffer, enabled, start_secs, end_secs),
            final(self).atomics == old(self).atomics.after(stores@),
            final(self).atomics == match old(self).buffer {
                Some(info) => PlaybackAtomics {
                    loop_start: AudioEngine::loop_frame(info, start_secs).bits,
                    loop_end: AudioEngine::loop_frame(info, end_secs).bits,
                    loop_enabled: enabled,
                    ..old(self).atomics
                },
                None => old(self).atomics,
            },
            final(self).buffer == old(self).buffer,
    {
        let stores: Vec<AtomicStore> = match &self.buffer {
            Some(info) => {
                let rate: Double = Double::from_integer(info.sample_rate as u64);
                let end: Double = Double::from_integer(info.total_frames);
                let zero: Double = Double { bits: 0 };
                let first: Double = start_secs.mul(rate).clamp(zero, end);
                let last: Double = end_secs.mul(rate).clamp(zero, end);
                vec![
                    AtomicStore::LoopStart(first.bits),
                    AtomicStore::LoopEnd(last.bits),
                    AtomicStore::LoopEnabled(enabled),
                ]
            },
            None => Vec::new(),
        };
        self.write(&stores);
        proof {
            reveal_with_fuel(PlaybackAtomics::after, 4);
            if stores@.len() == 3 {
                let all = stores@;
                assert(all.drop_last() =~= all.take(2));
                assert(all.take(2).drop_last() =~= all.take(1));
                assert(all.take(1).drop_last() =~= all.take(0));
            }
        }
        stores
    }

    /// Sets the volume, kept from 0 to 2.
    pub fn set_volume(&mut self, vol: Single) -> (stores: Vec<AtomicStore>)
        ensures
            stores@ == seq![AtomicStore::Volume(AudioEngine::kept_volume(vol).bits)],
            final(self).atomics == old(self).atomics.after(stores@),
            final(self).atomics == (PlaybackAtomics {
                volume: AudioEngine::kept_volume(vol).bits,
                ..old(self).atomics
            }),
            final(self).buffer == old(self).buffer,
    {
        let kept: Single = vol.clamp(Single { bits: 0 }, Single { bits: SINGLE_TWO });
        let stores: Vec<AtomicStore> = vec![AtomicStore::Volume(kept.bits)];
        self.write(&stores);
        proof {
            reveal_with_fuel(PlaybackAtomics::after, 2);
        }
        stores
    }

    /// Sets the playback speed, kept from 0.25 to 2.
    pub fn set_speed(&mut self, speed: Single) -> (stores: Vec<AtomicStore>)
        ensures
            stores@ == seq![AtomicStore::Speed(AudioEngine::kept_speed(speed).bits)],
            final(self).atomics == old(self).atomics.after(stores@),
            final(self).atomics == (PlaybackAtomics {
                speed: AudioEngine::kept_speed(speed).bits,
                ..old(self).atomics
            }),
            final(self).buffer == old(self).buffer,
    {
        let kept: Single = speed.clamp(
            Single { bits: SINGLE_QUARTER },
            Single { bits: SINGLE_TWO },
        );
        let stores: Vec<AtomicStore> = vec![AtomicStore::Speed(kept.bits)];
        self.write(&stores);
        proof {
            reveal_with_fuel(PlaybackAtomics::after, 2);
        }
        stores
    }

    /// The sample rate that positions are reported against.
    pub open spec fn display_rate(self) -> int {
        match self.buffer {
            Some(info) => info.sample_rate as int,
            None => DEFAULT_SAMPLE_RATE as int,
        }
    }

    /// The position in seconds.
    pub open spec fn position_secs(self) -> Double {
        Double::of(self.atomics.position as int).over(Double::of_integer(self.display_rate()))
    }

    /// The position in seconds and whether playback is on.
    pub fn state(&self) -> (r: EngineState)
        ensures
            r.position_secs == self.position_secs(),
            r.is_playing == self.atomics.playing,
    {
        let rate: u32 = match &self.buffer {
            Some(info) => info.sample_rate,
            None => DEFAULT_SAMPLE_RATE,
        };
        let position: Double = Double { bits: self.atomics.position };
        EngineState {
            position_secs: position.div(Double::from_integer(rate as u64)),
            is_playing: self.atomics.playing,
        }
    }
}

} // verus!
