use crate::audio::data::AudioData;
use crate::audio::engine::{AtomicStore, AudioEngine, BufferInfo, PlaybackAtomics, NO_SEEK};
use crate::audio::peaks::{compute_waveform_peaks, Peak};
use crate::browser::{scan_directory, DirItem, FileEntry};
use crate::clock::format_duration;
use crate::float::number::{Double, Single, SINGLE_ONE};
use crate::path::display_name;
use crate::text::decimal_text;
use crate::theme::{Theme, ThemeVisuals};
use vstd::prelude::*;
use vstd::string::*;

verus! {

/// How many peaks a waveform is drawn from.
pub const NUM_PEAKS: usize = 2000;

/// The loop region and a selection being dragged over the waveform.
#[derive(Clone, Copy, Debug, PartialEq, Eq, Structural)]
pub struct LoopControl {
    /// Where a drag began, from 0 at the left edge to 1 at the right.
    pub drag_start: Option<Single>,
    /// Where a drag has come to.
    pub drag_current: Option<Single>,
    pub loop_enabled: bool,
    pub loop_start_secs: Double,
    pub loop_end_secs: Double,
}

/// The state of the player.
pub struct App {
    pub audio: AudioEngine,
    pub current_dir: Vec<u8>,
    pub dir_entries: Vec<FileEntry>,
    pub selected_file: Option<Vec<u8>>,
    pub loaded_file: Option<Vec<u8>>,
    pub waveform_peaks: Vec<Peak>,
    pub audio_duration: Double,
    pub is_loading: bool,
    pub control: LoopControl,
    pub volume: Single,
    pub speed: Single,
    pub status: String,
    /// The colour scheme.
    pub theme: Theme,
}

/// What is to be done once the result of decoding has been looked at.
pub enum PollAction {
    Nothing,
    Failed,
    /// Write `reset`, hand the loaded buffer to the audio callback, write `start`.
    Loaded { reset: Vec<AtomicStore>, start: Vec<AtomicStore> },
}

/// What is to be done after a click on a line of the file browser.
pub enum BrowserAction {
    Nothing,
    /// Read this directory and show it.
    OpenDirectory(Vec<u8>),
    /// Write the stores and decode this file.
    LoadFile { path: Vec<u8>, stores: Vec<AtomicStore> },
}

/// The status line while a file is being loaded.
pub open spec fn loading_text(name: Seq<char>) -> Seq<char> {
    "Loading "@ + name + "…"@
}

/// The status line of a loaded file.
pub open spec fn loaded_text(
    name: Seq<char>,
    duration: Double,
    sample_rate: nat,
    channels: nat,
) -> Seq<char> {
    name + "  •  "@ + crate::clock::clock_text(duration) + "  •  "@ + crate::text::decimal(
        sample_rate,
    ) + " Hz  •  "@ + crate::text::decimal(channels) + " ch"@
}

/// Writes the status line of a file being loaded.
pub fn loading_status(name: &str) -> (r: String)
    ensures
        r@ == loading_text(name@),
{
    let mut text: String = "Loading ".to_owned();
    text.append(name);
    text.append("…");
    text
}

/// Writes the status line of a loaded file.
pub fn loaded_status(name: &str, duration: Double, sample_rate: u32, channels: usize) -> (r: String)
    ensures
        r@ == loaded_text(name@, duration, sample_rate as nat, channels as nat),
{
    let mut text: String = name.to_owned();
    text.append("  •  ");
    text.append(format_duration(duration).as_str());
    text.append("  •  ");
    text.append(decimal_text(sample_rate as u64).as_str());
    text.append(" Hz  •  ");
    text.append(decimal_text(channels as u64).as_str());
    text.append(" ch");
    text
}

/// Writes the status line of a file that could not be loaded.
pub fn error_status(reason: &str) -> (r: String)
    ensures
        r@ == "Error: "@ + reason@,
{
    let mut text: String = "Error: ".to_owned();
    text.append(reason);
    text
}

/// The peaks that a waveform is drawn from.
pub open spec fn drawn_peaks(samples: Seq<Single>, channels: int) -> Seq<Peak> {
    Seq::new(
        NUM_PEAKS as nat,
        |i: int| crate::audio::peaks::peak_at(samples, channels, NUM_PEAKS as int, i),
    )
}

impl App {
    /// A file is on record while it is being loaded.
    pub open spec fn consistent(self) -> bool {
        self.is_loading ==> self.loaded_file is Some
    }

    /// A player that shows a directory and has nothing loaded, in the colours of
    /// `Theme::teenage_engineering`.
    pub fn new(audio: AudioEngine, current_dir: Vec<u8>, items: &Vec<DirItem>) -> (r: App)
        ensures
            r.consistent(),
            r.audio == audio,
            r.current_dir == current_dir,
            crate::browser::entry_views(r.dir_entries@) == crate::browser::listing(
                crate::path::parent(current_dir@),
                items@.map_values(
                    |item: DirItem| crate::browser::scanned(current_dir@, item),
                ),
            ),
            r.selected_file is None,
            r.loaded_file is None,
            r.waveform_peaks@ == Seq::<Peak>::empty(),
            r.audio_duration == Double::of(0),
            !r.is_loading,
            r.control == (LoopControl {
                drag_start: None,
                drag_current: None,
                loop_enabled: false,
                loop_start_secs: Double::of(0),
                loop_end_secs: Double::of(0),
            }),
            r.volume == Single::of(SINGLE_ONE as int),
            r.speed == Single::of(SINGLE_ONE as int),
            r.status@ == "Open an audio file to begin."@,
            r.theme == Theme::orange(),
    {
        let dir_entries: Vec<FileEntry> = scan_directory(current_dir.as_slice(), items);
        App {
            audio,
            current_dir,
            dir_entries,
            selected_file: None,
            loaded_file: None,
            waveform_peaks: Vec::new(),
            audio_duration: Double { bits: 0 },
            is_loading: false,
            control: LoopControl {
                drag_start: None,
                drag_current: None,
                loop_enabled: false,
                loop_start_secs: Double { bits: 0 },
                loop_end_secs: Double { bits: 0 },
            },
            volume: Single { bits: SINGLE_ONE },
            speed: Single { bits: SINGLE_ONE },
            status: "Open an audio file to begin.".to_owned(),
            theme: Theme::teenage_engineering(),
        }
    }

    /// What starting to load a file changes, and writes.
    pub open spec fn started(
        before: App,
        path: Vec<u8>,
        stores: Seq<AtomicStore>,
        after: App,
    ) -> bool {
        &&& stores == seq![AtomicStore::Playing(false), AtomicStore::Position(0)]
        &&& after.waveform_peaks@ == Seq::<Peak>::empty()
        &&& after.status@ == loading_text(crate::path::shown_name(path@))
        &&& after == (App {
            audio: AudioEngine {
                atomics: PlaybackAtomics { playing: false, position: 0, ..before.audio.atomics },
                ..before.audio
            },
            loaded_file: Some(path),
            waveform_peaks: after.waveform_peaks,
            audio_duration: Double::of(0),
            is_loading: true,
            status: after.status,
            ..before
        })
    }

    /// What decoded audio changes, and what is written to reset playback and then
    /// to start it.
    pub open spec fn loaded(
        before: App,
        data: AudioData,
        reset: Seq<AtomicStore>,
        start: Seq<AtomicStore>,
        after: App,
    ) -> bool {
        &&& reset == AudioEngine::load_writes(data.total_frames)
        &&& start == seq![
            AtomicStore::Volume(AudioEngine::kept_volume(before.volume).bits),
            AtomicStore::Speed(AudioEngine::kept_speed(before.speed).bits),
            AtomicStore::Playing(true),
        ]
        &&& after.waveform_peaks@ == drawn_peaks(data.samples@, data.channels as int)
        &&& after.status@ == loaded_text(
            crate::path::shown_name(before.loaded_file->Some_0@),
            data.duration_secs,
            data.sample_rate as nat,
            data.channels as nat,
        )
        &&& after == (App {
            audio: AudioEngine {
                atomics: PlaybackAtomics {
                    position: 0,
                    playing: true,
                    loop_enabled: false,
                    loop_start: 0,
                    loop_end: Double::of_integer(data.total_frames as int).bits,
                    volume: AudioEngine::kept_volume(before.volume).bits,
                    speed: AudioEngine::kept_speed(before.speed).bits,
                    seek_to: NO_SEEK,
                },
                buffer: Some(
                    BufferInfo {
                        samples: data.samples,
                        channels: data.channels,
                        sample_rate: data.sample_rate,
                        total_frames: data.total_frames,
                    },
                ),
            },
            waveform_peaks: after.waveform_peaks,
            audio_duration: data.duration_secs,
            is_loading: false,
            control: LoopControl {
                loop_enabled: false,
                loop_start_secs: Double::of(0),
                loop_end_secs: data.duration_secs,
                ..before.control
            },
            status: after.status,
            ..before
        })
    }

    /// What a file that cannot be decoded changes.
    pub open spec fn failed(before: App, reason: Seq<char>, after: App) -> bool {
        &&& after.status@ == "Error: "@ + reason
        &&& after == (App { is_loading: false, loaded_file: None, status: after.status, ..before })
    }

    /// Starts loading a file, unless one is being loaded: playback stops and the
    /// waveform goes. The stores come back where the file is to be decoded.
    pub fn start_loading(&mut self, path: Vec<u8>) -> (r: Option<Vec<AtomicStore>>)
        ensures
            old(self).consistent() ==> final(self).consistent(),
            old(self).is_loading ==> r is None && *final(self) == *old(self),
            !old(self).is_loading ==> {
                r matches Some(stores) && App::started(*old(self), path, stores@, *final(self))
            },
    {
        if self.is_loading {
            return None;
        }
        self.is_loading = true;
        let stores: Vec<AtomicStore> = self.audio.stop();
        self.waveform_peaks = Vec::new();
        self.audio_duration = Double { bits: 0 };
        let name: String = display_name(path.as_slice());
        self.status = loading_status(name.as_str());
        self.loaded_file = Some(path);
        Some(stores)
    }

    /// Looks at the result of decoding, if there is one yet. Decoded audio is
    /// loaded and played, with the loop off and spanning the whole file.
    pub fn poll_loading(&mut self, result: Option<Result<AudioData, String>>) -> (r: PollAction)
        requires
            old(self).is_loading && (result matches Some(Ok(_))) ==> old(self).loaded_file is Some,
        ensures
            old(self).consistent() ==> final(self).consistent(),
            !old(self).is_loading || result is None ==> r is Nothing && *final(self) == *old(self),
            old(self).is_loading ==> match result {
                Some(Ok(data)) => r matches PollAction::Loaded { reset, start } && App::loaded(
                    *old(self),
                    data,
                    reset@,
                    start@,
                    *final(self),
                ),
                Some(Err(reason)) => r is Failed && App::failed(
                    *old(self),
                    reason@,
                    *final(self),
                ),
                None => true,
            },
    {
        if !self.is_loading {
            return PollAction::Nothing;
        }
        let outcome: Result<AudioData, String> = match result {
            Some(outcome) => outcome,
            None => {
                return PollAction::Nothing;
            },
        };
        self.is_loading = false;
        match outcome {
            Ok(data) => {
                let peaks: Vec<Peak> = compute_waveform_peaks(
                    data.samples.as_slice(),
                    data.channels,
                    NUM_PEAKS,
                );
                assert(peaks@ =~= drawn_peaks(data.samples@, data.channels as int));
                self.waveform_peaks = peaks;
                self.audio_duration = data.duration_secs;
                self.control.loop_enabled = false;
                self.control.loop_start_secs = Double { bits: 0 };
                self.control.loop_end_secs = data.duration_secs;
                let reset: Vec<AtomicStore> = self.audio.load(&data);
                let mut start: Vec<AtomicStore> = self.audio.set_volume(self.volume);
                let mut speed: Vec<AtomicStore> = self.audio.set_speed(self.speed);
                let name: String = match &self.loaded_file {
                    Some(path) => display_name(path.as_slice()),
                    None => String::new(),
                };
                self.status = loaded_status(
                    name.as_str(),
                    data.duration_secs,
                    data.sample_rate,
                    data.channels,
                );
                let mut play: Vec<AtomicStore> = self.audio.play();
                start.append(&mut speed);
                start.append(&mut play);
                assert(start@ =~= seq![
                    AtomicStore::Volume(AudioEngine::kept_volume(old(self).volume).bits),
                    AtomicStore::Speed(AudioEngine::kept_speed(old(self).speed).bits),
                    AtomicStore::Playing(true),
                ]);
                PollAction::Loaded { reset, start }
            },
            Err(reason) => {
                self.status = error_status(reason.as_str());
                self.loaded_file = None;
                PollAction::Failed
            },
        }
    }

    /// The file name above the waveform; empty while nothing is loaded.
    pub fn heading(&self) -> (r: String)
        ensures
            r@ == match self.loaded_file {
                Some(path) => crate::path::shown_name(path@),
                None => Seq::<char>::empty(),
            },
    {
        match &self.loaded_file {
            Some(path) => display_name(path.as_slice()),
            None => String::new(),
        }
    }

    /// What the colour scheme sets on top of the toolkit's dark look.
    pub fn visuals(&self) -> (r: ThemeVisuals)
        ensures
            r == self.theme.look(),
    {
        self.theme.apply_visuals()
    }

    /// After how many milliseconds to draw again, if nothing happens: only while
    /// something plays or loads.
    pub fn repaint_after_millis(&self, is_playing: bool) -> (r: Option<u64>)
        ensures
            r == if is_playing || self.is_loading {
                Some(33u64)
            } else {
                None
            },
    {
        if is_playing || self.is_loading {
            Some(33)
        } else {
            None
        }
    }
}

} // verus!
