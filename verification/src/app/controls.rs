use crate::app::state::{App, LoopControl};
use crate::audio::engine::{AtomicStore, AudioEngine, EngineState, PlaybackAtomics};
use crate::clock::format_duration;
use crate::float::number::{Double, Single};
use vstd::prelude::*;
use vstd::string::*;

verus! {

/// The controls below the waveform as drawn.
pub struct ControlTexts {
    pub position: String,
    pub duration: String,
    /// The loop region, while the loop is on.
    pub loop_region: Option<String>,
    /// Whether the buttons can be pressed.
    pub has_file: bool,
    pub play_label: String,
    pub stop_label: String,
    pub loop_label: String,
}

/// A button below the waveform.
#[derive(Clone, Copy, Debug, PartialEq, Eq, Structural)]
pub enum Button {
    PlayPause,
    Stop,
    Loop,
}

/// The bounds of the loop region as text.
pub open spec fn region_text(control: LoopControl) -> Seq<char> {
    crate::clock::clock_text(control.loop_start_secs) + "  –  "@ + crate::clock::clock_text(
        control.loop_end_secs,
    )
}

impl LoopControl {
    /// After the loop was switched by its button: on or off, with its region.
    pub open spec fn toggled(self) -> LoopControl {
        LoopControl { loop_enabled: !self.loop_enabled, ..self }
    }
}

impl App {
    /// Whether there is something to play.
    pub open spec fn playable(self) -> bool {
        Double::of(0).less(self.audio_duration) && !self.is_loading
    }

    /// What the controls show for a state of the engine.
    pub fn draw_controls(&self, state: &EngineState) -> (r: ControlTexts)
        ensures
            r.position@ == crate::clock::clock_text(state.position_secs),
            r.duration@ == crate::clock::clock_text(self.audio_duration),
            match r.loop_region {
                Some(text) => self.control.loop_enabled && text@ == region_text(self.control),
                None => !self.control.loop_enabled,
            },
            r.has_file == self.playable(),
            r.play_label@ == if state.is_playing {
                "⏸  Pause"@
            } else {
                "▶  Play"@
            },
            r.stop_label@ == "⏹  Stop"@,
            r.loop_label@ == if self.control.loop_enabled {
                "🔁  Loop  ✓"@
            } else {
                "🔁  Loop"@
            },
    {
        let loop_region: Option<String> = if self.control.loop_enabled {
            let mut text: String = format_duration(self.control.loop_start_secs);
            text.append("  –  ");
            text.append(format_duration(self.control.loop_end_secs).as_str());
            Some(text)
        } else {
            None
        };
        let zero: Double = Double { bits: 0 };
        ControlTexts {
            position: format_duration(state.position_secs),
            duration: format_duration(self.audio_duration),
            loop_region,
            has_file: zero.lt(self.audio_duration) && !self.is_loading,
            play_label: if state.is_playing {
                "⏸  Pause".to_owned()
            } else {
                "▶  Play".to_owned()
            },
            stop_label: "⏹  Stop".to_owned(),
            loop_label: if self.control.loop_enabled {
                "🔁  Loop  ✓".to_owned()
            } else {
                "🔁  Loop".to_owned()
            },
        }
    }

    /// What pressing a button writes.
    pub open spec fn button_writes(self, button: Button, was_playing: bool) -> Seq<AtomicStore> {
        match button {
            Button::PlayPause => seq![AtomicStore::Playing(!was_playing)],
            Button::Stop => seq![AtomicStore::Playing(false), AtomicStore::Position(0)],
            Button::Loop => AudioEngine::loop_writes(
                self.audio.buffer,
                !self.control.loop_enabled,
                self.control.loop_start_secs,
                self.control.loop_end_secs,
            ),
        }
    }

    /// Reacts to a button that can be pressed: play or pause, whichever the
    /// button offered, stop, or switch the loop.
    pub fn press(&mut self, button: Button, was_playing: bool) -> (stores: Vec<AtomicStore>)
        ensures
            stores@ == if old(self).playable() {
                old(self).button_writes(button, was_playing)
            } else {
                Seq::<AtomicStore>::empty()
            },
            *final(self) == (App {
                audio: AudioEngine {
                    atomics: old(self).audio.atomics.after(stores@),
                    ..old(self).audio
                },
                control: if button == Button::Loop && old(self).playable() {
                    old(self).control.toggled()
                } else {
                    old(self).control
                },
                ..*old(self)
            }),
    {
        let zero: Double = Double { bits: 0 };
        if !zero.lt(self.audio_duration) || self.is_loading {
            return Vec::new();
        }
        match button {
            Button::PlayPause => if was_playing {
                self.audio.pause()
            } else {
                self.audio.play()
            },
            Button::Stop => self.audio.stop(),
            Button::Loop => {
                let enabled: bool = !self.control.loop_enabled;
                self.control.loop_enabled = enabled;
                self.audio.set_loop(
                    enabled,
                    self.control.loop_start_secs,
                    self.control.loop_end_secs,
                )
            },
        }
    }

    /// Takes over the volume slider.
    pub fn change_volume(&mut self, volume: Single) -> (stores: Vec<AtomicStore>)
        ensures
            stores@ == seq![AtomicStore::Volume(AudioEngine::kept_volume(volume).bits)],
            *final(self) == (App {
                audio: AudioEngine {
                    atomics: PlaybackAtomics {
                        volume: AudioEngine::kept_volume(volume).bits,
                        ..old(self).audio.atomics
                    },
                    ..old(self).audio
                },
                volume,
                ..*old(self)
            }),
    {
        self.volume = volume;
        self.audio.set_volume(volume)
    }

    /// Takes over the speed slider.
    pub fn change_speed(&mut self, speed: Single) -> (stores: Vec<AtomicStore>)
        ensures
            stores@ == seq![AtomicStore::Speed(AudioEngine::kept_speed(speed).bits)],
            *final(self) == (App {
                audio: AudioEngine {
                    atomics: PlaybackAtomics {
                        speed: AudioEngine::kept_speed(speed).bits,
                        ..old(self).audio.atomics
                    },
                    ..old(self).audio
                },
                speed,
                ..*old(self)
            }),
    {
        self.speed = speed;
        self.audio.set_speed(speed)
    }
}

} // verus!
