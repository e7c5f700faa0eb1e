use crate::app::state::{App, LoopControl};
use crate::app::waveform::Canvas;
use crate::audio::engine::{AtomicStore, AudioEngine, BufferInfo};
use crate::float::number::{Double, Single, SINGLE_ONE};
use vstd::prelude::*;

verus! {

/// The shortest selection that becomes a loop, in seconds: 0.05.
pub const LEAST_LOOP_SECS: u64 = 0x3fa9_9999_9999_999a;

/// What the pointer did over the waveform since it was last drawn.
#[derive(Clone, Copy, Debug, PartialEq, Eq, Structural)]
pub struct Pointer {
    pub drag_started: bool,
    pub dragged: bool,
    pub drag_stopped: bool,
    pub clicked: bool,
    pub secondary_clicked: bool,
    /// Where the pointer is across, if it is known.
    pub x: Option<Single>,
}

/// The share of the width that a place across stands for, from 0 to 1.
pub open spec fn pointer_share(canvas: Canvas, x: Single) -> Single {
    x.minus(canvas.area.left).over(canvas.width).clamped(
        Single::of(0),
        Single::of(SINGLE_ONE as int),
    )
}

fn share_at(canvas: &Canvas, x: Single) -> (r: Single)
    ensures
        r == pointer_share(*canvas, x),
{
    x.sub(canvas.area.left).div(canvas.width).clamp(Single { bits: 0 }, Single { bits: SINGLE_ONE })
}

impl LoopControl {
    /// The start of the selected stretch, in seconds.
    pub open spec fn selected_start(from: Single, to: Single, duration: Double) -> Double {
        from.lesser(to).widened().times(duration)
    }

    /// The end of the selected stretch, in seconds.
    pub open spec fn selected_end(from: Single, to: Single, duration: Double) -> Double {
        from.greater(to).widened().times(duration)
    }

    /// Whether a selected stretch is long enough for a loop.
    pub open spec fn long_enough(start: Double, end: Double) -> bool {
        Double::of(LEAST_LOOP_SECS as int).less(end.minus(start))
    }

    /// After a drag began at a share of the width.
    pub open spec fn with_drag_started(self, share: Single) -> LoopControl {
        LoopControl { drag_start: Some(share), drag_current: Some(share), ..self }
    }

    /// After a drag came to a share of the width.
    pub open spec fn with_drag_at(self, share: Single) -> LoopControl {
        LoopControl { drag_current: Some(share), ..self }
    }

    /// After a drag ended: a selection that is long enough is the loop now.
    pub open spec fn with_drag_stopped(self, duration: Double) -> LoopControl {
        let ended = LoopControl { drag_start: None, drag_current: None, ..self };
        match (self.drag_start, self.drag_current) {
            (Some(from), Some(to)) => {
                let start = LoopControl::selected_start(from, to, duration);
                let end = LoopControl::selected_end(from, to, duration);
                if LoopControl::long_enough(start, end) {
                    LoopControl {
                        loop_enabled: true,
                        loop_start_secs: start,
                        loop_end_secs: end,
                        ..ended
                    }
                } else {
                    ended
                }
            },
            _ => ended,
        }
    }

    /// What the end of a drag writes: the new loop, and a seek to its start.
    pub open spec fn drag_stop_writes(
        self,
        buffer: Option<BufferInfo>,
        duration: Double,
    ) -> Seq<AtomicStore> {
        match (self.drag_start, self.drag_current) {
            (Some(from), Some(to)) => {
                let start = LoopControl::selected_start(from, to, duration);
                let end = LoopControl::selected_end(from, to, duration);
                if LoopControl::long_enough(start, end) {
                    AudioEngine::loop_writes(buffer, true, start, end) + AudioEngine::seek_writes(
                        buffer,
                        start,
                    )
                } else {
                    Seq::<AtomicStore>::empty()
                }
            },
            _ => Seq::<AtomicStore>::empty(),
        }
    }

    /// Whether a time lies outside the active loop.
    pub open spec fn leaves_loop(self, secs: Double) -> bool {
        self.loop_enabled && (secs.less(self.loop_start_secs) || self.loop_end_secs.at_most(secs))
    }

    /// After a click on a time: a click outside the loop switches it off and
    /// keeps its region.
    pub open spec fn with_click(self, secs: Double) -> LoopControl {
        LoopControl { loop_enabled: self.loop_enabled && !self.leaves_loop(secs), ..self }
    }

    /// What a click writes.
    pub open spec fn click_writes(
        self,
        buffer: Option<BufferInfo>,
        secs: Double,
    ) -> Seq<AtomicStore> {
        if self.leaves_loop(secs) {
            AudioEngine::loop_writes(buffer, false, self.loop_start_secs, self.loop_end_secs)
                + AudioEngine::seek_writes(buffer, secs)
        } else {
            AudioEngine::seek_writes(buffer, secs)
        }
    }
}

/// What one round of pointer events comes to: the control after it and the
/// writes. Nothing comes of it while nothing is loaded.
pub open spec fn pointer_outcome(
    control: LoopControl,
    buffer: Option<BufferInfo>,
    duration: Double,
    canvas: Canvas,
    pointer: Pointer,
) -> (LoopControl, Seq<AtomicStore>) {
    if duration.at_most(Double::of(0)) {
        (control, Seq::<AtomicStore>::empty())
    } else {
        events_outcome(control, buffer, duration, canvas, pointer)
    }
}

/// What pointer events over the waveform of a loaded file come to.
pub open spec fn events_outcome(
    control: LoopControl,
    buffer: Option<BufferInfo>,
    duration: Double,
    canvas: Canvas,
    pointer: Pointer,
) -> (LoopControl, Seq<AtomicStore>) {
    let begun = if pointer.drag_started && pointer.x is Some {
        control.with_drag_started(pointer_share(canvas, pointer.x->Some_0))
    } else {
        control
    };
    let moved = if pointer.dragged && pointer.x is Some {
        begun.with_drag_at(pointer_share(canvas, pointer.x->Some_0))
    } else {
        begun
    };
    let (ended, drag_writes) = if pointer.drag_stopped {
        (moved.with_drag_stopped(duration), moved.drag_stop_writes(buffer, duration))
    } else {
        (moved, Seq::<AtomicStore>::empty())
    };
    let secs = pointer_share(canvas, pointer.x->Some_0).widened().times(duration);
    let (clicked, click_writes) = if pointer.clicked && pointer.x is Some {
        (ended.with_click(secs), ended.click_writes(buffer, secs))
    } else {
        (ended, Seq::<AtomicStore>::empty())
    };
    let (cleared, clear_writes) = if pointer.secondary_clicked {
        (
            LoopControl { loop_enabled: false, ..clicked },
            AudioEngine::loop_writes(buffer, false, Double::of(0), duration),
        )
    } else {
        (clicked, Seq::<AtomicStore>::empty())
    };
    (cleared, drag_writes + click_writes + clear_writes)
}

impl App {
    fn stop_drag(&mut self) -> (stores: Vec<AtomicStore>)
        ensures
            stores@ == old(self).control.drag_stop_writes(
                old(self).audio.buffer,
                old(self).audio_duration,
            ),
            *final(self) == (App {
                control: old(self).control.with_drag_stopped(old(self).audio_duration),
                audio: AudioEngine {
                    atomics: old(self).audio.atomics.after(stores@),
                    ..old(self).audio
                },
                ..*old(self)
            }),
    {
        let ghost atomics = self.audio.atomics;
        let mut stores: Vec<AtomicStore> = Vec::new();
        if let (Some(from), Some(to)) = (self.control.drag_start, self.control.drag_current) {
            let start: Double = from.min(to).to_double().mul(self.audio_duration);
            let end: Double = from.max(to).to_double().mul(self.audio_duration);
            let least: Double = Double { bits: LEAST_LOOP_SECS };
            if least.lt(end.sub(start)) {
                self.control.loop_start_secs = start;
                self.control.loop_end_secs = end;
                self.control.loop_enabled = true;
                stores = self.audio.set_loop(true, start, end);
                let mut seek: Vec<AtomicStore> = self.audio.seek(start);
                proof {
                    atomics.lemma_after_concat(stores@, seek@);
                }
                stores.append(&mut seek);
            }
        }
        self.control.drag_start = None;
        self.control.drag_current = None;
        stores
    }

    fn click_at(&mut self, secs: Double) -> (stores: Vec<AtomicStore>)
        ensures
            stores@ == old(self).control.click_writes(old(self).audio.buffer, secs),
            *final(self) == (App {
                control: old(self).control.with_click(secs),
                audio: AudioEngine {
                    atomics: old(self).audio.atomics.after(stores@),
                    ..old(self).audio
                },
                ..*old(self)
            }),
    {
        let ghost atomics = self.audio.atomics;
        let start: Double = self.control.loop_start_secs;
        let end: Double = self.control.loop_end_secs;
        if self.control.loop_enabled && (secs.lt(start) || end.le(secs)) {
            self.control.loop_enabled = false;
            let mut stores: Vec<AtomicStore> = self.audio.set_loop(false, start, end);
            let mut seek: Vec<AtomicStore> = self.audio.seek(secs);
            proof {
                atomics.lemma_after_concat(stores@, seek@);
            }
            stores.append(&mut seek);
            stores
        } else {
            self.audio.seek(secs)
        }
    }

    /// Reacts to what the pointer did over the waveform: a drag selects a loop
    /// and seeks to its start, a click seeks, and a click with the other button
    /// switches the loop off.
    pub fn handle_pointer(&mut self, canvas: &Canvas, pointer: &Pointer) -> (stores: Vec<
        AtomicStore,
    >)
        ensures
            ({
                let outcome = pointer_outcome(
                    old(self).control,
                    old(self).audio.buffer,
                    old(self).audio_duration,
                    *canvas,
                    *pointer,
                );
                &&& stores@ == outcome.1
                &&& *final(self) == (App {
                    control: outcome.0,
                    audio: AudioEngine {
                        atomics: old(self).audio.atomics.after(stores@),
                        ..old(self).audio
                    },
                    ..*old(self)
                })
            }),
    {
        if self.audio_duration.le(Double { bits: 0 }) {
            return Vec::new();
        }
        let ghost atomics = self.audio.atomics;
        let share: Option<Single> = match pointer.x {
            Some(x) => Some(share_at(canvas, x)),
            None => None,
        };
        if pointer.drag_started {
            if let Some(at) = share {
                self.control.drag_start = Some(at);
                self.control.drag_current = Some(at);
            }
        }
        if pointer.dragged {
            if let Some(at) = share {
                self.control.drag_current = Some(at);
            }
        }
        let mut stores: Vec<AtomicStore> = Vec::new();
        if pointer.drag_stopped {
            stores = self.stop_drag();
        }
        let ghost drag_writes = stores@;
        let ghost mut click_writes = Seq::<AtomicStore>::empty();
        if pointer.clicked {
            if let Some(at) = share {
                let secs: Double = at.to_double().mul(self.audio_duration);
                let mut click: Vec<AtomicStore> = self.click_at(secs);
                proof {
                    click_writes = click@;
                    atomics.lemma_after_concat(stores@, click@);
                }
                stores.append(&mut click);
            }
        }
        assert(stores@ =~= drag_writes + click_writes);
        let ghost before = stores@;
        let ghost mut clear_writes = Seq::<AtomicStore>::empty();
        if pointer.secondary_clicked {
            self.control.loop_enabled = false;
            let mut clear: Vec<AtomicStore> = self.audio.set_loop(
                false,
                Double { bits: 0 },
                self.audio_duration,
            );
            proof {
                clear_writes = clear@;
                atomics.lemma_after_concat(stores@, clear@);
            }
            stores.append(&mut clear);
        }
        assert(stores@ =~= drag_writes + click_writes + clear_writes);
        stores
    }
}

} // verus!
