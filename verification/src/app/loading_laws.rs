use crate::app::state::App;
use crate::audio::data::AudioData;
use crate::audio::engine::{AtomicStore, AudioEngine, PlaybackAtomics, NO_SEEK};
use crate::float::number::Double;
use vstd::prelude::*;

verus! {

/// While a file is being loaded nothing plays and nothing can be played: playback is
/// off and at the start, and the old waveform is gone. The rest of the window stays
/// as it is, and the stores leave the cells as the player has them.
pub proof fn law_loading_stops_playback(
    before: App,
    path: Vec<u8>,
    stores: Seq<AtomicStore>,
    after: App,
)
    requires
        App::started(before, path, stores, after),
    ensures
        after.is_loading && after.consistent(),
        after.loaded_file == Some(path),
        !after.playable(),
        after.waveform_peaks@.len() == 0,
        after.status@ == "Loading "@ + crate::path::shown_name(path@) + "…"@,
        !after.audio.atomics.playing && after.audio.atomics.position == 0,
        after.audio.atomics == before.audio.atomics.after(stores),
        after.audio.buffer == before.audio.buffer,
        after.audio.atomics.volume == before.audio.atomics.volume,
        after.audio.atomics.speed == before.audio.atomics.speed,
        after.control == before.control,
        after.volume == before.volume && after.speed == before.speed,
        after.current_dir == before.current_dir && after.dir_entries == before.dir_entries,
        after.selected_file == before.selected_file,
        after.theme == before.theme,
{
    let zero = Double::of(0);
    assert(!zero.less(zero));
    reveal_with_fuel(PlaybackAtomics::after, 3);
    assert(stores.drop_last() =~= seq![AtomicStore::Playing(false)]);
}

/// A loaded file plays from its start, with the loop off and spanning the file, at
/// the volume and the speed of the sliders, and with a waveform of its own samples.
/// The stores leave the cells as the player has them.
pub proof fn law_loaded_file_is_played(
    before: App,
    data: AudioData,
    reset: Seq<AtomicStore>,
    start: Seq<AtomicStore>,
    after: App,
)
    requires
        App::loaded(before, data, reset, start, after),
    ensures
        !after.is_loading,
        after.audio.atomics == before.audio.atomics.after(reset).after(start),
        after.audio.atomics.playing && after.audio.atomics.position == 0,
        after.audio.atomics.seek_to == NO_SEEK,
        after.audio.atomics.volume == AudioEngine::kept_volume(before.volume).bits,
        after.audio.atomics.speed == AudioEngine::kept_speed(before.speed).bits,
        !after.audio.atomics.loop_enabled && !after.control.loop_enabled,
        after.control.loop_start_secs == Double::of(0),
        after.control.loop_end_secs == data.duration_secs,
        after.control.drag_start == before.control.drag_start,
        after.control.drag_current == before.control.drag_current,
        after.audio_duration == data.duration_secs,
        after.audio.buffer is Some,
        ({
            let info = after.audio.buffer->Some_0;
            &&& info.samples == data.samples && info.channels == data.channels
            &&& info.sample_rate == data.sample_rate && info.total_frames == data.total_frames
        }),
        after.waveform_peaks@.len() == 2000,
        forall|i: int|
            0 <= i < 2000 ==> #[trigger] after.waveform_peaks@[i] == crate::audio::peaks::peak_at(
                data.samples@,
                data.channels as int,
                2000,
                i,
            ),
        after.loaded_file == before.loaded_file,
        after.volume == before.volume && after.speed == before.speed,
        after.current_dir == before.current_dir && after.dir_entries == before.dir_entries,
        after.selected_file == before.selected_file,
        after.theme == before.theme,
{
    reveal_with_fuel(PlaybackAtomics::after, 7);
    assert(reset.drop_last() =~= reset.take(5));
    assert(reset.take(5).drop_last() =~= reset.take(4));
    assert(reset.take(4).drop_last() =~= reset.take(3));
    assert(reset.take(3).drop_last() =~= reset.take(2));
    assert(reset.take(2).drop_last() =~= reset.take(1));
    assert(reset.take(1).drop_last() =~= reset.take(0));
    assert(start.drop_last() =~= start.take(2));
    assert(start.take(2).drop_last() =~= start.take(1));
    assert(start.take(1).drop_last() =~= start.take(0));
}

/// A file that cannot be loaded leaves the player with its reason and without a
/// file, and changes nothing else.
pub proof fn law_failed_file_is_forgotten(before: App, reason: Seq<char>, after: App)
    requires
        App::failed(before, reason, after),
    ensures
        !after.is_loading && after.loaded_file is None,
        after.status@ == "Error: "@ + reason,
        after.audio == before.audio,
        after.control == before.control,
        after.waveform_peaks == before.waveform_peaks,
        after.audio_duration == before.audio_duration,
        after.volume == before.volume && after.speed == before.speed,
        after.current_dir == before.current_dir && after.dir_entries == before.dir_entries,
        after.selected_file == before.selected_file,
        after.theme == before.theme,
{
}

} // verus!
