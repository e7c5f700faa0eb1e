use audioplayer::audio::callback::{audio_callback, take_seek, BufferAccess, Transport};
use audioplayer::audio::data::AudioData;
use audioplayer::audio::decode::{
    select_track, DecodeError, DecodeEvent, DecodeSession, DecodeStep, TrackChoice, TrackInfo,
};
use audioplayer::audio::engine::{
    AtomicStore, AudioEngine, BufferInfo, EngineError, PlaybackAtomics, SupportedOutput, NO_SEEK,
};
use audioplayer::audio::peaks::{compute_waveform_peaks, Peak};
use audioplayer::float::number::{Double, Single};
use std::sync::Arc;

fn single(x: f32) -> Single {
    Single { bits: x.to_bits() }
}

fn double(x: f64) -> Double {
    Double { bits: x.to_bits() }
}

fn singles(all: &[f32]) -> Vec<Single> {
    all.iter().map(|x| single(*x)).collect()
}

fn floats(all: &[Single]) -> Vec<f32> {
    all.iter().map(|x| f32::from_bits(x.bits)).collect()
}

fn engine() -> AudioEngine {
    let output = SupportedOutput { channels: 2, sample_rate: 48000 };
    match AudioEngine::new(Some(output)) {
        Ok((engine, _)) => engine,
        Err(_) => panic!("an engine for a device"),
    }
}

fn data(samples: &[f32], channels: usize, sample_rate: u32) -> AudioData {
    let total = (samples.len() / channels) as u64;
    AudioData {
        samples: Arc::new(singles(samples)),
        channels,
        sample_rate,
        total_frames: total,
        duration_secs: double(total as f64 / sample_rate as f64),
    }
}

/// Frames of a slow ramp, the channels told apart by their sign.
fn ramp(frames: usize, channels: usize) -> Vec<f32> {
    let mut all = Vec::new();
    for frame in 0..frames {
        for channel in 0..channels {
            let value = (frame as f32 * 0.37).sin() * 0.8;
            all.push(if channel % 2 == 0 { value } else { -value });
        }
    }
    all
}

fn callback(
    output: &mut Vec<Single>,
    out_channels: usize,
    cells: &PlaybackAtomics,
    access: BufferAccess<'_>,
) -> Vec<AtomicStore> {
    let mut stores = Vec::new();
    audio_callback(output, out_channels, 48000, cells, access, &mut stores);
    stores
}

struct Played {
    output: Vec<f32>,
    position: f64,
    stopped: bool,
}

/// The same mixing on the machine's own floating point.
fn mix_on_machine(
    mut output: Vec<f32>,
    out_channels: usize,
    out_sr: u32,
    cells: &PlaybackAtomics,
    samples: &[f32],
    channels: usize,
    sample_rate: u32,
) -> Played {
    let total_frames = (samples.len() / channels) as u64;
    let volume = f32::from_bits(cells.volume);
    let speed = f32::from_bits(cells.speed) as f64;
    let loop_start = f64::from_bits(cells.loop_start);
    let loop_end = f64::from_bits(cells.loop_end);
    let looping = cells.loop_enabled && loop_end > loop_start;
    let rate = speed * sample_rate as f64 / out_sr as f64;
    let end = if looping { loop_end } else { total_frames as f64 };
    let mut position = f64::from_bits(if cells.seek_to == NO_SEEK {
        cells.position
    } else {
        cells.seek_to
    });
    let mut stopped = false;
    for frame in 0..output.len() / out_channels {
        if position >= end {
            if looping {
                position = loop_start;
            } else {
                for x in output[frame * out_channels..].iter_mut() {
                    *x = 0.0;
                }
                stopped = true;
                break;
            }
        }
        let pos = position as usize;
        let frac = (position - pos as f64) as f32;
        for ch in 0..out_channels {
            let in_ch = ch % channels;
            let s0 = samples.get(pos * channels + in_ch).copied().unwrap_or(0.0);
            let s1 = samples.get((pos + 1) * channels + in_ch).copied().unwrap_or(0.0);
            output[frame * out_channels + ch] = (s0 * (1.0 - frac) + s1 * frac) * volume;
        }
        position += rate;
    }
    Played { output, position, stopped }
}

fn compare_mixing(
    frames: usize,
    channels: usize,
    sample_rate: u32,
    out_channels: usize,
    out_len: usize,
    cells: PlaybackAtomics,
) {
    let samples = ramp(frames, channels);
    let info = BufferInfo {
        samples: Arc::new(singles(&samples)),
        channels,
        sample_rate,
        total_frames: frames as u64,
    };
    let before = vec![0.25f32; out_len];
    let expected = mix_on_machine(
        before.clone(),
        out_channels,
        48000,
        &cells,
        &samples,
        channels,
        sample_rate,
    );
    let mut output = singles(&before);
    let stores = callback(&mut output, out_channels, &cells, BufferAccess::Ready(&info));
    let same: Vec<u32> = expected.output.iter().map(|x| x.to_bits()).collect();
    let ours: Vec<u32> = output.iter().map(|x| x.bits).collect();
    assert_eq!(ours, same);
    let mut writes = Vec::new();
    if cells.seek_to != NO_SEEK {
        writes.push(AtomicStore::Position(cells.seek_to));
        writes.push(AtomicStore::TakeSeek(cells.seek_to));
    }
    writes.push(AtomicStore::Position(expected.position.to_bits()));
    if expected.stopped {
        writes.push(AtomicStore::Playing(false));
        writes.push(AtomicStore::Position(0));
    }
    assert_eq!(stores, writes);
}

fn playing_from(position: f64) -> PlaybackAtomics {
    PlaybackAtomics { position: position.to_bits(), playing: true, ..PlaybackAtomics::new() }
}

#[test]
fn plays_a_stereo_file_at_its_own_rate() {
    compare_mixing(200, 2, 48000, 2, 64, playing_from(0.0));
}

#[test]
fn resamples_from_another_rate() {
    compare_mixing(200, 2, 44100, 2, 64, playing_from(3.25));
}

#[test]
fn spreads_one_channel_over_all() {
    compare_mixing(100, 1, 22050, 2, 50, playing_from(10.5));
}

#[test]
fn drops_channels_the_output_lacks() {
    compare_mixing(100, 6, 48000, 2, 50, playing_from(10.5));
}

#[test]
fn plays_faster_and_quieter() {
    let cells = PlaybackAtomics {
        speed: 1.75f32.to_bits(),
        volume: 0.3f32.to_bits(),
        ..playing_from(7.125)
    };
    compare_mixing(200, 2, 44100, 2, 64, cells);
}

#[test]
fn stops_and_rewinds_at_the_end_of_the_file() {
    compare_mixing(20, 2, 48000, 2, 64, playing_from(12.0));
}

#[test]
fn a_part_of_a_frame_is_left_alone_while_frames_last() {
    compare_mixing(200, 2, 48000, 2, 65, playing_from(12.0));
}

#[test]
fn a_part_of_a_frame_is_silenced_at_the_end_of_the_file() {
    compare_mixing(20, 2, 48000, 2, 65, playing_from(12.0));
}

#[test]
fn the_last_frame_fades_into_silence() {
    compare_mixing(20, 2, 48000, 2, 2, playing_from(19.5));
}

#[test]
fn a_loop_starts_over() {
    let cells = PlaybackAtomics {
        loop_enabled: true,
        loop_start: 4.5f64.to_bits(),
        loop_end: 11.25f64.to_bits(),
        ..playing_from(9.0)
    };
    compare_mixing(200, 2, 44100, 2, 64, cells);
}

#[test]
fn a_loop_plays_its_region() {
    let samples: Vec<f32> = (0..200).map(|i| i as f32).collect();
    let info = BufferInfo {
        samples: Arc::new(singles(&samples)),
        channels: 1,
        sample_rate: 44100,
        total_frames: 200,
    };
    let mut cells = PlaybackAtomics {
        loop_enabled: true,
        loop_start: 4.5f64.to_bits(),
        loop_end: 11.25f64.to_bits(),
        ..playing_from(9.0)
    };
    for _ in 0..20 {
        let mut output = singles(&[0.0; 16]);
        let stores = callback(&mut output, 1, &cells, BufferAccess::Ready(&info));
        for x in floats(&output) {
            assert!(4.49 < x && x < 11.26);
        }
        cells.store_all(&stores);
        assert!(cells.playing);
    }
}

#[test]
fn a_loop_that_is_empty_is_no_loop() {
    let cells = PlaybackAtomics {
        loop_enabled: true,
        loop_start: 4.0f64.to_bits(),
        loop_end: 4.0f64.to_bits(),
        ..playing_from(9.0)
    };
    compare_mixing(12, 2, 48000, 2, 64, cells);
}

#[test]
fn a_pending_seek_is_carried_out_first() {
    let cells = PlaybackAtomics { seek_to: 6.5f64.to_bits(), ..playing_from(100.0) };
    compare_mixing(200, 2, 48000, 2, 32, cells);
}

#[test]
fn silence_while_paused() {
    let cells = PlaybackAtomics { playing: false, ..playing_from(5.0) };
    let info = BufferInfo {
        samples: Arc::new(singles(&ramp(10, 2))),
        channels: 2,
        sample_rate: 48000,
        total_frames: 10,
    };
    let mut output = singles(&[0.5, 0.5, 0.5]);
    let stores = callback(&mut output, 2, &cells, BufferAccess::Ready(&info));
    assert_eq!(floats(&output), vec![0.0, 0.0, 0.0]);
    assert_eq!(stores, vec![]);
}

#[test]
fn a_seek_is_carried_out_while_paused() {
    let seek = 3.0f64.to_bits();
    let mut cells = PlaybackAtomics { seek_to: seek, playing: false, ..playing_from(5.0) };
    let mut output = singles(&[0.5, 0.5]);
    let stores = callback(&mut output, 2, &cells, BufferAccess::Empty);
    assert_eq!(stores, vec![AtomicStore::Position(seek), AtomicStore::TakeSeek(seek)]);
    cells.store_all(&stores);
    assert_eq!(cells.position, seek);
    assert_eq!(cells.seek_to, NO_SEEK);
}

#[test]
fn a_seek_may_be_taken_before_the_buffer() {
    let seek = 3.5f64.to_bits();
    let cells = PlaybackAtomics { seek_to: seek, ..playing_from(50.0) };
    let info = BufferInfo {
        samples: Arc::new(singles(&ramp(100, 2))),
        channels: 2,
        sample_rate: 44100,
        total_frames: 100,
    };
    let mut whole = singles(&[0.5; 8]);
    let together = callback(&mut whole, 2, &cells, BufferAccess::Ready(&info));
    let mut stores = take_seek(&cells);
    assert_eq!(stores, vec![AtomicStore::Position(seek), AtomicStore::TakeSeek(seek)]);
    let mut taken = cells;
    taken.store_all(&stores);
    assert_eq!(take_seek(&taken), vec![]);
    let mut parts = singles(&[0.5; 8]);
    audio_callback(&mut parts, 2, 48000, &taken, BufferAccess::Ready(&info), &mut stores);
    assert_eq!(stores, together);
    assert_eq!(parts, whole);
}

#[test]
fn silence_without_a_buffer_at_hand() {
    let cells = playing_from(5.0);
    let mut output = singles(&[0.5, 0.5]);
    let stores = callback(&mut output, 2, &cells, BufferAccess::Busy);
    assert_eq!(floats(&output), vec![0.0, 0.0]);
    assert_eq!(stores, vec![]);
    let mut output = singles(&[0.5, 0.5]);
    let stores = callback(&mut output, 2, &cells, BufferAccess::Empty);
    assert_eq!(floats(&output), vec![0.0, 0.0]);
    assert_eq!(stores, vec![]);
}

#[test]
fn a_newer_seek_is_not_lost() {
    let mut cells = PlaybackAtomics { seek_to: 7, ..PlaybackAtomics::new() };
    cells.store(AtomicStore::TakeSeek(6));
    assert_eq!(cells.seek_to, 7);
    cells.store(AtomicStore::TakeSeek(7));
    assert_eq!(cells.seek_to, NO_SEEK);
}

#[test]
fn the_movement_follows_the_cells() {
    let info = BufferInfo {
        samples: Arc::new(Vec::new()),
        channels: 2,
        sample_rate: 44100,
        total_frames: 1000,
    };
    let cells = PlaybackAtomics {
        speed: 0.5f32.to_bits(),
        loop_enabled: true,
        loop_start: 10.0f64.to_bits(),
        loop_end: 20.0f64.to_bits(),
        ..PlaybackAtomics::new()
    };
    let transport = Transport::new(&cells, &info, 48000);
    assert_eq!(transport.rate, double(0.5 * 44100.0 / 48000.0));
    assert!(transport.looping);
    assert_eq!(transport.end, double(20.0));
    let off = PlaybackAtomics { loop_enabled: false, ..cells };
    assert_eq!(Transport::new(&off, &info, 48000).end, double(1000.0));
}

#[test]
fn cells_start_at_rest() {
    let cells = PlaybackAtomics::new();
    assert_eq!(cells.position, 0f64.to_bits());
    assert!(!cells.playing && !cells.loop_enabled);
    assert_eq!(cells.volume, 1.0f32.to_bits());
    assert_eq!(cells.speed, 1.0f32.to_bits());
    assert_eq!(cells.seek_to, u64::MAX);
    assert_eq!((cells.loop_start, cells.loop_end), (0, 0));
}

#[test]
fn no_device_is_an_error() {
    assert!(matches!(AudioEngine::new(None), Err(EngineError::NoOutputDevice)));
    assert_eq!(EngineError::NoOutputDevice.message(), "No output audio device found");
}

#[test]
fn the_stream_takes_what_the_device_offers() {
    let output = SupportedOutput { channels: 6, sample_rate: 96000 };
    let (engine, settings) = AudioEngine::new(Some(output)).unwrap();
    assert_eq!((settings.channels, settings.sample_rate), (6, 96000));
    assert!(engine.buffer.is_none());
}

#[test]
fn loading_resets_playback() {
    let mut engine = engine();
    engine.observe(PlaybackAtomics {
        position: 5.0f64.to_bits(),
        playing: true,
        loop_enabled: true,
        loop_start: 1.0f64.to_bits(),
        loop_end: 2.0f64.to_bits(),
        seek_to: 3.0f64.to_bits(),
        ..PlaybackAtomics::new()
    });
    let file = data(&ramp(30, 2), 2, 44100);
    let stores = engine.load(&file);
    assert_eq!(
        stores,
        vec![
            AtomicStore::Playing(false),
            AtomicStore::Position(0),
            AtomicStore::LoopEnabled(false),
            AtomicStore::LoopStart(0),
            AtomicStore::LoopEnd(30.0f64.to_bits()),
            AtomicStore::SeekTo(u64::MAX),
        ]
    );
    let expected = PlaybackAtomics { loop_end: 30.0f64.to_bits(), ..PlaybackAtomics::new() };
    assert_eq!(engine.atomics, expected);
    let buffer = engine.buffer.unwrap();
    assert_eq!((buffer.channels, buffer.sample_rate, buffer.total_frames), (2, 44100, 30));
}

#[test]
fn loading_shares_the_samples() {
    let mut engine = engine();
    let file = data(&ramp(30, 2), 2, 44100);
    engine.load(&file);
    assert!(Arc::ptr_eq(&file.samples, &engine.buffer.unwrap().samples));
}

#[test]
fn a_clone_shares_the_samples() {
    let file = data(&ramp(30, 2), 2, 44100);
    let copy = file.clone();
    assert!(Arc::ptr_eq(&file.samples, &copy.samples));
    assert_eq!((copy.channels, copy.sample_rate, copy.total_frames), (2, 44100, 30));
    assert_eq!(copy.duration_secs, file.duration_secs);
}

#[test]
fn the_edges_of_a_loop_keep_their_order() {
    let mut engine = engine();
    engine.load(&data(&ramp(1000, 1), 1, 44100));
    let times = [-1.0e308, -0.1, -0.0, 0.0, 0.001, 0.0010000000000000002, 0.02, 0.03, 1.0e308];
    for pair in times.windows(2) {
        engine.set_loop(true, double(pair[0]), double(pair[1]));
        let start = f64::from_bits(engine.atomics.loop_start);
        let end = f64::from_bits(engine.atomics.loop_end);
        assert!(start <= end);
    }
}

#[test]
fn play_pause_and_stop() {
    let mut engine = engine();
    assert_eq!(engine.play(), vec![AtomicStore::Playing(true)]);
    assert!(engine.atomics.playing);
    let moved = PlaybackAtomics { position: 9.0f64.to_bits(), ..engine.atomics };
    engine.observe(moved);
    assert_eq!(engine.pause(), vec![AtomicStore::Playing(false)]);
    assert_eq!(engine.atomics.position, 9.0f64.to_bits());
    engine.play();
    assert_eq!(engine.stop(), vec![AtomicStore::Playing(false), AtomicStore::Position(0)]);
    assert_eq!(engine.atomics.position, 0);
}

#[test]
fn seeking_stays_in_the_file() {
    let mut engine = engine();
    engine.load(&data(&ramp(44100, 1), 1, 44100));
    let cases = [
        (0.5, 22050.0),
        (0.1, 0.1 * 44100.0),
        (-3.0, 0.0),
        (7.0, 44100.0),
        (f64::INFINITY, 44100.0),
        (f64::NAN, 0.0),
    ];
    for (secs, frame) in cases {
        let stores = engine.seek(double(secs));
        assert_eq!(stores, vec![AtomicStore::SeekTo(f64::to_bits(frame))]);
        assert_eq!(engine.atomics.seek_to, f64::to_bits(frame));
    }
}

#[test]
fn without_a_file_there_is_nowhere_to_seek() {
    let mut engine = engine();
    assert_eq!(engine.seek(double(1.0)), vec![]);
    assert_eq!(engine.set_loop(true, double(1.0), double(2.0)), vec![]);
    assert_eq!(engine.atomics, PlaybackAtomics::new());
}

#[test]
fn loops_stay_in_the_file() {
    let mut engine = engine();
    engine.load(&data(&ramp(1000, 1), 1, 1000));
    let stores = engine.set_loop(true, double(-1.0), double(0.2505));
    assert_eq!(
        stores,
        vec![
            AtomicStore::LoopStart(0),
            AtomicStore::LoopEnd(250.5f64.to_bits()),
            AtomicStore::LoopEnabled(true),
        ]
    );
    engine.set_loop(false, double(0.5), double(9.0));
    assert_eq!(engine.atomics.loop_start, 500.0f64.to_bits());
    assert_eq!(engine.atomics.loop_end, 1000.0f64.to_bits());
    assert!(!engine.atomics.loop_enabled);
}

#[test]
fn a_seek_to_the_loop_start_meets_it() {
    let mut engine = engine();
    engine.load(&data(&ramp(1000, 1), 1, 44100));
    engine.set_loop(true, double(0.0123), double(0.02));
    engine.seek(double(0.0123));
    assert_eq!(engine.atomics.seek_to, engine.atomics.loop_start);
}

#[test]
fn volume_and_speed_are_kept_in_range() {
    let mut engine = engine();
    for (asked, kept) in [(1.5f32, 1.5f32), (-1.0, 0.0), (9.0, 2.0), (f32::INFINITY, 2.0)] {
        assert_eq!(engine.set_volume(single(asked)), vec![AtomicStore::Volume(kept.to_bits())]);
        assert_eq!(engine.atomics.volume, kept.to_bits());
    }
    for (asked, kept) in [(1.5f32, 1.5f32), (0.1, 0.25), (9.0, 2.0), (-5.0, 0.25)] {
        assert_eq!(engine.set_speed(single(asked)), vec![AtomicStore::Speed(kept.to_bits())]);
        assert_eq!(engine.atomics.speed, kept.to_bits());
    }
}

#[test]
fn the_position_is_told_in_seconds() {
    let mut engine = engine();
    engine.observe(playing_from(22050.0));
    let state = engine.state();
    assert_eq!(state.position_secs, double(22050.0 / 44100.0));
    assert!(state.is_playing);
    engine.load(&data(&ramp(1000, 1), 1, 8000));
    engine.observe(PlaybackAtomics { playing: false, ..playing_from(123.0) });
    let state = engine.state();
    assert_eq!(state.position_secs, double(123.0 / 8000.0));
    assert!(!state.is_playing);
}

fn peaks_on_machine(samples: &[f32], channels: usize, num_peaks: usize) -> Vec<(f32, f32)> {
    if samples.is_empty() || channels == 0 || num_peaks == 0 {
        return vec![(0.0, 0.0); num_peaks];
    }
    let total = samples.len() / channels;
    let share = ((total as f64 / num_peaks as f64).ceil() as usize).max(1);
    let mut all = Vec::new();
    for i in 0..num_peaks {
        let start = i * share;
        let end = ((i + 1) * share).min(total);
        let mut low = f32::INFINITY;
        let mut high = f32::NEG_INFINITY;
        for frame in start..end {
            let mut mixed = 0.0f32;
            for channel in 0..channels {
                mixed += samples[frame * channels + channel];
            }
            mixed /= channels as f32;
            low = low.min(mixed);
            high = high.max(mixed);
        }
        all.push(if start >= total || low == f32::INFINITY { (0.0, 0.0) } else { (low, high) });
    }
    all
}

fn compare_peaks(samples: &[f32], channels: usize, num_peaks: usize) {
    let ours: Vec<(u32, u32)> = compute_waveform_peaks(&singles(samples), channels, num_peaks)
        .iter()
        .map(|peak| (peak.min.bits, peak.max.bits))
        .collect();
    let expected: Vec<(u32, u32)> = peaks_on_machine(samples, channels, num_peaks)
        .iter()
        .map(|(low, high)| (low.to_bits(), high.to_bits()))
        .collect();
    assert_eq!(ours, expected);
}

#[test]
fn peaks_are_the_range_of_each_stretch() {
    compare_peaks(&ramp(1000, 2), 2, 7);
    compare_peaks(&ramp(1000, 1), 1, 10);
    compare_peaks(&ramp(999, 3), 3, 100);
}

#[test]
fn more_peaks_than_frames_leave_silence() {
    compare_peaks(&ramp(5, 1), 1, 8);
    compare_peaks(&ramp(3, 2), 2, 2000);
}

#[test]
fn nothing_to_show_is_silence() {
    compare_peaks(&[], 2, 4);
    compare_peaks(&ramp(4, 1), 0, 4);
    compare_peaks(&ramp(4, 1), 1, 0);
    compare_peaks(&[0.5], 2, 3);
    assert_eq!(compute_waveform_peaks(&[], 2, 1), vec![Peak::default()]);
}

#[test]
fn a_peak_spans_its_frames() {
    let samples = ramp(103, 1);
    let peaks = compute_waveform_peaks(&singles(&samples), 1, 10);
    // 103 frames over 10 peaks are 11 frames each, rounded up.
    for (i, stretch) in samples.chunks(11).enumerate() {
        let low = f32::from_bits(peaks[i].min.bits);
        let high = f32::from_bits(peaks[i].max.bits);
        assert!(stretch.contains(&low) && stretch.contains(&high));
        assert!(stretch.iter().all(|x| low <= *x && *x <= high));
    }
}

#[test]
fn inverted_samples_turn_the_peaks_over() {
    let samples = ramp(500, 3);
    let inverted: Vec<f32> = samples.iter().map(|x| -x).collect();
    let peaks = compute_waveform_peaks(&singles(&samples), 3, 40);
    let turned = compute_waveform_peaks(&singles(&inverted), 3, 40);
    for (peak, other) in peaks.iter().zip(turned.iter()) {
        assert_eq!(f32::from_bits(other.min.bits), -f32::from_bits(peak.max.bits));
        assert_eq!(f32::from_bits(other.max.bits), -f32::from_bits(peak.min.bits));
    }
}

#[test]
fn what_is_no_number_does_not_show() {
    compare_peaks(&[f32::NAN, 0.5, f32::NAN, -0.25], 1, 1);
    compare_peaks(&[f32::NAN, f32::NAN], 1, 1);
    compare_peaks(&[f32::INFINITY, f32::INFINITY], 1, 2);
}

#[test]
fn peaks_cover_the_last_frame() {
    let mut samples = vec![0.0f32; 2001];
    samples[2000] = 0.75;
    let peaks = compute_waveform_peaks(&singles(&samples), 1, 2000);
    assert_eq!(peaks[1000].max, single(0.75));
}

fn track(id: u32, has_codec: bool, rate: Option<u32>, mask: Option<u32>) -> TrackInfo {
    TrackInfo { id, has_codec, sample_rate: rate, channel_mask: mask }
}

#[test]
fn the_first_track_with_a_codec_is_decoded() {
    let tracks = vec![
        track(1, false, Some(8000), Some(1)),
        track(4, true, Some(96000), Some(0b11)),
        track(9, true, None, None),
    ];
    let choice = TrackChoice { index: 1, id: 4, sample_rate: 96000, channels: 2 };
    assert_eq!(select_track(&tracks), Ok(choice));
}

#[test]
fn a_track_that_tells_nothing_is_stereo() {
    let choice = TrackChoice { index: 0, id: 9, sample_rate: 44100, channels: 2 };
    assert_eq!(select_track(&vec![track(9, true, None, None)]), Ok(choice));
}

#[test]
fn channels_are_counted_by_their_bits() {
    let cases = [
        (0, 1),
        (1, 1),
        (0b11, 2),
        (0b111111, 6),
        (0x3ff_ffff, 26),
        (0x400_0000, 1),
        (0xffff_ffff, 26),
        (0x8000_0005, 2),
    ];
    for (mask, channels) in cases {
        let choice = select_track(&vec![track(0, true, None, Some(mask))]).unwrap();
        assert_eq!(choice.channels, channels);
    }
}

#[test]
fn a_file_without_a_track_is_an_error() {
    assert_eq!(select_track(&vec![]), Err(DecodeError::NoTrack));
    let tracks = vec![track(1, false, None, None)];
    assert_eq!(select_track(&tracks), Err(DecodeError::NoTrack));
    assert_eq!(DecodeError::NoTrack.message(), "No supported audio track found");
}

fn session() -> DecodeSession {
    DecodeSession::new(TrackChoice { index: 0, id: 5, sample_rate: 1000, channels: 2 })
}

#[test]
fn decoding_collects_the_packets_of_the_track() {
    let mut session = session();
    assert!(matches!(session.step(DecodeEvent::PacketRead(5)), DecodeStep::DecodePacket));
    let first = DecodeEvent::Decoded(singles(&[0.1, 0.2, 0.3]));
    assert!(matches!(session.step(first), DecodeStep::ReadPacket));
    assert!(matches!(session.step(DecodeEvent::PacketRead(6)), DecodeStep::ReadPacket));
    assert!(matches!(session.step(DecodeEvent::PacketRead(5)), DecodeStep::DecodePacket));
    assert!(matches!(session.step(DecodeEvent::PacketDamaged), DecodeStep::ReadPacket));
    assert!(matches!(session.step(DecodeEvent::ResetRequired), DecodeStep::ResetDecoder));
    let second = DecodeEvent::Decoded(singles(&[0.4, 0.5]));
    assert!(matches!(session.step(second), DecodeStep::ReadPacket));
    assert!(matches!(session.step(DecodeEvent::EndOfStream), DecodeStep::Finish));
    let data = session.finish();
    assert_eq!(floats(&data.samples), vec![0.1, 0.2, 0.3, 0.4, 0.5]);
    assert_eq!((data.channels, data.sample_rate, data.total_frames), (2, 1000, 2));
    assert_eq!(data.duration_secs, double(2.0 / 1000.0));
}

#[test]
fn a_failure_to_read_ends_the_stream() {
    assert!(matches!(session().step(DecodeEvent::ReadFailed), DecodeStep::Finish));
}

#[test]
fn a_failure_to_decode_ends_it_all() {
    match session().step(DecodeEvent::DecodeFailed("unsupported feature".to_string())) {
        DecodeStep::Fail(reason) => assert_eq!(reason, "unsupported feature"),
        _ => panic!("a failure"),
    }
}
