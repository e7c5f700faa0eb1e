use audioplayer::app::controls::Button;
use audioplayer::app::pointer::{Pointer, LEAST_LOOP_SECS};
use audioplayer::app::state::{
    error_status, loaded_status, loading_status, App, BrowserAction, LoopControl, PollAction,
};
use audioplayer::app::waveform::{
    waveform_height, Area, Canvas, Notice, Point, Shape, CONTROLS_HEIGHT, CORNER, LEAST_HEIGHT,
    NOTICE_SIZE, PEAK_SHARE,
};
use audioplayer::audio::data::AudioData;
use audioplayer::audio::engine::{
    AtomicStore, AudioEngine, EngineState, PlaybackAtomics, SupportedOutput,
};
use audioplayer::browser::DirItem;
use audioplayer::float::number::{
    Double, Single, DOUBLE_ONE, DOUBLE_TEN, SINGLE_HALF, SINGLE_INFINITY, SINGLE_NEG_INFINITY,
    SINGLE_ONE, SINGLE_QUARTER, SINGLE_TWO,
};
use audioplayer::theme::{Color, Theme};
use std::sync::Arc;

fn number(x: f32) -> Single {
    Single { bits: x.to_bits() }
}

fn time(x: f64) -> Double {
    Double { bits: x.to_bits() }
}

fn items() -> Vec<DirItem> {
    vec![
        DirItem { name: b"Album".to_vec(), is_dir: Some(true) },
        DirItem { name: b"one.mp3".to_vec(), is_dir: Some(false) },
        DirItem { name: b"two.wav".to_vec(), is_dir: Some(false) },
    ]
}

fn player() -> App {
    let output = SupportedOutput { channels: 2, sample_rate: 48000 };
    let (engine, _) = AudioEngine::new(Some(output)).unwrap();
    App::new(engine, b"/music".to_vec(), &items())
}

/// Ten seconds of audio at 100 frames a second.
fn decoded() -> AudioData {
    let samples: Vec<Single> = (0..2000).map(|i| number((i % 200) as f32 / 250.0 - 0.4)).collect();
    AudioData {
        samples: Arc::new(samples),
        channels: 2,
        sample_rate: 100,
        total_frames: 1000,
        duration_secs: time(10.0),
    }
}

fn loaded() -> App {
    let mut app = player();
    app.start_loading(b"/music/one.mp3".to_vec());
    app.poll_loading(Some(Ok(decoded())));
    app
}

fn canvas(left: f32, top: f32, right: f32, bottom: f32) -> Canvas {
    Canvas {
        area: Area {
            left: number(left),
            top: number(top),
            right: number(right),
            bottom: number(bottom),
        },
        width: number(right - left),
        height: number(bottom - top),
        center: Point { x: number((left + right) / 2.0), y: number((top + bottom) / 2.0) },
    }
}

fn still() -> Pointer {
    Pointer {
        drag_started: false,
        dragged: false,
        drag_stopped: false,
        clicked: false,
        secondary_clicked: false,
        x: None,
    }
}

#[test]
fn constants_have_the_bits_of_their_numbers() {
    assert_eq!(LEAST_LOOP_SECS, 0.05f64.to_bits());
    assert_eq!(CONTROLS_HEIGHT, 160.0f32.to_bits());
    assert_eq!(LEAST_HEIGHT, 120.0f32.to_bits());
    assert_eq!(CORNER, 4.0f32.to_bits());
    assert_eq!(NOTICE_SIZE, 15.0f32.to_bits());
    assert_eq!(PEAK_SHARE, 0.44f32.to_bits());
    assert_eq!(SINGLE_ONE, 1.0f32.to_bits());
    assert_eq!(SINGLE_TWO, 2.0f32.to_bits());
    assert_eq!(SINGLE_HALF, 0.5f32.to_bits());
    assert_eq!(SINGLE_QUARTER, 0.25f32.to_bits());
    assert_eq!(SINGLE_INFINITY, f32::INFINITY.to_bits());
    assert_eq!(SINGLE_NEG_INFINITY, f32::NEG_INFINITY.to_bits());
    assert_eq!(DOUBLE_ONE, 1.0f64.to_bits());
    assert_eq!(DOUBLE_TEN, 10.0f64.to_bits());
}

#[test]
fn a_new_player_is_empty() {
    let app = player();
    assert_eq!(app.status, "Open an audio file to begin.");
    assert_eq!(app.current_dir, b"/music".to_vec());
    assert_eq!(app.dir_entries.len(), 4);
    assert!(app.selected_file.is_none() && app.loaded_file.is_none());
    assert!(app.waveform_peaks.is_empty() && !app.is_loading);
    assert_eq!(app.audio_duration, time(0.0));
    assert_eq!((app.volume, app.speed), (number(1.0), number(1.0)));
    assert_eq!(app.heading(), "");
    assert!(!app.control.loop_enabled);
}

#[test]
fn loading_stops_playback_and_clears_the_waveform() {
    let mut app = loaded();
    let stores = app.start_loading(b"/music/two.wav".to_vec());
    assert_eq!(stores, Some(vec![AtomicStore::Playing(false), AtomicStore::Position(0)]));
    assert!(app.is_loading && app.waveform_peaks.is_empty());
    assert_eq!(app.audio_duration, time(0.0));
    assert_eq!(app.status, "Loading two.wav…");
    assert_eq!(app.heading(), "two.wav");
}

#[test]
fn one_file_is_loaded_at_a_time() {
    let mut app = player();
    app.start_loading(b"/music/one.mp3".to_vec());
    assert_eq!(app.start_loading(b"/music/two.wav".to_vec()), None);
    assert_eq!(app.loaded_file, Some(b"/music/one.mp3".to_vec()));
    assert_eq!(app.status, "Loading one.mp3…");
}

#[test]
fn nothing_happens_before_decoding_is_done() {
    let mut app = player();
    assert!(matches!(app.poll_loading(Some(Ok(decoded()))), PollAction::Nothing));
    app.start_loading(b"/music/one.mp3".to_vec());
    assert!(matches!(app.poll_loading(None), PollAction::Nothing));
    assert!(app.is_loading);
}

#[test]
fn decoded_audio_is_played() {
    let mut app = player();
    app.change_volume(number(0.5));
    app.change_speed(number(1.25));
    app.start_loading(b"/music/one.mp3".to_vec());
    app.control.loop_enabled = true;
    match app.poll_loading(Some(Ok(decoded()))) {
        PollAction::Loaded { reset, start } => {
            assert_eq!(reset.len(), 6);
            assert_eq!(reset[4], AtomicStore::LoopEnd(1000.0f64.to_bits()));
            assert_eq!(
                start,
                vec![
                    AtomicStore::Volume(0.5f32.to_bits()),
                    AtomicStore::Speed(1.25f32.to_bits()),
                    AtomicStore::Playing(true),
                ]
            );
        }
        _ => panic!("loaded"),
    }
    assert_eq!(app.status, "one.mp3  •  0:10.0  •  100 Hz  •  2 ch");
    assert_eq!(app.waveform_peaks.len(), 2000);
    assert_eq!(app.audio_duration, time(10.0));
    assert!(!app.is_loading && app.audio.atomics.playing);
    assert_eq!(
        app.control,
        LoopControl {
            drag_start: None,
            drag_current: None,
            loop_enabled: false,
            loop_start_secs: time(0.0),
            loop_end_secs: time(10.0),
        }
    );
}

#[test]
fn a_file_that_cannot_be_decoded_is_dropped() {
    let mut app = player();
    app.start_loading(b"/music/one.mp3".to_vec());
    let action = app.poll_loading(Some(Err("No supported audio track found".to_string())));
    assert!(matches!(action, PollAction::Failed));
    assert_eq!(app.status, "Error: No supported audio track found");
    assert!(app.loaded_file.is_none() && !app.is_loading);
}

#[test]
fn a_failure_needs_no_file_on_record() {
    let mut app = player();
    app.is_loading = true;
    assert!(matches!(app.poll_loading(None), PollAction::Nothing));
    assert!(matches!(app.poll_loading(Some(Err("gone".to_string()))), PollAction::Failed));
    assert_eq!(app.status, "Error: gone");
}

#[test]
fn status_lines() {
    assert_eq!(loading_status("a"), "Loading a…");
    assert_eq!(error_status("b"), "Error: b");
    let line = loaded_status("c.ogg", time(61.5), 48000, 1);
    assert_eq!(line, "c.ogg  •  1:01.5  •  48000 Hz  •  1 ch");
}

#[test]
fn the_window_is_drawn_again_while_something_moves() {
    let mut app = player();
    assert_eq!(app.repaint_after_millis(false), None);
    assert_eq!(app.repaint_after_millis(true), Some(33));
    app.start_loading(b"/music/one.mp3".to_vec());
    assert_eq!(app.repaint_after_millis(false), Some(33));
}

#[test]
fn rows_show_a_picture_and_the_selection() {
    let mut app = player();
    app.selected_file = Some(b"/music//one.mp3".to_vec());
    let rows: Vec<(bool, String)> =
        app.browser_rows().into_iter().map(|row| (row.selected, row.label)).collect();
    assert_eq!(
        rows,
        vec![
            (false, "📁 ..".to_string()),
            (false, "📁 Album".to_string()),
            (true, "🎵 one.mp3".to_string()),
            (false, "🎵 two.wav".to_string()),
        ]
    );
}

#[test]
fn a_click_on_a_directory_opens_it() {
    let mut app = player();
    app.selected_file = Some(b"/music/one.mp3".to_vec());
    match app.click_entry(1) {
        BrowserAction::OpenDirectory(path) => {
            assert_eq!(path, b"/music/Album".to_vec());
            app.enter_directory(path, &vec![]);
        }
        _ => panic!("a directory"),
    }
    assert_eq!(app.current_dir, b"/music/Album".to_vec());
    assert_eq!(app.dir_entries.len(), 1);
    assert_eq!(app.dir_entries[0].path, b"/music".to_vec());
    assert!(app.selected_file.is_none());
}

#[test]
fn a_click_on_a_file_loads_it() {
    let mut app = player();
    match app.click_entry(2) {
        BrowserAction::LoadFile { path, stores } => {
            assert_eq!(path, b"/music/one.mp3".to_vec());
            assert_eq!(stores, vec![AtomicStore::Playing(false), AtomicStore::Position(0)]);
        }
        _ => panic!("a file"),
    }
    assert!(app.is_loading);
    assert!(matches!(app.click_entry(3), BrowserAction::Nothing));
    assert_eq!(app.selected_file, Some(b"/music/two.wav".to_vec()));
    assert_eq!(app.loaded_file, Some(b"/music/one.mp3".to_vec()));
}

#[test]
fn a_click_seeks() {
    let mut app = loaded();
    let area = canvas(100.0, 0.0, 300.0, 50.0);
    let pointer = Pointer { clicked: true, x: Some(number(150.0)), ..still() };
    let stores = app.handle_pointer(&area, &pointer);
    assert_eq!(stores, vec![AtomicStore::SeekTo(250.0f64.to_bits())]);
    let beyond = Pointer { clicked: true, x: Some(number(900.0)), ..still() };
    assert_eq!(
        app.handle_pointer(&area, &beyond),
        vec![AtomicStore::SeekTo(1000.0f64.to_bits())]
    );
}

fn dragged(app: &mut App, area: &Canvas, from: f32, to: f32) -> Vec<AtomicStore> {
    let begun = Pointer { drag_started: true, dragged: true, x: Some(number(from)), ..still() };
    assert_eq!(app.handle_pointer(area, &begun), vec![]);
    assert_eq!(app.control.drag_start, app.control.drag_current);
    let moved = Pointer { dragged: true, x: Some(number(to)), ..still() };
    assert_eq!(app.handle_pointer(area, &moved), vec![]);
    let ended = Pointer { drag_stopped: true, x: Some(number(to)), ..still() };
    app.handle_pointer(area, &ended)
}

#[test]
fn a_drag_selects_a_loop_and_seeks_to_its_start() {
    let mut app = loaded();
    let area = canvas(100.0, 0.0, 300.0, 50.0);
    let stores = dragged(&mut app, &area, 150.0, 200.0);
    assert_eq!(
        stores,
        vec![
            AtomicStore::LoopStart(250.0f64.to_bits()),
            AtomicStore::LoopEnd(500.0f64.to_bits()),
            AtomicStore::LoopEnabled(true),
            AtomicStore::SeekTo(250.0f64.to_bits()),
        ]
    );
    assert!(app.control.loop_enabled);
    assert_eq!(app.control.loop_start_secs, time(2.5));
    assert_eq!(app.control.loop_end_secs, time(5.0));
    assert_eq!((app.control.drag_start, app.control.drag_current), (None, None));
}

#[test]
fn the_direction_of_a_drag_does_not_matter() {
    let area = canvas(100.0, 0.0, 300.0, 50.0);
    let mut right = loaded();
    let mut left = loaded();
    let forward = dragged(&mut right, &area, 120.0, 220.0);
    assert_eq!(dragged(&mut left, &area, 220.0, 120.0), forward);
    assert_eq!(left.control, right.control);
}

#[test]
fn a_drag_that_is_too_short_selects_nothing() {
    let mut app = loaded();
    let area = canvas(0.0, 0.0, 1000.0, 50.0);
    let before = app.control;
    assert_eq!(dragged(&mut app, &area, 100.0, 105.0), vec![]);
    assert_eq!(app.control, before);
}

#[test]
fn a_click_outside_the_loop_keeps_its_region_for_the_button() {
    let mut app = loaded();
    let area = canvas(0.0, 0.0, 1000.0, 50.0);
    dragged(&mut app, &area, 200.0, 400.0);
    let selected = app.control;
    let inside = Pointer { clicked: true, x: Some(number(300.0)), ..still() };
    app.handle_pointer(&area, &inside);
    assert_eq!(app.control, selected);
    let outside = Pointer { clicked: true, x: Some(number(500.0)), ..still() };
    let stores = app.handle_pointer(&area, &outside);
    assert_eq!(stores[2], AtomicStore::LoopEnabled(false));
    assert_eq!(stores.len(), 4);
    assert!(!app.control.loop_enabled && !app.audio.atomics.loop_enabled);
    let stores = app.press(Button::Loop, true);
    assert_eq!(stores[2], AtomicStore::LoopEnabled(true));
    assert_eq!(app.control, selected);
    assert!(app.audio.atomics.loop_enabled);
}

#[test]
fn the_other_button_clears_the_loop() {
    let mut app = loaded();
    let area = canvas(0.0, 0.0, 1000.0, 50.0);
    dragged(&mut app, &area, 200.0, 400.0);
    let selected = app.control;
    let cleared = Pointer { secondary_clicked: true, x: Some(number(300.0)), ..still() };
    let stores = app.handle_pointer(&area, &cleared);
    assert_eq!(
        stores,
        vec![
            AtomicStore::LoopStart(0),
            AtomicStore::LoopEnd(1000.0f64.to_bits()),
            AtomicStore::LoopEnabled(false),
        ]
    );
    assert_eq!(app.control, LoopControl { loop_enabled: false, ..selected });
}

#[test]
fn the_pointer_does_nothing_without_a_file() {
    let mut app = player();
    let area = canvas(0.0, 0.0, 1000.0, 50.0);
    let busy = Pointer {
        drag_started: true,
        dragged: true,
        drag_stopped: true,
        clicked: true,
        secondary_clicked: true,
        x: Some(number(5.0)),
    };
    let before = app.control;
    assert_eq!(app.handle_pointer(&area, &busy), vec![]);
    assert_eq!(app.control, before);
}

#[test]
fn buttons_need_a_file() {
    let mut app = player();
    assert_eq!(app.press(Button::PlayPause, false), vec![]);
    assert_eq!(app.press(Button::Loop, false), vec![]);
    assert!(!app.control.loop_enabled);
    let mut app = loaded();
    assert_eq!(app.press(Button::PlayPause, true), vec![AtomicStore::Playing(false)]);
    assert_eq!(app.press(Button::PlayPause, false), vec![AtomicStore::Playing(true)]);
    assert_eq!(
        app.press(Button::Stop, true),
        vec![AtomicStore::Playing(false), AtomicStore::Position(0)]
    );
}

#[test]
fn the_loop_button_toggles() {
    let mut app = loaded();
    let before = app.control;
    app.press(Button::Loop, true);
    assert!(app.control.loop_enabled);
    app.press(Button::Loop, true);
    assert_eq!(app.control, before);
}

#[test]
fn sliders_are_kept_as_set_and_written_in_range() {
    let mut app = loaded();
    assert_eq!(app.change_volume(number(3.0)), vec![AtomicStore::Volume(2.0f32.to_bits())]);
    assert_eq!(app.volume, number(3.0));
    assert_eq!(app.change_speed(number(0.0)), vec![AtomicStore::Speed(0.25f32.to_bits())]);
    assert_eq!(app.speed, number(0.0));
}

#[test]
fn controls_show_times_and_labels() {
    let mut app = loaded();
    let texts =
        app.draw_controls(&EngineState { position_secs: time(3.25), is_playing: true });
    assert_eq!((texts.position.as_str(), texts.duration.as_str()), ("0:03.2", "0:10.0"));
    assert_eq!(texts.loop_region, None);
    assert!(texts.has_file);
    assert_eq!(texts.play_label, "⏸  Pause");
    assert_eq!(texts.stop_label, "⏹  Stop");
    assert_eq!(texts.loop_label, "🔁  Loop");
    app.press(Button::Loop, true);
    let texts =
        app.draw_controls(&EngineState { position_secs: time(0.0), is_playing: false });
    assert_eq!(texts.loop_region, Some("0:00.0  –  0:10.0".to_string()));
    assert_eq!(texts.play_label, "▶  Play");
    assert_eq!(texts.loop_label, "🔁  Loop  ✓");
    let texts =
        player().draw_controls(&EngineState { position_secs: time(0.0), is_playing: false });
    assert!(!texts.has_file);
}

#[test]
fn the_waveform_leaves_room_for_the_controls() {
    assert_eq!(waveform_height(number(500.0)), number(340.0));
    assert_eq!(waveform_height(number(200.0)), number(120.0));
}

fn opaque(r: u8, g: u8, b: u8) -> Color {
    Color { r, g, b, a: 255 }
}

#[test]
fn an_empty_waveform_says_why() {
    let mut app = player();
    let area = canvas(0.0, 0.0, 100.0, 50.0);
    let shapes = app.draw_waveform(&area);
    assert_eq!(shapes.len(), 3);
    match shapes[1] {
        Shape::Message { at, notice, size, color } => {
            assert_eq!(at, area.center);
            assert_eq!(notice, Notice::NoFile);
            assert_eq!(size, number(15.0));
            assert_eq!(color, app.theme.text_dim);
        }
        _ => panic!("a message"),
    }
    app.start_loading(b"/music/one.mp3".to_vec());
    match app.draw_waveform(&area)[1] {
        Shape::Message { notice, .. } => assert_eq!(notice, Notice::Loading),
        _ => panic!("a message"),
    }
    assert_eq!(Notice::NoFile.text(), "No file loaded");
    assert_eq!(Notice::Loading.text(), "Loading…");
}

#[test]
fn a_waveform_is_drawn_column_by_column() {
    let mut app = loaded();
    let (left, top, right, bottom) = (20.5f32, 10.0f32, 120.75f32, 90.0f32);
    let area = canvas(left, top, right, bottom);
    app.audio.observe(PlaybackAtomics {
        position: 400.0f64.to_bits(),
        ..app.audio.atomics
    });
    app.control.loop_enabled = true;
    app.control.loop_start_secs = time(1.0);
    app.control.loop_end_secs = time(3.0);
    app.control.drag_start = Some(number(0.75));
    app.control.drag_current = Some(number(0.5));
    let shapes = app.draw_waveform(&area);
    assert_eq!(shapes.len(), 1 + 3 + 1 + 100 + 1 + 1 + 1);
    let width = right - left;
    match shapes[1] {
        Shape::Fill { area: band, rounding, color } => {
            assert_eq!(band.left, number(left + (1.0f64 / 10.0) as f32 * width));
            assert_eq!(band.right, number(left + (3.0f64 / 10.0) as f32 * width));
            assert_eq!((band.top, band.bottom), (number(top), number(bottom)));
            assert_eq!(rounding, number(0.0));
            assert_eq!(color, app.theme.loop_fill);
        }
        _ => panic!("the loop"),
    }
    match shapes[4] {
        Shape::Fill { area: band, color, .. } => {
            assert_eq!(band.left, number(left + 0.5 * width));
            assert_eq!(band.right, number(left + 0.75 * width));
            assert_eq!(color, app.theme.drag_fill);
        }
        _ => panic!("the selection"),
    }
    let middle = (top + bottom) / 2.0;
    let reach = (bottom - top) * 0.44;
    for column in 0..100usize {
        let share = column as f32 / 100.0;
        let index = ((share * 2000.0) as usize).min(1999);
        let peak = app.waveform_peaks[index];
        let max = f32::from_bits(peak.max.bits);
        let min = f32::from_bits(peak.min.bits);
        match shapes[5 + column] {
            Shape::Line { from, to, stroke } => {
                assert_eq!(from.x, number(left + column as f32 + 0.5));
                assert_eq!(to.x, from.x);
                assert_eq!(from.y, number((middle - max.clamp(0.0, 1.0) * reach).max(top)));
                assert_eq!(to.y, number((middle + (-min).clamp(0.0, 1.0) * reach).min(bottom)));
                assert_eq!(stroke.width, number(1.0));
                assert_eq!(stroke.color, app.theme.waveform);
            }
            _ => panic!("a column"),
        }
    }
    match shapes[0] {
        Shape::Fill { area: all, color, .. } => {
            assert_eq!(all, area.area);
            assert_eq!(color, app.theme.surface);
        }
        _ => panic!("the background"),
    }
    match shapes[2] {
        Shape::Line { stroke, .. } => {
            assert_eq!(stroke.width, number(2.0));
            assert_eq!(stroke.color, app.theme.accent);
        }
        _ => panic!("an edge of the loop"),
    }
    match shapes[105] {
        Shape::Line { from, to, stroke } => {
            assert_eq!((from.y, to.y), (number(middle), number(middle)));
            assert_eq!((from.x, to.x), (number(left), number(right)));
            assert_eq!(stroke.color, app.theme.zero_line);
        }
        _ => panic!("the centre line"),
    }
    match shapes[106] {
        Shape::Line { from, to, stroke } => {
            assert_eq!(from.x, number(left + ((400.0f64 / 100.0) / 10.0) as f32 * width));
            assert_eq!((from.y, to.y), (number(top), number(bottom)));
            assert_eq!(stroke.width, number(2.0));
            assert_eq!(stroke.color, app.theme.text);
        }
        _ => panic!("the playhead"),
    }
    match shapes[107] {
        Shape::Outline { area: around, rounding, stroke } => {
            assert_eq!(around, area.area);
            assert_eq!(rounding, number(4.0));
            assert_eq!(stroke.color, app.theme.border);
        }
        _ => panic!("the border"),
    }
}

#[test]
fn the_player_looks_as_its_theme_says() {
    let app = player();
    assert_eq!(app.theme, Theme::teenage_engineering());
    let look = app.visuals();
    assert_eq!(look, app.theme.apply_visuals());
    assert_eq!(look.panel_fill, opaque(10, 10, 10));
    assert_eq!(look.window_fill, opaque(10, 10, 10));
    assert_eq!(look.override_text_color, Some(opaque(224, 224, 224)));
}

#[test]
fn a_drag_stays_from_zero_to_one() {
    let mut app = loaded();
    let area = canvas(100.0, 0.0, 300.0, 50.0);
    for (at, share) in [(-5000.0, 0.0), (100.0, 0.0), (150.0, 0.25), (300.0, 1.0), (9.0e9, 1.0)] {
        let pointer = Pointer { drag_started: true, x: Some(number(at)), ..still() };
        app.handle_pointer(&area, &pointer);
        assert_eq!(app.control.drag_start, Some(number(share)));
        assert_eq!(app.control.drag_current, Some(number(share)));
    }
}

#[test]
fn the_theme_has_an_orange_accent() {
    let theme = Theme::teenage_engineering();
    let part = |r: u8, g: u8, b: u8, a: u8| Color { r, g, b, a };
    assert_eq!(theme.bg, opaque(10, 10, 10));
    assert_eq!(theme.surface, opaque(20, 20, 20));
    assert_eq!(theme.border, opaque(42, 42, 42));
    assert_eq!(theme.text, opaque(224, 224, 224));
    assert_eq!(theme.text_dim, opaque(64, 64, 64));
    assert_eq!(theme.accent, opaque(255, 102, 0));
    assert_eq!(theme.accent_dim, part(255, 102, 0, 30));
    assert_eq!(theme.waveform, theme.accent);
    assert_eq!(theme.zero_line, part(255, 255, 255, 12));
    assert_eq!(theme.loop_fill, part(255, 102, 0, 28));
    assert_eq!(theme.drag_fill, part(255, 153, 0, 45));
}

#[test]
fn the_theme_sets_the_look_of_widgets() {
    let theme = Theme::teenage_engineering();
    let look = theme.apply_visuals();
    assert_eq!((look.panel_fill, look.window_fill), (theme.bg, theme.bg));
    assert_eq!(look.faint_bg_color, theme.surface);
    assert_eq!(look.extreme_bg_color, opaque(6, 6, 6));
    assert_eq!(look.override_text_color, Some(theme.text));
    assert_eq!(look.window_stroke.color, theme.border);
    assert_eq!(look.window_stroke.width, number(1.0));
    assert!(look.slider_trailing_fill);
    assert_eq!(look.noninteractive.fg_stroke.color, theme.text_dim);
    assert_eq!(look.inactive.fg_stroke.color, theme.text);
    assert_eq!(look.hovered.bg_fill, opaque(30, 30, 30));
    assert_eq!(look.hovered.bg_stroke.color, theme.accent);
    assert_eq!(look.active.bg_fill, opaque(38, 18, 4));
    assert_eq!(look.active.fg_stroke.color, theme.accent);
    assert_eq!(look.open_bg_fill, theme.surface);
    assert_eq!(look.selection_bg_fill, theme.accent_dim);
    assert_eq!(look.selection_stroke.color, theme.accent);
}
