use audioplayer::browser::{audio_extension, list_entries, scan_directory, DirItem, ScannedItem};
use audioplayer::clock::format_duration;
use audioplayer::float::number::Double;
use audioplayer::path::{
    display_name, join_path, parent_path, path_components, path_extension, path_extension_text,
    path_file_name, paths_equal, short_label, short_path,
};
use audioplayer::startup::{
    dirs_for_start, font_step, music_directory, with_fallback, FontStep, FONT_CANDIDATES,
};
use audioplayer::text::{
    chars_of, decimal_text, lowered_text, shown_text, text_precedes, two_digit_text,
};
use std::path::Path;

fn bytes(text: &str) -> Vec<u8> {
    text.as_bytes().to_vec()
}

const PATHS: [&str; 34] = [
    "",
    "/",
    "//",
    ".",
    "..",
    "/.",
    "/..",
    "./",
    "a",
    "a/",
    "/a",
    "/a/",
    "//a",
    "/./a",
    "./a",
    "../a",
    "a/.",
    "a/..",
    "a/b",
    "a//b",
    "a/./b",
    "/a//b/c",
    "/a/b/./",
    "/a/b/..",
    "/a/b/.c",
    "/home/user/Music",
    "/home/user/Music/song.mp3",
    "/home/user/Music/song.tar.gz",
    "/home/user/Music/.hidden",
    "/home/user/Music/.hidden.MP3",
    "/home/user/Music/trailing.",
    "/home/user/Music/no extension",
    "/音楽/曲.flac",
    "a/b/c///",
];

#[test]
fn components_are_those_of_a_unix_path() {
    for text in PATHS {
        let expected: Vec<Vec<u8>> =
            Path::new(text).iter().map(|part| bytes(part.to_str().unwrap())).collect();
        assert_eq!(path_components(text.as_bytes()), expected, "{}", text);
    }
}

#[test]
fn file_names_are_those_of_a_unix_path() {
    for text in PATHS {
        let expected = Path::new(text).file_name().map(|name| bytes(name.to_str().unwrap()));
        assert_eq!(path_file_name(text.as_bytes()), expected, "{}", text);
        let shown = Path::new(text).file_name().map(|name| name.to_str().unwrap().to_string());
        assert_eq!(display_name(text.as_bytes()), shown.unwrap_or_default(), "{}", text);
    }
}

#[test]
fn parents_are_those_of_a_unix_path() {
    for text in PATHS {
        let expected = Path::new(text).parent().map(|up| bytes(up.to_str().unwrap()));
        assert_eq!(parent_path(text.as_bytes()), expected, "{}", text);
    }
}

#[test]
fn extensions_are_those_of_a_unix_path() {
    for text in PATHS {
        let expected = Path::new(text).extension().map(|ext| bytes(ext.to_str().unwrap()));
        assert_eq!(path_extension(text.as_bytes()), expected, "{}", text);
        let told = Path::new(text).extension().map(|ext| ext.to_str().unwrap().to_string());
        assert_eq!(path_extension_text(text.as_bytes()), told, "{}", text);
    }
}

#[test]
fn an_extension_that_is_no_text_is_none() {
    assert_eq!(path_extension(b"a.\xff"), Some(vec![0xff]));
    assert_eq!(path_extension_text(b"a.\xff"), None);
}

#[test]
fn joining_puts_a_separator_where_one_is_missing() {
    for text in PATHS {
        let expected = bytes(Path::new(text).join("name").to_str().unwrap());
        assert_eq!(join_path(text.as_bytes(), b"name"), expected, "{}", text);
    }
}

#[test]
fn paths_are_equal_by_their_components() {
    for a in PATHS {
        for b in PATHS {
            let expected = Path::new(a) == Path::new(b);
            assert_eq!(paths_equal(a.as_bytes(), b.as_bytes()), expected, "{} {}", a, b);
        }
    }
}

#[test]
fn up_undoes_down() {
    for text in PATHS {
        let down = join_path(text.as_bytes(), b"folder");
        let up = parent_path(&down).unwrap();
        assert!(paths_equal(&up, text.as_bytes()), "{}", text);
    }
}

#[test]
fn names_that_are_no_text_are_shown_with_replacements() {
    assert_eq!(display_name(b"/a/b\xffc"), "b\u{fffd}c");
    assert_eq!(display_name(b"/a/\xe6\x9b\xb2"), "曲");
    assert_eq!(display_name(b"/"), "");
}

#[test]
fn long_paths_are_cut_to_two_parts() {
    assert_eq!(short_path(b""), "/");
    assert_eq!(short_path(b"/"), "/");
    assert_eq!(short_path(b"/home"), "…///home");
    assert_eq!(short_path(b"music"), "music");
    assert_eq!(short_path(b"/home/user/Music"), "…/user/Music");
    assert_eq!(short_path(b"a/b\xff"), "…/a/b\u{fffd}");
    assert_eq!(short_label(&vec![]), "/");
    assert_eq!(short_label(&vec!["x".to_string(), "y".to_string(), "z".to_string()]), "…/y/z");
}

fn item(name: &str, is_dir: bool) -> DirItem {
    DirItem { name: bytes(name), is_dir: Some(is_dir) }
}

fn lines(dir: &str, items: Vec<DirItem>) -> Vec<(String, String, bool)> {
    scan_directory(dir.as_bytes(), &items)
        .into_iter()
        .map(|entry| (String::from_utf8_lossy(&entry.path).into_owned(), entry.name, entry.is_dir))
        .collect()
}

fn line(path: &str, name: &str, is_dir: bool) -> (String, String, bool) {
    (path.to_string(), name.to_string(), is_dir)
}

#[test]
fn directories_come_first_and_names_are_in_order() {
    let items = vec![
        item("zebra.mp3", false),
        item("Alpha.FLAC", false),
        item("notes.txt", false),
        item("beta.Ogg", false),
        item("Zoo", true),
        item("apple", true),
        item(".git", true),
        item(".secret.mp3", false),
        item("README", false),
        item("song.mp3.bak", false),
    ];
    let expected = vec![
        line("/home/me", "..", true),
        line("/home/me/Music/apple", "apple", true),
        line("/home/me/Music/Zoo", "Zoo", true),
        line("/home/me/Music/Alpha.FLAC", "Alpha.FLAC", false),
        line("/home/me/Music/beta.Ogg", "beta.Ogg", false),
        line("/home/me/Music/zebra.mp3", "zebra.mp3", false),
    ];
    assert_eq!(lines("/home/me/Music", items), expected);
}

#[test]
fn the_root_has_no_way_up() {
    let items = vec![item("a.wav", false)];
    assert_eq!(lines("/", items), vec![line("/a.wav", "a.wav", false)]);
}

#[test]
fn a_directory_that_cannot_be_read_has_only_the_way_up() {
    assert_eq!(lines("/gone", vec![]), vec![line("/", "..", true)]);
}

#[test]
fn names_with_one_key_keep_their_order() {
    let items = vec![item("b.mp3", false), item("A.mp3", false), item("a.mp3", false)];
    let names: Vec<String> = lines("/", items).into_iter().map(|line| line.1).collect();
    assert_eq!(names, vec!["A.mp3", "a.mp3", "b.mp3"]);
    let items = vec![item("a.mp3", false), item("A.mp3", false)];
    let names: Vec<String> = lines("/", items).into_iter().map(|line| line.1).collect();
    assert_eq!(names, vec!["a.mp3", "A.mp3"]);
}

#[test]
fn case_is_folded_beyond_ascii() {
    let items = vec![item("Ö.MP3", false), item("z.mp3", false), item("ä.mp3", false)];
    let names: Vec<String> = lines("/", items).into_iter().map(|line| line.1).collect();
    assert_eq!(names, vec!["z.mp3", "ä.mp3", "Ö.MP3"]);
}

#[test]
fn what_is_not_known_to_be_a_directory_is_a_file() {
    let unknown = DirItem { name: bytes("odd.aac"), is_dir: None };
    let folder = DirItem { name: bytes("odd"), is_dir: None };
    assert_eq!(lines("/", vec![folder, unknown]), vec![line("/odd.aac", "odd.aac", false)]);
}

#[test]
fn names_and_extensions_that_are_no_text() {
    let odd = DirItem { name: b"\xff.mp3".to_vec(), is_dir: Some(false) };
    let none = DirItem { name: b"a.\xff".to_vec(), is_dir: Some(false) };
    let found = scan_directory(b"/m", &vec![odd, none]);
    assert_eq!(found.len(), 2);
    assert_eq!(found[1].name, "\u{fffd}.mp3");
    assert_eq!(found[1].path, b"/m/\xff.mp3".to_vec());
}

#[test]
fn the_audio_extensions() {
    for known in ["mp3", "wav", "ogg", "flac", "m4a", "aac", "opus", "wma"] {
        assert!(audio_extension(&known.to_string()));
    }
    for unknown in ["", "MP3", "txt", "mp", "mp33"] {
        assert!(!audio_extension(&unknown.to_string()));
    }
}

#[test]
fn entries_are_listed_by_key() {
    let make = |name: &str, key: &str, is_dir: bool| ScannedItem {
        path: bytes(name),
        name: name.to_string(),
        key: key.to_string(),
        extension: "opus".to_string(),
        is_dir,
    };
    let items = vec![make("x", "2", false), make("y", "1", false), make("z", "3", true)];
    let names: Vec<String> =
        list_entries(None, items).into_iter().map(|entry| entry.name).collect();
    assert_eq!(names, vec!["z", "y", "x"]);
}

#[test]
fn texts_are_ordered_by_their_characters() {
    let before = |a: &str, b: &str| text_precedes(&chars_of(a), &chars_of(b));
    for a in ["", "a", "b", "ab", "abc", "é", "曲", "🎵", "a曲"] {
        for b in ["", "a", "b", "ab", "abc", "é", "曲", "🎵", "a曲"] {
            assert_eq!(before(a, b), a < b, "{} {}", a, b);
        }
    }
}

#[test]
fn bytes_are_shown_as_text() {
    assert_eq!(shown_text("曲 one".as_bytes()), "曲 one");
    assert_eq!(shown_text(b"a\xffb"), "a\u{fffd}b");
}

#[test]
fn texts_are_put_in_lower_case() {
    assert_eq!(lowered_text("AbZ[@0"), "abz[@0");
    assert_eq!(lowered_text("ÀΣ"), "àς");
}

#[test]
fn numbers_are_written_in_decimal() {
    for n in [0, 7, 10, 99, 100, 44100, u64::MAX] {
        assert_eq!(decimal_text(n), format!("{}", n));
        assert_eq!(two_digit_text(n), format!("{:02}", n));
    }
}

fn clock_on_machine(secs: f64) -> String {
    if !secs.is_finite() || secs < 0.0 {
        return "0:00.0".to_string();
    }
    let total = secs as u64;
    let tenths = ((secs % 1.0) * 10.0) as u32;
    format!("{}:{:02}.{}", total / 60, total % 60, tenths)
}

#[test]
fn times_are_written_in_minutes_seconds_and_tenths() {
    let cases = [
        (0.0, "0:00.0"),
        (5.25, "0:05.2"),
        (59.99, "0:59.9"),
        (60.0, "1:00.0"),
        (125.75, "2:05.7"),
        (3600.0, "60:00.0"),
        (-1.0, "0:00.0"),
        (f64::NAN, "0:00.0"),
        (f64::INFINITY, "0:00.0"),
        (f64::NEG_INFINITY, "0:00.0"),
    ];
    for (secs, text) in cases {
        assert_eq!(format_duration(Double { bits: f64::to_bits(secs) }), text);
    }
}

#[test]
fn times_are_written_as_the_machine_would() {
    let mut secs: f64 = 0.0;
    for i in 0..2000 {
        assert_eq!(format_duration(Double { bits: secs.to_bits() }), clock_on_machine(secs));
        secs += 0.3 + i as f64 * 0.0137;
    }
    for bits in [
        0.99999999999999988f64,
        1.9999999999999998,
        4503599627370495.5,
        9007199254740991.0,
        1.0e300,
        5.0e-324,
        -0.0,
        0.1,
        0.3,
        0.7,
    ] {
        assert_eq!(format_duration(Double { bits: bits.to_bits() }), clock_on_machine(bits));
    }
}

#[test]
fn browsing_starts_in_the_music_directory() {
    let home = Some(bytes("/home/me"));
    let current = Some(bytes("/work"));
    assert_eq!(music_directory(b"/home/me"), bytes("/home/me/Music"));
    assert_eq!(dirs_for_start(home.clone(), true, None), bytes("/home/me/Music"));
    assert_eq!(dirs_for_start(home, false, current.clone()), bytes("/home/me"));
    assert_eq!(dirs_for_start(None, true, current), bytes("/work"));
    assert_eq!(dirs_for_start(None, false, None), bytes("/"));
}

#[test]
fn fonts_are_tried_in_order() {
    let mut paths = Vec::new();
    for tried in 0..FONT_CANDIDATES {
        match font_step(tried, false) {
            FontStep::Try(font) => {
                assert_eq!(font.index, 0);
                paths.push(font.path);
            }
            _ => panic!("a font to try"),
        }
    }
    assert_eq!(
        paths,
        vec![
            "/System/Library/Fonts/ヒラギノ角ゴシック W3.ttc",
            "/System/Library/Fonts/ヒラギノ角ゴ ProN W3.ttc",
            "/System/Library/Fonts/Hiragino Sans W3.ttc",
            "/System/Library/Fonts/HiraginoSans-W3.ttc",
            "/System/Library/Fonts/PingFang.ttc",
            "/System/Library/Fonts/Supplemental/Arial Unicode MS.ttf",
        ]
    );
    assert!(matches!(font_step(FONT_CANDIDATES, false), FontStep::GiveUp));
}

#[test]
fn the_first_font_that_can_be_read_is_used() {
    assert!(matches!(font_step(1, true), FontStep::UseLast));
    assert!(matches!(font_step(FONT_CANDIDATES, true), FontStep::UseLast));
}

#[test]
fn the_fallback_font_comes_last() {
    assert_eq!(with_fallback(vec![]), vec!["cjk"]);
    let names = vec!["Hack".to_string(), "Emoji".to_string()];
    assert_eq!(with_fallback(names), vec!["Hack", "Emoji", "cjk"]);
}
