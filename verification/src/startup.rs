use crate::path::join_path;
use vstd::prelude::*;

verus! {

/// The bytes of `Music`.
pub open spec fn music() -> Seq<u8> {
    seq![0x4d, 0x75, 0x73, 0x69, 0x63]
}

/// The music directory of a home directory.
pub fn music_directory(home: &[u8]) -> (r: Vec<u8>)
    ensures
        r@ == crate::path::extended(home@, music()),
{
    let name: Vec<u8> = vec![0x4d, 0x75, 0x73, 0x69, 0x63];
    assert(name@ =~= music());
    join_path(home, name.as_slice())
}

/// The directory that the file browser starts in.
pub open spec fn start_directory(
    home: Option<Seq<u8>>,
    music_is_dir: bool,
    current: Option<Seq<u8>>,
) -> Seq<u8> {
    match home {
        Some(home) => if music_is_dir {
            crate::path::extended(home, music())
        } else {
            home
        },
        None => match current {
            Some(current) => current,
            None => seq![crate::path::SEPARATOR],
        },
    }
}

/// What the bytes of a path are, where there is one.
pub open spec fn bytes_of(path: Option<Vec<u8>>) -> Option<Seq<u8>> {
    match path {
        Some(path) => Some(path@),
        None => None,
    }
}

/// Where the file browser starts: in the music directory if there is one, else
/// in the home directory; without a home directory in the current one, and
/// failing that in the root.
pub fn dirs_for_start(
    home: Option<Vec<u8>>,
    music_is_dir: bool,
    current: Option<Vec<u8>>,
) -> (r: Vec<u8>)
    ensures
        r@ == start_directory(bytes_of(home), music_is_dir, bytes_of(current)),
{
    match home {
        Some(home) => if music_is_dir {
            music_directory(home.as_slice())
        } else {
            home
        },
        None => match current {
            Some(current) => current,
            None => {
                let root: Vec<u8> = vec![crate::path::SEPARATOR];
                assert(root@ =~= seq![crate::path::SEPARATOR]);
                root
            },
        },
    }
}

/// A font file, and which of the fonts in it.
pub struct FontCandidate {
    pub path: String,
    pub index: u32,
}

/// How many font files are tried.
pub const FONT_CANDIDATES: usize = 6;

/// The font file tried as number `i` for Chinese, Japanese and Korean text.
pub open spec fn font_path(i: int) -> Seq<char> {
    if i == 0 {
        "/System/Library/Fonts/ヒラギノ角ゴシック W3.ttc"@
    } else if i == 1 {
        "/System/Library/Fonts/ヒラギノ角ゴ ProN W3.ttc"@
    } else if i == 2 {
        "/System/Library/Fonts/Hiragino Sans W3.ttc"@
    } else if i == 3 {
        "/System/Library/Fonts/HiraginoSans-W3.ttc"@
    } else if i == 4 {
        "/System/Library/Fonts/PingFang.ttc"@
    } else {
        "/System/Library/Fonts/Supplemental/Arial Unicode MS.ttf"@
    }
}

/// The font file to try as number `i`, until there is none left.
fn font_candidate(i: usize) -> (r: Option<FontCandidate>)
    ensures
        match r {
            Some(font) => i < FONT_CANDIDATES && font.path@ == font_path(i as int) && font.index
                == 0,
            None => i >= FONT_CANDIDATES,
        },
{
    let path: String = match i {
        0 => "/System/Library/Fonts/ヒラギノ角ゴシック W3.ttc".to_owned(),
        1 => "/System/Library/Fonts/ヒラギノ角ゴ ProN W3.ttc".to_owned(),
        2 => "/System/Library/Fonts/Hiragino Sans W3.ttc".to_owned(),
        3 => "/System/Library/Fonts/HiraginoSans-W3.ttc".to_owned(),
        4 => "/System/Library/Fonts/PingFang.ttc".to_owned(),
        5 => "/System/Library/Fonts/Supplemental/Arial Unicode MS.ttf".to_owned(),
        _ => {
            return None;
        },
    };
    Some(FontCandidate { path, index: 0 })
}

/// What to do about the font for Chinese, Japanese and Korean text.
pub enum FontStep {
    /// Use the file that was tried last.
    UseLast,
    /// Try to read this file.
    Try(FontCandidate),
    /// Do without.
    GiveUp,
}

/// The next step after `tried` files: the first file that can be read is used, and
/// without one there is none.
pub fn font_step(tried: usize, last_was_read: bool) -> (r: FontStep)
    ensures
        match r {
            FontStep::UseLast => last_was_read,
            FontStep::Try(font) => !last_was_read && tried < FONT_CANDIDATES && font.path@
                == font_path(tried as int) && font.index == 0,
            FontStep::GiveUp => !last_was_read && tried >= FONT_CANDIDATES,
        },
{
    if last_was_read {
        return FontStep::UseLast;
    }
    match font_candidate(tried) {
        Some(font) => FontStep::Try(font),
        None => FontStep::GiveUp,
    }
}

/// The fonts of a family with the one for Chinese, Japanese and Korean text behind
/// them, so that other text keeps its look.
pub fn with_fallback(names: Vec<String>) -> (r: Vec<String>)
    ensures
        crate::path::text_views(r@) == crate::path::text_views(names@).push("cjk"@),
{
    let ghost before = names@;
    let mut all: Vec<String> = names;
    all.push("cjk".to_owned());
    assert(crate::path::text_views(all@) =~= crate::path::text_views(before).push("cjk"@));
    all
}

/// With a home directory the browser starts in it, or in what is called `Music` in
/// it; without one in the current directory, or in the root.
pub proof fn law_browser_starts_at_home(
    home: Seq<u8>,
    music_is_dir: bool,
    current: Option<Seq<u8>>,
)
    ensures
        start_directory(Some(home), false, current) == home,
        crate::path::components(start_directory(Some(home), true, current))
            == crate::path::components(home).push(music()),
        crate::path::file_name(start_directory(Some(home), true, current)) == Some(music()),
        start_directory(None, music_is_dir, current) == match current {
            Some(path) => path,
            None => seq![crate::path::SEPARATOR],
        },
        music().len() == "Music"@.len(),
        forall|i: int| 0 <= i < music().len() ==> music()[i] as char == #[trigger] "Music"@[i],
{
    reveal_strlit("Music");
    let name = music();
    assert(name[0] != crate::path::DOT && name.len() == 5);
    crate::path::laws::law_entry_adds_one(home, name);
    crate::path::laws::law_entry_ends_in_its_name(home, name);
}

/// The font files that are tried, in their order.
pub proof fn law_fonts_are_tried_in_order()
    ensures
        Seq::new(FONT_CANDIDATES as nat, |i: int| font_path(i)) == seq![
            "/System/Library/Fonts/ヒラギノ角ゴシック W3.ttc"@,
            "/System/Library/Fonts/ヒラギノ角ゴ ProN W3.ttc"@,
            "/System/Library/Fonts/Hiragino Sans W3.ttc"@,
            "/System/Library/Fonts/HiraginoSans-W3.ttc"@,
            "/System/Library/Fonts/PingFang.ttc"@,
            "/System/Library/Fonts/Supplemental/Arial Unicode MS.ttf"@,
        ],
{
}

} // verus!
