pub mod laws;

use crate::path::{join_path, parent_path, path_extension_text};
use crate::text::{chars_of, lowered_text, shown_text, text_precedes};
use vstd::prelude::*;
use vstd::string::*;

verus! {

/// A line of the file browser.
pub struct FileEntry {
    pub path: Vec<u8>,
    pub name: String,
    pub is_dir: bool,
}

/// What a line of the file browser holds.
pub struct EntryView {
    pub path: Seq<u8>,
    pub name: Seq<char>,
    pub is_dir: bool,
}

impl View for FileEntry {
    type V = EntryView;

    open spec fn view(&self) -> EntryView {
        EntryView { path: self.path@, name: self.name@, is_dir: self.is_dir }
    }
}

/// Something found in a directory: its name, and whether it is a directory, if
/// that could be found out.
pub struct DirItem {
    pub name: Vec<u8>,
    pub is_dir: Option<bool>,
}

/// Something found in a directory, with what deciding about it needs.
pub struct ScannedItem {
    pub path: Vec<u8>,
    pub name: String,
    /// The name in lower case, by which entries are ordered.
    pub key: String,
    /// The extension in lower case; empty where there is none.
    pub extension: String,
    pub is_dir: bool,
}

pub struct ScannedView {
    pub path: Seq<u8>,
    pub name: Seq<char>,
    pub key: Seq<char>,
    pub extension: Seq<char>,
    pub is_dir: bool,
}

impl View for ScannedItem {
    type V = ScannedView;

    open spec fn view(&self) -> ScannedView {
        ScannedView {
            path: self.path@,
            name: self.name@,
            key: self.key@,
            extension: self.extension@,
            is_dir: self.is_dir,
        }
    }
}

/// The extensions, in lower case, of the files the browser shows.
pub open spec fn is_audio_extension(extension: Seq<char>) -> bool {
    ||| extension == "mp3"@
    ||| extension == "wav"@
    ||| extension == "ogg"@
    ||| extension == "flac"@
    ||| extension == "m4a"@
    ||| extension == "aac"@
    ||| extension == "opus"@
    ||| extension == "wma"@
}

/// Names that start with a dot are hidden.
pub open spec fn is_hidden(name: Seq<char>) -> bool {
    name.len() > 0 && name[0] == '.'
}

/// Whether an item is listed among the directories (`dirs`) or among the files.
pub open spec fn listed(item: ScannedView, dirs: bool) -> bool {
    !is_hidden(item.name) && if dirs {
        item.is_dir
    } else {
        !item.is_dir && is_audio_extension(item.extension)
    }
}

/// The items that are listed among the directories or among the files.
pub open spec fn chosen(items: Seq<ScannedView>, dirs: bool) -> Seq<ScannedView>
    decreases items.len(),
{
    if items.len() == 0 {
        Seq::<ScannedView>::empty()
    } else if listed(items.last(), dirs) {
        chosen(items.drop_last(), dirs).push(items.last())
    } else {
        chosen(items.drop_last(), dirs)
    }
}

/// Puts an item into an ordered list, after all that do not come later.
pub open spec fn inserted(items: Seq<ScannedView>, item: ScannedView) -> Seq<ScannedView>
    decreases items.len(),
{
    if items.len() == 0 || !crate::text::precedes(item.key, items.last().key) {
        items.push(item)
    } else {
        inserted(items.drop_last(), item).push(items.last())
    }
}

/// The items ordered by key; those with one key keep their order.
pub open spec fn ordered(items: Seq<ScannedView>) -> Seq<ScannedView>
    decreases items.len(),
{
    if items.len() == 0 {
        Seq::<ScannedView>::empty()
    } else {
        inserted(ordered(items.drop_last()), items.last())
    }
}

/// Items as lines of the browser.
pub open spec fn entries(items: Seq<ScannedView>) -> Seq<EntryView> {
    Seq::new(
        items.len(),
        |i: int|
            EntryView { path: items[i].path, name: items[i].name, is_dir: items[i].is_dir },
    )
}

/// The lines of a directory: the way up, if there is one, then the directories,
/// then the audio files.
pub open spec fn listing(up: Option<Seq<u8>>, items: Seq<ScannedView>) -> Seq<EntryView> {
    let first = match up {
        Some(path) => seq![EntryView { path, name: ".."@, is_dir: true }],
        None => Seq::<EntryView>::empty(),
    };
    first + entries(ordered(chosen(items, true))) + entries(ordered(chosen(items, false)))
}

pub open spec fn entry_views(all: Seq<FileEntry>) -> Seq<EntryView> {
    Seq::new(all.len(), |i: int| all[i]@)
}

pub open spec fn scanned_views(all: Seq<ScannedItem>) -> Seq<ScannedView> {
    Seq::new(all.len(), |i: int| all[i]@)
}

/// Whether the browser shows files with this extension.
pub fn audio_extension(extension: &String) -> (r: bool)
    ensures
        r == is_audio_extension(extension@),
{
    *extension == "mp3".to_owned() || *extension == "wav".to_owned() || *extension
        == "ogg".to_owned() || *extension == "flac".to_owned() || *extension == "m4a".to_owned()
        || *extension == "aac".to_owned() || *extension == "opus".to_owned() || *extension
        == "wma".to_owned()
}

fn hidden(name: &String) -> (r: bool)
    ensures
        r == is_hidden(name@),
{
    name.as_str().unicode_len() > 0 && name.as_str().get_char(0) == '.'
}

/// An item and the characters of its key.
struct Keyed {
    item: ScannedItem,
    key: Vec<char>,
}

spec fn keyed_views(all: Seq<Keyed>) -> Seq<ScannedView> {
    Seq::new(all.len(), |i: int| all[i].item@)
}

spec fn keyed_well(all: Seq<Keyed>) -> bool {
    forall|i: int| 0 <= i < all.len() ==> (#[trigger] all[i]).key@ == all[i].item.key@
}

/// The list with an item put in where it belongs.
proof fn lemma_inserted_at(items: Seq<ScannedView>, item: ScannedView, at: int)
    requires
        0 <= at <= items.len(),
        forall|i: int|
            at <= i < items.len() ==> crate::text::precedes(item.key, (#[trigger] items[i]).key),
        at > 0 ==> !crate::text::precedes(item.key, items[at - 1].key),
    ensures
        inserted(items, item) == items.insert(at, item),
    decreases items.len(),
{
    if at == items.len() {
        assert(items.insert(at, item) =~= items.push(item));
    } else {
        lemma_inserted_at(items.drop_last(), item, at);
        assert(items.insert(at, item) =~= items.drop_last().insert(at, item).push(items.last()));
    }
}

fn insert_keyed(all: &mut Vec<Keyed>, keyed: Keyed)
    requires
        keyed_well(old(all)@),
        keyed.key@ == keyed.item.key@,
    ensures
        keyed_well(final(all)@),
        keyed_views(final(all)@) == inserted(keyed_views(old(all)@), keyed.item@),
{
    let ghost before = all@;
    let mut at: usize = all.len();
    while at > 0 && text_precedes(&keyed.key, &all[at - 1].key)
        invariant
            at <= all@.len(),
            all@ == before,
            keyed_well(all@),
            keyed.key@ == keyed.item.key@,
            forall|i: int|
                at <= i < all@.len() ==> crate::text::precedes(
                    keyed.item@.key,
                    (#[trigger] keyed_views(all@)[i]).key,
                ),
        decreases at,
    {
        at = at - 1;
    }
    proof {
        lemma_inserted_at(keyed_views(before), keyed.item@, at as int);
        assert(keyed_views(before.insert(at as int, keyed)) =~= keyed_views(before).insert(
            at as int,
            keyed.item@,
        ));
    }
    all.insert(at, keyed);
}

fn push_entries(all: &mut Vec<FileEntry>, ordered: Vec<Keyed>)
    ensures
        entry_views(final(all)@) == entry_views(old(all)@) + entries(keyed_views(ordered@)),
{
    let ghost before = entry_views(all@);
    let ghost total = keyed_views(ordered@);
    let ghost source = ordered@;
    assert(entries(total.take(0)) =~= Seq::<EntryView>::empty());
    for keyed in iter: ordered
        invariant
            iter.seq() == source,
            total == keyed_views(source),
            entry_views(all@) == before + entries(total.take(iter.index() as int)),
    {
        let ghost listed = all@;
        let ghost at = iter.index() as int;
        assert(keyed.item@ == total[at]);
        let item: ScannedItem = keyed.item;
        all.push(FileEntry { path: item.path, name: item.name, is_dir: item.is_dir });
        proof {
            let line = EntryView {
                path: total[at].path,
                name: total[at].name,
                is_dir: total[at].is_dir,
            };
            assert(entry_views(all@) =~= entry_views(listed).push(line));
            assert(entries(total.take(at + 1)) =~= entries(total.take(at)).push(line));
        }
    }
    assert(total.take(total.len() as int) =~= total);
}

/// Lists a directory: the way up, then the directories, then the audio files,
/// both ordered by key.
pub fn list_entries(up: Option<Vec<u8>>, items: Vec<ScannedItem>) -> (r: Vec<FileEntry>)
    ensures
        entry_views(r@) == listing(
            match up {
                Some(path) => Some(path@),
                None => None,
            },
            scanned_views(items@),
        ),
{
    let ghost all = scanned_views(items@);
    let ghost source = items@;
    let mut dirs: Vec<Keyed> = Vec::new();
    let mut files: Vec<Keyed> = Vec::new();
    assert(all.take(0) =~= Seq::<ScannedView>::empty());
    assert(keyed_views(dirs@) =~= Seq::<ScannedView>::empty());
    for item in iter: items
        invariant
            iter.seq() == source,
            all == scanned_views(source),
            keyed_well(dirs@),
            keyed_well(files@),
            keyed_views(dirs@) == ordered(chosen(all.take(iter.index() as int), true)),
            keyed_views(files@) == ordered(chosen(all.take(iter.index() as int), false)),
    {
        proof {
            let at = iter.index() as int;
            assert(item@ == all[at]);
            assert(all.take(at + 1).drop_last() =~= all.take(at));
            let dirs_before = chosen(all.take(at), true);
            let files_before = chosen(all.take(at), false);
            assert(dirs_before.push(item@).drop_last() =~= dirs_before);
            assert(files_before.push(item@).drop_last() =~= files_before);
        }
        if !hidden(&item.name) {
            let key: Vec<char> = chars_of(item.key.as_str());
            if item.is_dir {
                insert_keyed(&mut dirs, Keyed { item, key });
            } else if audio_extension(&item.extension) {
                insert_keyed(&mut files, Keyed { item, key });
            }
        }
    }
    assert(all.take(all.len() as int) =~= all);
    let mut lines: Vec<FileEntry> = Vec::new();
    match up {
        Some(path) => {
            lines.push(FileEntry { path, name: "..".to_owned(), is_dir: true });
        },
        None => {},
    }
    assert(entry_views(lines@) =~= match up {
        Some(path) => seq![EntryView { path: path@, name: ".."@, is_dir: true }],
        None => Seq::<EntryView>::empty(),
    });
    push_entries(&mut lines, dirs);
    push_entries(&mut lines, files);
    lines
}

/// The extension of a path as the browser reads it: in lower case, and empty where
/// there is none.
pub open spec fn extension_key(path: Seq<u8>) -> Seq<char> {
    match crate::path::extension_text(path) {
        Some(text) => crate::text::lowered(text),
        None => Seq::<char>::empty(),
    }
}

/// What deciding about an item of a directory needs.
pub open spec fn scanned(dir: Seq<u8>, item: DirItem) -> ScannedView {
    let path = crate::path::extended(dir, item.name@);
    ScannedView {
        path,
        name: crate::text::shown(item.name@),
        key: crate::text::lowered(crate::text::shown(item.name@)),
        extension: extension_key(path),
        is_dir: item.is_dir == Some(true),
    }
}

fn scan_item(dir: &[u8], item: &DirItem) -> (r: ScannedItem)
    ensures
        r@ == scanned(dir@, *item),
{
    let path: Vec<u8> = join_path(dir, item.name.as_slice());
    let name: String = shown_text(item.name.as_slice());
    let key: String = lowered_text(name.as_str());
    let extension: String = match path_extension_text(path.as_slice()) {
        Some(text) => lowered_text(text.as_str()),
        None => String::new(),
    };
    let is_dir: bool = match item.is_dir {
        Some(known) => known,
        None => false,
    };
    ScannedItem { path, name, key, extension, is_dir }
}

/// Lists a directory from what was read of it: the way up, then the visible
/// directories, then the visible audio files, both ordered by name without
/// regard to case.
pub fn scan_directory(dir: &[u8], items: &Vec<DirItem>) -> (r: Vec<FileEntry>)
    ensures
        entry_views(r@) == listing(
            crate::path::parent(dir@),
            items@.map_values(|item: DirItem| scanned(dir@, item)),
        ),
{
    let up: Option<Vec<u8>> = parent_path(dir);
    let mut all: Vec<ScannedItem> = Vec::new();
    let mut i: usize = 0;
    while i < items.len()
        invariant
            i <= items@.len(),
            all@.len() == i,
            forall|j: int| 0 <= j < i ==> (#[trigger] all@[j])@ == scanned(dir@, items@[j]),
        decreases items@.len() - i,
    {
        all.push(scan_item(dir, &items[i]));
        i = i + 1;
    }
    assert(scanned_views(all@) =~= items@.map_values(|item: DirItem| scanned(dir@, item)));
    list_entries(up, all)
}

} // verus!
