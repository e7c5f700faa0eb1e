use crate::app::state::{App, BrowserAction};
use crate::audio::engine::AtomicStore;
use crate::browser::{scan_directory, DirItem, FileEntry};
use crate::path::paths_equal;
use vstd::prelude::*;
use vstd::string::*;

verus! {

/// A line of the file browser as drawn.
pub struct BrowserRow {
    pub selected: bool,
    pub label: String,
}

/// The label of a line: a picture and the name.
pub open spec fn row_label(name: Seq<char>, is_dir: bool) -> Seq<char> {
    (if is_dir {
        "📁 "@
    } else {
        "🎵 "@
    }) + name
}

fn copy_bytes(bytes: &Vec<u8>) -> (r: Vec<u8>)
    ensures
        r@ == bytes@,
{
    let mut all: Vec<u8> = Vec::new();
    crate::path::append_bytes(&mut all, bytes.as_slice());
    assert(all@ =~= bytes@);
    all
}

impl App {
    /// Whether a line of the file browser is the selected one.
    pub open spec fn is_selected(self, path: Seq<u8>) -> bool {
        match self.selected_file {
            Some(selected) => crate::path::same_path(selected@, path),
            None => false,
        }
    }

    /// The lines of the file browser as drawn.
    pub fn browser_rows(&self) -> (r: Vec<BrowserRow>)
        ensures
            r@.len() == self.dir_entries@.len(),
            forall|i: int|
                0 <= i < r@.len() ==> {
                    &&& (#[trigger] r@[i]).selected == self.is_selected(self.dir_entries@[i].path@)
                    &&& r@[i].label@ == row_label(
                        self.dir_entries@[i].name@,
                        self.dir_entries@[i].is_dir,
                    )
                },
    {
        let mut rows: Vec<BrowserRow> = Vec::new();
        let mut i: usize = 0;
        while i < self.dir_entries.len()
            invariant
                i <= self.dir_entries@.len(),
                rows@.len() == i,
                forall|j: int|
                    0 <= j < i ==> {
                        &&& (#[trigger] rows@[j]).selected == self.is_selected(
                            self.dir_entries@[j].path@,
                        )
                        &&& rows@[j].label@ == row_label(
                            self.dir_entries@[j].name@,
                            self.dir_entries@[j].is_dir,
                        )
                    },
            decreases self.dir_entries@.len() - i,
        {
            let entry: &FileEntry = &self.dir_entries[i];
            let selected: bool = match &self.selected_file {
                Some(path) => paths_equal(path.as_slice(), entry.path.as_slice()),
                None => false,
            };
            let mut label: String = if entry.is_dir {
                "📁 ".to_owned()
            } else {
                "🎵 ".to_owned()
            };
            label.append(entry.name.as_str());
            rows.push(BrowserRow { selected, label });
            i = i + 1;
        }
        rows
    }

    /// Reacts to a click on a line: a directory is to be opened, a file is
    /// selected and, unless another is being loaded, to be loaded.
    pub fn click_entry(&mut self, index: usize) -> (r: BrowserAction)
        requires
            index < old(self).dir_entries@.len(),
        ensures
            old(self).consistent() ==> final(self).consistent(),
            old(self).dir_entries@[index as int].is_dir ==> {
                &&& r matches BrowserAction::OpenDirectory(path) && path@
                    == old(self).dir_entries@[index as int].path@
                &&& *final(self) == *old(self)
            },
            !old(self).dir_entries@[index as int].is_dir ==> {
                &&& final(self).selected_file matches Some(path) && path@
                    == old(self).dir_entries@[index as int].path@
                &&& old(self).is_loading ==> r is Nothing && *final(self) == (App {
                    selected_file: final(self).selected_file,
                    ..*old(self)
                })
                &&& !old(self).is_loading ==> {
                    &&& r matches BrowserAction::LoadFile { path, stores } && path@
                        == old(self).dir_entries@[index as int].path@ && stores@ == seq![
                        AtomicStore::Playing(false),
                        AtomicStore::Position(0),
                    ]
                    &&& final(self).is_loading
                    &&& final(self).loaded_file matches Some(path) && path@
                        == old(self).dir_entries@[index as int].path@
                    &&& final(self).waveform_peaks@.len() == 0
                    &&& final(self).status@ == crate::app::state::loading_text(
                        crate::path::shown_name(old(self).dir_entries@[index as int].path@),
                    )
                    &&& *final(self) == (App {
                        audio: crate::audio::engine::AudioEngine {
                            atomics: crate::audio::engine::PlaybackAtomics {
                                playing: false,
                                position: 0,
                                ..old(self).audio.atomics
                            },
                            ..old(self).audio
                        },
                        selected_file: final(self).selected_file,
                        loaded_file: final(self).loaded_file,
                        waveform_peaks: final(self).waveform_peaks,
                        audio_duration: crate::float::number::Double::of(0),
                        is_loading: true,
                        status: final(self).status,
                        ..*old(self)
                    })
                }
            },
    {
        let path: Vec<u8> = copy_bytes(&self.dir_entries[index].path);
        if self.dir_entries[index].is_dir {
            return BrowserAction::OpenDirectory(path);
        }
        self.selected_file = Some(copy_bytes(&path));
        match self.start_loading(copy_bytes(&path)) {
            Some(stores) => BrowserAction::LoadFile { path, stores },
            None => BrowserAction::Nothing,
        }
    }

    /// Shows a directory, from what was read of it; nothing stays selected.
    pub fn enter_directory(&mut self, path: Vec<u8>, items: &Vec<DirItem>)
        ensures
            final(self).current_dir == path,
            crate::browser::entry_views(final(self).dir_entries@) == crate::browser::listing(
                crate::path::parent(path@),
                items@.map_values(|item: DirItem| crate::browser::scanned(path@, item)),
            ),
            *final(self) == (App {
                current_dir: path,
                dir_entries: final(self).dir_entries,
                selected_file: None,
                ..*old(self)
            }),
    {
        self.dir_entries = scan_directory(path.as_slice(), items);
        self.current_dir = path;
        self.selected_file = None;
    }
}

} // verus!
