pub mod laws;

use crate::text::{exact_text, shown_text};
use vstd::prelude::*;
use vstd::slice::slice_subrange;
use vstd::string::*;
use vstd::utf8::*;

verus! {

/// The byte that separates the components of a path.
pub const SEPARATOR: u8 = 0x2f;

/// The byte of a full stop.
pub const DOT: u8 = 0x2e;

/// The stretches between separators, empty ones with them.
pub open spec fn pieces(path: Seq<u8>) -> Seq<Seq<u8>>
    decreases path.len(),
{
    if path.len() == 0 {
        seq![Seq::<u8>::empty()]
    } else {
        let before = pieces(path.drop_last());
        if path.last() == SEPARATOR {
            before.push(Seq::<u8>::empty())
        } else {
            before.drop_last().push(before.last().push(path.last()))
        }
    }
}

/// Whether the stretch number `i` counts as a component: it is not empty, and a
/// single dot counts only in front.
pub open spec fn counts(piece: Seq<u8>, i: int) -> bool {
    piece.len() > 0 && (piece != seq![DOT] || i == 0)
}

/// The components among the first stretches.
pub open spec fn counted(all: Seq<Seq<u8>>) -> Seq<Seq<u8>>
    decreases all.len(),
{
    if all.len() == 0 {
        Seq::<Seq<u8>>::empty()
    } else if counts(all.last(), all.len() - 1) {
        counted(all.drop_last()).push(all.last())
    } else {
        counted(all.drop_last())
    }
}

pub open spec fn is_absolute(path: Seq<u8>) -> bool {
    path.len() > 0 && path[0] == SEPARATOR
}

/// The components of a Unix path: the root, if the path starts there, then the
/// names. Repeated and trailing separators make no component.
pub open spec fn components(path: Seq<u8>) -> Seq<Seq<u8>> {
    if is_absolute(path) {
        seq![seq![SEPARATOR]] + counted(pieces(path))
    } else {
        counted(pieces(path))
    }
}

/// Whether a component is a name, rather than the root or a step in place or up.
pub open spec fn is_name(component: Seq<u8>) -> bool {
    component != seq![SEPARATOR] && component != seq![DOT] && component != seq![DOT, DOT]
}

/// The name that a path ends in.
pub open spec fn file_name(path: Seq<u8>) -> Option<Seq<u8>> {
    let all = components(path);
    if all.len() > 0 && is_name(all.last()) {
        Some(all.last())
    } else {
        None
    }
}

/// The contents of each of some byte strings.
pub open spec fn byte_views(all: Seq<Vec<u8>>) -> Seq<Seq<u8>> {
    Seq::new(all.len(), |i: int| all[i]@)
}

/// The contents of each of some texts.
pub open spec fn text_views(all: Seq<String>) -> Seq<Seq<char>> {
    Seq::new(all.len(), |i: int| all[i]@)
}

fn piece_counts(piece: &Vec<u8>, first: bool) -> (r: bool)
    ensures
        r == counts(piece@, if first { 0 } else { 1 }),
{
    let dot: bool = piece.len() == 1 && piece[0] == DOT;
    assert(dot <==> piece@ =~= seq![DOT]);
    piece.len() > 0 && (!dot || first)
}

/// Takes a path apart into its components.
pub fn path_components(path: &[u8]) -> (r: Vec<Vec<u8>>)
    ensures
        byte_views(r@) == components(path@),
{
    let mut done: Vec<Vec<u8>> = Vec::new();
    let mut current: Vec<u8> = Vec::new();
    let mut first: bool = true;
    let mut i: usize = 0;
    assert(path@.take(0) =~= Seq::<u8>::empty());
    assert(pieces(path@.take(0)).drop_last() =~= Seq::<Seq<u8>>::empty());
    assert(byte_views(done@) =~= counted(pieces(path@.take(0)).drop_last()));
    while i < path.len()
        invariant
            i <= path@.len(),
            pieces(path@.take(i as int)).len() > 0,
            pieces(path@.take(i as int)).last() == current@,
            first == (pieces(path@.take(i as int)).len() == 1),
            byte_views(done@) == counted(pieces(path@.take(i as int)).drop_last()),
        decreases path@.len() - i,
    {
        let byte: u8 = path[i];
        let ghost before = pieces(path@.take(i as int));
        let ghost after = pieces(path@.take(i + 1));
        let ghost done_before = done@;
        assert(path@.take(i + 1).drop_last() =~= path@.take(i as int));
        if byte == SEPARATOR {
            assert(after.drop_last() =~= before);
            if piece_counts(&current, first) {
                done.push(current);
                assert(byte_views(done@) =~= byte_views(done_before).push(current@));
            }
            current = Vec::new();
            first = false;
        } else {
            assert(after.drop_last() =~= before.drop_last());
            current.push(byte);
        }
        i = i + 1;
    }
    let ghost all = pieces(path@);
    let ghost done_before = done@;
    assert(path@.take(i as int) =~= path@);
    if piece_counts(&current, first) {
        done.push(current);
        assert(byte_views(done@) =~= byte_views(done_before).push(current@));
    }
    assert(byte_views(done@) == counted(all));
    if path.len() > 0 && path[0] == SEPARATOR {
        let ghost names = done@;
        let root: Vec<u8> = vec![SEPARATOR];
        assert(root@ =~= seq![SEPARATOR]);
        done.insert(0, root);
        assert(byte_views(done@) =~= seq![seq![SEPARATOR]] + byte_views(names));
    }
    done
}

fn component_is_name(component: &Vec<u8>) -> (r: bool)
    ensures
        r == is_name(component@),
{
    let root: bool = component.len() == 1 && component[0] == SEPARATOR;
    let dot: bool = component.len() == 1 && component[0] == DOT;
    let up: bool = component.len() == 2 && component[0] == DOT && component[1] == DOT;
    assert(root <==> component@ =~= seq![SEPARATOR]);
    assert(dot <==> component@ =~= seq![DOT]);
    assert(up <==> component@ =~= seq![DOT, DOT]);
    !root && !dot && !up
}

/// The name that a path ends in.
pub fn path_file_name(path: &[u8]) -> (r: Option<Vec<u8>>)
    ensures
        match r {
            Some(name) => file_name(path@) == Some(name@),
            None => file_name(path@) is None,
        },
{
    let mut all: Vec<Vec<u8>> = path_components(path);
    let ghost parts = byte_views(all@);
    match all.pop() {
        Some(last) => {
            assert(parts.last() == last@);
            if component_is_name(&last) {
                Some(last)
            } else {
                None
            }
        },
        None => None,
    }
}

/// The name that a path ends in, as text; empty where it ends in none.
pub open spec fn shown_name(path: Seq<u8>) -> Seq<char> {
    match file_name(path) {
        Some(name) => crate::text::shown(name),
        None => Seq::<char>::empty(),
    }
}

/// The name of a file for display; empty where a path ends in no name.
pub fn display_name(path: &[u8]) -> (r: String)
    ensures
        r@ == shown_name(path@),
{
    match path_file_name(path) {
        Some(name) => shown_text(name.as_slice()),
        None => String::new(),
    }
}

/// The label of a path with the given components: the last two of them.
pub open spec fn label(parts: Seq<Seq<char>>) -> Seq<char> {
    if parts.len() == 0 {
        "/"@
    } else if parts.len() == 1 {
        parts[0]
    } else {
        "…/"@ + parts[parts.len() - 2] + "/"@ + parts[parts.len() - 1]
    }
}

/// Writes the label of a path with the given components.
pub fn short_label(parts: &Vec<String>) -> (r: String)
    ensures
        r@ == label(text_views(parts@)),
{
    let n: usize = parts.len();
    if n == 0 {
        "/".to_owned()
    } else if n == 1 {
        parts[0].clone()
    } else {
        let mut text: String = "…/".to_owned();
        text.append(parts[n - 2].as_str());
        text.append("/");
        text.append(parts[n - 1].as_str());
        text
    }
}

/// A path for display, cut to its last two components.
pub fn short_path(path: &[u8]) -> (r: String)
    ensures
        r@ == label(components(path@).map_values(|part: Seq<u8>| crate::text::shown(part))),
{
    let all: Vec<Vec<u8>> = path_components(path);
    let mut parts: Vec<String> = Vec::new();
    let mut i: usize = 0;
    while i < all.len()
        invariant
            i <= all@.len(),
            parts@.len() == i,
            forall|j: int| 0 <= j < i ==> #[trigger] parts@[j]@ == crate::text::shown(all@[j]@),
        decreases all@.len() - i,
    {
        parts.push(shown_text(all[i].as_slice()));
        i = i + 1;
    }
    assert(text_views(parts@) =~= components(path@).map_values(
        |part: Seq<u8>| crate::text::shown(part),
    )) by {
        assert forall|j: int| 0 <= j < i implies text_views(parts@)[j] == crate::text::shown(
            components(path@)[j],
        ) by {
            assert(byte_views(all@)[j] == all@[j]@);
        }
        assert(byte_views(all@).len() == i);
    }
    short_label(&parts)
}

/// A path with one more component, which is not the root unless the path is empty.
pub open spec fn extended(path: Seq<u8>, name: Seq<u8>) -> Seq<u8> {
    if path.len() == 0 || path.last() == SEPARATOR {
        path + name
    } else {
        path.push(SEPARATOR) + name
    }
}

/// The beginning of a path that has the given components, and would not have them
/// with one byte less.
pub open spec fn cut_to(path: Seq<u8>, parts: Seq<Seq<u8>>) -> Seq<u8>
    decreases path.len(),
{
    if path.len() == 0 || (components(path) == parts && components(path.drop_last()) != parts) {
        path
    } else {
        cut_to(path.drop_last(), parts)
    }
}

/// The path one level up: the beginning of the path that has all components but
/// the last, without the separators that follow them. The root and the empty path
/// have none.
pub open spec fn parent(path: Seq<u8>) -> Option<Seq<u8>> {
    let all = components(path);
    if all.len() == 0 || all.last() == seq![SEPARATOR] {
        None
    } else {
        Some(cut_to(path, all.drop_last()))
    }
}

/// Appends a component to a path.
pub fn join_path(path: &[u8], name: &[u8]) -> (r: Vec<u8>)
    ensures
        r@ == extended(path@, name@),
{
    let mut all: Vec<u8> = Vec::new();
    append_bytes(&mut all, path);
    if path.len() > 0 && path[path.len() - 1] != SEPARATOR {
        all.push(SEPARATOR);
    }
    append_bytes(&mut all, name);
    assert(all@ =~= extended(path@, name@));
    all
}

/// Appends bytes to a byte string.
pub fn append_bytes(all: &mut Vec<u8>, more: &[u8])
    ensures
        final(all)@ == old(all)@ + more@,
{
    let ghost before = all@;
    let mut i: usize = 0;
    while i < more.len()
        invariant
            i <= more@.len(),
            all@ == before + more@.take(i as int),
        decreases more@.len() - i,
    {
        all.push(more[i]);
        assert(more@.take(i + 1) =~= more@.take(i as int).push(more@[i as int]));
        i = i + 1;
    }
    assert(more@.take(i as int) =~= more@);
}

fn same_bytes(a: &Vec<u8>, b: &Vec<u8>) -> (r: bool)
    ensures
        r == (a@ == b@),
{
    if a.len() != b.len() {
        return false;
    }
    let mut i: usize = 0;
    while i < a.len()
        invariant
            i <= a@.len(),
            a@.len() == b@.len(),
            forall|j: int| 0 <= j < i ==> a@[j] == b@[j],
        decreases a@.len() - i,
    {
        if a[i] != b[i] {
            return false;
        }
        i = i + 1;
    }
    assert(a@ =~= b@);
    true
}

fn same_parts(a: &Vec<Vec<u8>>, b: &Vec<Vec<u8>>) -> (r: bool)
    ensures
        r == (byte_views(a@) == byte_views(b@)),
{
    if a.len() != b.len() {
        assert(byte_views(a@).len() != byte_views(b@).len());
        return false;
    }
    let mut i: usize = 0;
    while i < a.len()
        invariant
            i <= a@.len(),
            a@.len() == b@.len(),
            forall|j: int| 0 <= j < i ==> (#[trigger] a@[j])@ == b@[j]@,
        decreases a@.len() - i,
    {
        if !same_bytes(&a[i], &b[i]) {
            assert(byte_views(a@)[i as int] != byte_views(b@)[i as int]);
            return false;
        }
        i = i + 1;
    }
    assert(byte_views(a@) =~= byte_views(b@));
    true
}

/// Two paths are the same if they have the same components.
pub open spec fn same_path(a: Seq<u8>, b: Seq<u8>) -> bool {
    components(a) == components(b)
}

/// Whether two paths have the same components.
pub fn paths_equal(a: &[u8], b: &[u8]) -> (r: bool)
    ensures
        r == same_path(a@, b@),
{
    same_parts(&path_components(a), &path_components(b))
}

/// The path one level up.
pub fn parent_path(path: &[u8]) -> (r: Option<Vec<u8>>)
    ensures
        match r {
            Some(up) => parent(path@) == Some(up@),
            None => parent(path@) is None,
        },
{
    let mut all: Vec<Vec<u8>> = path_components(path);
    let ghost parts = byte_views(all@);
    let last: Vec<u8> = match all.pop() {
        Some(last) => last,
        None => {
            return None;
        },
    };
    assert(parts.last() == last@);
    assert(parts.drop_last() =~= byte_views(all@));
    let root: bool = last.len() == 1 && last[0] == SEPARATOR;
    assert(root <==> last@ =~= seq![SEPARATOR]);
    if root {
        return None;
    }
    let mut end: usize = path.len();
    let mut fits: bool = false;
    let mut found: bool = false;
    assert(path@.take(end as int) =~= path@);
    assert(components(path@) != byte_views(all@)) by {
        assert(components(path@).len() != byte_views(all@).len());
    }
    while end > 0 && !found
        invariant
            end <= path@.len(),
            fits == (components(path@.take(end as int)) == byte_views(all@)),
            cut_to(path@, byte_views(all@)) == cut_to(path@.take(end as int), byte_views(all@)),
            found ==> cut_to(path@, byte_views(all@)) == path@.take(end as int),
        decreases end, !found as int,
    {
        let shorter: &[u8] = slice_subrange(path, 0, end - 1);
        assert(shorter@ =~= path@.take(end - 1));
        assert(path@.take(end as int).drop_last() =~= path@.take(end - 1));
        let shorter_fits: bool = same_parts(&path_components(shorter), &all);
        if fits && !shorter_fits {
            found = true;
        } else {
            end = end - 1;
            fits = shorter_fits;
        }
    }
    let mut up: Vec<u8> = Vec::new();
    append_bytes(&mut up, slice_subrange(path, 0, end));
    assert(up@ =~= path@.take(end as int));
    Some(up)
}

/// Where the last dot of a name is, or -1.
pub open spec fn last_dot(name: Seq<u8>) -> int
    decreases name.len(),
{
    if name.len() == 0 {
        -1
    } else if name.last() == DOT {
        name.len() - 1
    } else {
        last_dot(name.drop_last())
    }
}

/// What follows the last dot of the name that a path ends in, unless that dot is
/// in front.
pub open spec fn extension(path: Seq<u8>) -> Option<Seq<u8>> {
    match file_name(path) {
        Some(name) => if last_dot(name) <= 0 {
            None
        } else {
            Some(name.skip(last_dot(name) + 1))
        },
        None => None,
    }
}

/// What follows the last dot of the name that a path ends in.
pub fn path_extension(path: &[u8]) -> (r: Option<Vec<u8>>)
    ensures
        match r {
            Some(ext) => extension(path@) == Some(ext@),
            None => extension(path@) is None,
        },
{
    let name: Vec<u8> = match path_file_name(path) {
        Some(name) => name,
        None => {
            return None;
        },
    };
    let mut i: usize = name.len();
    assert(name@.take(i as int) =~= name@);
    while i > 0 && name[i - 1] != DOT
        invariant
            i <= name@.len(),
            last_dot(name@) == last_dot(name@.take(i as int)),
        decreases i,
    {
        assert(name@.take(i as int).drop_last() =~= name@.take(i - 1));
        i = i - 1;
    }
    if i <= 1 {
        return None;
    }
    assert(last_dot(name@) == i - 1);
    let mut ext: Vec<u8> = Vec::new();
    let mut j: usize = i;
    while j < name.len()
        invariant
            i <= j <= name@.len(),
            ext@ == name@.subrange(i as int, j as int),
        decreases name@.len() - j,
    {
        ext.push(name[j]);
        assert(name@.subrange(i as int, j + 1) =~= name@.subrange(i as int, j as int).push(
            name@[j as int],
        ));
        j = j + 1;
    }
    assert(ext@ =~= name@.skip(i as int));
    Some(ext)
}

/// The extension of a path as text, where it is text at all.
pub open spec fn extension_text(path: Seq<u8>) -> Option<Seq<char>> {
    match extension(path) {
        Some(ext) => if valid_utf8(ext) {
            Some(decode_utf8(ext))
        } else {
            None
        },
        None => None,
    }
}

/// The extension of a path as text, where it is text at all.
pub fn path_extension_text(path: &[u8]) -> (r: Option<String>)
    ensures
        match r {
            Some(text) => extension_text(path@) == Some(text@),
            None => extension_text(path@) is None,
        },
{
    match path_extension(path) {
        Some(ext) => exact_text(ext.as_slice()),
        None => None,
    }
}

} // verus!
