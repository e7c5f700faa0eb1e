use crate::browser::{DirItem, EntryView, ScannedView};
use vstd::prelude::*;
use vstd::seq_lib::*;

verus! {

/// A text does not come before itself.
pub proof fn law_precedes_is_strict(a: Seq<char>)
    ensures
        !crate::text::precedes(a, a),
    decreases a.len(),
{
    if a.len() > 0 {
        law_precedes_is_strict(a.skip(1));
    }
}

/// Of two different texts one comes before the other.
pub proof fn law_precedes_is_total(a: Seq<char>, b: Seq<char>)
    requires
        a != b,
    ensures
        crate::text::precedes(a, b) != crate::text::precedes(b, a),
    decreases a.len(),
{
    if a.len() > 0 && b.len() > 0 {
        if a[0] == b[0] {
            if a.skip(1) == b.skip(1) {
                assert(a =~= seq![a[0]] + a.skip(1));
                assert(b =~= seq![b[0]] + b.skip(1));
            }
            law_precedes_is_total(a.skip(1), b.skip(1));
        }
    } else if a.len() == 0 && b.len() == 0 {
        assert(a =~= b);
    }
}

/// A text that comes before another comes before all that follow it.
pub proof fn law_precedes_is_transitive(a: Seq<char>, b: Seq<char>, c: Seq<char>)
    requires
        crate::text::precedes(a, b),
        crate::text::precedes(b, c),
    ensures
        crate::text::precedes(a, c),
    decreases a.len(),
{
    if a.len() > 0 && a[0] == b[0] && b[0] == c[0] {
        law_precedes_is_transitive(a.skip(1), b.skip(1), c.skip(1));
    }
}

/// Whether no item comes before one in front of it.
pub open spec fn in_order(items: Seq<ScannedView>) -> bool {
    forall|i: int, j: int|
        0 <= i < j < items.len() ==> !crate::text::precedes(
            (#[trigger] items[j]).key,
            (#[trigger] items[i]).key,
        )
}

/// What comes no later than a text comes no later than what follows it.
proof fn lemma_not_after(a: Seq<char>, b: Seq<char>, c: Seq<char>)
    requires
        !crate::text::precedes(b, a),
        !crate::text::precedes(c, b),
    ensures
        !crate::text::precedes(c, a),
{
    if crate::text::precedes(c, a) {
        law_precedes_is_strict(a);
        if a != b {
            law_precedes_is_total(a, b);
            law_precedes_is_transitive(c, a, b);
        }
    }
}

proof fn lemma_inserted(items: Seq<ScannedView>, item: ScannedView)
    requires
        in_order(items),
    ensures
        in_order(crate::browser::inserted(items, item)),
        crate::browser::inserted(items, item).len() == items.len() + 1,
        forall|bound: Seq<char>|
            #![trigger crate::text::precedes(bound, item.key)]
            !crate::text::precedes(bound, item.key) && (forall|i: int|
                0 <= i < items.len() ==> !crate::text::precedes(bound, (#[trigger] items[i]).key))
                ==> forall|i: int|
                0 <= i < crate::browser::inserted(items, item).len() ==> !crate::text::precedes(
                    bound,
                    (#[trigger] crate::browser::inserted(items, item)[i]).key,
                ),
    decreases items.len(),
{
    let result = crate::browser::inserted(items, item);
    if items.len() == 0 {
    } else if !crate::text::precedes(item.key, items.last().key) {
        assert forall|i: int| 0 <= i < items.len() implies !crate::text::precedes(
            item.key,
            (#[trigger] items[i]).key,
        ) by {
            if i < items.len() - 1 {
                lemma_not_after(items[i].key, items.last().key, item.key);
            }
        }
    } else {
        let shorter = items.drop_last();
        let last = items.last();
        lemma_inserted(shorter, item);
        assert(!crate::text::precedes(last.key, item.key)) by {
            law_precedes_is_strict(item.key);
            if last.key != item.key {
                law_precedes_is_total(last.key, item.key);
            }
        }
        assert forall|i: int| 0 <= i < shorter.len() implies !crate::text::precedes(
            last.key,
            (#[trigger] shorter[i]).key,
        ) by {
            assert(shorter[i] == items[i]);
            assert(last == items[items.len() - 1]);
        }
        assert forall|bound: Seq<char>|
            #![trigger crate::text::precedes(bound, item.key)]
            !crate::text::precedes(bound, item.key) && (forall|i: int|
                0 <= i < items.len() ==> !crate::text::precedes(
                    bound,
                    (#[trigger] items[i]).key,
                )) implies forall|i: int|
            0 <= i < result.len() ==> !crate::text::precedes(
                bound,
                (#[trigger] result[i]).key,
            ) by {
            assert(forall|i: int| 0 <= i < shorter.len() ==> #[trigger] shorter[i] == items[i]);
            assert(!crate::text::precedes(bound, items[items.len() - 1].key));
        }
    }
}

/// The items of a list are put in order.
pub proof fn law_ordered_is_in_order(items: Seq<ScannedView>)
    ensures
        in_order(crate::browser::ordered(items)),
    decreases items.len(),
{
    if items.len() > 0 {
        law_ordered_is_in_order(items.drop_last());
        lemma_inserted(crate::browser::ordered(items.drop_last()), items.last());
    }
}

proof fn lemma_inserted_items(items: Seq<ScannedView>, item: ScannedView)
    ensures
        crate::browser::inserted(items, item).to_multiset() == items.to_multiset().insert(item),
    decreases items.len(),
{
    broadcast use group_to_multiset_ensures;

    if items.len() == 0 || !crate::text::precedes(item.key, items.last().key) {
    } else {
        lemma_inserted_items(items.drop_last(), item);
        assert(items =~= items.drop_last().push(items.last()));
        let rest = items.drop_last().to_multiset();
        assert(rest.insert(item).insert(items.last()) =~= rest.insert(items.last()).insert(item));
    }
}

/// Ordering neither loses an item nor adds one.
pub proof fn law_ordered_keeps_items(items: Seq<ScannedView>)
    ensures
        crate::browser::ordered(items).to_multiset() == items.to_multiset(),
    decreases items.len(),
{
    broadcast use group_to_multiset_ensures;

    if items.len() > 0 {
        law_ordered_keeps_items(items.drop_last());
        lemma_inserted_items(crate::browser::ordered(items.drop_last()), items.last());
        assert(items =~= items.drop_last().push(items.last()));
    } else {
        assert(crate::browser::ordered(items) =~= items);
    }
}

/// The items with a given key, in the order they stand in.
pub open spec fn with_key(items: Seq<ScannedView>, key: Seq<char>) -> Seq<ScannedView>
    decreases items.len(),
{
    if items.len() == 0 {
        Seq::<ScannedView>::empty()
    } else if items.last().key == key {
        with_key(items.drop_last(), key).push(items.last())
    } else {
        with_key(items.drop_last(), key)
    }
}

proof fn lemma_inserted_with_key(items: Seq<ScannedView>, item: ScannedView, key: Seq<char>)
    ensures
        with_key(crate::browser::inserted(items, item), key) == with_key(items.push(item), key),
    decreases items.len(),
{
    let result = crate::browser::inserted(items, item);
    assert(items.push(item).drop_last() =~= items);
    if items.len() > 0 && crate::text::precedes(item.key, items.last().key) {
        let shorter = items.drop_last();
        lemma_inserted_with_key(shorter, item, key);
        assert(shorter.push(item).drop_last() =~= shorter);
        law_precedes_is_strict(item.key);
        assert(item.key != items.last().key);
        assert(result.drop_last() =~= crate::browser::inserted(shorter, item));
        reveal_with_fuel(with_key, 3);
    }
}

/// Items with one key keep the order they came in.
pub proof fn law_ordered_is_stable(items: Seq<ScannedView>, key: Seq<char>)
    ensures
        with_key(crate::browser::ordered(items), key) == with_key(items, key),
    decreases items.len(),
{
    if items.len() > 0 {
        let before = crate::browser::ordered(items.drop_last());
        law_ordered_is_stable(items.drop_last(), key);
        lemma_inserted_with_key(before, items.last(), key);
        assert(before.push(items.last()).drop_last() =~= before);
    }
}

proof fn lemma_chosen(items: Seq<ScannedView>, dirs: bool)
    ensures
        forall|item: ScannedView|
            #[trigger] crate::browser::chosen(items, dirs).contains(item) <==> items.contains(
                item,
            ) && crate::browser::listed(item, dirs),
    decreases items.len(),
{
    if items.len() > 0 {
        let shorter = items.drop_last();
        let before = crate::browser::chosen(shorter, dirs);
        lemma_chosen(shorter, dirs);
        assert(items =~= shorter.push(items.last()));
        assert forall|item: ScannedView|
            #[trigger] crate::browser::chosen(items, dirs).contains(item) <==> items.contains(item)
                && crate::browser::listed(item, dirs) by {
            lemma_push_contains(shorter, items.last(), item);
            lemma_push_contains(before, items.last(), item);
        }
    }
}

proof fn lemma_push_contains(items: Seq<ScannedView>, last: ScannedView, item: ScannedView)
    ensures
        items.push(last).contains(item) <==> items.contains(item) || item == last,
{
    let all = items.push(last);
    if items.contains(item) {
        let i = choose|i: int| 0 <= i < items.len() && items[i] == item;
        assert(all[i] == item);
    }
    if item == last {
        assert(all[items.len() as int] == item);
    }
}

/// Choosing and ordering leaves exactly the items that are listed.
proof fn lemma_ordered_contains(items: Seq<ScannedView>, dirs: bool)
    ensures
        forall|item: ScannedView|
            #[trigger] crate::browser::ordered(crate::browser::chosen(items, dirs)).contains(item)
                <==> items.contains(item) && crate::browser::listed(item, dirs),
{
    broadcast use group_to_multiset_ensures;

    let chosen = crate::browser::chosen(items, dirs);
    let result = crate::browser::ordered(chosen);
    law_ordered_keeps_items(chosen);
    lemma_chosen(items, dirs);
    assert forall|item: ScannedView|
        #[trigger] result.contains(item) <==> items.contains(item) && crate::browser::listed(
            item,
            dirs,
        ) by {
        assert(result.contains(item) <==> result.to_multiset().count(item) > 0);
        assert(chosen.contains(item) <==> chosen.to_multiset().count(item) > 0);
    }
}

/// The line that an item of a directory makes.
pub open spec fn line(item: ScannedView) -> EntryView {
    EntryView { path: item.path, name: item.name, is_dir: item.is_dir }
}

/// How many lines stand in front of the items: the way up, if there is one.
pub open spec fn lines_in_front(up: Option<Seq<u8>>) -> int {
    if up is Some {
        1
    } else {
        0
    }
}

/// Every line after the way up is that of a visible item: a directory, or a file
/// with an audio extension.
pub proof fn law_lines_are_listed(up: Option<Seq<u8>>, items: Seq<ScannedView>, i: int)
    requires
        lines_in_front(up) <= i < crate::browser::listing(up, items).len(),
    ensures
        exists|item: ScannedView|
            #[trigger] items.contains(item) && (crate::browser::listed(item, true)
                || crate::browser::listed(item, false)) && crate::browser::listing(up, items)[i]
                == line(item),
        !crate::browser::is_hidden(crate::browser::listing(up, items)[i].name),
{
    let dirs = crate::browser::ordered(crate::browser::chosen(items, true));
    let files = crate::browser::ordered(crate::browser::chosen(items, false));
    lemma_ordered_contains(items, true);
    lemma_ordered_contains(items, false);
    let at = i - lines_in_front(up);
    if at < dirs.len() {
        assert(dirs.contains(dirs[at]));
        assert(items.contains(dirs[at]));
    } else {
        assert(files.contains(files[at - dirs.len()]));
        assert(items.contains(files[at - dirs.len()]));
    }
}

/// Every visible directory and audio file has a line.
pub proof fn law_listed_items_have_lines(
    up: Option<Seq<u8>>,
    items: Seq<ScannedView>,
    item: ScannedView,
)
    requires
        items.contains(item),
        crate::browser::listed(item, true) || crate::browser::listed(item, false),
    ensures
        crate::browser::listing(up, items).contains(line(item)),
{
    let dirs = crate::browser::ordered(crate::browser::chosen(items, true));
    let files = crate::browser::ordered(crate::browser::chosen(items, false));
    let all = crate::browser::listing(up, items);
    lemma_ordered_contains(items, true);
    lemma_ordered_contains(items, false);
    if crate::browser::listed(item, true) {
        assert(dirs.contains(item));
        let i = choose|i: int| 0 <= i < dirs.len() && dirs[i] == item;
        assert(all[lines_in_front(up) + i] == line(item));
    } else {
        assert(files.contains(item));
        let i = choose|i: int| 0 <= i < files.len() && files[i] == item;
        assert(all[lines_in_front(up) + dirs.len() + i] == line(item));
    }
}

/// Directories stand in front of files.
pub proof fn law_directories_come_first(
    up: Option<Seq<u8>>,
    items: Seq<ScannedView>,
    i: int,
    j: int,
)
    requires
        0 <= i < j < crate::browser::listing(up, items).len(),
        crate::browser::listing(up, items)[j].is_dir,
    ensures
        crate::browser::listing(up, items)[i].is_dir,
{
    let dirs = crate::browser::ordered(crate::browser::chosen(items, true));
    let files = crate::browser::ordered(crate::browser::chosen(items, false));
    lemma_ordered_contains(items, true);
    lemma_ordered_contains(items, false);
    let front = lines_in_front(up);
    if j - front >= dirs.len() {
        assert(files.contains(files[j - front - dirs.len()]));
    } else if i >= front {
        assert(dirs.contains(dirs[i - front]));
    }
}

/// The name shown for something in a directory is the one that its path ends in.
pub proof fn law_names_are_shown(dir: Seq<u8>, item: DirItem)
    requires
        crate::path::laws::is_plain(item.name@),
        crate::path::is_name(item.name@),
    ensures
        crate::browser::scanned(dir, item).name == crate::path::shown_name(
            crate::browser::scanned(dir, item).path,
        ),
{
    crate::path::laws::law_entry_ends_in_its_name(dir, item.name@);
}

/// The audio files are those with one of eight extensions.
pub proof fn law_there_are_eight_audio_extensions(extension: Seq<char>)
    ensures
        crate::browser::is_audio_extension(extension) <==> seq![
            "mp3"@,
            "wav"@,
            "ogg"@,
            "flac"@,
            "m4a"@,
            "aac"@,
            "opus"@,
            "wma"@,
        ].contains(extension),
{
    let known = seq!["mp3"@, "wav"@, "ogg"@, "flac"@, "m4a"@, "aac"@, "opus"@, "wma"@];
    assert(known[0] == "mp3"@ && known[1] == "wav"@ && known[2] == "ogg"@ && known[3] == "flac"@);
    assert(known[4] == "m4a"@ && known[5] == "aac"@ && known[6] == "opus"@ && known[7] == "wma"@);
}

/// A name is hidden if and only if it starts with a dot. A visible directory is
/// listed among the directories, and a visible file with an audio extension among
/// the files; nothing else is.
pub proof fn law_what_is_listed(item: ScannedView)
    ensures
        ({
            let visible = item.name.len() == 0 || item.name[0] != '.';
            &&& crate::browser::listed(item, true) <==> visible && item.is_dir
            &&& crate::browser::listed(item, false) <==> visible && !item.is_dir
                && crate::browser::is_audio_extension(item.extension)
        }),
{
}

/// The way up is the first line, where there is one.
pub proof fn law_way_up_comes_first(up: Seq<u8>, items: Seq<ScannedView>)
    ensures
        crate::browser::listing(Some(up), items).len() > 0,
        crate::browser::listing(Some(up), items)[0].path == up,
        crate::browser::listing(Some(up), items)[0].name == ".."@,
        crate::browser::listing(Some(up), items)[0].is_dir,
        crate::browser::listing(Some(up), items).skip(1) == crate::browser::listing(None, items),
{
    assert(crate::browser::listing(Some(up), items).skip(1) =~= crate::browser::listing(
        None,
        items,
    ));
}

/// What is known of an item: it lies in the directory under its own name, it is a
/// directory only where that was found out, and it is ordered by its name without
/// regard to the case of ASCII letters.
pub proof fn law_items_lie_in_their_directory(dir: Seq<u8>, item: DirItem)
    requires
        crate::path::laws::is_plain(item.name@),
    ensures
        crate::path::components(crate::browser::scanned(dir, item).path)
            == crate::path::components(dir).push(item.name@),
        crate::browser::scanned(dir, item).is_dir <==> item.is_dir == Some(true),
        crate::browser::scanned(dir, item).name == crate::text::shown(item.name@),
{
    crate::path::laws::law_entry_adds_one(dir, item.name@);
}

/// Names that differ in the case of ASCII letters alone have the same key.
pub proof fn law_keys_ignore_case(a: Seq<char>, b: Seq<char>)
    requires
        crate::text::all_ascii(a),
        crate::text::all_ascii(b),
        a.len() == b.len(),
        forall|i: int|
            0 <= i < a.len() ==> #[trigger] a[i] == b[i] || ('A' <= a[i] <= 'Z' && b[i] as u32
                == a[i] as u32 + 32) || ('A' <= b[i] <= 'Z' && a[i] as u32 == b[i] as u32 + 32),
    ensures
        crate::text::lowered(a) == crate::text::lowered(b),
{
    let x = crate::text::lowered(a);
    let y = crate::text::lowered(b);
    assert forall|i: int| 0 <= i < a.len() implies x[i] == y[i] by {
        assert(a[i] == a[i]);
    }
    assert(x =~= y);
}

/// Two texts are ordered by the first character in which they differ; a text comes
/// before all longer ones that it begins.
pub proof fn law_first_difference_decides(
    front: Seq<char>,
    a: char,
    b: char,
    x: Seq<char>,
    y: Seq<char>,
)
    requires
        a < b,
    ensures
        crate::text::precedes(front.push(a) + x, front.push(b) + y),
        !crate::text::precedes(front.push(b) + y, front.push(a) + x),
        crate::text::precedes(front, front.push(a) + x),
        !crate::text::precedes(front.push(a) + x, front),
    decreases front.len(),
{
    let p = front.push(a) + x;
    let q = front.push(b) + y;
    if front.len() > 0 {
        let rest = front.skip(1);
        law_first_difference_decides(rest, a, b, x, y);
        assert(p.skip(1) =~= rest.push(a) + x);
        assert(q.skip(1) =~= rest.push(b) + y);
        assert(p[0] == front[0] && q[0] == front[0]);
    } else {
        assert(p[0] == a && q[0] == b);
    }
}

} // verus!
