use crate::path::SEPARATOR;
use vstd::prelude::*;
use vstd::utf8::*;

verus! {

/// Whether a name can be that of something in a directory: it is not empty, holds
/// no separator, and does not stand for the directory itself.
pub open spec fn is_plain(name: Seq<u8>) -> bool {
    &&& name.len() > 0
    &&& name != seq![crate::path::DOT]
    &&& forall|i: int| 0 <= i < name.len() ==> #[trigger] name[i] != SEPARATOR
}

proof fn lemma_pieces_nonempty(path: Seq<u8>)
    ensures
        crate::path::pieces(path).len() > 0,
    decreases path.len(),
{
    if path.len() > 0 {
        lemma_pieces_nonempty(path.drop_last());
    }
}

/// Bytes without a separator make the last stretch longer.
proof fn lemma_pieces_append(path: Seq<u8>, name: Seq<u8>)
    requires
        forall|i: int| 0 <= i < name.len() ==> #[trigger] name[i] != SEPARATOR,
    ensures
        crate::path::pieces(path).len() > 0,
        crate::path::pieces(path + name) == crate::path::pieces(path).drop_last().push(
            crate::path::pieces(path).last() + name,
        ),
    decreases name.len(),
{
    let before = crate::path::pieces(path);
    lemma_pieces_nonempty(path);
    if name.len() == 0 {
        assert(path + name =~= path);
        assert(before.last() + name =~= before.last());
        assert(before =~= before.drop_last().push(before.last()));
    } else {
        let shorter = name.drop_last();
        lemma_pieces_append(path, shorter);
        assert((path + name).drop_last() =~= path + shorter);
        let middle = crate::path::pieces(path + shorter);
        assert(middle.drop_last() =~= before.drop_last());
        assert((before.last() + shorter).push(name.last()) =~= before.last() + name);
    }
}

/// What one more byte does to the components of a path.
proof fn lemma_components_step(path: Seq<u8>)
    requires
        path.len() > 0,
    ensures
        ({
            let shorter = crate::path::components(path.drop_last());
            let all = crate::path::components(path);
            ||| all == shorter
            ||| all.len() > 0 && all.drop_last() == shorter
            ||| all.len() > 0 && shorter.len() > 0 && all.drop_last() == shorter.drop_last()
                && shorter.last() != seq![SEPARATOR]
        }),
{
    let q = path.drop_last();
    let before = crate::path::pieces(q);
    let after = crate::path::pieces(path);
    let shorter = crate::path::components(q);
    let all = crate::path::components(path);
    lemma_pieces_nonempty(q);
    if path.last() == SEPARATOR {
        assert(after.drop_last() =~= before);
        assert(crate::path::counted(after) == crate::path::counted(before));
        if q.len() == 0 {
            assert(before.drop_last() =~= Seq::<Seq<u8>>::empty());
            reveal_with_fuel(crate::path::counted, 2);
            assert(crate::path::counted(before) =~= Seq::<Seq<u8>>::empty());
            assert(all.drop_last() =~= shorter);
        } else {
            assert(q[0] == path[0]);
        }
    } else {
        let base = crate::path::counted(before.drop_last());
        let root = if crate::path::is_absolute(path) {
            seq![seq![SEPARATOR]]
        } else {
            Seq::<Seq<u8>>::empty()
        };
        if q.len() > 0 {
            assert(q[0] == path[0]);
        }
        assert(after.drop_last() =~= before.drop_last());
        let old_last = before.last();
        let new_last = after.last();
        let at = before.len() - 1;
        lemma_last_piece(q);
        let with_old = crate::path::counts(old_last, at);
        let with_new = crate::path::counts(new_last, at);
        assert(shorter =~= root + if with_old {
            base.push(old_last)
        } else {
            base
        });
        assert(all =~= root + if with_new {
            base.push(new_last)
        } else {
            base
        });
        if with_new {
            assert(all.drop_last() =~= root + base);
            if with_old {
                assert(shorter.drop_last() =~= root + base);
                assert(shorter.last() == old_last);
            }
        } else {
            assert(!with_old) by {
                if with_old {
                    assert(new_last.len() > 1);
                    assert(new_last != seq![crate::path::DOT]);
                }
            }
        }
    }
}

/// The last stretch holds no separator.
proof fn lemma_last_piece(path: Seq<u8>)
    ensures
        crate::path::pieces(path).len() > 0,
        crate::path::pieces(path).last() != seq![SEPARATOR],
        forall|i: int|
            0 <= i < crate::path::pieces(path).last().len() ==> #[trigger] crate::path::pieces(
                path,
            ).last()[i] != SEPARATOR,
    decreases path.len(),
{
    lemma_pieces_nonempty(path);
    if path.len() > 0 {
        lemma_last_piece(path.drop_last());
    }
    let last = crate::path::pieces(path).last();
    if last == seq![SEPARATOR] {
        assert(last[0] == SEPARATOR);
    }
}

/// A path that has a last component has a beginning with all the others.
proof fn lemma_cut_exists(path: Seq<u8>)
    requires
        crate::path::components(path).len() > 0,
        crate::path::components(path).last() != seq![SEPARATOR],
    ensures
        crate::path::components(
            crate::path::cut_to(path, crate::path::components(path).drop_last()),
        ) == crate::path::components(path).drop_last(),
    decreases path.len(),
{
    let target = crate::path::components(path).drop_last();
    if path.len() == 0 {
        assert(crate::path::pieces(path).drop_last() =~= Seq::<Seq<u8>>::empty());
        reveal_with_fuel(crate::path::counted, 2);
        assert(false);
    }
    let q = path.drop_last();
    let shorter = crate::path::components(q);
    lemma_components_step(path);
    assert(crate::path::components(path).len() != target.len());
    if shorter == crate::path::components(path) {
        lemma_cut_exists(q);
    } else if shorter == target {
        lemma_cut_keeps(q);
    } else {
        lemma_cut_exists(q);
    }
}

/// Cut to its own components, a path keeps them.
proof fn lemma_cut_keeps(path: Seq<u8>)
    ensures
        crate::path::components(crate::path::cut_to(path, crate::path::components(path)))
            == crate::path::components(path),
    decreases path.len(),
{
    let parts = crate::path::components(path);
    if path.len() > 0 && crate::path::components(path.drop_last()) == parts {
        lemma_cut_keeps(path.drop_last());
    }
}

/// The path one level up has all components but the last.
pub proof fn law_parent_drops_one(path: Seq<u8>)
    requires
        crate::path::parent(path) is Some,
    ensures
        crate::path::components(crate::path::parent(path)->0) == crate::path::components(
            path,
        ).drop_last(),
{
    lemma_cut_exists(path);
}

/// Something in a directory has the components of the directory and its own name.
pub proof fn law_entry_adds_one(dir: Seq<u8>, name: Seq<u8>)
    requires
        is_plain(name),
    ensures
        crate::path::components(crate::path::extended(dir, name)) == crate::path::components(
            dir,
        ).push(name),
{
    let all = crate::path::extended(dir, name);
    let before = crate::path::pieces(dir);
    let after = crate::path::pieces(all);
    lemma_pieces_nonempty(dir);
    if dir.len() == 0 || dir.last() == SEPARATOR {
        lemma_pieces_append(dir, name);
        assert(before.last() + name =~= name);
        assert(after.drop_last() =~= before.drop_last());
        assert(crate::path::counted(before) == crate::path::counted(before.drop_last()));
        if dir.len() == 0 {
            assert(before.drop_last() =~= Seq::<Seq<u8>>::empty());
        }
    } else {
        let open = dir.push(SEPARATOR);
        assert(open.drop_last() =~= dir);
        lemma_pieces_append(open, name);
        let middle = crate::path::pieces(open);
        assert(middle.last() + name =~= name);
        assert(after.drop_last() =~= before);
    }
    assert(crate::path::counted(after) == crate::path::counted(before).push(name));
    if dir.len() > 0 {
        assert(all[0] == dir[0]);
        assert(crate::path::components(all) =~= crate::path::components(dir).push(name));
    } else {
        assert(all[0] == name[0]);
    }
}

/// The name that the path of something in a directory ends in is its own.
pub proof fn law_entry_ends_in_its_name(dir: Seq<u8>, name: Seq<u8>)
    requires
        is_plain(name),
        crate::path::is_name(name),
    ensures
        crate::path::file_name(crate::path::extended(dir, name)) == Some(name),
        crate::path::shown_name(crate::path::extended(dir, name)) == crate::text::shown(name),
{
    law_entry_adds_one(dir, name);
}

/// Going into a directory and up again leads back to the same place.
pub proof fn law_up_undoes_down(dir: Seq<u8>, name: Seq<u8>)
    requires
        is_plain(name),
    ensures
        crate::path::parent(crate::path::extended(dir, name)) is Some,
        crate::path::same_path(
            crate::path::parent(crate::path::extended(dir, name))->0,
            dir,
        ),
{
    law_entry_adds_one(dir, name);
    let all = crate::path::extended(dir, name);
    let parts = crate::path::components(dir);
    assert(name[0] != SEPARATOR);
    assert(parts.push(name).last() != seq![SEPARATOR]) by {
        assert(seq![SEPARATOR][0] == SEPARATOR);
    }
    law_parent_drops_one(all);
    assert(parts.push(name).drop_last() =~= parts);
}

/// What follows the last dot of a name is its extension, unless the dot is in front.
pub proof fn law_extension_follows_the_last_dot(path: Seq<u8>, stem: Seq<u8>, ext: Seq<u8>)
    requires
        crate::path::file_name(path) == Some(stem.push(crate::path::DOT) + ext),
        stem.len() > 0,
        forall|i: int| 0 <= i < ext.len() ==> #[trigger] ext[i] != crate::path::DOT,
    ensures
        crate::path::extension(path) == Some(ext),
{
    let name = stem.push(crate::path::DOT) + ext;
    lemma_last_dot(stem.push(crate::path::DOT), ext);
    assert(name.skip(stem.len() as int + 1) =~= ext);
}

/// A name without a dot, or with none but in front, has no extension.
pub proof fn law_no_dot_no_extension(path: Seq<u8>, name: Seq<u8>)
    requires
        crate::path::file_name(path) == Some(name),
        forall|i: int| 0 < i < name.len() ==> #[trigger] name[i] != crate::path::DOT,
    ensures
        crate::path::extension(path) is None,
{
    if name.len() > 0 {
        let rest = name.skip(1);
        assert forall|i: int| 0 <= i < rest.len() implies #[trigger] rest[i]
            != crate::path::DOT by {
            assert(rest[i] == name[i + 1]);
        }
        assert(name =~= name.take(1) + rest);
        if name[0] == crate::path::DOT {
            lemma_last_dot(name.take(1), rest);
        } else {
            lemma_no_dot(name);
        }
    }
}

proof fn lemma_last_dot(front: Seq<u8>, rest: Seq<u8>)
    requires
        front.len() > 0,
        front.last() == crate::path::DOT,
        forall|i: int| 0 <= i < rest.len() ==> #[trigger] rest[i] != crate::path::DOT,
    ensures
        crate::path::last_dot(front + rest) == front.len() - 1,
    decreases rest.len(),
{
    let all = front + rest;
    if rest.len() == 0 {
        assert(all =~= front);
    } else {
        assert(all.last() == rest[rest.len() - 1]);
        assert(all.drop_last() =~= front + rest.drop_last());
        lemma_last_dot(front, rest.drop_last());
    }
}

proof fn lemma_no_dot(name: Seq<u8>)
    requires
        forall|i: int| 0 <= i < name.len() ==> #[trigger] name[i] != crate::path::DOT,
    ensures
        crate::path::last_dot(name) == -1,
    decreases name.len(),
{
    if name.len() > 0 {
        assert(name.last() == name[name.len() - 1]);
        lemma_no_dot(name.drop_last());
    }
}

/// The label of a path shows its last two components, however many there are.
pub proof fn law_label_shows_the_last_two(parts: Seq<Seq<char>>, a: Seq<char>, b: Seq<char>)
    ensures
        crate::path::label(parts.push(a).push(b)) == "…/"@ + a + "/"@ + b,
        crate::path::label(seq![a]) == a,
        crate::path::label(Seq::<Seq<char>>::empty()) == "/"@,
{
}

/// Separators at the end, and steps in place behind them, make no component.
pub proof fn law_separators_at_the_end_count_for_nothing(path: Seq<u8>)
    requires
        path.len() > 0,
    ensures
        crate::path::components(path.push(SEPARATOR)) == crate::path::components(path),
        crate::path::components(path.push(SEPARATOR).push(crate::path::DOT))
            == crate::path::components(path),
{
    let open = path.push(SEPARATOR);
    let before = crate::path::pieces(path);
    let middle = crate::path::pieces(open);
    lemma_pieces_nonempty(path);
    assert(open.drop_last() =~= path);
    assert(middle.drop_last() =~= before);
    assert(open[0] == path[0]);
    let dotted = open.push(crate::path::DOT);
    let after = crate::path::pieces(dotted);
    assert(dotted.drop_last() =~= open);
    assert(after.drop_last() =~= before);
    assert(after.last() =~= seq![crate::path::DOT]);
    assert(dotted[0] == path[0]);
}

/// The empty path has no components, and the root has itself.
pub proof fn law_empty_path_and_root()
    ensures
        crate::path::components(Seq::<u8>::empty()).len() == 0,
        crate::path::components(seq![SEPARATOR]) == seq![seq![SEPARATOR]],
{
    reveal_with_fuel(crate::path::counted, 3);
    reveal_with_fuel(crate::path::pieces, 3);
    let none = Seq::<u8>::empty();
    let root = seq![SEPARATOR];
    assert(root.drop_last() =~= none);
    let one = crate::path::pieces(none);
    assert(one.drop_last() =~= Seq::<Seq<u8>>::empty());
    let two = crate::path::pieces(root);
    assert(two.drop_last() =~= one);
    assert(crate::path::components(root) =~= seq![seq![SEPARATOR]]);
}

/// There is a way up from every path but the root and the empty one.
pub proof fn law_way_up_from_all_but_the_root(path: Seq<u8>)
    ensures
        crate::path::parent(path) is None <==> crate::path::components(path).len() == 0
            || crate::path::components(path).last() == seq![SEPARATOR],
{
}

/// A path ends in a name unless its last component is the root or a step in place
/// or up.
pub proof fn law_what_is_a_name(path: Seq<u8>)
    ensures
        ({
            let all = crate::path::components(path);
            match crate::path::file_name(path) {
                Some(name) => all.len() > 0 && name == all.last() && name != seq![SEPARATOR]
                    && name != seq![crate::path::DOT] && name != seq![
                    crate::path::DOT,
                    crate::path::DOT,
                ],
                None => all.len() == 0 || all.last() == seq![SEPARATOR] || all.last() == seq![
                    crate::path::DOT,
                ] || all.last() == seq![crate::path::DOT, crate::path::DOT],
            }
        }),
{
}

/// No stretch between separators holds a separator.
proof fn lemma_pieces_hold_no_separator(path: Seq<u8>)
    ensures
        forall|i: int, j: int|
            0 <= i < crate::path::pieces(path).len() && 0 <= j < crate::path::pieces(path)[i].len()
                ==> #[trigger] crate::path::pieces(path)[i][j] != SEPARATOR,
        crate::path::pieces(path).len() > 0,
        path.len() > 0 && path[0] == SEPARATOR ==> crate::path::pieces(path)[0].len() == 0
            && crate::path::pieces(path).len() > 1,
    decreases path.len(),
{
    if path.len() > 0 {
        let shorter = path.drop_last();
        lemma_pieces_hold_no_separator(shorter);
        if shorter.len() == 0 {
            assert(crate::path::pieces(shorter)[0].len() == 0);
        } else {
            assert(shorter[0] == path[0]);
        }
    }
}

/// What counts is not empty, and no step in place but at the very start.
proof fn lemma_counted_parts(all: Seq<Seq<u8>>)
    requires
        forall|i: int, j: int|
            0 <= i < all.len() && 0 <= j < all[i].len() ==> #[trigger] all[i][j] != SEPARATOR,
    ensures
        ({
            let parts = crate::path::counted(all);
            &&& parts.len() <= all.len()
            &&& forall|i: int| 0 <= i < parts.len() ==> (#[trigger] parts[i]).len() > 0
            &&& forall|i: int, j: int|
                0 <= i < parts.len() && 0 <= j < parts[i].len() ==> #[trigger] parts[i][j]
                    != SEPARATOR
            &&& forall|i: int|
                0 <= i < parts.len() && (i > 0 || (all.len() > 0 && all[0].len() == 0))
                    ==> #[trigger] parts[i] != seq![crate::path::DOT]
        }),
    decreases all.len(),
{
    if all.len() > 0 {
        let front = all.drop_last();
        assert forall|i: int, j: int|
            0 <= i < front.len() && 0 <= j < front[i].len() implies #[trigger] front[i][j]
            != SEPARATOR by {
            assert(all[i][j] != SEPARATOR);
        }
        lemma_counted_parts(front);
        assert forall|j: int| 0 <= j < all.last().len() implies #[trigger] all.last()[j]
            != SEPARATOR by {
            assert(all[all.len() - 1][j] != SEPARATOR);
        }
        if front.len() > 0 {
            assert(front[0] == all[0]);
        }
    }
}

/// What the components of a path are: none is empty, none behind the first is a
/// step in place, and none but the root holds a separator. The root comes first in
/// every path that starts with a separator, and nowhere else.
pub proof fn law_what_components_are(path: Seq<u8>)
    ensures
        ({
            let all = crate::path::components(path);
            &&& forall|i: int| 0 <= i < all.len() ==> (#[trigger] all[i]).len() > 0
            &&& forall|i: int|
                0 < i < all.len() ==> #[trigger] all[i] != seq![crate::path::DOT] && all[i]
                    != seq![SEPARATOR]
            &&& forall|i: int, j: int|
                0 <= i < all.len() && all[i] != seq![SEPARATOR] && 0 <= j < all[i].len()
                    ==> #[trigger] all[i][j] != SEPARATOR
            &&& all.len() > 0 && all[0] == seq![SEPARATOR] <==> path.len() > 0 && path[0]
                == SEPARATOR
        }),
{
    let stretches = crate::path::pieces(path);
    let parts = crate::path::counted(stretches);
    let all = crate::path::components(path);
    lemma_pieces_hold_no_separator(path);
    lemma_counted_parts(stretches);
    assert forall|i: int| 0 <= i < parts.len() implies #[trigger] parts[i] != seq![SEPARATOR] by {
        if parts[i] == seq![SEPARATOR] {
            assert(parts[i][0] == SEPARATOR);
        }
    }
    if path.len() > 0 && path[0] == SEPARATOR {
        assert(all[0] == seq![SEPARATOR]);
        assert forall|i: int| 0 < i < all.len() implies #[trigger] all[i] == parts[i - 1] by {}
        assert forall|i: int, j: int|
            0 <= i < all.len() && all[i] != seq![SEPARATOR] && 0 <= j
                < all[i].len() implies #[trigger] all[i][j] != SEPARATOR by {
            assert(all[i] == parts[i - 1]);
            assert(parts[i - 1][j] != SEPARATOR);
        }
        assert forall|i: int|
            0 < i < all.len() implies #[trigger] all[i] != seq![crate::path::DOT] && all[i]
            != seq![SEPARATOR] by {
            assert(all[i] == parts[i - 1]);
        }
    } else {
        assert(all == parts);
    }
}

/// A step in place counts at the start of a path.
pub proof fn law_step_in_place_at_the_start(rest: Seq<u8>)
    ensures
        ({
            let path = seq![crate::path::DOT, SEPARATOR] + rest;
            &&& crate::path::components(path).len() > 0
            &&& crate::path::components(path)[0] == seq![crate::path::DOT]
        }),
{
    let path = seq![crate::path::DOT, SEPARATOR] + rest;
    lemma_first_piece(rest);
    lemma_first_counts(crate::path::pieces(path));
    assert(path[0] == crate::path::DOT);
}

proof fn lemma_first_piece(rest: Seq<u8>)
    ensures
        ({
            let all = crate::path::pieces(seq![crate::path::DOT, SEPARATOR] + rest);
            &&& all.len() > 1
            &&& all[0] == seq![crate::path::DOT]
        }),
    decreases rest.len(),
{
    let path = seq![crate::path::DOT, SEPARATOR] + rest;
    if rest.len() == 0 {
        let one = path.drop_last();
        assert(path =~= seq![crate::path::DOT, SEPARATOR]);
        assert(one =~= seq![crate::path::DOT]);
        assert(one.drop_last() =~= Seq::<u8>::empty());
        let none = crate::path::pieces(one.drop_last());
        assert(none =~= seq![Seq::<u8>::empty()]);
        assert(crate::path::pieces(one) =~= seq![seq![crate::path::DOT]]);
    } else {
        lemma_first_piece(rest.drop_last());
        assert(path.drop_last() =~= seq![crate::path::DOT, SEPARATOR] + rest.drop_last());
    }
}

proof fn lemma_first_counts(all: Seq<Seq<u8>>)
    requires
        all.len() > 0,
        crate::path::counts(all[0], 0),
    ensures
        crate::path::counted(all).len() > 0,
        crate::path::counted(all)[0] == all[0],
    decreases all.len(),
{
    if all.len() > 1 {
        lemma_first_counts(all.drop_last());
        assert(all.drop_last()[0] == all[0]);
    } else {
        assert(crate::path::counted(all.drop_last()) =~= Seq::<Seq<u8>>::empty());
        assert(all.last() == all[0]);
    }
}

/// The path one level up is a beginning of the path, with nothing behind its last
/// component.
pub proof fn law_parent_is_a_beginning(path: Seq<u8>)
    requires
        crate::path::parent(path) is Some,
    ensures
        ({
            let up = crate::path::parent(path)->0;
            &&& up.len() <= path.len()
            &&& up == path.take(up.len() as int)
            &&& up.len() > 0 ==> crate::path::components(up.drop_last())
                != crate::path::components(up)
        }),
{
    lemma_cut_is_a_beginning(path, crate::path::components(path).drop_last());
}

proof fn lemma_cut_is_a_beginning(path: Seq<u8>, parts: Seq<Seq<u8>>)
    ensures
        ({
            let cut = crate::path::cut_to(path, parts);
            &&& cut.len() <= path.len()
            &&& cut == path.take(cut.len() as int)
            &&& cut.len() > 0 ==> crate::path::components(cut) == parts
                && crate::path::components(cut.drop_last()) != parts
        }),
    decreases path.len(),
{
    let cut = crate::path::cut_to(path, parts);
    if path.len() == 0 || (crate::path::components(path) == parts && crate::path::components(
        path.drop_last(),
    ) != parts) {
        assert(path.take(path.len() as int) =~= path);
    } else {
        lemma_cut_is_a_beginning(path.drop_last(), parts);
        assert(path.drop_last().take(cut.len() as int) =~= path.take(cut.len() as int));
    }
}

/// An extension is a text where its bytes are one.
pub proof fn law_extension_is_a_text(path: Seq<u8>)
    ensures
        match crate::path::extension(path) {
            Some(ext) => crate::path::extension_text(path) == if valid_utf8(ext) {
                Some(decode_utf8(ext))
            } else {
                None
            },
            None => crate::path::extension_text(path) is None,
        },
{
}

} // verus!
