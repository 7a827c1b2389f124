//! What an extraction leaves behind: a model of the destination, and the
//! laws that the walk obeys in it.
//!
//! The model holds one node for each path that a step has named. It knows
//! nothing of how paths nest: `out/a` and `out//a` are two paths here. A
//! step always goes through: the model says what the destination holds once
//! every step has been performed, not whether it can be.

use crate::extract::{extractable, plan_children, plan_entry, plan_tree, ActionView};
use crate::text::{
    joined, lemma_below_is_longer, lemma_names_are_told_by_path, lemma_siblings_lie_apart, path_of,
    plain,
};
use crate::tree::{alike, names_distinct, EntryView, NamedEntryView};
use vstd::utf8::encode_utf8;
use vstd::prelude::*;

verus! {

/// What the destination holds at one path.
pub enum Node {
    Directory,
    File { bytes: Seq<u8> },
}

/// The path that a step acts on.
pub open spec fn target(action: ActionView) -> Seq<char> {
    match action {
        ActionView::CreateDir { path } => path,
        ActionView::WriteFile { path, .. } => path,
    }
}

/// What a step leaves at its path. A file is written anew: it holds the
/// bytes of this step and nothing of what it held before.
pub open spec fn outcome(action: ActionView) -> Node {
    match action {
        ActionView::CreateDir { .. } => Node::Directory,
        ActionView::WriteFile { bytes, .. } => Node::File { bytes },
    }
}

/// The destination after one step.
pub open spec fn perform(disk: Map<Seq<char>, Node>, action: ActionView) -> Map<Seq<char>, Node> {
    disk.insert(target(action), outcome(action))
}

/// The destination after the steps, performed in order.
pub open spec fn perform_all(disk: Map<Seq<char>, Node>, actions: Seq<ActionView>) -> Map<
    Seq<char>,
    Node,
>
    decreases actions.len(),
{
    if actions.len() == 0 {
        disk
    } else {
        perform(perform_all(disk, actions.drop_last()), actions.last())
    }
}

/// What the last of the steps that act on `path` leaves there, if one does.
pub open spec fn last_outcome(actions: Seq<ActionView>, path: Seq<char>) -> Option<Node>
    decreases actions.len(),
{
    if actions.len() == 0 {
        None
    } else if target(actions.last()) == path {
        Some(outcome(actions.last()))
    } else {
        last_outcome(actions.drop_last(), path)
    }
}

/// Performing two runs of steps one after the other is performing them in
/// one run.
pub proof fn lemma_perform_all_concat(
    disk: Map<Seq<char>, Node>,
    first: Seq<ActionView>,
    second: Seq<ActionView>,
)
    ensures
        perform_all(disk, first + second) == perform_all(perform_all(disk, first), second),
    decreases second.len(),
{
    if second.len() == 0 {
        assert(first + second =~= first);
    } else {
        assert((first + second).drop_last() =~= first + second.drop_last());
        assert((first + second).last() == second.last());
        lemma_perform_all_concat(disk, first, second.drop_last());
    }
}

/// After the steps, a path holds what the last step that acts on it leaves
/// there, and what it held before where no step acts on it.
pub proof fn lemma_last_step_decides(
    disk: Map<Seq<char>, Node>,
    actions: Seq<ActionView>,
    path: Seq<char>,
)
    ensures
        perform_all(disk, actions).dom().contains(path) <==> disk.dom().contains(path)
            || last_outcome(actions, path) is Some,
        last_outcome(actions, path) matches Some(node) ==> perform_all(disk, actions)[path] == node,
        last_outcome(actions, path) is None ==> perform_all(disk, actions)[path] == disk[path],
    decreases actions.len(),
{
    if actions.len() > 0 {
        lemma_last_step_decides(disk, actions.drop_last(), path);
    }
}

/// Performing the same steps a second time changes nothing: directories
/// stay, and every file is written anew with the same bytes.
pub proof fn lemma_second_run_changes_nothing(disk: Map<Seq<char>, Node>, actions: Seq<ActionView>)
    ensures
        perform_all(perform_all(disk, actions), actions) == perform_all(disk, actions),
{
    let once = perform_all(disk, actions);
    let twice = perform_all(once, actions);
    assert forall|path: Seq<char>| #[trigger]
        twice.dom().contains(path) <==> once.dom().contains(path) by {
        lemma_last_step_decides(disk, actions, path);
        lemma_last_step_decides(once, actions, path);
    }
    assert forall|path: Seq<char>| once.dom().contains(path) implies #[trigger] twice[path]
        == once[path] by {
        lemma_last_step_decides(disk, actions, path);
        lemma_last_step_decides(once, actions, path);
    }
    assert(twice =~= once);
}

/// Whether the tree under `e` names its entries well: within each
/// directory no two entries have the same name, and no name has a `/` in
/// it.
pub open spec fn tidy(e: EntryView) -> bool
    decreases e,
{
    match e {
        EntryView::Directory { children } => names_distinct(children) && forall|i: int|
            0 <= i < children.len() ==> plain((#[trigger] children[i]).name) && tidy(
                children[i].entry,
            ),
        _ => true,
    }
}

/// Whether the directory `e` has a member called `name`.
pub open spec fn has_child(e: EntryView, name: Seq<char>) -> bool {
    e is Directory && exists|i: int|
        0 <= i < e->children.len() && (#[trigger] e->children[i]).name == name
}

/// The member of the directory `e` that is called `name`.
pub open spec fn child(e: EntryView, name: Seq<char>) -> EntryView
    recommends
        has_child(e, name),
{
    let i = choose|i: int| 0 <= i < e->children.len() && (#[trigger] e->children[i]).name == name;
    e->children[i].entry
}

/// The entry that is reached from `e` through the directories `names`,
/// outermost first, if there is one.
pub open spec fn entry_at(e: EntryView, names: Seq<Seq<char>>) -> Option<EntryView>
    decreases names.len(),
{
    if names.len() == 0 {
        Some(e)
    } else if has_child(e, names[0]) {
        entry_at(child(e, names[0]), names.drop_first())
    } else {
        None
    }
}

/// What the extraction of an entry is to leave at the entry's path.
pub open spec fn node_of(e: EntryView, blob: Seq<u8>) -> Node {
    match e {
        EntryView::File { offset, size } => Node::File {
            bytes: blob.subrange(offset as int, offset + size),
        },
        EntryView::Symlink { target } => Node::File { bytes: encode_utf8(target) },
        _ => Node::Directory,
    }
}

/// Whether `path` is the path of an entry of the tree under `e`, which
/// itself is extracted to `at`.
pub open spec fn covers(e: EntryView, at: Seq<char>, path: Seq<char>) -> bool {
    exists|names: Seq<Seq<char>>| entry_at(e, names) is Some && #[trigger] path_of(at, names) == path
}

/// Whether `path` is the path of an entry of the tree under one of
/// `children`, which are extracted into `dir`.
pub open spec fn covers_children(children: Seq<NamedEntryView>, dir: Seq<char>, path: Seq<char>) -> bool {
    exists|i: int, names: Seq<Seq<char>>|
        0 <= i < children.len() && entry_at(children[i].entry, names) is Some && #[trigger] path_of(
            joined(dir, (#[trigger] children[i]).name),
            names,
        ) == path
}

/// In a directory without two entries of one name, the member of a name is
/// the entry that carries it.
pub proof fn lemma_child_is_the_named(e: EntryView, i: int)
    requires
        e is Directory,
        names_distinct(e->children),
        0 <= i < e->children.len(),
    ensures
        has_child(e, e->children[i].name),
        child(e, e->children[i].name) == e->children[i].entry,
{
    let name = e->children[i].name;
    assert(e->children[i].name == name);
    let j = choose|j: int| 0 <= j < e->children.len() && (#[trigger] e->children[j]).name == name;
    if i < j {
        assert(e->children[i].name != e->children[j].name);
    }
    if j < i {
        assert(e->children[j].name != e->children[i].name);
    }
}

/// Whether the destination holds `node` at `path`.
pub open spec fn holds(disk: Map<Seq<char>, Node>, path: Seq<char>, node: Node) -> bool {
    disk.dom().contains(path) && disk[path] == node
}

/// Whether the destination holds at `path` what it held before.
pub open spec fn untouched(before: Map<Seq<char>, Node>, after: Map<Seq<char>, Node>, path: Seq<char>) -> bool {
    &&& after.dom().contains(path) <==> before.dom().contains(path)
    &&& before.dom().contains(path) ==> after[path] == before[path]
}

/// What the steps of an extraction leave behind, entry by entry: at the
/// path of every entry what the entry calls for, and elsewhere what was
/// there before.
pub proof fn lemma_entry_is_built(e: EntryView, at: Seq<char>, blob: Seq<u8>, disk: Map<Seq<char>, Node>)
    requires
        tidy(e),
        extractable(e, blob.len()),
    ensures
        forall|names: Seq<Seq<char>>|
            entry_at(e, names) is Some ==> holds(
                perform_all(disk, plan_entry(e, at, blob).actions),
                #[trigger] path_of(at, names),
                node_of(entry_at(e, names)->0, blob),
            ),
        forall|path: Seq<char>|
            !covers(e, at, path) ==> #[trigger] untouched(
                disk,
                perform_all(disk, plan_entry(e, at, blob).actions),
                path,
            ),
    decreases e,
{
    let actions = plan_entry(e, at, blob).actions;
    let after = perform_all(disk, actions);
    let none = Seq::<Seq<char>>::empty();
    assert(entry_at(e, none) == Some(e));
    assert(path_of(at, none) == at);
    assert(covers(e, at, at));
    match e {
        EntryView::Directory { children } => {
            let first = seq![ActionView::CreateDir { path: at }];
            let rest = plan_children(children, at, blob).actions;
            let made = disk.insert(at, Node::Directory);
            crate::extract::lemma_children_fail_iff_unextractable(children, at, blob);
            assert(actions == first + rest);
            lemma_perform_all_concat(disk, first, rest);
            assert(perform_all(disk, first) == made) by {
                assert(first.drop_last() =~= Seq::<ActionView>::empty());
                assert(perform_all(disk, first.drop_last()) == disk);
            }
            lemma_children_are_built(children, at, blob, made);
            assert(!covers_children(children, at, at)) by {
                if covers_children(children, at, at) {
                    let (i, names) = choose|i: int, names: Seq<Seq<char>>|
                        0 <= i < children.len() && entry_at(children[i].entry, names) is Some
                            && #[trigger] path_of(joined(at, (#[trigger] children[i]).name), names)
                            == at;
                    lemma_below_is_longer(at, seq![children[i].name] + names);
                    assert((seq![children[i].name] + names).drop_first() =~= names);
                }
            }
            assert(untouched(made, after, at));
            assert forall|names: Seq<Seq<char>>| entry_at(e, names) is Some implies holds(
                after,
                #[trigger] path_of(at, names),
                node_of(entry_at(e, names)->0, blob),
            ) by {
                if names.len() > 0 {
                    let i = choose|i: int|
                        0 <= i < children.len() && (#[trigger] children[i]).name == names[0];
                    lemma_child_is_the_named(e, i);
                    assert(entry_at(children[i].entry, names.drop_first()) is Some);
                    assert(path_of(at, names) == path_of(
                        joined(at, children[i].name),
                        names.drop_first(),
                    ));
                }
            }
            assert forall|path: Seq<char>| !covers(e, at, path) implies #[trigger] untouched(
                disk,
                after,
                path,
            ) by {
                if covers_children(children, at, path) {
                    let (i, names) = choose|i: int, names: Seq<Seq<char>>|
                        0 <= i < children.len() && entry_at(children[i].entry, names) is Some
                            && #[trigger] path_of(joined(at, (#[trigger] children[i]).name), names)
                            == path;
                    let longer = seq![children[i].name] + names;
                    lemma_child_is_the_named(e, i);
                    assert(longer.drop_first() =~= names);
                    assert(longer[0] == children[i].name);
                    assert(entry_at(e, longer) is Some);
                    assert(path_of(at, longer) == path);
                    assert(false);
                }
                assert(untouched(made, after, path));
            }
        },
        EntryView::File { .. } => {
            assert(actions.drop_last() =~= Seq::<ActionView>::empty());
            assert(perform_all(disk, actions.drop_last()) == disk);
            assert forall|names: Seq<Seq<char>>| entry_at(e, names) is Some implies names.len()
                == 0 by {}
        },
        EntryView::Symlink { .. } => {
            assert(actions.drop_last() =~= Seq::<ActionView>::empty());
            assert(perform_all(disk, actions.drop_last()) == disk);
            assert forall|names: Seq<Seq<char>>| entry_at(e, names) is Some implies names.len()
                == 0 by {}
        },
        EntryView::Malformed { .. } => {},
    }
}

/// What the steps that fill a directory leave behind: see
/// [`lemma_entry_is_built`].
pub proof fn lemma_children_are_built(
    children: Seq<NamedEntryView>,
    dir: Seq<char>,
    blob: Seq<u8>,
    disk: Map<Seq<char>, Node>,
)
    requires
        names_distinct(children),
        forall|i: int|
            0 <= i < children.len() ==> plain((#[trigger] children[i]).name) && tidy(
                children[i].entry,
            ) && extractable(children[i].entry, blob.len()),
    ensures
        forall|i: int, names: Seq<Seq<char>>|
            0 <= i < children.len() && entry_at(children[i].entry, names) is Some ==> holds(
                perform_all(disk, plan_children(children, dir, blob).actions),
                #[trigger] path_of(joined(dir, (#[trigger] children[i]).name), names),
                node_of(entry_at(children[i].entry, names)->0, blob),
            ),
        forall|path: Seq<char>|
            !covers_children(children, dir, path) ==> #[trigger] untouched(
                disk,
                perform_all(disk, plan_children(children, dir, blob).actions),
                path,
            ),
    decreases children,
{
    let actions = plan_children(children, dir, blob).actions;
    let after = perform_all(disk, actions);
    if children.len() > 0 {
        let init = children.drop_last();
        let last = children.last();
        let n = children.len() - 1;
        assert(children[n] == last);
        let at = joined(dir, last.name);
        let first = plan_children(init, dir, blob).actions;
        let second = plan_entry(last.entry, at, blob).actions;
        let between = perform_all(disk, first);
        assert forall|i: int| 0 <= i < init.len() implies plain((#[trigger] init[i]).name) && tidy(
            init[i].entry,
        ) && extractable(init[i].entry, blob.len()) by {
            assert(init[i] == children[i]);
        }
        assert(names_distinct(init)) by {
            assert forall|i: int, j: int| 0 <= i < j < init.len() implies (#[trigger] init[i]).name
                != (#[trigger] init[j]).name by {
                assert(init[i] == children[i]);
                assert(init[j] == children[j]);
            }
        }
        crate::extract::lemma_children_fail_iff_unextractable(init, dir, blob);
        assert(actions == first + second);
        lemma_perform_all_concat(disk, first, second);
        lemma_children_are_built(init, dir, blob, disk);
        lemma_entry_is_built(last.entry, at, blob, between);
        assert forall|i: int, names: Seq<Seq<char>>|
            0 <= i < children.len() && entry_at(children[i].entry, names) is Some implies holds(
            after,
            #[trigger] path_of(joined(dir, (#[trigger] children[i]).name), names),
            node_of(entry_at(children[i].entry, names)->0, blob),
        ) by {
            let path = path_of(joined(dir, children[i].name), names);
            if i < n {
                assert(init[i] == children[i]);
                assert(!covers(last.entry, at, path)) by {
                    if covers(last.entry, at, path) {
                        let other = choose|other: Seq<Seq<char>>|
                            entry_at(last.entry, other) is Some && #[trigger] path_of(at, other)
                                == path;
                        assert(children[i].name != children[n].name);
                        lemma_siblings_lie_apart(dir, children[i].name, names, last.name, other);
                    }
                }
                assert(untouched(between, after, path));
                assert(holds(
                    between,
                    path_of(joined(dir, init[i].name), names),
                    node_of(entry_at(init[i].entry, names)->0, blob),
                ));
            } else {
                assert(holds(after, path_of(at, names), node_of(entry_at(last.entry, names)->0, blob)));
            }
        }
        assert forall|path: Seq<char>| !covers_children(children, dir, path) implies #[trigger] untouched(
            disk,
            after,
            path,
        ) by {
            assert(!covers(last.entry, at, path)) by {
                if covers(last.entry, at, path) {
                    let names = choose|names: Seq<Seq<char>>|
                        entry_at(last.entry, names) is Some && #[trigger] path_of(at, names) == path;
                    assert(path_of(joined(dir, children[n].name), names) == path);
                    assert(false);
                }
            }
            assert(!covers_children(init, dir, path)) by {
                if covers_children(init, dir, path) {
                    let (i, names) = choose|i: int, names: Seq<Seq<char>>|
                        0 <= i < init.len() && entry_at(init[i].entry, names) is Some
                            && #[trigger] path_of(joined(dir, (#[trigger] init[i]).name), names)
                            == path;
                    assert(init[i] == children[i]);
                    assert(path_of(joined(dir, children[i].name), names) == path);
                    assert(false);
                }
            }
            assert(untouched(disk, between, path));
            assert(untouched(between, after, path));
        }
    } else {
        assert forall|path: Seq<char>| #[trigger] untouched(disk, after, path) by {}
    }
}

/// The destination that the steps of an extraction to `base` leave where
/// there was nothing before.
pub open spec fn built(root: EntryView, base: Seq<char>, blob: Seq<u8>) -> Map<Seq<char>, Node> {
    perform_all(Map::empty(), plan_tree(root, base, blob).actions)
}

/// An extraction that goes through recreates the tree: at the path of
/// every entry the destination holds what the entry calls for (a
/// directory, a file with the entry's bytes of the blob, or a file with
/// the link's target as text), and it holds nothing else.
///
/// This needs a tree that names its entries well. Where two entries share
/// a path, the one that is extracted last decides what the path holds.
pub proof fn lemma_extraction_recreates_tree(root: EntryView, base: Seq<char>, blob: Seq<u8>)
    requires
        plan_tree(root, base, blob).failure is None,
        tidy(root),
    ensures
        forall|names: Seq<Seq<char>>|
            entry_at(root, names) is Some ==> holds(
                built(root, base, blob),
                #[trigger] path_of(base, names),
                node_of(entry_at(root, names)->0, blob),
            ),
        forall|path: Seq<char>| #[trigger]
            built(root, base, blob).dom().contains(path) ==> covers(root, base, path),
{
    crate::extract::lemma_tree_fails_iff_unextractable(root, base, blob);
    let nothing = Map::<Seq<char>, Node>::empty();
    lemma_entry_is_built(root, base, blob, nothing);
    assert forall|path: Seq<char>| #[trigger]
        built(root, base, blob).dom().contains(path) implies covers(root, base, path) by {
        if !covers(root, base, path) {
            assert(untouched(nothing, built(root, base, blob), path));
        }
    }
}

/// The names that lead to an entry of a tree that names its entries well
/// have no `/` in them.
pub proof fn lemma_reached_by_plain_names(e: EntryView, names: Seq<Seq<char>>)
    requires
        tidy(e),
        entry_at(e, names) is Some,
    ensures
        forall|i: int| 0 <= i < names.len() ==> plain(#[trigger] names[i]),
    decreases names.len(),
{
    if names.len() > 0 {
        let i = choose|i: int| 0 <= i < e->children.len() && (#[trigger] e->children[i]).name == names[0];
        lemma_child_is_the_named(e, i);
        lemma_reached_by_plain_names(e->children[i].entry, names.drop_first());
        assert forall|k: int| 0 <= k < names.len() implies plain(#[trigger] names[k]) by {
            if k > 0 {
                assert(names[k] == names.drop_first()[k - 1]);
            }
        }
    }
}

/// The entry that one more name leads to is the member of that name in the
/// directory that the names before it lead to.
pub proof fn lemma_entry_at_one_deeper(e: EntryView, names: Seq<Seq<char>>, name: Seq<char>)
    ensures
        entry_at(e, names.push(name)) == match entry_at(e, names) {
            Some(dir) => if has_child(dir, name) {
                Some(child(dir, name))
            } else {
                None
            },
            None => None,
        },
    decreases names.len(),
{
    let longer = names.push(name);
    if names.len() == 0 {
        assert(longer.drop_first() =~= names);
        assert(longer[0] == name);
        if has_child(e, name) {
            assert(entry_at(child(e, name), names) == Some(child(e, name)));
        }
    } else {
        assert(longer[0] == names[0]);
        assert(longer.drop_first() =~= names.drop_first().push(name));
        if has_child(e, names[0]) {
            lemma_entry_at_one_deeper(child(e, names[0]), names.drop_first(), name);
        }
    }
}

/// Every directory on the way to an entry is itself an entry of the tree.
pub proof fn lemma_way_leads_through_directories(e: EntryView, names: Seq<Seq<char>>, k: int)
    requires
        entry_at(e, names) is Some,
        0 <= k < names.len(),
    ensures
        entry_at(e, names.take(k)) is Some,
        entry_at(e, names.take(k))->0 is Directory,
    decreases names.len() - k,
{
    let shorter = names.take(k + 1);
    assert(shorter.drop_last() =~= names.take(k));
    assert(shorter =~= names.take(k).push(names[k]));
    if k + 1 < names.len() {
        lemma_way_leads_through_directories(e, names, k + 1);
    } else {
        assert(shorter =~= names);
    }
    lemma_entry_at_one_deeper(e, names.take(k), names[k]);
}

/// A directory that lies `names.len()` levels deep in the tree becomes as
/// many directories, one inside the other, below the destination, and the
/// innermost holds its members and nothing else.
pub proof fn lemma_directory_is_nested(root: EntryView, base: Seq<char>, blob: Seq<u8>, names: Seq<Seq<char>>)
    requires
        plan_tree(root, base, blob).failure is None,
        tidy(root),
        entry_at(root, names) is Some,
        entry_at(root, names)->0 is Directory,
    ensures
        forall|k: int|
            0 <= k <= names.len() ==> holds(
                built(root, base, blob),
                path_of(base, #[trigger] names.take(k)),
                Node::Directory,
            ),
        forall|name: Seq<char>|
            plain(name) ==> (built(root, base, blob).dom().contains(
                path_of(base, #[trigger] names.push(name)),
            ) <==> has_child(entry_at(root, names)->0, name)),
{
    lemma_extraction_recreates_tree(root, base, blob);
    let disk = built(root, base, blob);
    assert forall|k: int| 0 <= k <= names.len() implies holds(
        disk,
        path_of(base, #[trigger] names.take(k)),
        Node::Directory,
    ) by {
        if k < names.len() {
            lemma_way_leads_through_directories(root, names, k);
        } else {
            assert(names.take(k) =~= names);
        }
        assert(holds(
            disk,
            path_of(base, names.take(k)),
            node_of(entry_at(root, names.take(k))->0, blob),
        ));
    }
    assert forall|name: Seq<char>| plain(name) implies (disk.dom().contains(
        path_of(base, #[trigger] names.push(name)),
    ) <==> has_child(entry_at(root, names)->0, name)) by {
        let deeper = names.push(name);
        lemma_entry_at_one_deeper(root, names, name);
        if has_child(entry_at(root, names)->0, name) {
            assert(holds(disk, path_of(base, deeper), node_of(entry_at(root, deeper)->0, blob)));
        }
        if disk.dom().contains(path_of(base, deeper)) {
            assert(covers(root, base, path_of(base, deeper)));
            let other = choose|other: Seq<Seq<char>>|
                entry_at(root, other) is Some && #[trigger] path_of(base, other) == path_of(
                    base,
                    deeper,
                );
            lemma_reached_by_plain_names(root, other);
            lemma_reached_by_plain_names(root, names);
            assert forall|i: int| 0 <= i < deeper.len() implies plain(#[trigger] deeper[i]) by {
                if i < names.len() {
                    assert(deeper[i] == names[i]);
                }
            }
            lemma_names_are_told_by_path(base, other, deeper);
        }
    }
}

/// In two trees that are alike, the same names lead to entries that are
/// alike.
pub proof fn lemma_alike_lead_alike(a: EntryView, b: EntryView, names: Seq<Seq<char>>)
    requires
        alike(a, b),
        tidy(a),
        tidy(b),
    ensures
        entry_at(a, names) is Some <==> entry_at(b, names) is Some,
        entry_at(a, names) is Some ==> alike(entry_at(a, names)->0, entry_at(b, names)->0),
    decreases names.len(),
{
    if names.len() > 0 {
        if has_child(a, names[0]) {
            let i = choose|i: int| 0 <= i < a->children.len() && (#[trigger] a->children[i]).name == names[0];
            let j = choose|j: int|
                0 <= j < b->children.len() && (#[trigger] b->children[j]).name == (
                #[trigger] a->children[i]).name && alike(a->children[i].entry, b->children[j].entry);
            lemma_child_is_the_named(a, i);
            lemma_child_is_the_named(b, j);
            lemma_alike_lead_alike(a->children[i].entry, b->children[j].entry, names.drop_first());
        } else if has_child(b, names[0]) {
            let j = choose|j: int| 0 <= j < b->children.len() && (#[trigger] b->children[j]).name == names[0];
            if a is Directory {
                let i = choose|i: int|
                    0 <= i < a->children.len() && (#[trigger] a->children[i]).name == (
                    #[trigger] b->children[j]).name && alike(
                        a->children[i].entry,
                        b->children[j].entry,
                    );
                assert(a->children[i].name == names[0]);
            }
        }
    }
}

/// Of two trees that are alike, either both can be extracted or neither.
pub proof fn lemma_alike_extract_alike(a: EntryView, b: EntryView, len: nat)
    requires
        alike(a, b),
    ensures
        extractable(a, len) == extractable(b, len),
    decreases a,
{
    if a is Directory {
        let ca = a->children;
        let cb = b->children;
        if extractable(a, len) {
            assert forall|j: int| 0 <= j < cb.len() implies extractable((#[trigger] cb[j]).entry, len) by {
                let i = choose|i: int|
                    0 <= i < ca.len() && (#[trigger] ca[i]).name == (#[trigger] cb[j]).name && alike(
                        ca[i].entry,
                        cb[j].entry,
                    );
                lemma_alike_extract_alike(ca[i].entry, cb[j].entry, len);
            }
        }
        if extractable(b, len) {
            assert forall|i: int| 0 <= i < ca.len() implies extractable((#[trigger] ca[i]).entry, len) by {
                let j = choose|j: int|
                    0 <= j < cb.len() && (#[trigger] cb[j]).name == (#[trigger] ca[i]).name && alike(
                        ca[i].entry,
                        cb[j].entry,
                    );
                lemma_alike_extract_alike(ca[i].entry, cb[j].entry, len);
            }
        }
    }
}

/// The order in which a directory lists its entries does not show in what
/// an extraction leaves behind: two trees that are alike are recreated as
/// the same destination.
pub proof fn lemma_order_does_not_show(a: EntryView, b: EntryView, base: Seq<char>, blob: Seq<u8>)
    requires
        alike(a, b),
        tidy(a),
        tidy(b),
        plan_tree(a, base, blob).failure is None,
    ensures
        plan_tree(b, base, blob).failure is None,
        built(a, base, blob) == built(b, base, blob),
{
    crate::extract::lemma_tree_fails_iff_unextractable(a, base, blob);
    crate::extract::lemma_tree_fails_iff_unextractable(b, base, blob);
    lemma_alike_extract_alike(a, b, blob.len());
    lemma_extraction_recreates_tree(a, base, blob);
    lemma_extraction_recreates_tree(b, base, blob);
    let left = built(a, base, blob);
    let right = built(b, base, blob);
    assert forall|path: Seq<char>| #[trigger] left.dom().contains(path) implies right.dom().contains(
        path,
    ) && right[path] == left[path] by {
        let names = choose|names: Seq<Seq<char>>|
            entry_at(a, names) is Some && #[trigger] path_of(base, names) == path;
        lemma_alike_lead_alike(a, b, names);
        assert(holds(left, path_of(base, names), node_of(entry_at(a, names)->0, blob)));
        assert(holds(right, path_of(base, names), node_of(entry_at(b, names)->0, blob)));
    }
    assert forall|path: Seq<char>| #[trigger] right.dom().contains(path) implies left.dom().contains(
        path,
    ) by {
        let names = choose|names: Seq<Seq<char>>|
            entry_at(b, names) is Some && #[trigger] path_of(base, names) == path;
        lemma_alike_lead_alike(a, b, names);
        assert(holds(left, path_of(base, names), node_of(entry_at(a, names)->0, blob)));
    }
    assert(left =~= right);
}

} // verus!
