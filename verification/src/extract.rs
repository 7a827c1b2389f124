//! Extraction: the walk over the metadata tree that says which directories
//! to create and which bytes to write to which file.
//!
//! Nothing here touches the file system. The walk yields the steps in the
//! order in which they are to be performed, and stops at the first entry
//! that cannot be extracted.

use crate::text::{join_path, joined};
use crate::tree::{
    entry_views, lemma_directory_view, Defect, Entry, EntryView, MetadataTree, NamedEntry,
    NamedEntryView,
};
use vstd::prelude::*;
use vstd::string::StringExecFns;
use vstd::slice::{slice_subrange, slice_to_vec};
use vstd::utf8::encode_utf8;

verus! {

/// One step of an extraction.
#[derive(Debug, PartialEq, Eq)]
pub enum Action {
    /// Make sure that the directory at `path` exists, and every directory
    /// above it.
    CreateDir { path: String },
    /// Create the file at `path`, or empty it, and write `bytes` to it.
    WriteFile { path: String, bytes: Vec<u8> },
}

/// The model of an [`Action`].
pub enum ActionView {
    CreateDir { path: Seq<char> },
    WriteFile { path: Seq<char>, bytes: Seq<u8> },
}

impl View for Action {
    type V = ActionView;

    open spec fn view(&self) -> ActionView {
        match self {
            Action::CreateDir { path } => ActionView::CreateDir { path: path@ },
            Action::WriteFile { path, bytes } => ActionView::WriteFile { path: path@, bytes: bytes@ },
        }
    }
}

/// An entry that cannot be extracted, and why.
#[derive(Debug, PartialEq, Eq)]
pub struct MalformedEntry {
    /// Where the entry would have been extracted to.
    pub path: String,
    pub defect: Defect,
}

/// The model of a [`MalformedEntry`].
pub struct MalformedEntryView {
    pub path: Seq<char>,
    pub defect: Defect,
}

impl View for MalformedEntry {
    type V = MalformedEntryView;

    open spec fn view(&self) -> MalformedEntryView {
        MalformedEntryView { path: self.path@, defect: self.defect }
    }
}

/// What an extraction comes to: the steps to perform, in order, and the
/// entry at which the walk stopped, if it did.
#[derive(Debug, PartialEq, Eq)]
pub struct Extraction {
    pub actions: Vec<Action>,
    pub failure: Option<MalformedEntry>,
}

/// The model of an [`Extraction`].
pub struct Plan {
    pub actions: Seq<ActionView>,
    pub failure: Option<MalformedEntryView>,
}

/// The models of a sequence of actions.
pub open spec fn action_views(actions: Seq<Action>) -> Seq<ActionView> {
    Seq::new(actions.len(), |i: int| actions[i]@)
}

/// The model of a failure, if there is one.
pub open spec fn failure_view(failure: Option<MalformedEntry>) -> Option<MalformedEntryView> {
    match failure {
        Some(f) => Some(f@),
        None => None,
    }
}

impl View for Extraction {
    type V = Plan;

    open spec fn view(&self) -> Plan {
        Plan { actions: action_views(self.actions@), failure: failure_view(self.failure) }
    }
}

impl Plan {
    /// The plan that does nothing.
    pub open spec fn empty() -> Plan {
        Plan { actions: Seq::empty(), failure: None }
    }

    /// The plan of one step.
    pub open spec fn step(action: ActionView) -> Plan {
        Plan { actions: seq![action], failure: None }
    }

    /// The plan that stops at once.
    pub open spec fn stop(path: Seq<char>, defect: Defect) -> Plan {
        Plan { actions: Seq::empty(), failure: Some(MalformedEntryView { path, defect }) }
    }

    /// This plan and then `next`, unless this plan stops.
    pub open spec fn followed_by(self, next: Plan) -> Plan {
        if self.failure is Some {
            self
        } else {
            Plan { actions: self.actions + next.actions, failure: next.failure }
        }
    }
}

/// Whether the `size` bytes from `offset` on lie within a blob of `len` bytes.
pub open spec fn in_range(offset: u64, size: u64, len: nat) -> bool {
    offset + size <= len
}

/// The extraction of one entry to `path`.
///
/// A directory is created and then filled, child by child. A file gets its
/// bytes of the blob. A symbolic link becomes a file that holds the link's
/// target as text.
pub open spec fn plan_entry(e: EntryView, path: Seq<char>, blob: Seq<u8>) -> Plan
    decreases e,
{
    match e {
        EntryView::Directory { children } => Plan::step(ActionView::CreateDir { path }).followed_by(
            plan_children(children, path, blob),
        ),
        EntryView::File { offset, size } => if in_range(offset, size, blob.len()) {
            Plan::step(
                ActionView::WriteFile {
                    path,
                    bytes: blob.subrange(offset as int, offset + size),
                },
            )
        } else {
            Plan::stop(path, Defect::OutOfRange)
        },
        EntryView::Symlink { target } => Plan::step(
            ActionView::WriteFile { path, bytes: encode_utf8(target) },
        ),
        EntryView::Malformed { defect } => if defect == Defect::ChildrenNotAnObject {
            Plan::step(ActionView::CreateDir { path }).followed_by(Plan::stop(path, defect))
        } else {
            Plan::stop(path, defect)
        },
    }
}

/// The extraction of the entries `children` into the directory `dir`, one
/// after the other.
pub open spec fn plan_children(children: Seq<NamedEntryView>, dir: Seq<char>, blob: Seq<u8>) -> Plan
    decreases children,
{
    if children.len() == 0 {
        Plan::empty()
    } else {
        plan_children(children.drop_last(), dir, blob).followed_by(
            plan_entry(children.last().entry, joined(dir, children.last().name), blob),
        )
    }
}

/// The extraction of a whole tree to the directory `base`.
pub open spec fn plan_tree(root: EntryView, base: Seq<char>, blob: Seq<u8>) -> Plan {
    match root {
        EntryView::Directory { .. } => plan_entry(root, base, blob),
        EntryView::Malformed { defect } => Plan::step(ActionView::CreateDir { path: base }).followed_by(
            Plan::stop(base, defect),
        ),
        _ => Plan::step(ActionView::CreateDir { path: base }).followed_by(
            Plan::stop(base, Defect::NotADirectory),
        ),
    }
}

/// Whether every entry of the tree under `e` can be extracted from a blob
/// of `len` bytes: none is malformed, and every file lies within the blob.
pub open spec fn extractable(e: EntryView, len: nat) -> bool
    decreases e,
{
    match e {
        EntryView::Directory { children } => forall|i: int|
            0 <= i < children.len() ==> extractable((#[trigger] children[i]).entry, len),
        EntryView::File { offset, size } => in_range(offset, size, len),
        EntryView::Symlink { .. } => true,
        EntryView::Malformed { .. } => false,
    }
}

/// The walk over an entry goes through exactly if every entry under it can
/// be extracted. A file that does not lie within the blob stops it.
pub proof fn lemma_entry_fails_iff_unextractable(e: EntryView, path: Seq<char>, blob: Seq<u8>)
    ensures
        plan_entry(e, path, blob).failure is None <==> extractable(e, blob.len()),
    decreases e,
{
    match e {
        EntryView::Directory { children } => {
            lemma_children_fail_iff_unextractable(children, path, blob);
        },
        _ => {},
    }
}

/// The walk over the children of a directory goes through exactly if every
/// entry under each of them can be extracted.
pub proof fn lemma_children_fail_iff_unextractable(
    children: Seq<NamedEntryView>,
    dir: Seq<char>,
    blob: Seq<u8>,
)
    ensures
        plan_children(children, dir, blob).failure is None <==> forall|i: int|
            0 <= i < children.len() ==> extractable((#[trigger] children[i]).entry, blob.len()),
    decreases children,
{
    if children.len() > 0 {
        let init = children.drop_last();
        let last = children.last();
        lemma_children_fail_iff_unextractable(init, dir, blob);
        lemma_entry_fails_iff_unextractable(last.entry, joined(dir, last.name), blob);
        if plan_children(children, dir, blob).failure is None {
            assert forall|i: int| 0 <= i < children.len() implies extractable(
                (#[trigger] children[i]).entry,
                blob.len(),
            ) by {
                if i < init.len() {
                    assert(init[i] == children[i]);
                }
            }
        } else {
            if plan_children(init, dir, blob).failure is Some {
                let i = choose|i: int| 0 <= i < init.len() && !extractable((#[trigger] init[i]).entry, blob.len());
                assert(init[i] == children[i]);
            } else {
                assert(children[children.len() - 1] == last);
            }
        }
    }
}

/// The extraction of a tree goes through exactly if its root is a
/// directory and every entry under it can be extracted.
pub proof fn lemma_tree_fails_iff_unextractable(root: EntryView, base: Seq<char>, blob: Seq<u8>)
    ensures
        plan_tree(root, base, blob).failure is None <==> root is Directory && extractable(
            root,
            blob.len(),
        ),
{
    lemma_entry_fails_iff_unextractable(root, base, blob);
}

/// A file of no bytes that starts within the blob, or at its end, is
/// written empty.
pub proof fn lemma_empty_file_is_written(offset: u64, path: Seq<char>, blob: Seq<u8>)
    requires
        offset <= blob.len(),
    ensures
        plan_entry(EntryView::File { offset, size: 0 }, path, blob) == Plan::step(
            ActionView::WriteFile { path, bytes: Seq::empty() },
        ),
{
    assert(blob.subrange(offset as int, offset + 0) =~= Seq::<u8>::empty());
}

/// A file that reaches beyond the blob is not written: the walk stops at
/// it.
pub proof fn lemma_file_beyond_blob_stops(offset: u64, size: u64, path: Seq<char>, blob: Seq<u8>)
    requires
        offset + size > blob.len(),
    ensures
        plan_entry(EntryView::File { offset, size }, path, blob) == Plan::stop(
            path,
            Defect::OutOfRange,
        ),
{
}

/// Once the walk has stopped within the first `n` children, the rest of
/// them changes nothing.
pub proof fn lemma_stopped_prefix(children: Seq<NamedEntryView>, n: int, dir: Seq<char>, blob: Seq<u8>)
    requires
        0 <= n <= children.len(),
        plan_children(children.take(n), dir, blob).failure is Some,
    ensures
        plan_children(children, dir, blob) == plan_children(children.take(n), dir, blob),
    decreases children.len() - n,
{
    if n == children.len() {
        assert(children.take(n) =~= children);
    } else {
        assert(children.take(n + 1).drop_last() =~= children.take(n));
        lemma_stopped_prefix(children, n + 1, dir, blob);
    }
}

/// The bytes of a file entry, if they lie within the blob.
fn file_bytes(offset: u64, size: u64, blob: &[u8]) -> (r: Option<Vec<u8>>)
    ensures
        match r {
            Some(bytes) => in_range(offset, size, blob@.len()) && bytes@ == blob@.subrange(
                offset as int,
                offset + size,
            ),
            None => !in_range(offset, size, blob@.len()),
        },
{
    let len: u64 = blob.len() as u64;
    if offset <= len && size <= len - offset {
        let from: usize = offset as usize;
        let to: usize = (offset + size) as usize;
        Some(slice_to_vec(slice_subrange(blob, from, to)))
    } else {
        None
    }
}

/// Appends to `actions` the steps that extract `entry` to `path`, and
/// returns the entry at which the walk stopped, if it did.
fn extract_entry(entry: &Entry, path: String, blob: &[u8], actions: &mut Vec<Action>) -> (failure:
    Option<MalformedEntry>)
    ensures
        action_views(final(actions)@) == action_views(old(actions)@) + plan_entry(
            entry@,
            path@,
            blob@,
        ).actions,
        failure_view(failure) == plan_entry(entry@, path@, blob@).failure,
    decreases entry,
{
    let ghost before = action_views(actions@);
    match entry {
        Entry::Directory { children } => {
            proof {
                lemma_directory_view(*entry);
            }
            actions.push(Action::CreateDir { path: path.clone() });
            assert(action_views(actions@) =~= before + seq![ActionView::CreateDir { path: path@ }]);
            let failure = extract_children(children, path.as_str(), blob, actions);
            assert(action_views(actions@) =~= before + plan_entry(entry@, path@, blob@).actions);
            failure
        },
        Entry::File { offset, size } => match file_bytes(*offset, *size, blob) {
            Some(bytes) => {
                actions.push(Action::WriteFile { path, bytes });
                assert(action_views(actions@) =~= before + plan_entry(entry@, path@, blob@).actions);
                None
            },
            None => {
                assert(action_views(actions@) =~= before + plan_entry(entry@, path@, blob@).actions);
                Some(MalformedEntry { path, defect: Defect::OutOfRange })
            },
        },
        Entry::Symlink { target } => {
            let bytes = slice_to_vec(target.as_str().as_bytes());
            actions.push(Action::WriteFile { path, bytes });
            assert(action_views(actions@) =~= before + plan_entry(entry@, path@, blob@).actions);
            None
        },
        Entry::Malformed { defect } => {
            if *defect == Defect::ChildrenNotAnObject {
                actions.push(Action::CreateDir { path: path.clone() });
            }
            assert(action_views(actions@) =~= before + plan_entry(entry@, path@, blob@).actions);
            Some(MalformedEntry { path, defect: *defect })
        },
    }
}

/// Appends to `actions` the steps that extract `children` into the
/// directory `dir`, and returns the entry at which the walk stopped, if it
/// did.
fn extract_children(children: &Vec<NamedEntry>, dir: &str, blob: &[u8], actions: &mut Vec<Action>) -> (failure:
    Option<MalformedEntry>)
    ensures
        action_views(final(actions)@) == action_views(old(actions)@) + plan_children(
            entry_views(children@),
            dir@,
            blob@,
        ).actions,
        failure_view(failure) == plan_children(entry_views(children@), dir@, blob@).failure,
    decreases children,
{
    let ghost before = action_views(actions@);
    let ghost all = entry_views(children@);
    let mut i: usize = 0;
    assert(action_views(actions@) =~= before + plan_children(all.take(0), dir@, blob@).actions);
    while i < children.len()
        invariant
            i <= children@.len(),
            all == entry_views(children@),
            before == action_views(old(actions)@),
            plan_children(all.take(i as int), dir@, blob@).failure is None,
            action_views(actions@) == before + plan_children(all.take(i as int), dir@, blob@).actions,
        decreases children@.len() - i,
    {
        let child = &children[i];
        let ghost so_far = action_views(actions@);
        let path = join_path(dir, child.name.as_str());
        let failure = extract_entry(&child.entry, path, blob, actions);
        proof {
            assert(all.take(i + 1).drop_last() =~= all.take(i as int));
            assert(all.take(i + 1).last() == child@);
            assert(action_views(actions@) =~= before + plan_children(
                all.take(i + 1),
                dir@,
                blob@,
            ).actions);
        }
        if failure.is_some() {
            proof {
                lemma_stopped_prefix(all, i + 1, dir@, blob@);
            }
            return failure;
        }
        i += 1;
    }
    assert(all.take(i as int) =~= all);
    None
}

/// Plans the extraction of `tree` to the directory `base_path`, with the
/// file contents taken from `blob`.
pub fn extract(tree: &MetadataTree, base_path: &str, blob: &[u8]) -> (r: Extraction)
    ensures
        r@ == plan_tree(tree@, base_path@, blob@),
{
    let mut actions: Vec<Action> = Vec::new();
    let base = String::from_str(base_path);
    let failure = match &tree.root {
        Entry::Directory { .. } => extract_entry(&tree.root, base, blob, &mut actions),
        Entry::Malformed { defect } => {
            actions.push(Action::CreateDir { path: base.clone() });
            Some(MalformedEntry { path: base, defect: *defect })
        },
        _ => {
            actions.push(Action::CreateDir { path: base.clone() });
            Some(MalformedEntry { path: base, defect: Defect::NotADirectory })
        },
    };
    let r = Extraction { actions, failure };
    assert(r@.actions =~= plan_tree(tree@, base_path@, blob@).actions);
    r
}

} // verus!
