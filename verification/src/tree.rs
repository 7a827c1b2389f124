//! The metadata tree: what the header says about each file and directory.

use vstd::prelude::*;

verus! {

/// Why an entry of the header cannot be extracted.
#[derive(Clone, Copy, Debug, PartialEq, Eq, Structural)]
pub enum Defect {
    /// The entry is not a JSON object.
    NotAnObject,
    /// The header has no `files` member.
    ChildrenMissing,
    /// The `files` member is not a JSON object.
    ChildrenNotAnObject,
    /// The `link` member is not a string.
    LinkNotText,
    /// A file has no `offset` member.
    OffsetMissing,
    /// The `offset` member is not a string.
    OffsetNotText,
    /// The `offset` member is not a decimal number.
    OffsetNotDecimal,
    /// A file has no `size` member.
    SizeMissing,
    /// The `size` member is not an unsigned integer.
    SizeNotUnsigned,
    /// The root of the tree is a file or a link.
    NotADirectory,
    /// The file's bytes do not lie within the data blob.
    OutOfRange,
}

/// One node of the metadata tree.
#[derive(Debug, PartialEq, Eq)]
pub enum Entry {
    /// A directory and what it holds.
    Directory { children: Vec<NamedEntry> },
    /// A file: `size` bytes of the data blob, starting at `offset`.
    File { offset: u64, size: u64 },
    /// A symbolic link and the path it points to.
    Symlink { target: String },
    /// An entry that the header describes wrongly.
    Malformed { defect: Defect },
}

/// An entry and its name within its directory.
#[derive(Debug, PartialEq, Eq)]
pub struct NamedEntry {
    pub name: String,
    pub entry: Entry,
}

/// The decoded header: a tree of named entries under one root.
#[derive(Debug, PartialEq, Eq)]
pub struct MetadataTree {
    /// The root of the tree: the directory that the archive unpacks to.
    pub root: Entry,
}

/// The model of an [`Entry`].
pub enum EntryView {
    Directory { children: Seq<NamedEntryView> },
    File { offset: u64, size: u64 },
    Symlink { target: Seq<char> },
    Malformed { defect: Defect },
}

/// The model of a [`NamedEntry`].
pub struct NamedEntryView {
    pub name: Seq<char>,
    pub entry: EntryView,
}

impl View for MetadataTree {
    type V = EntryView;

    open spec fn view(&self) -> EntryView {
        self.root@
    }
}

impl View for Entry {
    type V = EntryView;

    open spec fn view(&self) -> EntryView {
        entry_view(*self)
    }
}

impl View for NamedEntry {
    type V = NamedEntryView;

    open spec fn view(&self) -> NamedEntryView {
        NamedEntryView { name: self.name@, entry: self.entry@ }
    }
}

/// The model of an entry.
pub open spec fn entry_view(e: Entry) -> EntryView
    decreases e, 0nat,
{
    match e {
        Entry::Directory { children } => EntryView::Directory {
            children: first_views(children@, children@.len()),
        },
        Entry::File { offset, size } => EntryView::File { offset, size },
        Entry::Symlink { target } => EntryView::Symlink { target: target@ },
        Entry::Malformed { defect } => EntryView::Malformed { defect },
    }
}

/// The models of the first `n` of the entries.
pub open spec fn first_views(entries: Seq<NamedEntry>, n: nat) -> Seq<NamedEntryView>
    decreases entries, n,
{
    if n == 0 || n > entries.len() {
        Seq::empty()
    } else {
        first_views(entries, (n - 1) as nat).push(
            NamedEntryView {
                name: entries[n - 1].name@,
                entry: entry_view(entries[n - 1].entry),
            },
        )
    }
}

/// Whether no two of the entries have the same name.
pub open spec fn names_distinct(entries: Seq<NamedEntryView>) -> bool {
    forall|i: int, j: int|
        0 <= i < j < entries.len() ==> (#[trigger] entries[i]).name != (#[trigger] entries[j]).name
}

/// Whether two trees hold the same entries under the same names, in
/// whatever order each directory lists them.
pub open spec fn alike(a: EntryView, b: EntryView) -> bool
    decreases a,
{
    match a {
        EntryView::Directory { children } => {
            &&& b is Directory
            &&& forall|i: int|
                0 <= i < children.len() ==> exists|j: int|
                    0 <= j < b->children.len() && (#[trigger] b->children[j]).name == (
                    #[trigger] children[i]).name && alike(children[i].entry, b->children[j].entry)
            &&& forall|j: int|
                0 <= j < b->children.len() ==> exists|i: int|
                    0 <= i < children.len() && (#[trigger] children[i]).name == (
                    #[trigger] b->children[j]).name && alike(children[i].entry, b->children[j].entry)
        },
        _ => a == b,
    }
}

/// The models of a sequence of entries.
pub open spec fn entry_views(entries: Seq<NamedEntry>) -> Seq<NamedEntryView> {
    Seq::new(entries.len(), |i: int| entries[i]@)
}

/// The models of the first entries are the first of the models.
pub proof fn lemma_first_views(entries: Seq<NamedEntry>, n: nat)
    requires
        n <= entries.len(),
    ensures
        first_views(entries, n) == entry_views(entries).take(n as int),
    decreases n,
{
    if n > 0 {
        lemma_first_views(entries, (n - 1) as nat);
    }
    assert(first_views(entries, n) =~= entry_views(entries).take(n as int));
}

/// The model of a directory lists the models of its children.
pub proof fn lemma_directory_view(e: Entry)
    requires
        e is Directory,
    ensures
        e@ == (EntryView::Directory { children: entry_views(e->children@) }),
{
    lemma_first_views(e->children@, e->children@.len());
    assert(entry_views(e->children@).take(e->children@.len() as int) =~= entry_views(
        e->children@,
    ));
}

} // verus!
