//! From the decoded JSON header to the metadata tree.
//!
//! The header does not say what kind an entry is: an entry with a `files`
//! member is a directory, one with a `link` member is a symbolic link, and
//! any other is a file. Each entry is looked at once, here. Nothing is
//! rejected: an entry that is described wrongly is recorded as such, for the
//! extraction to report.

use crate::json::{
    has_member, member, members, object_members, value_content, Json, JsonNumber, JsonObject,
};
use crate::text::{decimal, parse_decimal};
use crate::tree::{
    alike, lemma_directory_view, names_distinct, Defect, Entry, EntryView, MetadataTree, NamedEntry,
    NamedEntryView,
};
use serde_json::Value;
use vstd::prelude::*;

verus! {

/// What a JSON object without `files` and `link` members describes: a file,
/// if it has a decimal `offset` string and an unsigned `size`.
pub open spec fn file_of(o: Map<Seq<char>, Json>) -> EntryView {
    if !o.dom().contains("offset"@) {
        EntryView::Malformed { defect: Defect::OffsetMissing }
    } else if !(o["offset"@] is Text) {
        EntryView::Malformed { defect: Defect::OffsetNotText }
    } else if decimal(o["offset"@]->Text_0) is None {
        EntryView::Malformed { defect: Defect::OffsetNotDecimal }
    } else if !o.dom().contains("size"@) {
        EntryView::Malformed { defect: Defect::SizeMissing }
    } else {
        match o["size"@] {
            Json::Number(JsonNumber::Unsigned(size)) => EntryView::File {
                offset: decimal(o["offset"@]->Text_0)->Some_0,
                size,
            },
            _ => EntryView::Malformed { defect: Defect::SizeNotUnsigned },
        }
    }
}

/// Whether `e` is the entry that the JSON value `j` describes.
///
/// A directory lists each member of its `files` object once, in any order.
pub open spec fn depicts(e: EntryView, j: Json) -> bool
    decreases e,
{
    match j {
        Json::Object(o) => {
            if o.dom().contains("files"@) {
                match o["files"@] {
                    Json::Object(c) => {
                        &&& e is Directory
                        &&& names_distinct(e->children)
                        &&& forall|k: Seq<char>|
                            c.dom().contains(k) ==> exists|i: int|
                                0 <= i < e->children.len() && #[trigger] e->children[i].name == k
                        &&& forall|i: int|
                            0 <= i < e->children.len() ==> c.dom().contains(
                                (#[trigger] e->children[i]).name,
                            ) && depicts(e->children[i].entry, c[e->children[i].name])
                    },
                    _ => e == EntryView::Malformed { defect: Defect::ChildrenNotAnObject },
                }
            } else if o.dom().contains("link"@) {
                match o["link"@] {
                    Json::Text(target) => e == EntryView::Symlink { target },
                    _ => e == EntryView::Malformed { defect: Defect::LinkNotText },
                }
            } else {
                e == file_of(o)
            }
        },
        _ => e == EntryView::Malformed { defect: Defect::NotAnObject },
    }
}

/// Whether `root` is the tree that a header with the members `o` describes:
/// the directory that its `files` member lists.
pub open spec fn depicts_root(root: EntryView, o: Map<Seq<char>, Json>) -> bool {
    if o.dom().contains("files"@) {
        depicts(root, Json::Object(o))
    } else {
        root == EntryView::Malformed { defect: Defect::ChildrenMissing }
    }
}

/// The header decides the tree: two trees that the same JSON value
/// describes hold the same entries under the same names.
pub proof fn lemma_depicted_trees_are_alike(a: EntryView, b: EntryView, j: Json)
    requires
        depicts(a, j),
        depicts(b, j),
    ensures
        alike(a, b),
    decreases a,
{
    if a is Directory {
        let c = j->Object_0["files"@]->Object_0;
        let ca = a->children;
        let cb = b->children;
        assert forall|i: int| 0 <= i < ca.len() implies exists|k: int|
            0 <= k < cb.len() && (#[trigger] cb[k]).name == (#[trigger] ca[i]).name && alike(
                ca[i].entry,
                cb[k].entry,
            ) by {
            let name = ca[i].name;
            assert(c.dom().contains(name));
            let k = choose|k: int| 0 <= k < cb.len() && #[trigger] cb[k].name == name;
            assert(depicts(cb[k].entry, c[cb[k].name]));
            lemma_depicted_trees_are_alike(ca[i].entry, cb[k].entry, c[name]);
        }
        assert forall|k: int| 0 <= k < cb.len() implies exists|i: int|
            0 <= i < ca.len() && (#[trigger] ca[i]).name == (#[trigger] cb[k]).name && alike(
                ca[i].entry,
                cb[k].entry,
            ) by {
            let name = cb[k].name;
            assert(c.dom().contains(name));
            let i = choose|i: int| 0 <= i < ca.len() && #[trigger] ca[i].name == name;
            assert(depicts(ca[i].entry, c[ca[i].name]));
            lemma_depicted_trees_are_alike(ca[i].entry, cb[k].entry, c[name]);
        }
    }
}

/// The header decides the whole tree: two trees that the same header
/// describes hold the same entries under the same names.
pub proof fn lemma_header_decides_tree(a: EntryView, b: EntryView, o: Map<Seq<char>, Json>)
    requires
        depicts_root(a, o),
        depicts_root(b, o),
    ensures
        alike(a, b),
{
    if o.dom().contains("files"@) {
        lemma_depicted_trees_are_alike(a, b, Json::Object(o));
    }
}

/// Classifies an entry that is neither a directory nor a link.
fn classify_file(o: &JsonObject) -> (e: Entry)
    ensures
        e@ == file_of(object_members(*o)),
{
    let offset = match member(o, "offset") {
        None => { return Entry::Malformed { defect: Defect::OffsetMissing }; },
        Some(v) => match v.as_str() {
            None => { return Entry::Malformed { defect: Defect::OffsetNotText }; },
            Some(text) => match parse_decimal(text) {
                None => { return Entry::Malformed { defect: Defect::OffsetNotDecimal }; },
                Some(offset) => offset,
            },
        },
    };
    match member(o, "size") {
        None => Entry::Malformed { defect: Defect::SizeMissing },
        Some(v) => match v.as_u64() {
            None => Entry::Malformed { defect: Defect::SizeNotUnsigned },
            Some(size) => Entry::File { offset, size },
        },
    }
}

/// Classifies the entry that a JSON object describes.
fn classify_object(o: &JsonObject) -> (e: Entry)
    ensures
        depicts(e@, Json::Object(object_members(*o))),
    decreases Json::Object(object_members(*o)), 1int,
{
    if has_member(o, "files") {
        classify_directory(o)
    } else if has_member(o, "link") {
        match member(o, "link").unwrap().as_str() {
            None => Entry::Malformed { defect: Defect::LinkNotText },
            Some(target) => Entry::Symlink { target: target.to_owned() },
        }
    } else {
        classify_file(o)
    }
}

/// Classifies the entries that the `files` member of `o` lists.
fn classify_directory(o: &JsonObject) -> (e: Entry)
    requires
        object_members(*o).dom().contains("files"@),
    ensures
        depicts(e@, Json::Object(object_members(*o))),
    decreases Json::Object(object_members(*o)), 0int,
{
    let files = match member(o, "files").unwrap().as_object() {
        None => { return Entry::Malformed { defect: Defect::ChildrenNotAnObject }; },
        Some(files) => files,
    };
    let ghost c = object_members(*files);
    let listed = members(files);
    let mut children: Vec<NamedEntry> = Vec::new();
    let mut i: usize = 0;
    while i < listed.len()
        invariant
            i <= listed@.len(),
            children@.len() == i,
            c == object_members(*files),
            object_members(*o).dom().contains("files"@),
            object_members(*o)["files"@] == Json::Object(c),
            forall|k: int|
                0 <= k < listed@.len() ==> c.dom().contains(#[trigger] listed@[k].0@) && c[listed@[k].0@]
                    == value_content(*listed@[k].1),
            forall|k: int|
                0 <= k < i ==> (#[trigger] children@[k]).name@ == listed@[k].0@ && depicts(
                    children@[k].entry@,
                    c[listed@[k].0@],
                ),
        decreases listed@.len() - i,
    {
        let name: &String = listed[i].0;
        let value: &Value = listed[i].1;
        let entry = match value.as_object() {
            None => Entry::Malformed { defect: Defect::NotAnObject },
            Some(child) => {
                proof {
                    let whole = Json::Object(object_members(*o));
                    let listing = whole->Object_0["files"@];
                    assert(decreases_to!(whole => whole->Object_0["files"@]));
                    assert(decreases_to!(listing => listing->Object_0[name@]));
                }
                classify_object(child)
            },
        };
        children.push(NamedEntry { name: name.clone(), entry });
        i += 1;
    }
    let e = Entry::Directory { children };
    proof {
        lemma_directory_view(e);
        let cv = e@->children;
        assert(cv.len() == listed@.len());
        assert forall|k: int| 0 <= k < cv.len() implies (#[trigger] cv[k]).name == listed@[k].0@
            && depicts(cv[k].entry, c[listed@[k].0@]) by {
            assert(cv[k] == children@[k]@);
        }
        assert forall|k: Seq<char>| c.dom().contains(k) implies exists|i: int|
            0 <= i < cv.len() && #[trigger] cv[i].name == k by {
            let i = choose|i: int| 0 <= i < listed@.len() && #[trigger] listed@[i].0@ == k;
            assert(cv[i].name == k);
        }
    }
    e
}

/// Classifies the header: the root of the metadata tree.
pub fn classify(header: &JsonObject) -> (tree: MetadataTree)
    ensures
        depicts_root(tree@, object_members(*header)),
{
    if has_member(header, "files") {
        MetadataTree { root: classify_directory(header) }
    } else {
        MetadataTree { root: Entry::Malformed { defect: Defect::ChildrenMissing } }
    }
}

} // verus!
