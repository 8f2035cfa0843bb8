//! Tree entries, file modes and edits, as executable values.

use vstd::prelude::*;

use crate::bytes::clone_bytes;
use crate::model::{
    EditV, EntryV, MODE_BLOB, MODE_BLOB_EXECUTABLE, MODE_BLOB_GROUP_WRITABLE, MODE_COMMIT,
    MODE_LINK, MODE_TREE,
};
use crate::oid::Oid;

verus! {

/// The enumerated attribute of a tree entry: what kind of object the
/// entry points at and, for files, whether it is executable.
#[derive(Clone, Copy, Debug, PartialEq, Eq, Structural)]
pub enum FileMode {
    /// No known mode (raw value zero); never valid inside a tree.
    Unreadable,
    /// A nested tree (directory).
    Tree,
    /// A regular file.
    Blob,
    /// A group-writable regular file (historical).
    BlobGroupWritable,
    /// An executable file.
    BlobExecutable,
    /// A symbolic link.
    Link,
    /// A submodule (commit-link) marker.
    Commit,
}

impl FileMode {
    /// The raw octal value git gives this mode.
    pub open spec fn raw(self) -> u32 {
        match self {
            FileMode::Unreadable => 0u32,
            FileMode::Tree => MODE_TREE,
            FileMode::Blob => MODE_BLOB,
            FileMode::BlobGroupWritable => MODE_BLOB_GROUP_WRITABLE,
            FileMode::BlobExecutable => MODE_BLOB_EXECUTABLE,
            FileMode::Link => MODE_LINK,
            FileMode::Commit => MODE_COMMIT,
        }
    }

    /// Returns the raw octal value git gives this mode.
    pub fn to_raw(self) -> (r: u32)
        ensures
            r == self.raw(),
    {
        match self {
            FileMode::Unreadable => 0u32,
            FileMode::Tree => MODE_TREE,
            FileMode::Blob => MODE_BLOB,
            FileMode::BlobGroupWritable => MODE_BLOB_GROUP_WRITABLE,
            FileMode::BlobExecutable => MODE_BLOB_EXECUTABLE,
            FileMode::Link => MODE_LINK,
            FileMode::Commit => MODE_COMMIT,
        }
    }

    /// The mode a raw value stands for; values git does not know map
    /// to `Unreadable`.
    pub open spec fn from_raw_spec(raw: u32) -> FileMode {
        if raw == MODE_TREE {
            FileMode::Tree
        } else if raw == MODE_BLOB {
            FileMode::Blob
        } else if raw == MODE_BLOB_GROUP_WRITABLE {
            FileMode::BlobGroupWritable
        } else if raw == MODE_BLOB_EXECUTABLE {
            FileMode::BlobExecutable
        } else if raw == MODE_LINK {
            FileMode::Link
        } else if raw == MODE_COMMIT {
            FileMode::Commit
        } else {
            FileMode::Unreadable
        }
    }

    /// Classifies a raw mode value.
    pub fn from_raw(raw: u32) -> (r: FileMode)
        ensures
            r == FileMode::from_raw_spec(raw),
    {
        if raw == MODE_TREE {
            FileMode::Tree
        } else if raw == MODE_BLOB {
            FileMode::Blob
        } else if raw == MODE_BLOB_GROUP_WRITABLE {
            FileMode::BlobGroupWritable
        } else if raw == MODE_BLOB_EXECUTABLE {
            FileMode::BlobExecutable
        } else if raw == MODE_LINK {
            FileMode::Link
        } else if raw == MODE_COMMIT {
            FileMode::Commit
        } else {
            FileMode::Unreadable
        }
    }
}

/// One entry of a tree: a name (one path segment), the id of the
/// object it points at, and its raw file mode.
pub struct TreeEntry {
    pub name: Vec<u8>,
    pub oid: Oid,
    pub mode: u32,
}

impl View for TreeEntry {
    type V = EntryV;

    open spec fn view(&self) -> EntryV {
        EntryV { name: self.name@, oid: self.oid@, mode: self.mode }
    }
}

impl TreeEntry {
    /// The id of the object this entry points at.
    pub fn get_oid(&self) -> (r: Oid)
        ensures
            r@ == self@.oid,
    {
        self.oid.duplicate()
    }

    /// The file mode of this entry.
    pub fn get_filemode(&self) -> (r: FileMode)
        ensures
            r == FileMode::from_raw_spec(self@.mode),
    {
        FileMode::from_raw(self.mode)
    }

    /// Copies this entry.
    pub fn duplicate(&self) -> (r: TreeEntry)
        ensures
            r@ == self@,
    {
        TreeEntry { name: clone_bytes(&self.name), oid: self.oid.duplicate(), mode: self.mode }
    }
}

/// The views of an entry list.
pub open spec fn entries_view(es: Seq<TreeEntry>) -> Seq<EntryV> {
    es.map_values(|e: TreeEntry| e@)
}

/// The view of a path: its segments as byte sequences.
pub open spec fn path_view(p: Seq<Vec<u8>>) -> Seq<Seq<u8>> {
    p.map_values(|s: Vec<u8>| s@)
}

/// The view of an edit value: the id's bytes and the raw mode.
pub open spec fn value_view(v: Option<(Oid, FileMode)>) -> Option<(Seq<u8>, u32)> {
    match v {
        None => None,
        Some((o, m)) => Some((o@, m.raw())),
    }
}

/// Copies an edit value.
pub fn clone_value(v: &Option<(Oid, FileMode)>) -> (r: Option<(Oid, FileMode)>)
    ensures
        value_view(r) == value_view(*v),
{
    match v {
        None => None,
        Some((o, m)) => Some((o.duplicate(), *m)),
    }
}

/// The views of a path list.
pub open spec fn paths_view(ps: Seq<Vec<Vec<u8>>>) -> Seq<Seq<Seq<u8>>> {
    ps.map_values(|p: Vec<Vec<u8>>| path_view(p@))
}

/// One edit of a batch: a relative path mapped to a new `(id, mode)`
/// value, or to a deletion.
pub struct TreeEdit {
    pub path: Vec<Vec<u8>>,
    pub value: Option<(Oid, FileMode)>,
}

impl View for TreeEdit {
    type V = EditV;

    open spec fn view(&self) -> EditV {
        EditV { path: path_view(self.path@), val: value_view(self.value) }
    }
}

/// The views of an edit batch.
pub open spec fn edits_view(es: Seq<TreeEdit>) -> Seq<EditV> {
    es.map_values(|e: TreeEdit| e@)
}

/// Copies an entry list.
pub fn duplicate_entries(es: &Vec<TreeEntry>) -> (r: Vec<TreeEntry>)
    ensures
        entries_view(r@) == entries_view(es@),
        r@.len() == es@.len(),
{
    let mut r: Vec<TreeEntry> = Vec::new();
    let mut i: usize = 0;
    while i < es.len()
        invariant
            i <= es.len(),
            r@.len() == i,
            forall|j: int| 0 <= j < i ==> r@[j]@ == es@[j]@,
        decreases es.len() - i,
    {
        r.push(es[i].duplicate());
        i += 1;
    }
    assert(entries_view(r@) =~= entries_view(es@));
    r
}

/// Finds the position of the entry called `name`, if any.
pub fn find_entry(es: &Vec<TreeEntry>, name: &Vec<u8>) -> (r: Option<usize>)
    ensures
        match r {
            Some(i) => i < es@.len() && entries_view(es@)[i as int].name == name@,
            None => forall|j: int|
                0 <= j < es@.len() ==> (#[trigger] entries_view(es@)[j].name) != name@,
        },
{
    let mut i: usize = 0;
    while i < es.len()
        invariant
            i <= es.len(),
            forall|j: int| 0 <= j < i ==> (#[trigger] entries_view(es@)[j].name) != name@,
        decreases es.len() - i,
    {
        if crate::bytes::bytes_eq(&es[i].name, name) {
            return Some(i);
        }
        i += 1;
    }
    None
}

/// Copies a path without its first segment.
pub fn strip_first(p: &Vec<Vec<u8>>) -> (r: Vec<Vec<u8>>)
    requires
        p@.len() >= 1,
    ensures
        path_view(r@) == path_view(p@).subrange(1, p@.len() as int),
        r@.len() == p@.len() - 1,
{
    let mut r: Vec<Vec<u8>> = Vec::new();
    let mut i: usize = 1;
    while i < p.len()
        invariant
            1 <= i <= p@.len(),
            r@.len() == i - 1,
            forall|j: int| 0 <= j < i - 1 ==> r@[j]@ == p@[j + 1]@,
        decreases p.len() - i,
    {
        r.push(clone_bytes(&p[i]));
        i += 1;
    }
    assert(path_view(r@) =~= path_view(p@).subrange(1, p@.len() as int));
    r
}

/// Copies a path (a list of segments).
pub fn clone_path(p: &Vec<Vec<u8>>) -> (r: Vec<Vec<u8>>)
    ensures
        path_view(r@) == path_view(p@),
        r@.len() == p@.len(),
{
    let mut r: Vec<Vec<u8>> = Vec::new();
    let mut i: usize = 0;
    while i < p.len()
        invariant
            i <= p.len(),
            r@.len() == i,
            forall|j: int| 0 <= j < i ==> r@[j]@ == p@[j]@,
        decreases p.len() - i,
    {
        r.push(clone_bytes(&p[i]));
        i += 1;
    }
    assert(path_view(r@) =~= path_view(p@));
    r
}

} // verus!
