//! The object store, and everything this crate trusts about it.
//!
//! A [`Store`] wraps a `git2` repository whose object database lives in
//! memory. The engine reads trees out of it and writes new trees and
//! blobs into it; the contracts of the few trusted wrappers below are
//! the only facts about `git2` that the verified code relies on. All
//! of them are statements about [`StoreV`], the store's model: the map
//! of tree objects it resolves and the set of blobs it holds.
//!
//! Two standing assumptions of content addressing are expressed here:
//! an object's id is a pure function of its content ([`tree_hash`],
//! [`blob_hash`]), and the references between stored objects form a
//! well-founded hierarchy ([`oid_rank`]) — an object can never reach
//! itself through entries, which is what makes the recursive walks of
//! this crate terminate.

use vstd::prelude::*;

use crate::entry::{entries_view, TreeEntry};
use crate::model::{
    distinct_names, empty_tree_map, entry_map, valid_entry_mode, EntryV, StoreV, TreeMapV,
    MODE_BLOB, MODE_BLOB_EXECUTABLE, MODE_LINK, MODE_TREE,
};
use crate::oid::Oid;

verus! {

/// An error surfaced by the object store.
#[derive(Debug)]
pub enum TreeError {
    /// An id that was asked for, or that an entry referenced, and
    /// that does not resolve in the store.
    NotFound(Oid),
    /// The store rejected an operation: an invalid entry name or mode,
    /// or a backend failure.
    Backend,
}

#[verifier::external_type_specification]
#[verifier::external_body]
pub struct ExRepository(git2::Repository);

/// The id a tree object gets from its entries. Content addressing
/// makes it a pure function of the entry map: identical entries always
/// hash to the identical id, on every machine.
pub uninterp spec fn tree_hash(t: TreeMapV) -> Seq<u8>;

/// The id a blob object gets from its bytes, a pure function of them.
pub uninterp spec fn blob_hash(data: Seq<u8>) -> Seq<u8>;

/// The height of an object in the store's reference hierarchy. Stored
/// objects form a Merkle graph: an entry's id is part of the content
/// its parent's id hashes, so a tree always stands strictly above the
/// trees its entries point at, and no chain of entries is circular.
/// The wrappers below state exactly that, and nothing else, of this
/// function.
pub uninterp spec fn oid_rank(oid: Seq<u8>) -> nat;

/// The tree objects a repository resolves, as entry maps keyed by id.
pub uninterp spec fn repo_trees(repo: git2::Repository) -> Map<Seq<u8>, TreeMapV>;

/// The ids of the blob objects a repository holds.
pub uninterp spec fn repo_blobs(repo: git2::Repository) -> Set<Seq<u8>>;

/// A content-addressed object store holding immutable trees and blobs.
pub struct Store {
    repo: git2::Repository,
}

impl View for Store {
    type V = StoreV;

    closed spec fn view(&self) -> StoreV {
        StoreV { trees: repo_trees(self.repo), blobs: repo_blobs(self.repo) }
    }
}

/// What the store guarantees of one entry it accepted into a new tree:
/// the mode is one git writes, a tree-typed entry points at a tree the
/// store resolves and that stands strictly below the new tree, and a
/// file-typed entry points at a blob the store holds.
pub open spec fn entry_accepted(s: StoreV, e: EntryV, h: Seq<u8>) -> bool {
    &&& valid_entry_mode(e.mode)
    &&& e.mode == MODE_TREE ==> s.trees.dom().contains(e.oid) && oid_rank(e.oid) < oid_rank(h)
    &&& (e.mode == MODE_BLOB || e.mode == MODE_BLOB_EXECUTABLE || e.mode == MODE_LINK)
        ==> s.blobs.contains(e.oid)
}

/// Well-formedness of a store: every tree it resolves hashes back to
/// its own id, and every entry of such a tree was once accepted, so it
/// satisfies [`entry_accepted`] with respect to the store itself.
pub open spec fn store_wf(s: StoreV) -> bool {
    forall|o: Seq<u8>| #[trigger] s.trees.dom().contains(o) ==> tree_wf_in(s, o)
}

/// Well-formedness of the one tree `o` of the store.
pub open spec fn tree_wf_in(s: StoreV, o: Seq<u8>) -> bool {
    &&& tree_hash(s.trees[o]) == o
    &&& forall|n: Seq<u8>| #[trigger] s.trees[o].dom().contains(n) ==> entry_accepted(
        s,
        EntryV { name: n, oid: s.trees[o][n].0, mode: s.trees[o][n].1 },
        o,
    )
}

/// Store growth: everything the old store resolved, the new one
/// resolves to the same value.
pub open spec fn store_le(a: StoreV, b: StoreV) -> bool {
    &&& a.trees.submap_of(b.trees)
    &&& a.blobs.subset_of(b.blobs)
}

/// Store growth is reflexive.
pub proof fn lemma_store_le_refl(a: StoreV)
    ensures
        store_le(a, a),
{
}

/// Store growth composes.
pub proof fn lemma_store_le_trans(a: StoreV, b: StoreV, c: StoreV)
    requires
        store_le(a, b),
        store_le(b, c),
    ensures
        store_le(a, c),
{
    assert(a.trees.submap_of(b.trees));
    assert(b.trees.submap_of(c.trees));
    assert forall|o: Seq<u8>| #[trigger] a.trees.dom().contains(o) implies c.trees.dom().contains(
        o,
    ) && c.trees[o] == a.trees[o] by {
        assert(b.trees.dom().contains(o));
        assert(a.trees[o] == b.trees[o]);
        assert(c.trees.dom().contains(o));
        assert(b.trees[o] == c.trees[o]);
    }
    assert(a.trees.submap_of(c.trees));
    assert forall|x: Seq<u8>| #[trigger] a.blobs.contains(x) implies c.blobs.contains(x) by {
        assert(b.blobs.contains(x));
    }
    assert(a.blobs.subset_of(c.blobs));
}

/// The trees a fresh repository resolves. This is not the empty map:
/// libgit2 hardcodes the canonical empty tree into the object
/// database's read paths, so its id resolves in every repository,
/// even one holding no objects at all.
pub open spec fn fresh_trees() -> Map<Seq<u8>, TreeMapV> {
    Map::empty().insert(tree_hash(empty_tree_map()), empty_tree_map())
}

/// The blob set of a store holding no blobs.
pub open spec fn no_blobs() -> Set<Seq<u8>> {
    Set::empty()
}

impl Store {
    /// Opens a fresh store over an in-memory object database.
    ///
    /// Relies on `git2::Odb::new`, `git2::Odb::add_new_mempack_backend`
    /// and `git2::Repository::from_odb`: the resulting repository's
    /// object database holds no objects at all — yet it still resolves
    /// exactly one tree, the canonical empty tree, which libgit2
    /// hardcodes into the object database's read paths. Strict object
    /// creation — libgit2's default, pinned here via
    /// `git2::opts::strict_object_creation` — makes every later write
    /// validate the objects its entries reference, which is what the
    /// write contracts below lean on.
    #[verifier::external_body]
    pub fn in_memory() -> (r: Result<Store, TreeError>)
        ensures
            r matches Ok(s) ==> s@.trees == fresh_trees() && s@.blobs == no_blobs(),
    {
        git2::opts::strict_object_creation(true);
        let odb = match git2::Odb::new() {
            Ok(odb) => odb,
            Err(_) => return Err(TreeError::Backend),
        };
        if odb.add_new_mempack_backend(1000).is_err() {
            return Err(TreeError::Backend);
        }
        match git2::Repository::from_odb(odb) {
            Ok(repo) => Ok(Store { repo }),
            Err(_) => Err(TreeError::Backend),
        }
    }

    /// Reads the entries of the tree `oid` resolves to.
    ///
    /// Relies on `git2::Repository::find_tree` and `git2::Tree::iter`:
    /// the lookup succeeds exactly when the id resolves to a tree
    /// object, and iteration hands out that tree's entries, whose
    /// names are unique within one tree.
    #[verifier::external_body]
    fn read_tree_raw(&self, oid: &Oid) -> (r: Result<Vec<TreeEntry>, TreeError>)
        ensures
            r matches Ok(v) ==> {
                &&& repo_trees(self.repo).dom().contains(oid@)
                &&& entry_map(entries_view(v@)) == repo_trees(self.repo)[oid@]
                &&& distinct_names(entries_view(v@))
            },
            r is Err ==> !repo_trees(self.repo).dom().contains(oid@),
    {
        let goid = match git2::Oid::from_bytes(&oid.bytes) {
            Ok(goid) => goid,
            Err(_) => return Err(TreeError::NotFound(Oid { bytes: oid.bytes.clone() })),
        };
        match self.repo.find_tree(goid) {
            Ok(tree) => Ok(tree.iter().map(|e| TreeEntry {
                name: e.name_bytes().to_vec(),
                oid: Oid { bytes: e.id().as_bytes().to_vec() },
                mode: e.filemode_raw() as u32,
            }).collect()),
            Err(e) if e.code() == git2::ErrorCode::NotFound => Err(TreeError::NotFound(Oid {
                bytes: oid.bytes.clone(),
            })),
            Err(_) => Err(TreeError::Backend),
        }
    }

    /// Writes the tree holding `entries` and returns its id.
    ///
    /// Relies on `git2::Repository::treebuilder`,
    /// `git2::TreeBuilder::insert` and `git2::TreeBuilder::write`: the
    /// builder keeps a map by name (a later insert of a name replaces
    /// an earlier one), `insert` validates each entry — the mode must
    /// be one git writes, the name a valid single segment, and, under
    /// strict object creation (libgit2's default), the id must resolve
    /// in the store to an object of the kind the mode announces — and
    /// `write` stores the tree under the content hash of its entries.
    /// On failure nothing is written. That the id of a newly written
    /// tree equals the content hash of its entries, that an id already
    /// present can only carry the same entries, and that every entry
    /// stands strictly below the new tree in the reference hierarchy,
    /// are the content-addressing guarantees of git's object model
    /// (ids are collision-free hashes of content, and references are
    /// acyclic).
    #[verifier::external_body]
    fn write_tree_raw(&mut self, entries: &Vec<TreeEntry>) -> (r: Result<Oid, TreeError>)
        ensures
            r matches Ok(h) ==> {
                let m = entry_map(entries_view(entries@));
                let es = entries_view(entries@);
                &&& h@ == tree_hash(m)
                &&& repo_trees(final(self).repo) == repo_trees(old(self).repo).insert(h@, m)
                &&& repo_blobs(final(self).repo) == repo_blobs(old(self).repo)
                &&& repo_trees(old(self).repo).dom().contains(h@) ==> repo_trees(
                    old(self).repo,
                )[h@] == m
                &&& forall|i: int| 0 <= i < es.len() ==> valid_entry_mode(#[trigger] es[i].mode)
                &&& forall|i: int|
                    0 <= i < es.len() && (#[trigger] es[i].mode) == MODE_TREE ==> repo_trees(
                        old(self).repo,
                    ).dom().contains(es[i].oid) && oid_rank(es[i].oid) < oid_rank(h@)
                &&& forall|i: int|
                    0 <= i < es.len() && ((#[trigger] es[i].mode) == MODE_BLOB || es[i].mode
                        == MODE_BLOB_EXECUTABLE || es[i].mode == MODE_LINK) ==> repo_blobs(
                        old(self).repo,
                    ).contains(es[i].oid)
            },
            r is Err ==> final(self)@ == old(self)@,
    {
        let mut builder = match self.repo.treebuilder(None) {
            Ok(builder) => builder,
            Err(_) => return Err(TreeError::Backend),
        };
        for e in entries.iter() {
            let goid = git2::Oid::from_bytes(&e.oid.bytes).map_err(|_| TreeError::Backend)?;
            builder.insert(&e.name[..], goid, e.mode as i32).map_err(|err| match err.code() {
                git2::ErrorCode::NotFound => TreeError::NotFound(Oid { bytes: e.oid.bytes.clone() }),
                _ => TreeError::Backend,
            })?;
        }
        match builder.write() {
            Ok(h) => Ok(Oid { bytes: h.as_bytes().to_vec() }),
            Err(_) => Err(TreeError::Backend),
        }
    }

    /// Writes `data` as a blob and returns its id.
    ///
    /// Relies on `git2::Repository::blob`: the blob is stored under the
    /// content hash of its bytes, and tree objects are untouched.
    #[verifier::external_body]
    fn write_blob_raw(&mut self, data: &Vec<u8>) -> (r: Result<Oid, TreeError>)
        ensures
            r matches Ok(h) ==> {
                &&& h@ == blob_hash(data@)
                &&& repo_blobs(final(self).repo) == repo_blobs(old(self).repo).insert(h@)
                &&& repo_trees(final(self).repo) == repo_trees(old(self).repo)
            },
            r is Err ==> final(self)@ == old(self)@,
    {
        match self.repo.blob(&data[..]) {
            Ok(h) => Ok(Oid { bytes: h.as_bytes().to_vec() }),
            Err(_) => Err(TreeError::Backend),
        }
    }

    /// Reads the entries of the tree `oid` resolves to; fails exactly
    /// when the id does not resolve to a tree.
    pub fn read_tree(&self, oid: &Oid) -> (r: Result<Vec<TreeEntry>, TreeError>)
        ensures
            r matches Ok(v) ==> {
                &&& self@.trees.dom().contains(oid@)
                &&& entry_map(entries_view(v@)) == self@.trees[oid@]
                &&& distinct_names(entries_view(v@))
            },
            r is Err ==> !self@.trees.dom().contains(oid@),
    {
        self.read_tree_raw(oid)
    }

    /// Writes the tree holding `entries`, keeping the store well
    /// formed.
    pub fn write_tree(&mut self, entries: &Vec<TreeEntry>) -> (r: Result<Oid, TreeError>)
        requires
            store_wf(old(self)@),
        ensures
            store_wf(final(self)@),
            store_le(old(self)@, final(self)@),
            r matches Ok(h) ==> {
                let m = entry_map(entries_view(entries@));
                &&& h@ == tree_hash(m)
                &&& final(self)@.trees == old(self)@.trees.insert(h@, m)
                &&& final(self)@.blobs == old(self)@.blobs
                &&& forall|i: int| 0 <= i < entries@.len() ==> entry_accepted(
                    old(self)@,
                    #[trigger] entries_view(entries@)[i],
                    h@,
                )
            },
            r is Err ==> final(self)@ == old(self)@,
    {
        let ghost pre = self@;
        let r = self.write_tree_raw(entries);
        proof {
            if let Ok(h) = &r {
                assert forall|i: int| 0 <= i < entries@.len() implies entry_accepted(
                    pre,
                    #[trigger] entries_view(entries@)[i],
                    h@,
                ) by {
                    assert(valid_entry_mode(entries_view(entries@)[i].mode));
                }
                lemma_write_preserves_wf(pre, self@, entries_view(entries@), h@);
            }
        }
        r
    }

    /// Writes `data` as a blob, keeping the store well formed.
    pub fn write_blob(&mut self, data: &Vec<u8>) -> (r: Result<Oid, TreeError>)
        requires
            store_wf(old(self)@),
        ensures
            store_wf(final(self)@),
            store_le(old(self)@, final(self)@),
            r matches Ok(h) ==> {
                &&& h@ == blob_hash(data@)
                &&& final(self)@.blobs == old(self)@.blobs.insert(h@)
                &&& final(self)@.trees == old(self)@.trees
            },
    {
        let ghost pre = self@;
        let r = self.write_blob_raw(data);
        proof {
            if r is Ok {
                assert forall|o: Seq<u8>| #[trigger] self@.trees.dom().contains(o) implies tree_wf_in(
                    self@,
                    o,
                ) by {
                    assert(tree_wf_in(pre, o));
                }
            }
        }
        r
    }
}

/// A tree write keeps the store well formed: the new tree hashes to
/// its id and every entry of it was accepted against the old store,
/// whose objects all persist.
proof fn lemma_write_preserves_wf(pre: StoreV, post: StoreV, es: Seq<EntryV>, h: Seq<u8>)
    requires
        store_wf(pre),
        h == tree_hash(entry_map(es)),
        post.trees == pre.trees.insert(h, entry_map(es)),
        post.blobs == pre.blobs,
        pre.trees.dom().contains(h) ==> pre.trees[h] == entry_map(es),
        forall|i: int| 0 <= i < es.len() ==> entry_accepted(pre, #[trigger] es[i], h),
    ensures
        store_wf(post),
        store_le(pre, post),
{
    assert forall|o: Seq<u8>| #[trigger] post.trees.dom().contains(o) implies tree_wf_in(post, o) by {
        if o == h {
            assert(tree_hash(post.trees[o]) == o);
            assert forall|n: Seq<u8>| #[trigger] post.trees[o].dom().contains(n) implies entry_accepted(
                post,
                EntryV { name: n, oid: post.trees[o][n].0, mode: post.trees[o][n].1 },
                o,
            ) by {
                lemma_entry_map_last_wins(es, n);
                let j = choose|j: int|
                    0 <= j < es.len() && es[j].name == n && entry_map(es)[n] == (es[j].oid, es[j].mode);
                assert(entry_accepted(pre, es[j], h));
            }
        } else {
            assert(tree_wf_in(pre, o));
            assert forall|n: Seq<u8>| #[trigger] post.trees[o].dom().contains(n) implies entry_accepted(
                post,
                EntryV { name: n, oid: post.trees[o][n].0, mode: post.trees[o][n].1 },
                o,
            ) by {
                assert(entry_accepted(
                    pre,
                    EntryV { name: n, oid: pre.trees[o][n].0, mode: pre.trees[o][n].1 },
                    o,
                ));
            }
        }
    }
    assert(pre.trees.submap_of(post.trees));
}

/// The value an entry map holds for a name comes from some listed
/// entry of that name.
proof fn lemma_entry_map_last_wins(es: Seq<EntryV>, n: Seq<u8>)
    requires
        entry_map(es).dom().contains(n),
    ensures
        exists|j: int|
            0 <= j < es.len() && es[j].name == n && entry_map(es)[n] == (es[j].oid, es[j].mode),
    decreases es.len(),
{
    if es.len() > 0 {
        if es.last().name == n {
            assert(entry_map(es)[n] == (es.last().oid, es.last().mode));
            assert(es[es.len() - 1].name == n);
        } else {
            lemma_entry_map_last_wins(es.drop_last(), n);
            let j = choose|j: int|
                0 <= j < es.drop_last().len() && es.drop_last()[j].name == n && entry_map(
                    es.drop_last(),
                )[n] == (es.drop_last()[j].oid, es.drop_last()[j].mode);
            assert(es[j].name == n && entry_map(es)[n] == (es[j].oid, es[j].mode));
        }
    }
}

} // verus!
