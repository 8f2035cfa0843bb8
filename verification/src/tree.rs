//! Read views of tree objects.
//!
//! A [`Tree`] is a materialized, read-only view of one tree object:
//! its id and its entry list. It has no identity beyond the id it
//! wraps; new trees are only ever produced by hydration, never by
//! mutating a view.

use vstd::prelude::*;

use crate::entry::{duplicate_entries, entries_view, find_entry, TreeEntry};
use crate::model::{
    distinct_names, empty_tree_map, entry_map, lemma_entry_map_absent, lemma_entry_map_index,
    node_at, EntryV, StoreV, TreeMapV, MODE_TREE,
};
use crate::oid::Oid;
use crate::store::{Store, TreeError};

verus! {

/// A read-only view of one tree object: its id and its entries.
pub struct Tree {
    pub oid: Oid,
    pub entries: Vec<TreeEntry>,
}

impl Tree {
    /// The entry map this view holds.
    pub open spec fn map_view(&self) -> TreeMapV {
        entry_map(entries_view(self.entries@))
    }

    /// The view is faithful to the store `s`: its id resolves there,
    /// to exactly these entries.
    pub open spec fn in_store(&self, s: StoreV) -> bool {
        &&& s.trees.dom().contains(self.oid@)
        &&& s.trees[self.oid@] == self.map_view()
        &&& distinct_names(entries_view(self.entries@))
    }

    /// The id of this tree.
    pub fn get_oid(&self) -> (r: Oid)
        ensures
            r@ == self.oid@,
    {
        self.oid.duplicate()
    }

    /// Whether this tree holds no entries. Trees written by hydration
    /// are never empty below the root: an emptied directory loses its
    /// entry instead.
    pub fn is_empty(&self) -> (r: bool)
        ensures
            r == (self.map_view() == empty_tree_map()),
    {
        if self.entries.len() == 0 {
            proof {
                assert(entries_view(self.entries@) =~= Seq::<EntryV>::empty());
                assert(self.map_view() =~= empty_tree_map());
            }
            true
        } else {
            proof {
                let es = entries_view(self.entries@);
                assert(self.map_view().dom().contains(es.last().name));
            }
            false
        }
    }

    /// Looks the entry at `path` up, descending through nested trees
    /// via `store`. The path is not restricted to entries of this
    /// tree: it may hold several segments. Nothing is found at an
    /// empty path, past an entry that is not a nested tree, or past a
    /// tree id the store does not resolve.
    pub fn get_path(&self, store: &Store, path: &Vec<Vec<u8>>) -> (r: Option<TreeEntry>)
        requires
            distinct_names(entries_view(self.entries@)),
        ensures
            match r {
                Some(e) => node_at(store@, Some(self.map_view()), crate::entry::path_view(path@))
                    == Some((e@.oid, e@.mode)) && crate::entry::path_view(path@).len() >= 1
                    && e@.name == crate::entry::path_view(path@).last(),
                None => node_at(
                    store@,
                    Some(self.map_view()),
                    crate::entry::path_view(path@),
                ) is None,
            },
    {
        let ghost s = store@;
        let ghost pv = crate::entry::path_view(path@);
        let ghost m0 = self.map_view();
        if path.len() == 0 {
            return None;
        }
        let mut cur: Vec<TreeEntry> = duplicate_entries(&self.entries);
        let mut i: usize = 0;
        proof {
            assert(pv.subrange(0, pv.len() as int) =~= pv);
        }
        while i < path.len() - 1
        invariant
            path@.len() >= 1,
            pv == crate::entry::path_view(path@),
            pv.len() == path@.len(),
            i < path@.len(),
            s == store@,
            m0 == self.map_view(),
            distinct_names(entries_view(cur@)),
            node_at(s, Some(m0), pv) == node_at(
                s,
                Some(entry_map(entries_view(cur@))),
                pv.subrange(i as int, pv.len() as int),
            ),
        decreases path@.len() - i,
        {
            let ghost rest = pv.subrange(i as int, pv.len() as int);
            let ghost es = entries_view(cur@);
            proof {
                assert(rest.len() >= 2);
                assert(rest[0] == pv[i as int]);
                assert(pv[i as int] == path@[i as int]@);
            }
            match find_entry(&cur, &path[i]) {
                None => {
                    proof {
                        lemma_entry_map_absent(es, rest[0]);
                        assert(node_at(s, Some(entry_map(es)), rest) is None);
                    }
                    return None;
                },
                Some(j) => {
                    proof {
                        lemma_entry_map_index(es, j as int);
                        assert(entry_map(es)[rest[0]] == (es[j as int].oid, es[j as int].mode));
                    }
                    if cur[j].mode != MODE_TREE {
                        proof {
                            assert(node_at(s, Some(entry_map(es)), rest) is None);
                        }
                        return None;
                    }
                    let child = cur[j].get_oid();
                    match store.read_tree(&child) {
                        Err(_) => {
                            proof {
                                assert(!s.trees.dom().contains(es[j as int].oid));
                                assert(node_at(s, Some(entry_map(es)), rest) is None);
                            }
                            return None;
                        },
                        Ok(v) => {
                            proof {
                                assert(rest.subrange(1, rest.len() as int) =~= pv.subrange(
                                    i as int + 1,
                                    pv.len() as int,
                                ));
                                assert(node_at(s, Some(entry_map(es)), rest) == node_at(
                                    s,
                                    Some(entry_map(entries_view(v@))),
                                    pv.subrange(i as int + 1, pv.len() as int),
                                ));
                            }
                            cur = v;
                            i += 1;
                        },
                    }
                },
            }
        }
        let ghost rest = pv.subrange(i as int, pv.len() as int);
        proof {
            assert(rest.len() == 1);
            assert(rest[0] == pv[i as int]);
            assert(pv[i as int] == path@[i as int]@);
            assert(pv[i as int] == pv.last());
        }
        match find_entry(&cur, &path[i]) {
            None => {
                proof {
                    lemma_entry_map_absent(entries_view(cur@), pv[i as int]);
                }
                None
            },
            Some(j) => {
                proof {
                    lemma_entry_map_index(entries_view(cur@), j as int);
                }
                Some(cur[j].duplicate())
            },
        }
    }

    /// Looks the id at `path` up, descending through nested trees via
    /// `store`.
    pub fn get_oid_for_path(&self, store: &Store, path: &Vec<Vec<u8>>) -> (r: Option<Oid>)
        requires
            distinct_names(entries_view(self.entries@)),
        ensures
            match node_at(store@, Some(self.map_view()), crate::entry::path_view(path@)) {
                Some(item) => r matches Some(o) && o@ == item.0,
                None => r is None,
            },
    {
        match self.get_path(store, path) {
            Some(e) => Some(e.oid.duplicate()),
            None => None,
        }
    }
}

impl Store {
    /// Materializes a view of the tree `oid` resolves to, or nothing
    /// when it does not resolve to a tree.
    pub fn find_tree(&self, oid: &Oid) -> (r: Option<Tree>)
        ensures
            match r {
                Some(t) => self@.trees.dom().contains(oid@) && t.oid@ == oid@ && t.in_store(
                    self@,
                ),
                None => !self@.trees.dom().contains(oid@),
            },
    {
        match self.read_tree(oid) {
            Ok(v) => Some(Tree { oid: oid.duplicate(), entries: v }),
            Err(_) => None,
        }
    }
}

} // verus!
