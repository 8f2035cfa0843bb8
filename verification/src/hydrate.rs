//! The hydration engine: building a new tree by applying a sparse
//! batch of path edits to a base tree, or to nothing at all.
//!
//! Edits whose path holds one segment apply directly at this level;
//! deeper edits are bucketed by their first segment and rebuild the
//! named subtree recursively, seeded from the subtree the evolving
//! entry list points at (when it points at one). A subtree that comes
//! back empty costs its parent entry: no tree ever keeps an entry
//! naming an empty directory. The resulting entry list is written to
//! the store as a brand-new tree; nothing already stored is touched.

use vstd::prelude::*;

use crate::bytes::clone_bytes;
use crate::entry::{
    clone_path, clone_value, duplicate_entries, edits_view, entries_view, find_entry, path_view,
    paths_view, strip_first, value_view, FileMode, TreeEdit, TreeEntry,
};
use crate::model::{
    anchored_map, apply_edits, dehydrate_edits, direct_edits, edits_depth, distinct_names,
    edit_oids_in, edit_val_ok, empty_tree_map, entry_map, fold_direct, group_fold, group_names,
    group_of, groups_of, is_tree_mode, lemma_direct_edits_push, lemma_edits_depth_ge,
    lemma_entry_map_absent, lemma_entry_map_index, lemma_entry_map_push,
    lemma_entry_map_remove_at, lemma_entry_map_update, lemma_fold_direct_anchored,
    lemma_group_fold_frame, lemma_group_names_distinct, lemma_group_names_member,
    lemma_group_names_push, lemma_group_of_depth, lemma_group_of_oids_in, lemma_group_of_push,
    lemma_map_remove_absent, lemma_node_at_wf, lemma_store_tree_anchored,
    lemma_store_tree_entries_ok, node_at, EditV, EntryV, StoreV, TreeMapV, MODE_TREE,
};
use crate::oid::Oid;
use crate::store::{
    lemma_store_le_refl, lemma_store_le_trans, store_le, store_wf, tree_hash, Store, TreeError,
};
use crate::tree::Tree;

verus! {

/// A single-level edit: one entry name mapped to a new value or to a
/// deletion.
struct DirectEdit {
    name: Vec<u8>,
    value: Option<(Oid, FileMode)>,
}

impl View for DirectEdit {
    type V = (Seq<u8>, Option<(Seq<u8>, u32)>);

    closed spec fn view(&self) -> (Seq<u8>, Option<(Seq<u8>, u32)>) {
        (self.name@, value_view(self.value))
    }
}

/// The views of a single-level edit list.
spec fn directs_view(ds: Seq<DirectEdit>) -> Seq<(Seq<u8>, Option<(Seq<u8>, u32)>)> {
    ds.map_values(|d: DirectEdit| d@)
}

/// Whether one of the names equals `s`.
fn contains_name(names: &Vec<Vec<u8>>, s: &Vec<u8>) -> (r: bool)
    ensures
        r == exists|k: int| 0 <= k < names@.len() && (#[trigger] names@[k]@) == s@,
{
    let mut i: usize = 0;
    while i < names.len()
        invariant
            i <= names@.len(),
            forall|k: int| 0 <= k < i ==> (#[trigger] names@[k]@) != s@,
        decreases names.len() - i,
    {
        if crate::bytes::bytes_eq(&names[i], s) {
            return true;
        }
        i += 1;
    }
    false
}

/// Splits a batch into its direct edits and the first segments of its
/// deeper edits, each once, in order of first occurrence. Edits with
/// an empty path fall away here: they name nothing and are skipped.
#[verifier::loop_isolation(false)]
fn split_edits(edits: &Vec<TreeEdit>) -> (r: (Vec<DirectEdit>, Vec<Vec<u8>>))
    ensures
        directs_view(r.0@) == direct_edits(edits_view(edits@)),
        r.1@.len() == group_names(edits_view(edits@)).len(),
        forall|k: int|
            0 <= k < r.1@.len() ==> (#[trigger] r.1@[k]@) == group_names(edits_view(edits@))[k],
{
    let ghost ev = edits_view(edits@);
    let mut ds: Vec<DirectEdit> = Vec::new();
    let mut names: Vec<Vec<u8>> = Vec::new();
    let mut i: usize = 0;
    proof {
        assert(ev.take(0) =~= Seq::<EditV>::empty());
        assert(directs_view(ds@) =~= direct_edits(ev.take(0)));
    }
    while i < edits.len()
        invariant
            i <= edits@.len(),
            directs_view(ds@) == direct_edits(ev.take(i as int)),
            names@.len() == group_names(ev.take(i as int)).len(),
            forall|k: int|
                0 <= k < names@.len() ==> (#[trigger] names@[k]@) == group_names(
                    ev.take(i as int),
                )[k],
        decreases edits.len() - i,
    {
        let ghost pre = ev.take(i as int);
        proof {
            assert(ev.take(i as int + 1) =~= pre.push(ev[i as int]));
            assert(ev[i as int] == edits@[i as int]@);
            lemma_direct_edits_push(pre, ev[i as int]);
            lemma_group_names_push(pre, ev[i as int]);
        }
        let e = &edits[i];
        if e.path.len() == 1 {
            ds.push(DirectEdit { name: clone_bytes(&e.path[0]), value: clone_value(&e.value) });
            proof {
                assert(ev[i as int].path[0] == edits@[i as int].path@[0]@);
                assert(directs_view(ds@) =~= direct_edits(ev.take(i as int + 1)));
            }
        } else if e.path.len() >= 2 {
            proof {
                assert(ev[i as int].path[0] == edits@[i as int].path@[0]@);
            }
            if !contains_name(&names, &e.path[0]) {
                proof {
                    assert(!group_names(pre).contains(ev[i as int].path[0])) by {
                        if group_names(pre).contains(ev[i as int].path[0]) {
                            let k = choose|k: int|
                                0 <= k < group_names(pre).len() && group_names(pre)[k] == ev[
                                    i as int
                                ].path[0];
                            assert(names@[k]@ == ev[i as int].path[0]);
                        }
                    }
                }
                names.push(clone_bytes(&e.path[0]));
            } else {
                proof {
                    let k = choose|k: int|
                        0 <= k < names@.len() && (#[trigger] names@[k]@) == edits@[
                            i as int
                        ].path@[0]@;
                    assert(group_names(pre)[k] == ev[i as int].path[0]);
                    assert(group_names(pre).contains(ev[i as int].path[0]));
                }
            }
        }
        i += 1;
    }
    proof {
        assert(ev.take(edits@.len() as int) =~= ev);
    }
    (ds, names)
}

/// Collects the bucket of deeper edits whose path starts with `name`,
/// stripped of that first segment.
#[verifier::loop_isolation(false)]
fn collect_group(edits: &Vec<TreeEdit>, name: &Vec<u8>) -> (r: Vec<TreeEdit>)
    ensures
        edits_view(r@) == group_of(edits_view(edits@), name@),
{
    let ghost ev = edits_view(edits@);
    let mut r: Vec<TreeEdit> = Vec::new();
    let mut i: usize = 0;
    proof {
        assert(ev.take(0) =~= Seq::<EditV>::empty());
        assert(edits_view(r@) =~= group_of(ev.take(0), name@));
    }
    while i < edits.len()
        invariant
            i <= edits@.len(),
            edits_view(r@) == group_of(ev.take(i as int), name@),
        decreases edits.len() - i,
    {
        let ghost pre = ev.take(i as int);
        proof {
            assert(ev.take(i as int + 1) =~= pre.push(ev[i as int]));
            assert(ev[i as int] == edits@[i as int]@);
            lemma_group_of_push(pre, ev[i as int], name@);
        }
        let e = &edits[i];
        if e.path.len() >= 2 {
            proof {
                assert(ev[i as int].path[0] == edits@[i as int].path@[0]@);
            }
            if crate::bytes::bytes_eq(&e.path[0], name) {
                let stripped = TreeEdit { path: strip_first(&e.path), value: clone_value(&e.value) };
                proof {
                    assert(path_view(edits@[i as int].path@).subrange(
                        1,
                        edits@[i as int].path@.len() as int,
                    ) == ev[i as int].path.subrange(1, ev[i as int].path.len() as int));
                }
                r.push(stripped);
                proof {
                    assert(edits_view(r@) =~= group_of(ev.take(i as int + 1), name@));
                }
            }
        }
        i += 1;
    }
    proof {
        assert(ev.take(edits@.len() as int) =~= ev);
    }
    r
}

/// Inserts or overwrites the entry called `name`.
fn upsert_entry(entries: &mut Vec<TreeEntry>, name: Vec<u8>, oid: Oid, mode: u32)
    requires
        distinct_names(entries_view(old(entries)@)),
    ensures
        distinct_names(entries_view(final(entries)@)),
        entry_map(entries_view(final(entries)@)) == entry_map(entries_view(old(entries)@)).insert(
            name@,
            (oid@, mode),
        ),
{
    let ghost es0 = entries_view(entries@);
    match find_entry(entries, &name) {
        Some(i) => {
            let e = TreeEntry { name, oid, mode };
            proof {
                lemma_entry_map_update(es0, i as int, e@);
            }
            entries[i] = e;
            proof {
                assert(entries_view(entries@) =~= es0.update(i as int, EntryV {
                    name: entries@[i as int].name@,
                    oid: entries@[i as int].oid@,
                    mode: entries@[i as int].mode,
                }));
            }
        },
        None => {
            let e = TreeEntry { name, oid, mode };
            proof {
                lemma_entry_map_push(es0, e@);
            }
            entries.push(e);
            proof {
                assert(entries_view(entries@) =~= es0.push(entries@.last()@));
                assert forall|a: int, b: int|
                    0 <= a < b < entries_view(entries@).len() implies entries_view(entries@)[a].name
                    != entries_view(entries@)[b].name by {
                    if b < entries_view(entries@).len() - 1 {
                        assert(es0[a].name != es0[b].name);
                    }
                }
            }
        },
    }
}

/// Removes the entry called `name`; removing an absent name is a
/// silent no-op.
fn remove_entry(entries: &mut Vec<TreeEntry>, name: &Vec<u8>)
    requires
        distinct_names(entries_view(old(entries)@)),
    ensures
        distinct_names(entries_view(final(entries)@)),
        entry_map(entries_view(final(entries)@)) == entry_map(entries_view(old(entries)@)).remove(
            name@,
        ),
{
    let ghost es0 = entries_view(entries@);
    match find_entry(entries, name) {
        Some(i) => {
            proof {
                lemma_entry_map_remove_at(es0, i as int);
            }
            entries.remove(i);
            proof {
                assert(entries_view(entries@) =~= es0.remove(i as int));
            }
        },
        None => {
            proof {
                lemma_entry_map_absent(es0, name@);
                lemma_map_remove_absent(entry_map(es0), name@);
            }
        },
    }
}

/// Applies the direct edits to the entry list, in order.
#[verifier::loop_isolation(false)]
fn apply_direct_edits(entries: &mut Vec<TreeEntry>, ds: &Vec<DirectEdit>)
    requires
        distinct_names(entries_view(old(entries)@)),
    ensures
        distinct_names(entries_view(final(entries)@)),
        entry_map(entries_view(final(entries)@)) == fold_direct(
            entry_map(entries_view(old(entries)@)),
            directs_view(ds@),
        ),
{
    let ghost m0 = entry_map(entries_view(entries@));
    let ghost dv = directs_view(ds@);
    let mut i: usize = 0;
    proof {
        assert(dv.take(0) =~= Seq::<(Seq<u8>, Option<(Seq<u8>, u32)>)>::empty());
    }
    while i < ds.len()
        invariant
            i <= ds@.len(),
            distinct_names(entries_view(entries@)),
            entry_map(entries_view(entries@)) == fold_direct(m0, dv.take(i as int)),
        decreases ds.len() - i,
    {
        proof {
            assert(dv.take(i as int + 1) =~= dv.take(i as int).push(dv[i as int]));
            assert(dv.take(i as int + 1).drop_last() =~= dv.take(i as int));
            assert(dv[i as int] == ds@[i as int]@);
        }
        match &ds[i].value {
            Some((o, m)) => {
                upsert_entry(entries, clone_bytes(&ds[i].name), o.duplicate(), m.to_raw());
            },
            None => {
                remove_entry(entries, &ds[i].name);
            },
        }
        i += 1;
    }
    proof {
        assert(dv.take(ds@.len() as int) =~= dv);
    }
}

/// Builds the tree that `base` plus the batch `edits` describes and
/// writes it to the store, returning its id.
///
/// The exact result is promised under the guard that every tree-typed
/// edit value resolves when the call starts ([`edit_oids_in`]); see
/// [`hydrate_tree`] for why. Outside the guard the store still only
/// grows, stays well formed, and resolves whatever id comes back.
#[verifier::loop_isolation(false)]
fn hydrate_level(store: &mut Store, base_entries: Vec<TreeEntry>, edits: &Vec<TreeEdit>) -> (r:
    Result<Oid, TreeError>)
    requires
        store_wf(old(store)@),
        distinct_names(entries_view(base_entries@)),
        anchored_map(entry_map(entries_view(base_entries@)), old(store)@),
    ensures
        store_wf(final(store)@),
        store_le(old(store)@, final(store)@),
        r matches Ok(h) ==> final(store)@.trees.dom().contains(h@),
        edit_oids_in(edits_view(edits@), old(store)@) ==> (r matches Ok(h) ==> ({
            let m = apply_edits(
                old(store)@,
                entry_map(entries_view(base_entries@)),
                edits_view(edits@),
            );
            &&& h@ == tree_hash(m)
            &&& final(store)@.trees[h@] == m
        })),
    decreases edits_depth(edits_view(edits@)),
{
    let ghost s0 = store@;
    let ghost ev = edits_view(edits@);
    let ghost ok = edit_oids_in(ev, s0);
    let ghost base_map = entry_map(entries_view(base_entries@));
    let (directs, names) = split_edits(edits);
    let mut entries = base_entries;
    apply_direct_edits(&mut entries, &directs);
    let ghost after = fold_direct(base_map, direct_edits(ev));
    let ghost gs = groups_of(ev);
    proof {
        if ok {
            lemma_fold_direct_anchored(base_map, ev, s0);
        }
        lemma_group_names_distinct(ev);
        lemma_store_le_refl(s0);
        assert(gs.take(0) =~= Seq::<(Seq<u8>, Seq<EditV>)>::empty());
    }
    let mut k: usize = 0;
    while k < names.len()
        invariant
            k <= names@.len(),
            store_wf(store@),
            store_le(s0, store@),
            distinct_names(entries_view(entries@)),
            ok ==> entry_map(entries_view(entries@)) == group_fold(s0, after, gs.take(k as int)),
        decreases names.len() - k,
    {
        let ghost tcur = entry_map(entries_view(entries@));
        let ghost n = group_names(ev)[k as int];
        let ghost gev = group_of(ev, n);
        proof {
            assert(names@[k as int]@ == n);
            assert(gs[k as int] == (n, gev));
            assert(gs.take(k as int + 1) =~= gs.take(k as int).push(gs[k as int]));
            assert(gs.take(k as int + 1).drop_last() =~= gs.take(k as int));
            // the names of the buckets already folded differ from n
            assert forall|j: int| 0 <= j < k implies (#[trigger] gs.take(k as int)[j]).0 != n by {
                assert(gs.take(k as int)[j] == (group_names(ev)[j], group_of(ev, group_names(ev)[j])));
            }
            lemma_group_fold_frame(s0, after, gs.take(k as int), n);
            lemma_group_names_member(ev);
            let i = choose|i: int| 0 <= i < ev.len() && (#[trigger] ev[i].path.len()) >= 2;
            lemma_edits_depth_ge(ev, i);
            lemma_group_of_depth(ev, n);
            if ok {
                lemma_group_of_oids_in(ev, n, s0);
            }
        }
        let ges = collect_group(edits, &names[k]);
        let ghost item = if tcur.dom().contains(n) {
            Some(tcur[n])
        } else {
            None
        };
        let ghost sub_base = crate::model::resolve_dir_item(s0, item);
        let mut sub_entries: Vec<TreeEntry> = Vec::new();
        proof {
            assert(entries_view(sub_entries@) =~= Seq::<EntryV>::empty());
            assert(anchored_map(entry_map(entries_view(sub_entries@)), store@));
        }
        match find_entry(&entries, &names[k]) {
            Some(i) => {
                proof {
                    lemma_entry_map_index(entries_view(entries@), i as int);
                    assert(item == Some((entries_view(entries@)[i as int].oid, entries_view(
                        entries@,
                    )[i as int].mode)));
                }
                if entries[i].mode == MODE_TREE {
                    let o = entries[i].get_oid();
                    proof {
                        // under the guard, the entry at n is untouched by
                        // earlier buckets, so it came from the post-direct
                        // map, which is anchored in the starting store
                        if ok {
                            assert(after.dom().contains(n) && after[n] == tcur[n]);
                            assert(is_tree_mode(after[n].1));
                            assert(o@ == after[n].0);
                            assert(s0.trees.dom().contains(o@));
                            assert(s0.trees.submap_of(store@.trees));
                            assert(store@.trees.dom().contains(o@));
                            assert(store@.trees[o@] == s0.trees[o@]);
                        }
                    }
                    match store.read_tree(&o) {
                        Ok(v) => {
                            sub_entries = v;
                            proof {
                                lemma_store_tree_anchored(store@, o@);
                                assert(anchored_map(
                                    entry_map(entries_view(sub_entries@)),
                                    store@,
                                ));
                                if ok {
                                    assert(entry_map(entries_view(sub_entries@)) == sub_base);
                                }
                            }
                        },
                        Err(_) => {
                            // the referenced tree does not resolve: rebuild
                            // the subtree from nothing, as the base entry is
                            // superseded anyway
                            proof {
                                if ok {
                                    assert(false);
                                }
                            }
                        },
                    }
                }
            },
            None => {
                proof {
                    lemma_entry_map_absent(entries_view(entries@), n);
                }
            },
        }
        proof {
            assert(distinct_names(entries_view(sub_entries@)));
            assert(anchored_map(entry_map(entries_view(sub_entries@)), store@));
            if ok {
                assert(entry_map(entries_view(sub_entries@)) == sub_base);
                assert(edit_oids_in(edits_view(ges@), store@)) by {
                    assert forall|j: int| 0 <= j < gev.len() implies edit_val_ok(
                        (#[trigger] gev[j]).val,
                        store@,
                    ) by {
                        assert(edit_val_ok(gev[j].val, s0));
                    }
                }
            }
        }
        let ghost s_before_child = store@;
        let sub_oid = match hydrate_level(store, sub_entries, &ges) {
            Ok(o) => o,
            Err(e) => {
                proof {
                    lemma_store_le_trans(s0, s_before_child, store@);
                }
                return Err(e);
            },
        };
        let ghost sub = apply_edits(s0, sub_base, gev);
        proof {
            lemma_store_le_trans(s0, s_before_child, store@);
            assert(store@.trees.dom().contains(sub_oid@));
            if ok {
                // the child worked in a grown store; growth changes nothing
                assert(anchored_map(sub_base, s0)) by {
                    match item {
                        Some((o, m)) => {
                            if is_tree_mode(m) && s0.trees.dom().contains(o) {
                                lemma_store_tree_anchored(s0, o);
                            }
                        },
                        None => {},
                    }
                }
                crate::model::lemma_apply_stable(s0, s_before_child, sub_base, gev);
                assert(store@.trees[sub_oid@] == sub);
                assert(sub_oid@ == tree_hash(sub));
            }
        }
        match store.read_tree(&sub_oid) {
            Err(_) => {
                proof {
                    assert(false);
                }
                return Err(TreeError::NotFound(sub_oid));
            },
            Ok(v) => {
                if v.len() == 0 {
                    proof {
                        if ok {
                            assert(entries_view(v@) =~= Seq::<EntryV>::empty());
                            assert(sub =~= empty_tree_map());
                        }
                    }
                    remove_entry(&mut entries, &names[k]);
                } else {
                    proof {
                        if ok {
                            let vv = entries_view(v@);
                            assert(entry_map(vv).dom().contains(vv.last().name));
                            assert(sub != empty_tree_map());
                        }
                    }
                    upsert_entry(&mut entries, clone_bytes(&names[k]), sub_oid, MODE_TREE);
                }
            },
        }
        k += 1;
    }
    proof {
        if ok {
            assert(gs.take(names@.len() as int) =~= gs);
            if group_names(ev).len() == 0 {
                assert(entry_map(entries_view(entries@)) == after);
                assert(apply_edits(s0, base_map, ev) == after);
            } else {
                assert(apply_edits(s0, base_map, ev) == group_fold(s0, after, gs));
            }
        }
    }
    let ghost s_end = store@;
    let r = store.write_tree(&entries);
    proof {
        lemma_store_le_trans(s0, s_end, store@);
    }
    match r {
        Ok(h) => Ok(h),
        Err(e) => Err(e),
    }
}

/// Reports the positions of edits whose path has no segments. Such an
/// edit names nothing, and [`hydrate_tree`] skips it; a caller that
/// wants to warn about them reads the positions off here — the engine
/// itself stays a pure function with no logging side channel.
#[verifier::loop_isolation(false)]
pub fn malformed_edit_positions(entries: &Vec<TreeEdit>) -> (r: Vec<usize>)
    ensures
        forall|j: int|
            0 <= j < r@.len() ==> (#[trigger] r@[j]) < entries@.len() && edits_view(
                entries@,
            )[r@[j] as int].path.len() == 0,
        forall|i: int|
            0 <= i < entries@.len() && (#[trigger] edits_view(entries@)[i]).path.len() == 0
                ==> r@.contains(i as usize),
        forall|j1: int, j2: int| 0 <= j1 < j2 < r@.len() ==> r@[j1] < r@[j2],
{
    let mut r: Vec<usize> = Vec::new();
    let mut i: usize = 0;
    while i < entries.len()
        invariant
            i <= entries@.len(),
            forall|j: int|
                0 <= j < r@.len() ==> (#[trigger] r@[j]) < i && edits_view(entries@)[r@[j] as int].path.len()
                    == 0,
            forall|k: int|
                0 <= k < i && (#[trigger] edits_view(entries@)[k]).path.len() == 0 ==> r@.contains(
                    k as usize,
                ),
            forall|j1: int, j2: int| 0 <= j1 < j2 < r@.len() ==> r@[j1] < r@[j2],
        decreases entries.len() - i,
    {
        if entries[i].path.len() == 0 {
            let ghost r0 = r@;
            r.push(i);
            proof {
                assert forall|k: int|
                    0 <= k < i + 1 && (#[trigger] edits_view(entries@)[k]).path.len() == 0
                        implies r@.contains(k as usize) by {
                    if k < i {
                        assert(r0.contains(k as usize));
                        let j = choose|j: int| 0 <= j < r0.len() && r0[j] == k as usize;
                        assert(r@[j] == k as usize);
                    } else {
                        assert(r@[r@.len() - 1] == k as usize);
                    }
                }
            }
        }
        i += 1;
    }
    r
}

/// The entry map hydration starts from: the given tree's, or the
/// empty tree's when none is given.
pub open spec fn base_map_of(tree: Option<&Tree>) -> TreeMapV {
    match tree {
        Some(t) => t.map_view(),
        None => empty_tree_map(),
    }
}

/// Applies the batch `entries` to `tree` — to the empty tree when
/// `tree` is absent — and returns the id of the newly built tree.
///
/// An edit maps a relative path either to a new `(id, mode)` value,
/// which is inserted or overwritten, or to a deletion; deleting an
/// absent path changes nothing, intermediate directories that do not
/// exist yet are created, and a directory emptied by its deletions
/// loses its own entry in turn. Edits whose path has no segments are
/// skipped. The base tree is never mutated: every changed directory
/// becomes a brand-new stored tree.
///
/// The exact result is promised for every batch whose tree-typed edit
/// values resolve when the call starts ([`edit_oids_in`]) — which
/// every batch built by reading ids out of this store satisfies. A
/// tree-typed value the store does not resolve is hydrated as an
/// absent base (deeper edits of the same name rebuild the subtree
/// from nothing), and, where it survives into the written tree, the
/// store's strict validation rejects it; but since nested subtrees
/// are written while the batch runs, such a dangling id could start
/// to resolve halfway through, so no single-snapshot result can be
/// pinned for those batches. Whatever the batch, the store only
/// grows, stays well formed, and resolves a returned id.
pub fn hydrate_tree(store: &mut Store, tree: Option<&Tree>, entries: &Vec<TreeEdit>) -> (r: Result<
    Oid,
    TreeError,
>)
    requires
        store_wf(old(store)@),
        tree matches Some(t) ==> t.in_store(old(store)@),
    ensures
        store_wf(final(store)@),
        store_le(old(store)@, final(store)@),
        r matches Ok(h) ==> final(store)@.trees.dom().contains(h@),
        edit_oids_in(edits_view(entries@), old(store)@) ==> (r matches Ok(h) ==> ({
            let m = apply_edits(old(store)@, base_map_of(tree), edits_view(entries@));
            &&& h@ == tree_hash(m)
            &&& final(store)@.trees[h@] == m
        })),
{
    let base_entries = match tree {
        Some(t) => duplicate_entries(&t.entries),
        None => Vec::new(),
    };
    proof {
        match tree {
            Some(t) => {
                assert(entry_map(entries_view(base_entries@)) == base_map_of(tree));
                lemma_store_tree_anchored(store@, t.oid@);
            },
            None => {
                assert(entries_view(base_entries@) =~= Seq::<EntryV>::empty());
                assert(entry_map(entries_view(base_entries@)) =~= empty_tree_map());
            },
        }
    }
    hydrate_level(store, base_entries, entries)
}

/// Builds (or finds) the canonical empty tree: hydrating no base with
/// no edits. Content addressing takes every call to the same id.
pub fn make_empty_tree(store: &mut Store) -> (r: Result<Tree, TreeError>)
    requires
        store_wf(old(store)@),
    ensures
        store_wf(final(store)@),
        store_le(old(store)@, final(store)@),
        r matches Ok(t) ==> t.map_view() == empty_tree_map() && t.oid@ == tree_hash(
            empty_tree_map(),
        ) && t.in_store(final(store)@),
{
    let edits: Vec<TreeEdit> = Vec::new();
    proof {
        assert(edits_view(edits@) =~= Seq::<EditV>::empty());
        assert(edit_oids_in(edits_view(edits@), store@));
    }
    let oid = match hydrate_tree(store, None, &edits) {
        Ok(oid) => oid,
        Err(e) => {
            return Err(e);
        },
    };
    match store.find_tree(&oid) {
        Some(t) => Ok(t),
        None => {
            proof {
                assert(false);
            }
            Err(TreeError::NotFound(oid))
        },
    }
}

/// Projects `tree` down to the requested paths: each is looked up in
/// `tree`, found ones keep their `(id, mode)` pair, missing ones are
/// recorded as explicitly absent, and the resulting batch hydrates an
/// empty base. The new tree holds only the requested paths, under
/// whatever intermediate directories they need.
#[verifier::loop_isolation(false)]
pub fn dehydrate_tree(store: &mut Store, tree: &Tree, paths: &Vec<Vec<Vec<u8>>>) -> (r: Result<
    Oid,
    TreeError,
>)
    requires
        store_wf(old(store)@),
        tree.in_store(old(store)@),
    ensures
        store_wf(final(store)@),
        store_le(old(store)@, final(store)@),
        r matches Ok(h) ==> ({
            let m = apply_edits(
                old(store)@,
                empty_tree_map(),
                dehydrate_edits(old(store)@, tree.map_view(), paths_view(paths@)),
            );
            &&& h@ == tree_hash(m)
            &&& final(store)@.trees.dom().contains(h@)
            &&& final(store)@.trees[h@] == m
        }),
{
    let ghost s0 = store@;
    let ghost pvs = paths_view(paths@);
    let ghost target = dehydrate_edits(s0, tree.map_view(), pvs);
    proof {
        lemma_store_tree_entries_ok(s0, tree.oid@);
    }
    let mut edits: Vec<TreeEdit> = Vec::new();
    let mut i: usize = 0;
    proof {
        assert(edits_view(edits@) =~= target.take(0));
    }
    while i < paths.len()
        invariant
            i <= paths@.len(),
            edits_view(edits@) == target.take(i as int),
        decreases paths.len() - i,
    {
        let ghost pv = pvs[i as int];
        proof {
            assert(pv == path_view(paths@[i as int]@));
            assert(target[i as int] == EditV {
                path: pv,
                val: node_at(s0, Some(tree.map_view()), pv),
            });
            lemma_node_at_wf(s0, tree.map_view(), pv);
        }
        let value = match tree.get_path(store, &paths[i]) {
            Some(entry) => {
                proof {
                    assert(FileMode::from_raw_spec(entry@.mode).raw() == entry@.mode);
                }
                Some((entry.oid, FileMode::from_raw(entry.mode)))
            },
            None => None,
        };
        let edit = TreeEdit { path: clone_path(&paths[i]), value };
        proof {
            assert(edit@ == target[i as int]);
            assert(target.take(i as int + 1) =~= target.take(i as int).push(target[i as int]));
            assert(edits_view(edits@.push(edit)) =~= edits_view(edits@).push(edit@));
        }
        edits.push(edit);
        i += 1;
    }
    proof {
        assert(target.take(paths@.len() as int) =~= target);
        assert(edit_oids_in(target, s0)) by {
            assert forall|j: int| 0 <= j < target.len() implies edit_val_ok(
                (#[trigger] target[j]).val,
                s0,
            ) by {
                lemma_node_at_wf(s0, tree.map_view(), pvs[j]);
            }
        }
    }
    hydrate_tree(store, None, &edits)
}

} // verus!
