//! The diff engine: the set of paths whose entries differ between two
//! tree snapshots.
//!
//! The comparison walks both trees one directory level at a time,
//! classifying what each side holds under every name and recursing
//! into nested trees. Two subtrees sharing an id are pruned without
//! descending: under content addressing they are the same tree. The
//! result holds every relative path whose `(id, mode)` pair differs
//! between the sides or which a single side holds, directories
//! themselves standing for their contents rather than being listed.

use vstd::prelude::*;

use crate::bytes::clone_bytes;
use crate::entry::{
    clone_path, entries_view, find_entry, path_view, paths_view, TreeEntry,
};
use crate::model::{
    changed_sig, distinct_names, empty_tree_map, entry_map, is_tree_mode, item_of,
    lemma_changed_head, lemma_changed_none, lemma_changed_same, lemma_entry_map_absent,
    lemma_entry_map_dom, lemma_entry_map_index, lemma_node_at_none_empty, lemma_node_at_step,
    lemma_node_at_unit, node_at, pair_changed, resolve_opt, EntryV, StoreV, TreeMapV, MODE_TREE,
};
use crate::oid::Oid;
use crate::store::{entry_accepted, oid_rank, store_wf, tree_wf_in, Store, TreeError};
use crate::tree::Tree;

verus! {

/// One side of a comparison: a duplicate-free entry list whose
/// tree-typed entries resolve in the store, strictly below the given
/// height.
pub open spec fn side_ok(s: StoreV, es: Seq<EntryV>, rank: nat) -> bool {
    &&& distinct_names(es)
    &&& forall|i: int|
        0 <= i < es.len() && is_tree_mode((#[trigger] es[i]).mode) ==> s.trees.dom().contains(
            es[i].oid,
        ) && oid_rank(es[i].oid) < rank
}

/// A store tree's entries are a valid side at the tree's own height.
proof fn lemma_store_tree_side_ok(s: StoreV, o: Seq<u8>, es: Seq<EntryV>)
    requires
        store_wf(s),
        s.trees.dom().contains(o),
        distinct_names(es),
        entry_map(es) == s.trees[o],
    ensures
        side_ok(s, es, oid_rank(o)),
{
    assert(tree_wf_in(s, o));
    assert forall|i: int|
        0 <= i < es.len() && is_tree_mode((#[trigger] es[i]).mode) implies s.trees.dom().contains(
        es[i].oid,
    ) && oid_rank(es[i].oid) < oid_rank(o) by {
        lemma_entry_map_index(es, i);
        assert(entry_accepted(
            s,
            EntryV { name: es[i].name, oid: s.trees[o][es[i].name].0, mode: s.trees[o][es[i].name].1 },
            o,
        ));
    }
}

/// One path a level added: it extends the prefix, and the suffix is a
/// changed path between the level's two trees.
pub open spec fn added_entry_ok(
    s: StoreV,
    lm: TreeMapV,
    rm: TreeMapV,
    prefix: Seq<Seq<u8>>,
    q: Seq<Seq<u8>>,
) -> bool {
    &&& q.len() > prefix.len()
    &&& q.take(prefix.len() as int) == prefix
    &&& pair_changed(s, Some(lm), Some(rm), q.skip(prefix.len() as int))
}

/// What one level of the walk does to the accumulator: it keeps what
/// was there, and appends exactly the changed paths between its two
/// trees — each one once, each prefixed by the level's own path.
pub open spec fn added_ok(
    s: StoreV,
    lm: TreeMapV,
    rm: TreeMapV,
    prefix: Seq<Seq<u8>>,
    pre: Seq<Seq<Seq<u8>>>,
    post: Seq<Seq<Seq<u8>>>,
) -> bool {
    &&& post.len() >= pre.len()
    &&& forall|j: int| 0 <= j < pre.len() ==> post[j] == pre[j]
    &&& forall|j: int|
        pre.len() <= j < post.len() ==> added_entry_ok(s, lm, rm, prefix, #[trigger] post[j])
    &&& forall|j1: int, j2: int| pre.len() <= j1 < j2 < post.len() ==> post[j1] != post[j2]
    &&& forall|p: Seq<Seq<u8>>|
        #[trigger] pair_changed(s, Some(lm), Some(rm), p) ==> exists|j: int|
            pre.len() <= j < post.len() && post[j] == prefix + p
}

/// A path through the head entry `n` changes exactly when its rest
/// changes between whatever the two entries resolve to.
proof fn lemma_suffix_transfer(
    s: StoreV,
    lm: TreeMapV,
    rm: TreeMapV,
    n: Seq<u8>,
    cl: Option<TreeMapV>,
    cr: Option<TreeMapV>,
    rest: Seq<Seq<u8>>,
)
    requires
        rest.len() >= 1,
        resolve_opt(s, item_of(Some(lm), n)) == cl,
        resolve_opt(s, item_of(Some(rm), n)) == cr,
    ensures
        pair_changed(s, Some(lm), Some(rm), seq![n] + rest) == pair_changed(s, cl, cr, rest),
{
    let p = seq![n] + rest;
    assert(p.len() >= 2);
    assert(p[0] == n);
    assert(p.subrange(1, p.len() as int) =~= rest);
    lemma_node_at_step(s, Some(lm), p);
    lemma_node_at_step(s, Some(rm), p);
}

/// The empty tree on the right compares like an absent one.
proof fn lemma_changed_empty_right(s: StoreV, t: Option<TreeMapV>, p: Seq<Seq<u8>>)
    ensures
        pair_changed(s, t, Some(empty_tree_map()), p) == pair_changed(s, t, None, p),
{
    lemma_node_at_none_empty(s, p);
}

/// The empty tree on the left compares like an absent one.
proof fn lemma_changed_empty_left(s: StoreV, t: Option<TreeMapV>, p: Seq<Seq<u8>>)
    ensures
        pair_changed(s, Some(empty_tree_map()), t, p) == pair_changed(s, None, t, p),
{
    lemma_node_at_none_empty(s, p);
}

/// Gluing the head segment back onto a path's tail commutes with
/// prefixing.
proof fn lemma_prefix_assoc(pfx: Seq<Seq<u8>>, n: Seq<u8>, p: Seq<Seq<u8>>)
    requires
        p.len() >= 1,
        p[0] == n,
    ensures
        pfx.push(n) + p.skip(1) == pfx + p,
{
    assert(pfx.push(n) + p.skip(1) =~= pfx + p);
}

/// Copies a path and appends one more segment.
fn append_segment(prefix: &Vec<Vec<u8>>, name: &Vec<u8>) -> (r: Vec<Vec<u8>>)
    ensures
        path_view(r@) == path_view(prefix@).push(name@),
{
    let mut r = clone_path(prefix);
    r.push(clone_bytes(name));
    proof {
        assert(path_view(r@) =~= path_view(prefix@).push(name@));
    }
    r
}

/// Handles one name of the union: given what each side holds there
/// (already classified), records the name's own path if the entries
/// differ, and recurses into whichever sides are nested trees.
///
/// Returns with the accumulator extended by exactly the changed paths
/// whose first segment is `n`.
#[verifier::loop_isolation(false)]
#[verifier::rlimit(100)]
fn diff_one_name(
    store: &Store,
    acc: &mut Vec<Vec<Vec<u8>>>,
    prefix: &Vec<Vec<u8>>,
    name: &Vec<u8>,
    a: Option<(Oid, u32)>,
    b: Option<(Oid, u32)>,
    Ghost(lm): Ghost<TreeMapV>,
    Ghost(rm): Ghost<TreeMapV>,
    Ghost(lrank): Ghost<nat>,
    Ghost(rrank): Ghost<nat>,
) -> (res: Result<(), TreeError>)
    requires
        store_wf(store@),
        item_of(Some(lm), name@) == match a {
            Some((o, m)) => Some((o@, m)),
            None => None::<(Seq<u8>, u32)>,
        },
        item_of(Some(rm), name@) == match b {
            Some((o, m)) => Some((o@, m)),
            None => None::<(Seq<u8>, u32)>,
        },
        match a {
            Some((o, m)) => is_tree_mode(m) ==> store@.trees.dom().contains(o@) && oid_rank(o@)
                < lrank,
            None => true,
        },
        match b {
            Some((o, m)) => is_tree_mode(m) ==> store@.trees.dom().contains(o@) && oid_rank(o@)
                < rrank,
            None => true,
        },
        a is Some || b is Some,
    ensures
        res is Ok,
        res is Ok ==> ({
            let pre = paths_view(old(acc)@);
            let post = paths_view(final(acc)@);
            let pfx = path_view(prefix@);
            &&& post.len() >= pre.len()
            &&& forall|j: int| 0 <= j < pre.len() ==> post[j] == pre[j]
            &&& forall|j: int|
                pre.len() <= j < post.len() ==> added_entry_ok(store@, lm, rm, pfx, #[trigger] post[j])
                    && post[j][pfx.len() as int] == name@
            &&& forall|j1: int, j2: int| pre.len() <= j1 < j2 < post.len() ==> post[j1] != post[j2]
            &&& forall|p: Seq<Seq<u8>>|
                #[trigger] pair_changed(store@, Some(lm), Some(rm), p) && p[0] == name@
                    ==> exists|j: int| pre.len() <= j < post.len() && post[j] == pfx + p
        }),
    decreases lrank + rrank, 0nat,
{
    let ghost s = store@;
    let ghost n = name@;
    let ghost pfx = path_view(prefix@);
    let ghost pre = paths_view(acc@);
    let ghost ia = item_of(Some(lm), n);
    let ghost ib = item_of(Some(rm), n);
    let a_tree = match &a {
        Some((_, m)) => *m == MODE_TREE,
        None => false,
    };
    let b_tree = match &b {
        Some((_, m)) => *m == MODE_TREE,
        None => false,
    };
    if !a_tree && !b_tree {
        // neither side nests a tree here: compare the entries themselves
        let differs = match (&a, &b) {
            (Some((ao, am)), Some((bo, bm))) => !ao.same_as(bo) || *am != *bm,
            (None, None) => false,
            _ => true,
        };
        proof {
            assert(resolve_opt(s, ia) is None);
            assert(resolve_opt(s, ib) is None);
            assert(differs == changed_sig(ia, ib));
        }
        if differs {
            let q = append_segment(prefix, name);
            let ghost qv = path_view(q@);
            proof {
                lemma_node_at_unit(s, Some(lm), seq![n]);
                lemma_node_at_unit(s, Some(rm), seq![n]);
                assert(pair_changed(s, Some(lm), Some(rm), seq![n]));
                assert(qv.take(pfx.len() as int) =~= pfx);
                assert(qv.skip(pfx.len() as int) =~= seq![n]);
            }
            acc.push(q);
            proof {
                assert(paths_view(acc@) =~= pre.push(qv));
            }
        }
        proof {
            assert forall|p: Seq<Seq<u8>>|
                #[trigger] pair_changed(s, Some(lm), Some(rm), p) && p[0] == n implies exists|j: int|
                pre.len() <= j < paths_view(acc@).len() && paths_view(acc@)[j] == pfx + p by {
                if p.len() == 1 {
                    lemma_node_at_unit(s, Some(lm), p);
                    lemma_node_at_unit(s, Some(rm), p);
                    assert(p =~= seq![n]);
                    assert(differs);
                    let j = pre.len() as int;
                    assert(paths_view(acc@)[j] == pfx.push(n));
                    assert(pfx + p =~= pfx.push(n));
                } else {
                    assert(p =~= seq![n] + p.skip(1));
                    lemma_suffix_transfer(s, lm, rm, n, None, None, p.skip(1));
                    lemma_changed_none(s, p.skip(1));
                    assert(false);
                }
            }
        }
        Ok(())
    } else {
        // at least one side nests a tree: load the nested trees and
        // recurse, pruning when both sides share one id
        let mut same_tree = false;
        if a_tree && b_tree {
            match (&a, &b) {
                (Some((ao, _)), Some((bo, _))) => {
                    same_tree = ao.same_as(bo);
                },
                _ => (),
            }
        }
        if same_tree {
            proof {
                assert(resolve_opt(s, ia) == resolve_opt(s, ib));
                assert(changed_sig(ia, ib) == false);
                assert forall|p: Seq<Seq<u8>>|
                    #[trigger] pair_changed(s, Some(lm), Some(rm), p) && p[0] == n implies exists|
                    j: int,
                |
                    pre.len() <= j < paths_view(acc@).len() && paths_view(acc@)[j] == pfx + p by {
                    if p.len() == 1 {
                        lemma_node_at_unit(s, Some(lm), p);
                        lemma_node_at_unit(s, Some(rm), p);
                        assert(p =~= seq![n]);
                        assert(false);
                    } else {
                        assert(p =~= seq![n] + p.skip(1));
                        lemma_suffix_transfer(s, lm, rm, n, resolve_opt(s, ia), resolve_opt(s, ia), p.skip(1));
                        lemma_changed_same(s, resolve_opt(s, ia), p.skip(1));
                        assert(false);
                    }
                }
            }
            return Ok(());
        }
        // load each side's nested tree, or stand in an empty list
        let empty_l: Vec<TreeEntry> = Vec::new();
        let empty_r: Vec<TreeEntry> = Vec::new();
        proof {
            assert(entries_view(empty_l@) =~= Seq::<EntryV>::empty());
            assert(entries_view(empty_r@) =~= Seq::<EntryV>::empty());
            assert(entry_map(entries_view(empty_l@)) =~= empty_tree_map());
        }
        let (l_sub, ghost_lsub_rank): (Vec<TreeEntry>, Ghost<nat>) = if a_tree {
            let o = match &a {
                Some((o, _)) => o.duplicate(),
                None => {
                    proof {
                        assert(false);
                    }
                    Oid::from_bytes(Vec::new())
                },
            };
            match store.find_tree(&o) {
                Some(t) => {
                    proof {
                        lemma_store_tree_side_ok(s, o@, entries_view(t.entries@));
                    }
                    let ghost rk = oid_rank(o@);
                    (t.entries, Ghost(rk))
                },
                None => {
                    proof {
                        assert(false);
                    }
                    return Err(TreeError::NotFound(o));
                },
            }
        } else {
            (empty_l, Ghost(0nat))
        };
        let (r_sub, ghost_rsub_rank): (Vec<TreeEntry>, Ghost<nat>) = if b_tree {
            let o = match &b {
                Some((o, _)) => o.duplicate(),
                None => {
                    proof {
                        assert(false);
                    }
                    Oid::from_bytes(Vec::new())
                },
            };
            match store.find_tree(&o) {
                Some(t) => {
                    proof {
                        lemma_store_tree_side_ok(s, o@, entries_view(t.entries@));
                    }
                    let ghost rk = oid_rank(o@);
                    (t.entries, Ghost(rk))
                },
                None => {
                    proof {
                        assert(false);
                    }
                    return Err(TreeError::NotFound(o));
                },
            }
        } else {
            (empty_r, Ghost(0nat))
        };
        let ghost clm = entry_map(entries_view(l_sub@));
        let ghost crm = entry_map(entries_view(r_sub@));
        proof {
            if a_tree {
                assert(resolve_opt(s, ia) == Some(clm));
            } else {
                assert(resolve_opt(s, ia) is None);
                assert(clm == empty_tree_map());
            }
            if b_tree {
                assert(resolve_opt(s, ib) == Some(crm));
            } else {
                assert(resolve_opt(s, ib) is None);
                assert(crm == empty_tree_map());
            }
        }
        let child_prefix = append_segment(prefix, name);
        let ghost cpfx = path_view(child_prefix@);
        match diff_inner(
            store,
            acc,
            &child_prefix,
            &l_sub,
            &r_sub,
            ghost_lsub_rank,
            ghost_rsub_rank,
        ) {
            Ok(()) => (),
            Err(e) => {
                return Err(e);
            },
        }
        let ghost mid = paths_view(acc@);
        // a file facing a directory is itself a change; record it
        let push_self = (a_tree && b.is_some() && !b_tree) || (b_tree && a.is_some() && !a_tree);
        proof {
            lemma_node_at_unit(s, Some(lm), seq![n]);
            lemma_node_at_unit(s, Some(rm), seq![n]);
            assert(push_self == changed_sig(ia, ib));
        }
        if push_self {
            let q = append_segment(prefix, name);
            let ghost qv = path_view(q@);
            proof {
                assert(pair_changed(s, Some(lm), Some(rm), seq![n]));
                assert(qv.take(pfx.len() as int) =~= pfx);
                assert(qv.skip(pfx.len() as int) =~= seq![n]);
                // the recursion only added strictly longer paths
                assert forall|j: int| pre.len() <= j < mid.len() implies mid[j] != qv by {
                    assert(mid[j].len() > cpfx.len());
                }
            }
            acc.push(q);
            proof {
                assert(paths_view(acc@) =~= mid.push(qv));
            }
        }
        proof {
            let post = paths_view(acc@);
            // each changed suffix through n transfers to the child pair
            assert forall|p: Seq<Seq<u8>>|
                #[trigger] pair_changed(s, Some(lm), Some(rm), p) && p[0] == n implies exists|j: int|
                pre.len() <= j < post.len() && post[j] == pfx + p by {
                if p.len() == 1 {
                    assert(p =~= seq![n]);
                    assert(push_self);
                    let j = mid.len() as int;
                    assert(post[j] == pfx.push(n));
                    assert(pfx + p =~= pfx.push(n));
                } else {
                    assert(p =~= seq![n] + p.skip(1));
                    lemma_suffix_transfer(s, lm, rm, n, resolve_opt(s, ia), resolve_opt(s, ib), p.skip(1));
                    if !a_tree {
                        lemma_changed_empty_left(s, resolve_opt(s, ib), p.skip(1));
                    }
                    if !b_tree {
                        lemma_changed_empty_right(s, Some(clm), p.skip(1));
                    }
                    assert(pair_changed(s, Some(clm), Some(crm), p.skip(1)));
                    let j = choose|j: int|
                        pre.len() <= j < mid.len() && mid[j] == cpfx + p.skip(1);
                    assert(post[j] == cpfx + p.skip(1));
                    lemma_prefix_assoc(pfx, n, p);
                }
            }
            // and each added path is a changed path through n
            assert forall|j: int| pre.len() <= j < post.len() implies added_entry_ok(
                s,
                lm,
                rm,
                pfx,
                #[trigger] post[j],
            ) && post[j][pfx.len() as int] == n by {
                if j < mid.len() {
                    let q = post[j];
                    assert(added_entry_ok(s, clm, crm, cpfx, q));
                    let rest = q.skip(cpfx.len() as int);
                    assert(q.take(cpfx.len() as int) == cpfx);
                    assert(q.take(pfx.len() as int) =~= pfx);
                    assert(cpfx[pfx.len() as int] == n);
                    assert(q.take(cpfx.len() as int)[pfx.len() as int] == q[pfx.len() as int]);
                    assert(q[pfx.len() as int] == n);
                    assert(q.skip(pfx.len() as int) =~= seq![n] + rest);
                    lemma_suffix_transfer(s, lm, rm, n, resolve_opt(s, ia), resolve_opt(s, ib), rest);
                    if !a_tree {
                        lemma_changed_empty_left(s, resolve_opt(s, ib), rest);
                    }
                    if !b_tree {
                        lemma_changed_empty_right(s, Some(clm), rest);
                    }
                } else {
                    assert(post[j] == pfx.push(n));
                    assert(post[j].take(pfx.len() as int) =~= pfx);
                    assert(post[j].skip(pfx.len() as int) =~= seq![n]);
                }
            }
        }
        Ok(())
    }
}

/// Walks two entry lists (either may stand for an absent tree) and
/// appends every changed path below `prefix` to the accumulator.
#[verifier::loop_isolation(false)]
fn diff_inner(
    store: &Store,
    acc: &mut Vec<Vec<Vec<u8>>>,
    prefix: &Vec<Vec<u8>>,
    l: &Vec<TreeEntry>,
    r: &Vec<TreeEntry>,
    Ghost(lrank): Ghost<nat>,
    Ghost(rrank): Ghost<nat>,
) -> (res: Result<(), TreeError>)
    requires
        store_wf(store@),
        side_ok(store@, entries_view(l@), lrank),
        side_ok(store@, entries_view(r@), rrank),
    ensures
        res is Ok,
        res is Ok ==> added_ok(
            store@,
            entry_map(entries_view(l@)),
            entry_map(entries_view(r@)),
            path_view(prefix@),
            paths_view(old(acc)@),
            paths_view(final(acc)@),
        ),
    decreases lrank + rrank, 1nat,
{
    let ghost s = store@;
    let ghost lv = entries_view(l@);
    let ghost rv = entries_view(r@);
    let ghost lm = entry_map(lv);
    let ghost rm = entry_map(rv);
    let ghost pfx = path_view(prefix@);
    let ghost pre = paths_view(acc@);
    let mut i: usize = 0;
    while i < l.len()
        invariant
            i <= l@.len(),
            paths_view(acc@).len() >= pre.len(),
            forall|j: int| 0 <= j < pre.len() ==> paths_view(acc@)[j] == pre[j],
            forall|j: int|
                pre.len() <= j < paths_view(acc@).len() ==> added_entry_ok(
                    s,
                    lm,
                    rm,
                    pfx,
                    #[trigger] paths_view(acc@)[j],
                ),
            forall|j: int|
                pre.len() <= j < paths_view(acc@).len() ==> exists|jj: int|
                    0 <= jj < i && (#[trigger] paths_view(acc@)[j])[pfx.len() as int] == lv[jj].name,
            forall|j1: int, j2: int|
                pre.len() <= j1 < j2 < paths_view(acc@).len() ==> paths_view(acc@)[j1]
                    != paths_view(acc@)[j2],
            forall|p: Seq<Seq<u8>>|
                #[trigger] pair_changed(s, Some(lm), Some(rm), p) && (exists|jj: int|
                    0 <= jj < i && (#[trigger] lv[jj]).name == p[0]) ==> exists|j: int|
                    pre.len() <= j < paths_view(acc@).len() && paths_view(acc@)[j] == pfx + p,
        decreases l@.len() - i,
    {
        let ghost cur = paths_view(acc@);
        let ghost n = lv[i as int].name;
        proof {
            lemma_entry_map_index(lv, i as int);
        }
        let a = Some((l[i].get_oid(), l[i].mode));
        let b: Option<(Oid, u32)> = match find_entry(r, &l[i].name) {
            Some(j) => {
                proof {
                    lemma_entry_map_index(rv, j as int);
                }
                Some((r[j].get_oid(), r[j].mode))
            },
            None => {
                proof {
                    lemma_entry_map_absent(rv, n);
                }
                None
            },
        };
        match diff_one_name(
            store,
            acc,
            prefix,
            &l[i].name,
            a,
            b,
            Ghost(lm),
            Ghost(rm),
            Ghost(lrank),
            Ghost(rrank),
        ) {
            Ok(()) => (),
            Err(e) => {
                return Err(e);
            },
        }
        proof {
            let post = paths_view(acc@);
            // paths for this name are fresh: earlier names differ
            assert forall|j1: int, j2: int|
                pre.len() <= j1 < j2 < post.len() implies post[j1] != post[j2] by {
                if j1 < cur.len() && j2 >= cur.len() {
                    let jj = choose|jj: int|
                        0 <= jj < i && (#[trigger] post[j1])[pfx.len() as int] == lv[jj].name;
                    assert(post[j2][pfx.len() as int] == n);
                    assert(lv[jj].name != n);
                }
            }
            assert forall|j: int|
                pre.len() <= j < post.len() implies exists|jj: int|
                0 <= jj < i + 1 && (#[trigger] post[j])[pfx.len() as int] == lv[jj].name by {
                if j < cur.len() {
                    let jj = choose|jj: int|
                        0 <= jj < i && (#[trigger] cur[j])[pfx.len() as int] == lv[jj].name;
                    assert(post[j][pfx.len() as int] == lv[jj].name);
                } else {
                    assert(post[j][pfx.len() as int] == lv[i as int].name);
                }
            }
            assert forall|p: Seq<Seq<u8>>|
                #[trigger] pair_changed(s, Some(lm), Some(rm), p) && (exists|jj: int|
                    0 <= jj < i + 1 && (#[trigger] lv[jj]).name == p[0]) implies exists|j: int|
                pre.len() <= j < post.len() && post[j] == pfx + p by {
                let jj = choose|jj: int| 0 <= jj < i + 1 && (#[trigger] lv[jj]).name == p[0];
                if jj < i {
                    let j = choose|j: int| pre.len() <= j < cur.len() && cur[j] == pfx + p;
                    assert(post[j] == pfx + p);
                } else {
                    assert(p[0] == n);
                }
            }
        }
        i += 1;
    }
    // names the right side alone holds
    let mut k: usize = 0;
    while k < r.len()
        invariant
            k <= r@.len(),
            paths_view(acc@).len() >= pre.len(),
            forall|j: int| 0 <= j < pre.len() ==> paths_view(acc@)[j] == pre[j],
            forall|j: int|
                pre.len() <= j < paths_view(acc@).len() ==> added_entry_ok(
                    s,
                    lm,
                    rm,
                    pfx,
                    #[trigger] paths_view(acc@)[j],
                ),
            forall|j: int|
                pre.len() <= j < paths_view(acc@).len() ==> (exists|jj: int|
                    0 <= jj < lv.len() && (#[trigger] paths_view(acc@)[j])[pfx.len() as int] == lv[jj].name)
                    || (exists|jj: int|
                    0 <= jj < k && (#[trigger] paths_view(acc@)[j])[pfx.len() as int] == rv[jj].name),
            forall|j1: int, j2: int|
                pre.len() <= j1 < j2 < paths_view(acc@).len() ==> paths_view(acc@)[j1]
                    != paths_view(acc@)[j2],
            forall|p: Seq<Seq<u8>>|
                #[trigger] pair_changed(s, Some(lm), Some(rm), p) && ((exists|jj: int|
                    0 <= jj < lv.len() && (#[trigger] lv[jj]).name == p[0]) || (exists|jj: int|
                    0 <= jj < k && (#[trigger] rv[jj]).name == p[0])) ==> exists|j: int|
                    pre.len() <= j < paths_view(acc@).len() && paths_view(acc@)[j] == pfx + p,
        decreases r@.len() - k,
    {
        let ghost cur = paths_view(acc@);
        let ghost n = rv[k as int].name;
        proof {
            lemma_entry_map_index(rv, k as int);
        }
        let skip_name = match find_entry(l, &r[k].name) {
            Some(idx) => {
                proof {
                    assert(entries_view(l@)[idx as int].name == n);
                }
                true
            },
            None => {
                proof {
                    lemma_entry_map_absent(lv, n);
                }
                false
            },
        };
        if !skip_name {
            let b = Some((r[k].get_oid(), r[k].mode));
            match diff_one_name(
                store,
                acc,
                prefix,
                &r[k].name,
                None,
                b,
                Ghost(lm),
                Ghost(rm),
                Ghost(lrank),
                Ghost(rrank),
            ) {
                Ok(()) => (),
                Err(e) => {
                    return Err(e);
                },
            }
        }
        proof {
            let post = paths_view(acc@);
            assert forall|j1: int, j2: int|
                pre.len() <= j1 < j2 < post.len() implies post[j1] != post[j2] by {
                if j1 < cur.len() && j2 >= cur.len() {
                    assert(post[j2][pfx.len() as int] == n);
                    if exists|jj: int|
                        0 <= jj < lv.len() && (#[trigger] cur[j1])[pfx.len() as int] == lv[jj].name {
                        let jj = choose|jj: int|
                            0 <= jj < lv.len() && (#[trigger] cur[j1])[pfx.len() as int] == lv[jj].name;
                        assert(lm.dom().contains(lv[jj].name)) by {
                            lemma_entry_map_index(lv, jj);
                        }
                        assert(lv[jj].name != n);
                    } else {
                        let jj = choose|jj: int|
                            0 <= jj < k && (#[trigger] cur[j1])[pfx.len() as int] == rv[jj].name;
                        assert(rv[jj].name != n);
                    }
                }
            }
            assert forall|j: int|
                pre.len() <= j < post.len() implies (exists|jj: int|
                0 <= jj < lv.len() && (#[trigger] post[j])[pfx.len() as int] == lv[jj].name) || (
            exists|jj: int|
                0 <= jj < k + 1 && (#[trigger] post[j])[pfx.len() as int] == rv[jj].name) by {
                if j >= cur.len() {
                    assert(post[j][pfx.len() as int] == rv[k as int].name);
                }
            }
            assert forall|p: Seq<Seq<u8>>|
                #[trigger] pair_changed(s, Some(lm), Some(rm), p) && ((exists|jj: int|
                    0 <= jj < lv.len() && (#[trigger] lv[jj]).name == p[0]) || (exists|jj: int|
                    0 <= jj < k + 1 && (#[trigger] rv[jj]).name == p[0])) implies exists|j: int|
                pre.len() <= j < post.len() && post[j] == pfx + p by {
                if exists|jj: int| 0 <= jj < lv.len() && (#[trigger] lv[jj]).name == p[0] {
                    let j = choose|j: int| pre.len() <= j < cur.len() && cur[j] == pfx + p;
                    assert(post[j] == pfx + p);
                } else {
                    let jj = choose|jj: int| 0 <= jj < k + 1 && (#[trigger] rv[jj]).name == p[0];
                    if jj < k {
                        let j = choose|j: int| pre.len() <= j < cur.len() && cur[j] == pfx + p;
                        assert(post[j] == pfx + p);
                    } else {
                        assert(p[0] == n);
                        if skip_name {
                            // the left side holds this name too, so the
                            // first pass already covered it
                            assert(lm.dom().contains(n));
                            lemma_entry_map_dom(lv, n);
                            assert(false);
                        }
                    }
                }
            }
        }
        k += 1;
    }
    proof {
        let post = paths_view(acc@);
        assert forall|p: Seq<Seq<u8>>|
            #[trigger] pair_changed(s, Some(lm), Some(rm), p) implies exists|j: int|
            pre.len() <= j < post.len() && post[j] == pfx + p by {
            lemma_changed_head(s, Some(lm), Some(rm), p);
            if item_of(Some(lm), p[0]) is Some {
                lemma_entry_map_dom(lv, p[0]);
            } else {
                lemma_entry_map_dom(rv, p[0]);
            }
        }
    }
    Ok(())
}

/// The tree map a comparison side stands for, when there is one.
pub open spec fn side_map(t: Option<&Tree>) -> Option<TreeMapV> {
    match t {
        Some(t) => Some(t.map_view()),
        None => None,
    }
}

/// A correct diff: it lists a path exactly when the path changed
/// between the sides, and lists nothing twice.
pub open spec fn diff_ok(
    s: StoreV,
    lhs: Option<TreeMapV>,
    rhs: Option<TreeMapV>,
    out: Seq<Seq<Seq<u8>>>,
) -> bool {
    &&& forall|j: int| 0 <= j < out.len() ==> pair_changed(s, lhs, rhs, #[trigger] out[j])
    &&& forall|p: Seq<Seq<u8>>| #[trigger] pair_changed(s, lhs, rhs, p) ==> out.contains(p)
    &&& forall|j1: int, j2: int| 0 <= j1 < j2 < out.len() ==> out[j1] != out[j2]
}

/// Compares two optional trees — an absent side stands for the empty
/// tree — and returns every relative path whose `(id, mode)` pair
/// differs between them or which only one side holds. Matching
/// subtree ids are pruned without descending; a directory's own path
/// is reported only where a file and a directory face each other,
/// never for the id drift that its changed contents already explain.
///
/// On a well-formed store the walk cannot fail: every tree a stored
/// entry references resolves there. The fallible signature is kept
/// for callers that treat an unresolvable reference as data
/// corruption.
#[verifier::loop_isolation(false)]
pub fn get_changed_paths_between_trees(
    store: &Store,
    lhs: Option<&Tree>,
    rhs: Option<&Tree>,
) -> (r: Result<Vec<Vec<Vec<u8>>>, TreeError>)
    requires
        store_wf(store@),
        lhs matches Some(t) ==> t.in_store(store@),
        rhs matches Some(t) ==> t.in_store(store@),
    ensures
        r is Ok,
        r matches Ok(v) ==> diff_ok(store@, side_map(lhs), side_map(rhs), paths_view(v@)),
{
    let ghost s = store@;
    let mut acc: Vec<Vec<Vec<u8>>> = Vec::new();
    let prefix: Vec<Vec<u8>> = Vec::new();
    let empty_l: Vec<TreeEntry> = Vec::new();
    let empty_r: Vec<TreeEntry> = Vec::new();
    proof {
        assert(entries_view(empty_l@) =~= Seq::<EntryV>::empty());
        assert(entries_view(empty_r@) =~= Seq::<EntryV>::empty());
        assert(entry_map(entries_view(empty_l@)) =~= empty_tree_map());
        assert(path_view(prefix@) =~= Seq::<Seq<u8>>::empty());
        assert(paths_view(acc@) =~= Seq::<Seq<Seq<u8>>>::empty());
    }
    let (l_entries, ghost_lrank): (&Vec<TreeEntry>, Ghost<nat>) = match lhs {
        Some(t) => {
            proof {
                lemma_store_tree_side_ok(s, t.oid@, entries_view(t.entries@));
            }
            let ghost rk = oid_rank(t.oid@);
            (&t.entries, Ghost(rk))
        },
        None => (&empty_l, Ghost(0nat)),
    };
    let (r_entries, ghost_rrank): (&Vec<TreeEntry>, Ghost<nat>) = match rhs {
        Some(t) => {
            proof {
                lemma_store_tree_side_ok(s, t.oid@, entries_view(t.entries@));
            }
            let ghost rk = oid_rank(t.oid@);
            (&t.entries, Ghost(rk))
        },
        None => (&empty_r, Ghost(0nat)),
    };
    let ghost lm = entry_map(entries_view(l_entries@));
    let ghost rm = entry_map(entries_view(r_entries@));
    match diff_inner(store, &mut acc, &prefix, l_entries, r_entries, ghost_lrank, ghost_rrank) {
        Ok(()) => {
            proof {
                let out = paths_view(acc@);
                let ls = side_map(lhs);
                let rs = side_map(rhs);
                assert forall|p: Seq<Seq<u8>>|
                    pair_changed(s, Some(lm), Some(rm), p) == pair_changed(s, ls, rs, p) by {
                    if lhs is None {
                        lemma_changed_empty_left(s, Some(rm), p);
                        lemma_changed_empty_left(s, rs, p);
                    }
                    if rhs is None {
                        lemma_changed_empty_right(s, Some(lm), p);
                        lemma_changed_empty_right(s, ls, p);
                    }
                }
                assert forall|j: int| 0 <= j < out.len() implies pair_changed(
                    s,
                    ls,
                    rs,
                    #[trigger] out[j],
                ) by {
                    assert(added_entry_ok(s, lm, rm, Seq::empty(), out[j]));
                    assert(out[j].skip(0) =~= out[j]);
                }
                assert forall|p: Seq<Seq<u8>>| #[trigger] pair_changed(s, ls, rs, p) implies
                    out.contains(p) by {
                    assert(pair_changed(s, Some(lm), Some(rm), p));
                    let j = choose|j: int| 0 <= j < out.len() && out[j] == Seq::empty() + p;
                    assert(Seq::empty() + p =~= p);
                    assert(out[j] == p);
                }
            }
            Ok(acc)
        },
        Err(e) => Err(e),
    }
}

} // verus!
