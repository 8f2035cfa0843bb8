//! The engine's governing laws, proved once and for all over the
//! model: hydration with no edits is the identity, a tree rebuilt
//! from its own entries is the same tree, the diff lists exactly the
//! differing paths, emptied directories vanish, and distinct contents
//! never share an id.

use vstd::prelude::*;

use crate::model::{
    apply_edits, direct_edits, distinct_names, empty_tree_map, entry_map,
    fold_direct, group_fold, group_names, group_of, groups_of, is_tree_mode, map_item, node_at,
    pair_changed, resolve_dir_item, EditV, EntryV, StoreV, TreeMapV, MODE_TREE,
};
use crate::store::{store_wf, tree_hash, tree_wf_in};

verus! {

/// Hydrating any base with an empty batch gives the base back; for a
/// stored tree, content addressing then returns the tree's own id.
pub proof fn lemma_hydrate_identity(s: StoreV, base: TreeMapV)
    ensures
        apply_edits(s, base, Seq::empty()) == base,
{
}

/// For a tree the store resolves, the empty hydration's result hashes
/// back to the tree's own id.
pub proof fn lemma_hydrate_identity_oid(s: StoreV, o: Seq<u8>)
    requires
        store_wf(s),
        s.trees.dom().contains(o),
    ensures
        tree_hash(apply_edits(s, s.trees[o], Seq::empty())) == o,
{
    lemma_hydrate_identity(s, s.trees[o]);
    assert(tree_wf_in(s, o));
}

/// One single-segment upsert per entry of a list.
pub open spec fn entries_as_edits(es: Seq<EntryV>) -> Seq<EditV> {
    es.map_values(|e: EntryV| EditV { path: seq![e.name], val: Some((e.oid, e.mode)) })
}

/// A batch of single-segment edits has no buckets.
proof fn lemma_shallow_no_groups(es: Seq<EditV>)
    requires
        forall|i: int| 0 <= i < es.len() ==> (#[trigger] es[i].path.len()) <= 1,
    ensures
        group_names(es) == Seq::<Seq<u8>>::empty(),
    decreases es.len(),
{
    if es.len() > 0 {
        lemma_shallow_no_groups(es.drop_last());
        assert(es[es.len() - 1].path.len() <= 1);
    }
}

/// Round-trip: hydrating nothing with an upsert for every entry read
/// out of a tree rebuilds exactly that tree's entry map — and so,
/// under content addressing, a tree with the identical id.
pub proof fn lemma_hydrate_round_trip(s: StoreV, es: Seq<EntryV>)
    ensures
        apply_edits(s, empty_tree_map(), entries_as_edits(es)) == entry_map(es),
    decreases es.len(),
{
    let edits = entries_as_edits(es);
    assert forall|i: int| 0 <= i < edits.len() implies (#[trigger] edits[i].path.len()) <= 1 by {}
    lemma_shallow_no_groups(edits);
    lemma_fold_entries(s, es);
}

/// Folding the direct form of an entry list over the empty map is the
/// entry map itself.
proof fn lemma_fold_entries(s: StoreV, es: Seq<EntryV>)
    ensures
        fold_direct(empty_tree_map(), direct_edits(entries_as_edits(es))) == entry_map(es),
    decreases es.len(),
{
    let edits = entries_as_edits(es);
    if es.len() == 0 {
        assert(edits =~= Seq::<EditV>::empty());
    } else {
        lemma_fold_entries(s, es.drop_last());
        assert(edits.drop_last() =~= entries_as_edits(es.drop_last()));
        assert(edits.last() == EditV {
            path: seq![es.last().name],
            val: Some((es.last().oid, es.last().mode)),
        });
        let ds = direct_edits(edits);
        assert(ds =~= direct_edits(edits.drop_last()).push(
            (es.last().name, Some((es.last().oid, es.last().mode))),
        ));
        assert(ds.drop_last() =~= direct_edits(edits.drop_last()));
    }
}

/// For a round trip through the store, the rebuilt tree keeps the id.
pub proof fn lemma_hydrate_round_trip_oid(s: StoreV, o: Seq<u8>, es: Seq<EntryV>)
    requires
        store_wf(s),
        s.trees.dom().contains(o),
        entry_map(es) == s.trees[o],
    ensures
        tree_hash(apply_edits(s, empty_tree_map(), entries_as_edits(es))) == o,
{
    lemma_hydrate_round_trip(s, es);
    assert(tree_wf_in(s, o));
}

/// Diff exactness for non-directory paths: where neither side holds a
/// nested tree, a path is a changed path exactly when the `(id,
/// mode)` pairs found there differ — including a pair present on only
/// one side. (A path where a side holds a nested tree is reported
/// through the paths below it instead: two directories whose ids
/// alone differ are not themselves listed.)
pub proof fn lemma_diff_exact(
    s: StoreV,
    lhs: Option<TreeMapV>,
    rhs: Option<TreeMapV>,
    p: Seq<Seq<u8>>,
)
    requires
        p.len() >= 1,
        match node_at(s, lhs, p) {
            Some(item) => !is_tree_mode(item.1),
            None => true,
        },
        match node_at(s, rhs, p) {
            Some(item) => !is_tree_mode(item.1),
            None => true,
        },
    ensures
        pair_changed(s, lhs, rhs, p) == (node_at(s, lhs, p) != node_at(s, rhs, p)),
{
}

/// A mode-only change — same blob id, different file mode — at a path
/// is a changed path.
pub proof fn lemma_mode_change_detected(
    s: StoreV,
    lhs: Option<TreeMapV>,
    rhs: Option<TreeMapV>,
    p: Seq<Seq<u8>>,
    o: Seq<u8>,
    m1: u32,
    m2: u32,
)
    requires
        p.len() >= 1,
        node_at(s, lhs, p) == Some((o, m1)),
        node_at(s, rhs, p) == Some((o, m2)),
        m1 != m2,
        !is_tree_mode(m1),
        !is_tree_mode(m2),
    ensures
        pair_changed(s, lhs, rhs, p),
{
}

/// In a well-formed store, trees with different entries have
/// different ids: each id is the content hash of its entries.
pub proof fn lemma_distinct_trees(s: StoreV, o1: Seq<u8>, o2: Seq<u8>)
    requires
        store_wf(s),
        s.trees.dom().contains(o1),
        s.trees.dom().contains(o2),
        s.trees[o1] != s.trees[o2],
    ensures
        o1 != o2,
{
    assert(tree_wf_in(s, o1));
    assert(tree_wf_in(s, o2));
}

/// What a hydration leaves under a bucketed name: the name stays
/// exactly when the rebuilt subtree is nonempty, and then it points
/// at that subtree with the tree mode. No hydration ever writes an
/// entry naming an empty subtree.
pub proof fn lemma_apply_at_group_name(s: StoreV, base: TreeMapV, es: Seq<EditV>, k: int)
    requires
        0 <= k < group_names(es).len(),
    ensures
        ({
            let n = group_names(es)[k];
            let after = fold_direct(base, direct_edits(es));
            let sub = apply_edits(s, resolve_dir_item(s, map_item(after, n)), group_of(es, n));
            &&& apply_edits(s, base, es).dom().contains(n) == (sub != empty_tree_map())
            &&& sub != empty_tree_map() ==> apply_edits(s, base, es)[n] == (tree_hash(sub), MODE_TREE)
        }),
{
    let after = fold_direct(base, direct_edits(es));
    let gs = groups_of(es);
    crate::model::lemma_group_names_distinct(es);
    assert(gs[k] == (group_names(es)[k], group_of(es, group_names(es)[k])));
    lemma_group_fold_at(s, after, gs, k);
}

/// Locates one bucket's effect inside the bucket fold.
proof fn lemma_group_fold_at(s: StoreV, t: TreeMapV, gs: Seq<(Seq<u8>, Seq<EditV>)>, k: int)
    requires
        0 <= k < gs.len(),
        forall|i: int, j: int| 0 <= i < j < gs.len() ==> (#[trigger] gs[i]).0 != (#[trigger] gs[j]).0,
    ensures
        ({
            let n = gs[k].0;
            let sub = apply_edits(s, resolve_dir_item(s, map_item(t, n)), gs[k].1);
            &&& group_fold(s, t, gs).dom().contains(n) == (sub != empty_tree_map())
            &&& sub != empty_tree_map() ==> group_fold(s, t, gs)[n] == (tree_hash(sub), MODE_TREE)
        }),
    decreases gs.len(),
{
    let n = gs[k].0;
    let t1 = group_fold(s, t, gs.drop_last());
    if k == gs.len() - 1 {
        assert(gs[gs.len() - 1] == gs.last());
        assert forall|j: int| 0 <= j < gs.drop_last().len() implies (#[trigger] gs.drop_last()[j]).0
            != n by {
            assert(gs.drop_last()[j] == gs[j]);
        }
        crate::model::lemma_group_fold_frame(s, t, gs.drop_last(), n);
    } else {
        lemma_group_fold_at(s, t, gs.drop_last(), k);
        assert(gs.drop_last()[k] == gs[k]);
        assert(gs[gs.len() - 1] == gs.last());
        assert(gs.last().0 != n);
    }
}

/// Direct deletions only shrink a map: a key survives the fold
/// exactly when no deletion names it, deletions being all the batch
/// holds.
proof fn lemma_fold_remove_all(t: TreeMapV, ds: Seq<(Seq<u8>, Option<(Seq<u8>, u32)>)>, m: Seq<u8>)
    requires
        forall|i: int| 0 <= i < ds.len() ==> (#[trigger] ds[i]).1 is None,
    ensures
        fold_direct(t, ds).dom().contains(m) == (t.dom().contains(m) && forall|i: int|
            0 <= i < ds.len() ==> (#[trigger] ds[i]).0 != m),
    decreases ds.len(),
{
    if ds.len() > 0 {
        assert(ds[ds.len() - 1] == ds.last());
        assert forall|i: int| 0 <= i < ds.drop_last().len() implies (#[trigger] ds.drop_last()[i])
            == ds[i] && ds.drop_last()[i].1 is None by {
            assert(ds[i].1 is None);
        }
        lemma_fold_remove_all(t, ds.drop_last(), m);
        assert(ds[ds.len() - 1].1 is None);
        if fold_direct(t, ds).dom().contains(m) {
            assert(fold_direct(t, ds.drop_last()).dom().contains(m));
            assert forall|i: int| 0 <= i < ds.len() implies (#[trigger] ds[i]).0 != m by {
                if i < ds.len() - 1 {
                    assert(ds.drop_last()[i].0 != m);
                }
            }
        } else {
            if t.dom().contains(m) && forall|i: int|
                0 <= i < ds.len() ==> (#[trigger] ds[i]).0 != m {
                assert forall|i: int|
                    0 <= i < ds.drop_last().len() implies (#[trigger] ds.drop_last()[i]).0
                    != m by {
                    assert(ds[i].0 != m);
                }
                assert(fold_direct(t, ds.drop_last()).dom().contains(m));
                assert(false);
            }
        }
    }
}

/// Directory collapse: when a bucket deletes every entry of the
/// subtree it rebuilds (all its edits are single-segment deletions,
/// and they cover the base subtree's names), the directory's own
/// entry disappears from the hydrated tree.
pub proof fn lemma_directory_collapse(s: StoreV, base: TreeMapV, es: Seq<EditV>, k: int)
    requires
        0 <= k < group_names(es).len(),
        ({
            let n = group_names(es)[k];
            let g = group_of(es, n);
            &&& forall|i: int|
                0 <= i < g.len() ==> (#[trigger] g[i]).val is None && g[i].path.len() == 1
            &&& ({
                let after = fold_direct(base, direct_edits(es));
                forall|m: Seq<u8>|
                    #[trigger] resolve_dir_item(s, map_item(after, n)).dom().contains(m)
                        ==> exists|i: int| 0 <= i < g.len() && (#[trigger] g[i]).path[0] == m
            })
        }),
    ensures
        !apply_edits(s, base, es).dom().contains(group_names(es)[k]),
{
    let n = group_names(es)[k];
    let g = group_of(es, n);
    let after = fold_direct(base, direct_edits(es));
    let sub_base = resolve_dir_item(s, map_item(after, n));
    lemma_apply_at_group_name(s, base, es, k);
    assert forall|i: int| 0 <= i < g.len() implies (#[trigger] g[i].path.len()) <= 1 by {}
    lemma_shallow_no_groups(g);
    let ds = direct_edits(g);
    lemma_direct_of_shallow(g);
    assert forall|i: int| 0 <= i < ds.len() implies (#[trigger] ds[i]).1 is None by {
        assert(ds[i] == (g[i].path[0], g[i].val));
    }
    assert forall|m: Seq<u8>| !(#[trigger] fold_direct(sub_base, ds).dom().contains(m)) by {
        lemma_fold_remove_all(sub_base, ds, m);
        if sub_base.dom().contains(m) {
            assert(resolve_dir_item(s, map_item(after, n)).dom().contains(m));
            assert(exists|i: int| 0 <= i < g.len() && (#[trigger] g[i]).path[0] == m);
            let i = choose|i: int| 0 <= i < g.len() && (#[trigger] g[i]).path[0] == m;
            assert(ds[i] == (g[i].path[0], g[i].val));
            assert(ds[i].0 == m);
        }
    }
    assert(apply_edits(s, sub_base, g) =~= empty_tree_map());
}

/// The direct form of a batch of single-segment edits lists them all,
/// in order.
proof fn lemma_direct_of_shallow(g: Seq<EditV>)
    requires
        forall|i: int| 0 <= i < g.len() ==> (#[trigger] g[i]).path.len() == 1,
    ensures
        direct_edits(g).len() == g.len(),
        forall|i: int| 0 <= i < g.len() ==> direct_edits(g)[i] == ((#[trigger] g[i]).path[0], g[i].val),
    decreases g.len(),
{
    if g.len() > 0 {
        assert(g[g.len() - 1] == g.last());
        assert forall|i: int| 0 <= i < g.drop_last().len() implies (#[trigger] g.drop_last()[i])
            == g[i] && g.drop_last()[i].path.len() == 1 by {
            assert(g[i].path.len() == 1);
        }
        lemma_direct_of_shallow(g.drop_last());
        assert(g[g.len() - 1].path.len() == 1);
        assert(direct_edits(g) =~= direct_edits(g.drop_last()).push(
            (g.last().path[0], g.last().val),
        ));
        assert forall|i: int| 0 <= i < g.len() implies direct_edits(g)[i] == ((
        #[trigger] g[i]).path[0], g[i].val) by {
            if i < g.len() - 1 {
                assert(direct_edits(g)[i] == direct_edits(g.drop_last())[i]);
                assert(direct_edits(g.drop_last())[i] == (g.drop_last()[i].path[0], g.drop_last()[i].val));
            }
        }
    }
}

/// One entry of a recursive reading of a stored tree: what was read
/// out of it. An entry that is not a nested tree keeps its `(id,
/// mode)` pair; a nested tree entry keeps its id together with the
/// reading of its own tree.
pub ghost enum ReadNode {
    Leaf(Seq<u8>, u32),
    Nested(Seq<u8>, Seq<(Seq<u8>, ReadNode)>),
}

/// The `(id, mode)` pair a read entry stands for in its parent.
pub open spec fn node_item(n: ReadNode) -> (Seq<u8>, u32) {
    match n {
        ReadNode::Leaf(o, m) => (o, m),
        ReadNode::Nested(o, _) => (o, MODE_TREE),
    }
}

/// The entry map a reading describes.
pub open spec fn read_map(items: Seq<(Seq<u8>, ReadNode)>) -> TreeMapV
    decreases items.len(),
{
    if items.len() == 0 {
        Map::empty()
    } else {
        read_map(items.drop_last()).insert(items.last().0, node_item(items.last().1))
    }
}

/// A faithful reading of depth at most `fuel`: names are unique,
/// leaves are not tree-typed, and every nested entry's id resolves in
/// the store to exactly the entry map its nonempty sub-reading
/// describes.
pub open spec fn read_ok(s: StoreV, items: Seq<(Seq<u8>, ReadNode)>, fuel: nat) -> bool
    decreases fuel, items.len(),
{
    if items.len() == 0 {
        true
    } else {
        &&& read_ok(s, items.drop_last(), fuel)
        &&& forall|j: int| 0 <= j < items.len() - 1 ==> (#[trigger] items[j]).0 != items.last().0
        &&& match items.last().1 {
            ReadNode::Leaf(o, m) => !is_tree_mode(m),
            ReadNode::Nested(o, sub) => if fuel == 0 {
                false
            } else {
                &&& s.trees.dom().contains(o)
                &&& s.trees[o] == read_map(sub)
                &&& sub.len() > 0
                &&& read_ok(s, sub, (fuel - 1) as nat)
            },
        }
    }
}

/// Every path of a batch, set behind one leading segment.
pub open spec fn prefix_paths(n: Seq<u8>, es: Seq<EditV>) -> Seq<EditV>
    decreases es.len(),
{
    if es.len() == 0 {
        Seq::empty()
    } else {
        prefix_paths(n, es.drop_last()).push(
            EditV { path: seq![n] + es.last().path, val: es.last().val },
        )
    }
}

/// The edit batch that reads a tree leaf by leaf: one upsert per leaf
/// path, in reading order.
pub open spec fn leaf_edits(items: Seq<(Seq<u8>, ReadNode)>, fuel: nat) -> Seq<EditV>
    decreases fuel, items.len(),
{
    if items.len() == 0 {
        Seq::empty()
    } else {
        leaf_edits(items.drop_last(), fuel) + (match items.last().1 {
            ReadNode::Leaf(o, m) => seq![
                EditV { path: seq![items.last().0], val: Some((o, m)) },
            ],
            ReadNode::Nested(o, sub) => if fuel == 0 {
                Seq::empty()
            } else {
                prefix_paths(items.last().0, leaf_edits(sub, (fuel - 1) as nat))
            },
        })
    }
}

/// Names never repeat inside a faithful reading.
proof fn lemma_read_ok_distinct(s: StoreV, items: Seq<(Seq<u8>, ReadNode)>, fuel: nat)
    requires
        read_ok(s, items, fuel),
    ensures
        forall|i: int, j: int| 0 <= i < j < items.len() ==> (#[trigger] items[i]).0 != (#[trigger] items[j]).0,
    decreases items.len(),
{
    if items.len() > 0 {
        lemma_read_ok_distinct(s, items.drop_last(), fuel);
        assert forall|i: int, j: int|
            0 <= i < j < items.len() implies (#[trigger] items[i]).0 != (#[trigger] items[j]).0 by {
            if j < items.len() - 1 {
                assert(items.drop_last()[i] == items[i]);
                assert(items.drop_last()[j] == items[j]);
            } else {
                assert(items[j] == items.last());
            }
        }
    }
}

/// What a faithful reading guarantees of one of its entries.
proof fn lemma_read_ok_at(s: StoreV, items: Seq<(Seq<u8>, ReadNode)>, fuel: nat, k: int)
    requires
        read_ok(s, items, fuel),
        0 <= k < items.len(),
    ensures
        match items[k].1 {
            ReadNode::Leaf(o, m) => !is_tree_mode(m),
            ReadNode::Nested(o, sub) => fuel > 0 && s.trees.dom().contains(o) && s.trees[o]
                == read_map(sub) && sub.len() > 0 && read_ok(s, sub, (fuel - 1) as nat),
        },
    decreases items.len(),
{
    if k < items.len() - 1 {
        lemma_read_ok_at(s, items.drop_last(), fuel, k);
        assert(items.drop_last()[k] == items[k]);
    } else {
        assert(items[k] == items.last());
    }
}

/// With distinct names, the read map holds exactly the read entries.
proof fn lemma_read_map_index(items: Seq<(Seq<u8>, ReadNode)>, k: int)
    requires
        forall|i: int, j: int| 0 <= i < j < items.len() ==> (#[trigger] items[i]).0 != (#[trigger] items[j]).0,
        0 <= k < items.len(),
    ensures
        read_map(items).dom().contains(items[k].0),
        read_map(items)[items[k].0] == node_item(items[k].1),
    decreases items.len(),
{
    if k < items.len() - 1 {
        assert forall|i: int, j: int|
            0 <= i < j < items.drop_last().len() implies (#[trigger] items.drop_last()[i]).0
            != (#[trigger] items.drop_last()[j]).0 by {
            assert(items.drop_last()[i] == items[i] && items.drop_last()[j] == items[j]);
        }
        lemma_read_map_index(items.drop_last(), k);
        assert(items.drop_last()[k] == items[k]);
        assert(items[k].0 != items.last().0) by {
            assert(items[items.len() - 1] == items.last());
        }
    } else {
        assert(items[k] == items.last());
    }
}

/// A name no read entry carries is absent from the read map.
proof fn lemma_read_map_absent(items: Seq<(Seq<u8>, ReadNode)>, n: Seq<u8>)
    requires
        forall|i: int| 0 <= i < items.len() ==> (#[trigger] items[i]).0 != n,
    ensures
        !read_map(items).dom().contains(n),
    decreases items.len(),
{
    if items.len() > 0 {
        assert(items[items.len() - 1].0 != n);
        assert forall|i: int| 0 <= i < items.drop_last().len() implies (#[trigger] items.drop_last()[i]).0
            != n by {
            assert(items.drop_last()[i] == items[i]);
        }
        lemma_read_map_absent(items.drop_last(), n);
    }
}

/// The direct part distributes over batch concatenation.
proof fn lemma_direct_edits_concat(a: Seq<EditV>, b: Seq<EditV>)
    ensures
        direct_edits(a + b) == direct_edits(a) + direct_edits(b),
    decreases b.len(),
{
    if b.len() == 0 {
        assert(a + b =~= a);
        assert(direct_edits(a) + direct_edits(b) =~= direct_edits(a));
    } else {
        lemma_direct_edits_concat(a, b.drop_last());
        assert(a + b =~= (a + b.drop_last()).push(b.last()));
        crate::model::lemma_direct_edits_push(a + b.drop_last(), b.last());
        assert(b[b.len() - 1] == b.last());
        assert(direct_edits(a + b) =~= direct_edits(a) + direct_edits(b));
    }
}

/// Buckets distribute over batch concatenation.
proof fn lemma_group_of_concat(a: Seq<EditV>, b: Seq<EditV>, n: Seq<u8>)
    ensures
        group_of(a + b, n) == group_of(a, n) + group_of(b, n),
    decreases b.len(),
{
    if b.len() == 0 {
        assert(a + b =~= a);
        assert(group_of(a, n) + group_of(b, n) =~= group_of(a, n));
    } else {
        lemma_group_of_concat(a, b.drop_last(), n);
        assert(a + b =~= (a + b.drop_last()).push(b.last()));
        crate::model::lemma_group_of_push(a + b.drop_last(), b.last(), n);
        assert(b[b.len() - 1] == b.last());
        assert(group_of(a + b, n) =~= group_of(a, n) + group_of(b, n));
    }
}

/// Folding distributes over concatenation of direct-edit lists.
proof fn lemma_fold_direct_concat(
    t: TreeMapV,
    a: Seq<(Seq<u8>, Option<(Seq<u8>, u32)>)>,
    b: Seq<(Seq<u8>, Option<(Seq<u8>, u32)>)>,
)
    ensures
        fold_direct(t, a + b) == fold_direct(fold_direct(t, a), b),
    decreases b.len(),
{
    if b.len() == 0 {
        assert(a + b =~= a);
    } else {
        lemma_fold_direct_concat(t, a, b.drop_last());
        assert((a + b).drop_last() =~= a + b.drop_last());
        assert((a + b).last() == b.last());
    }
}

/// A bucket name is exactly the head of some deep edit.
proof fn lemma_group_names_contains(es: Seq<EditV>, x: Seq<u8>)
    ensures
        group_names(es).contains(x) == exists|i: int|
            0 <= i < es.len() && (#[trigger] es[i]).path.len() >= 2 && es[i].path[0] == x,
    decreases es.len(),
{
    if es.len() == 0 {
        assert(!group_names(es).contains(x));
    } else {
        lemma_group_names_contains(es.drop_last(), x);
        let pre = group_names(es.drop_last());
        let e = es.last();
        assert(es[es.len() - 1] == e);
        if group_names(es).contains(x) {
            if pre.contains(x) {
                let i = choose|i: int|
                    0 <= i < es.drop_last().len() && (#[trigger] es.drop_last()[i]).path.len() >= 2
                        && es.drop_last()[i].path[0] == x;
                assert(es[i] == es.drop_last()[i]);
                assert(es[i].path.len() >= 2 && es[i].path[0] == x);
            } else {
                let j = choose|j: int| 0 <= j < group_names(es).len() && group_names(es)[j] == x;
                assert(group_names(es) == pre.push(e.path[0]));
                assert(j == pre.len());
                assert(e.path.len() >= 2 && e.path[0] == x);
            }
        }
        if exists|i: int| 0 <= i < es.len() && (#[trigger] es[i]).path.len() >= 2 && es[i].path[0]
            == x {
            let i = choose|i: int|
                0 <= i < es.len() && (#[trigger] es[i]).path.len() >= 2 && es[i].path[0] == x;
            if i < es.len() - 1 {
                assert(es.drop_last()[i] == es[i]);
                assert(pre.contains(x));
                let j = choose|j: int| 0 <= j < pre.len() && pre[j] == x;
                assert(group_names(es)[j] == x);
                assert(group_names(es).contains(x));
            } else {
                if pre.contains(x) {
                    let j = choose|j: int| 0 <= j < pre.len() && pre[j] == x;
                    assert(group_names(es)[j] == x);
                } else {
                    assert(group_names(es) == pre.push(x));
                    assert(group_names(es)[pre.len() as int] == x);
                }
                assert(group_names(es).contains(x));
            }
        }
    }
}

/// A batch with no single-segment path has no direct part.
proof fn lemma_no_directs(es: Seq<EditV>)
    requires
        forall|i: int| 0 <= i < es.len() ==> (#[trigger] es[i]).path.len() != 1,
    ensures
        direct_edits(es) == Seq::<(Seq<u8>, Option<(Seq<u8>, u32)>)>::empty(),
    decreases es.len(),
{
    if es.len() > 0 {
        assert(es[es.len() - 1].path.len() != 1);
        assert forall|i: int| 0 <= i < es.drop_last().len() implies (#[trigger] es.drop_last()[i]).path.len()
            != 1 by {
            assert(es.drop_last()[i] == es[i]);
        }
        lemma_no_directs(es.drop_last());
    }
}

/// The shape of a prefixed batch: one edit per edit, each path one
/// segment longer.
proof fn lemma_prefix_paths_index(n: Seq<u8>, es: Seq<EditV>)
    ensures
        prefix_paths(n, es).len() == es.len(),
        forall|j: int|
            0 <= j < es.len() ==> prefix_paths(n, es)[j] == (EditV {
                path: seq![n] + (#[trigger] es[j]).path,
                val: es[j].val,
            }),
    decreases es.len(),
{
    if es.len() > 0 {
        lemma_prefix_paths_index(n, es.drop_last());
        assert(es[es.len() - 1] == es.last());
        assert forall|j: int|
            0 <= j < es.len() implies prefix_paths(n, es)[j] == (EditV {
            path: seq![n] + (#[trigger] es[j]).path,
            val: es[j].val,
        }) by {
            if j < es.len() - 1 {
                assert(prefix_paths(n, es)[j] == prefix_paths(n, es.drop_last())[j]);
                assert(es.drop_last()[j] == es[j]);
            }
        }
    }
}

/// Stripping a freshly prefixed batch gives the batch back.
proof fn lemma_group_of_prefix_same(n: Seq<u8>, es: Seq<EditV>)
    requires
        forall|j: int| 0 <= j < es.len() ==> (#[trigger] es[j]).path.len() >= 1,
    ensures
        group_of(prefix_paths(n, es), n) == es,
    decreases es.len(),
{
    if es.len() > 0 {
        assert forall|j: int| 0 <= j < es.drop_last().len() implies (#[trigger] es.drop_last()[j]).path.len()
            >= 1 by {
            assert(es.drop_last()[j] == es[j]);
        }
        lemma_group_of_prefix_same(n, es.drop_last());
        assert(es[es.len() - 1] == es.last());
        let e = EditV { path: seq![n] + es.last().path, val: es.last().val };
        assert(prefix_paths(n, es) == prefix_paths(n, es.drop_last()).push(e));
        crate::model::lemma_group_of_push(prefix_paths(n, es.drop_last()), e, n);
        assert(e.path.len() >= 2 && e.path[0] == n);
        assert(e.path.subrange(1, e.path.len() as int) =~= es.last().path);
        assert(group_of(prefix_paths(n, es), n) =~= es);
    }
}

/// A batch prefixed with another segment contributes nothing to this
/// bucket.
proof fn lemma_group_of_prefix_other(m: Seq<u8>, es: Seq<EditV>, n: Seq<u8>)
    requires
        m != n,
    ensures
        group_of(prefix_paths(m, es), n) == Seq::<EditV>::empty(),
    decreases es.len(),
{
    if es.len() > 0 {
        lemma_group_of_prefix_other(m, es.drop_last(), n);
        let e = EditV { path: seq![m] + es.last().path, val: es.last().val };
        assert(prefix_paths(m, es) == prefix_paths(m, es.drop_last()).push(e));
        crate::model::lemma_group_of_push(prefix_paths(m, es.drop_last()), e, n);
        assert(e.path[0] == m);
    }
}

/// The map of just the leaf entries of a reading.
spec fn leaf_map(items: Seq<(Seq<u8>, ReadNode)>) -> TreeMapV
    decreases items.len(),
{
    if items.len() == 0 {
        Map::empty()
    } else {
        let pre = leaf_map(items.drop_last());
        match items.last().1 {
            ReadNode::Leaf(o, m) => pre.insert(items.last().0, (o, m)),
            ReadNode::Nested(_, _) => pre,
        }
    }
}

/// With distinct names, the leaf map holds each leaf entry.
proof fn lemma_leaf_map_leaf(items: Seq<(Seq<u8>, ReadNode)>, k: int, n: Seq<u8>, o: Seq<u8>, m: u32)
    requires
        forall|i: int, j: int| 0 <= i < j < items.len() ==> (#[trigger] items[i]).0 != (#[trigger] items[j]).0,
        0 <= k < items.len(),
        items[k] == (n, ReadNode::Leaf(o, m)),
    ensures
        leaf_map(items).dom().contains(n),
        leaf_map(items)[n] == (o, m),
    decreases items.len(),
{
    if k < items.len() - 1 {
        assert forall|i: int, j: int|
            0 <= i < j < items.drop_last().len() implies (#[trigger] items.drop_last()[i]).0
            != (#[trigger] items.drop_last()[j]).0 by {
            assert(items.drop_last()[i] == items[i] && items.drop_last()[j] == items[j]);
        }
        assert(items.drop_last()[k] == items[k]);
        lemma_leaf_map_leaf(items.drop_last(), k, n, o, m);
        assert(items[items.len() - 1] == items.last());
        assert(items.last().0 != n);
    } else {
        assert(items[k] == items.last());
    }
}

/// A name carried by no leaf entry is absent from the leaf map.
proof fn lemma_leaf_map_absent(items: Seq<(Seq<u8>, ReadNode)>, n: Seq<u8>)
    requires
        forall|i: int|
            0 <= i < items.len() ==> (#[trigger] items[i]).0 != n || items[i].1 is Nested,
    ensures
        !leaf_map(items).dom().contains(n),
    decreases items.len(),
{
    if items.len() > 0 {
        assert(items[items.len() - 1] == items.last());
        assert forall|i: int|
            0 <= i < items.drop_last().len() implies (#[trigger] items.drop_last()[i]).0 != n
            || items.drop_last()[i].1 is Nested by {
            assert(items.drop_last()[i] == items[i]);
        }
        lemma_leaf_map_absent(items.drop_last(), n);
    }
}

/// A bucket collects nothing when no deep edit heads its name.
proof fn lemma_group_of_absent(es: Seq<EditV>, n: Seq<u8>)
    requires
        forall|i: int|
            0 <= i < es.len() ==> !((#[trigger] es[i]).path.len() >= 2 && es[i].path[0] == n),
    ensures
        group_of(es, n) == Seq::<EditV>::empty(),
    decreases es.len(),
{
    if es.len() > 0 {
        assert(es[es.len() - 1] == es.last());
        assert forall|i: int|
            0 <= i < es.drop_last().len() implies !((#[trigger] es.drop_last()[i]).path.len() >= 2
                && es.drop_last()[i].path[0] == n) by {
            assert(es.drop_last()[i] == es[i]);
        }
        lemma_group_of_absent(es.drop_last(), n);
    }
}

/// The leaf batch's shape: every path has a segment, and every deep
/// path starts with the name of a nested entry.
proof fn lemma_le_shape(items: Seq<(Seq<u8>, ReadNode)>, fuel: nat)
    ensures
        forall|j: int|
            0 <= j < leaf_edits(items, fuel).len() ==> (#[trigger] leaf_edits(items, fuel)[j]).path.len()
                >= 1,
        forall|j: int|
            0 <= j < leaf_edits(items, fuel).len() && (#[trigger] leaf_edits(items, fuel)[j]).path.len()
                >= 2 ==> exists|k: int|
                0 <= k < items.len() && (#[trigger] items[k]).1 is Nested && items[k].0
                    == leaf_edits(items, fuel)[j].path[0],
    decreases fuel, items.len(),
{
    if items.len() > 0 {
        lemma_le_shape(items.drop_last(), fuel);
        let pre = leaf_edits(items.drop_last(), fuel);
        let es = leaf_edits(items, fuel);
        assert(items[items.len() - 1] == items.last());
        match items.last().1 {
            ReadNode::Leaf(o, m) => {
                let chunk = seq![EditV { path: seq![items.last().0], val: Some((o, m)) }];
                assert(es == pre + chunk);
                lemma_le_shape_join(items, es, pre, chunk);
            },
            ReadNode::Nested(_, sub) => {
                if fuel == 0 {
                    let chunk = Seq::<EditV>::empty();
                    assert(es == pre + chunk);
                    lemma_le_shape_join(items, es, pre, chunk);
                } else {
                    lemma_le_shape(sub, (fuel - 1) as nat);
                    let xs = leaf_edits(sub, (fuel - 1) as nat);
                    lemma_prefix_paths_index(items.last().0, xs);
                    let chunk = prefix_paths(items.last().0, xs);
                    assert(es == pre + chunk);
                    assert forall|j: int|
                        0 <= j < chunk.len() implies (#[trigger] chunk[j]).path.len() >= 1 && (
                        chunk[j].path.len() >= 2 ==> chunk[j].path[0] == items.last().0) by {
                        assert(chunk[j] == (EditV {
                            path: seq![items.last().0] + xs[j].path,
                            val: xs[j].val,
                        }));
                        assert(chunk[j].path == seq![items.last().0] + xs[j].path);
                        assert((seq![items.last().0] + xs[j].path)[0] == items.last().0);
                    }
                    lemma_le_shape_join(items, es, pre, chunk);
                }
            },
        }
    }
}

/// Joins the shape facts of a level's first entries with those of the
/// last entry's own chunk.
proof fn lemma_le_shape_join(
    items: Seq<(Seq<u8>, ReadNode)>,
    es: Seq<EditV>,
    pre: Seq<EditV>,
    chunk: Seq<EditV>,
)
    requires
        items.len() > 0,
        es == pre + chunk,
        forall|j: int| 0 <= j < pre.len() ==> (#[trigger] pre[j]).path.len() >= 1,
        forall|j: int|
            0 <= j < pre.len() && (#[trigger] pre[j]).path.len() >= 2 ==> exists|k: int|
                0 <= k < items.drop_last().len() && (#[trigger] items.drop_last()[k]).1 is Nested
                    && items.drop_last()[k].0 == pre[j].path[0],
        forall|j: int| 0 <= j < chunk.len() ==> (#[trigger] chunk[j]).path.len() >= 1,
        forall|j: int|
            0 <= j < chunk.len() && (#[trigger] chunk[j]).path.len() >= 2 ==> chunk[j].path[0]
                == items.last().0 && items.last().1 is Nested,
    ensures
        forall|j: int| 0 <= j < es.len() ==> (#[trigger] es[j]).path.len() >= 1,
        forall|j: int|
            0 <= j < es.len() && (#[trigger] es[j]).path.len() >= 2 ==> exists|k: int|
                0 <= k < items.len() && (#[trigger] items[k]).1 is Nested && items[k].0
                    == es[j].path[0],
{
    assert forall|j: int| 0 <= j < es.len() implies (#[trigger] es[j]).path.len() >= 1 by {
        if j < pre.len() {
            assert(es[j] == pre[j]);
        } else {
            assert(es[j] == chunk[j - pre.len()]);
        }
    }
    assert forall|j: int|
        0 <= j < es.len() && (#[trigger] es[j]).path.len() >= 2 implies exists|k: int|
        0 <= k < items.len() && (#[trigger] items[k]).1 is Nested && items[k].0 == es[j].path[0] by {
        if j < pre.len() {
            assert(es[j] == pre[j]);
            let k = choose|k: int|
                0 <= k < items.drop_last().len() && (#[trigger] items.drop_last()[k]).1 is Nested
                    && items.drop_last()[k].0 == pre[j].path[0];
            assert(items[k] == items.drop_last()[k]);
            assert(items[k].1 is Nested && items[k].0 == es[j].path[0]);
        } else {
            assert(es[j] == chunk[j - pre.len()]);
            assert(items[items.len() - 1] == items.last());
            assert(items.last().1 is Nested && items.last().0 == es[j].path[0]);
        }
    }
}

/// A faithful reading of anything at all yields at least one leaf
/// edit: every chain of nested readings bottoms out in leaves.
proof fn lemma_le_nonempty(s: StoreV, items: Seq<(Seq<u8>, ReadNode)>, fuel: nat)
    requires
        read_ok(s, items, fuel),
        items.len() > 0,
    ensures
        leaf_edits(items, fuel).len() > 0,
    decreases fuel, items.len(),
{
    if items.len() > 1 {
        lemma_le_nonempty(s, items.drop_last(), fuel);
        let pre = leaf_edits(items.drop_last(), fuel);
        assert(leaf_edits(items, fuel).len() >= pre.len());
    } else {
        let pre = leaf_edits(items.drop_last(), fuel);
        match items.last().1 {
            ReadNode::Leaf(o, m) => {},
            ReadNode::Nested(o, sub) => {
                lemma_read_ok_at(s, items, fuel, items.len() - 1);
                assert(items[items.len() - 1] == items.last());
                lemma_le_nonempty(s, sub, (fuel - 1) as nat);
                lemma_prefix_paths_index(items.last().0, leaf_edits(sub, (fuel - 1) as nat));
            },
        }
    }
}

/// The direct part of the leaf batch rebuilds exactly the leaf
/// entries.
proof fn lemma_le_after(items: Seq<(Seq<u8>, ReadNode)>, fuel: nat)
    ensures
        fold_direct(empty_tree_map(), direct_edits(leaf_edits(items, fuel))) == leaf_map(items),
    decreases items.len(),
{
    if items.len() == 0 {
        assert(leaf_edits(items, fuel) =~= Seq::<EditV>::empty());
    } else {
        lemma_le_after(items.drop_last(), fuel);
        let pre = leaf_edits(items.drop_last(), fuel);
        match items.last().1 {
            ReadNode::Leaf(o, m) => {
                let e = EditV { path: seq![items.last().0], val: Some((o, m)) };
                let chunk = seq![e];
                assert(leaf_edits(items, fuel) == pre + chunk);
                lemma_direct_edits_concat(pre, chunk);
                lemma_fold_direct_concat(empty_tree_map(), direct_edits(pre), direct_edits(chunk));
                let d = (items.last().0, Some((o, m)));
                assert(chunk.drop_last() =~= Seq::<EditV>::empty());
                assert(chunk.last() == e);
                assert(e.path[0] == items.last().0);
                let ds = direct_edits(chunk);
                assert(ds == direct_edits(chunk.drop_last()).push(d));
                assert(ds.drop_last() =~= direct_edits(chunk.drop_last()));
                assert(ds.last() == d);
                assert(direct_edits(chunk.drop_last()) == Seq::<(
                    Seq<u8>,
                    Option<(Seq<u8>, u32)>,
                )>::empty());
                assert(fold_direct(leaf_map(items.drop_last()), ds.drop_last()) == leaf_map(
                    items.drop_last(),
                ));
                assert(fold_direct(leaf_map(items.drop_last()), ds) == leaf_map(
                    items.drop_last(),
                ).insert(items.last().0, (o, m)));
            },
            ReadNode::Nested(_, sub) => {
                if fuel == 0 {
                    let chunk = Seq::<EditV>::empty();
                    assert(leaf_edits(items, fuel) == pre + chunk);
                    lemma_direct_edits_concat(pre, chunk);
                    lemma_fold_direct_concat(
                        empty_tree_map(),
                        direct_edits(pre),
                        direct_edits(chunk),
                    );
                } else {
                    let xs = leaf_edits(sub, (fuel - 1) as nat);
                    let chunk = prefix_paths(items.last().0, xs);
                    assert(leaf_edits(items, fuel) == pre + chunk);
                    lemma_direct_edits_concat(pre, chunk);
                    lemma_fold_direct_concat(
                        empty_tree_map(),
                        direct_edits(pre),
                        direct_edits(chunk),
                    );
                    lemma_prefix_paths_index(items.last().0, xs);
                    lemma_le_shape(sub, (fuel - 1) as nat);
                    assert forall|i: int| 0 <= i < chunk.len() implies (#[trigger] chunk[i]).path.len()
                        != 1 by {
                        assert(xs[i].path.len() >= 1);
                        assert(chunk[i] == (EditV {
                            path: seq![items.last().0] + xs[i].path,
                            val: xs[i].val,
                        }));
                        assert(chunk[i].path == seq![items.last().0] + xs[i].path);
                        assert((seq![items.last().0] + xs[i].path).len() == 1 + xs[i].path.len());
                    }
                    lemma_no_directs(chunk);
                }
            },
        }
    }
}

/// The bucket at a nested entry's name holds exactly the leaf batch
/// of its sub-reading.
proof fn lemma_le_group_at(
    s: StoreV,
    items: Seq<(Seq<u8>, ReadNode)>,
    fuel: nat,
    k: int,
    n: Seq<u8>,
    o: Seq<u8>,
    sub: Seq<(Seq<u8>, ReadNode)>,
)
    requires
        read_ok(s, items, fuel),
        0 <= k < items.len(),
        items[k] == (n, ReadNode::Nested(o, sub)),
    ensures
        group_of(leaf_edits(items, fuel), n) == leaf_edits(sub, (fuel - 1) as nat),
    decreases items.len(),
{
    lemma_read_ok_distinct(s, items, fuel);
    let pre = leaf_edits(items.drop_last(), fuel);
    let chunk = match items.last().1 {
        ReadNode::Leaf(oo, mm) => seq![
            EditV { path: seq![items.last().0], val: Some((oo, mm)) },
        ],
        ReadNode::Nested(_, sub2) => if fuel == 0 {
            Seq::<EditV>::empty()
        } else {
            prefix_paths(items.last().0, leaf_edits(sub2, (fuel - 1) as nat))
        },
    };
    assert(leaf_edits(items, fuel) == pre + chunk);
    lemma_group_of_concat(pre, chunk, n);
    assert(items[items.len() - 1] == items.last());
    if k < items.len() - 1 {
        assert(items.drop_last()[k] == items[k]);
        lemma_le_group_at(s, items.drop_last(), fuel, k, n, o, sub);
        assert(items.last().0 != n);
        match items.last().1 {
            ReadNode::Leaf(oo, mm) => {
                assert forall|i: int|
                    0 <= i < chunk.len() implies !((#[trigger] chunk[i]).path.len() >= 2
                        && chunk[i].path[0] == n) by {}
                lemma_group_of_absent(chunk, n);
            },
            ReadNode::Nested(_, sub2) => {
                if fuel == 0 {
                    lemma_read_ok_at(s, items, fuel, items.len() - 1);
                } else {
                    lemma_group_of_prefix_other(items.last().0, leaf_edits(sub2, (fuel - 1) as nat), n);
                }
            },
        }
        assert(group_of(leaf_edits(items, fuel), n) =~= leaf_edits(sub, (fuel - 1) as nat));
    } else {
        lemma_read_ok_at(s, items, fuel, k);
        assert(fuel > 0);
        lemma_le_shape(items.drop_last(), fuel);
        assert forall|i: int|
            0 <= i < pre.len() implies !((#[trigger] pre[i]).path.len() >= 2 && pre[i].path[0]
                == n) by {
            if pre[i].path.len() >= 2 {
                let kk = choose|kk: int|
                    0 <= kk < items.drop_last().len() && (#[trigger] items.drop_last()[kk]).1 is Nested
                        && items.drop_last()[kk].0 == pre[i].path[0];
                assert(items[kk] == items.drop_last()[kk]);
                assert(items[kk].0 != n);
            }
        }
        lemma_group_of_absent(pre, n);
        lemma_le_shape(sub, (fuel - 1) as nat);
        lemma_group_of_prefix_same(n, leaf_edits(sub, (fuel - 1) as nat));
        assert(group_of(leaf_edits(items, fuel), n) =~= leaf_edits(sub, (fuel - 1) as nat));
    }
}

/// A nested entry's name heads at least one deep edit of the leaf
/// batch.
proof fn lemma_le_head_exists(
    s: StoreV,
    items: Seq<(Seq<u8>, ReadNode)>,
    fuel: nat,
    k: int,
    n: Seq<u8>,
    o: Seq<u8>,
    sub: Seq<(Seq<u8>, ReadNode)>,
)
    requires
        read_ok(s, items, fuel),
        0 <= k < items.len(),
        items[k] == (n, ReadNode::Nested(o, sub)),
    ensures
        exists|j: int|
            0 <= j < leaf_edits(items, fuel).len() && (#[trigger] leaf_edits(items, fuel)[j]).path.len()
                >= 2 && leaf_edits(items, fuel)[j].path[0] == n,
    decreases items.len(),
{
    let pre = leaf_edits(items.drop_last(), fuel);
    let es = leaf_edits(items, fuel);
    assert(items[items.len() - 1] == items.last());
    if k < items.len() - 1 {
        assert(items.drop_last()[k] == items[k]);
        lemma_le_head_exists(s, items.drop_last(), fuel, k, n, o, sub);
        let j = choose|j: int|
            0 <= j < pre.len() && (#[trigger] pre[j]).path.len() >= 2 && pre[j].path[0] == n;
        assert(es[j] == pre[j]);
        assert(es[j].path.len() >= 2 && es[j].path[0] == n);
    } else {
        lemma_read_ok_at(s, items, fuel, k);
        assert(fuel > 0);
        lemma_le_nonempty(s, sub, (fuel - 1) as nat);
        let xs = leaf_edits(sub, (fuel - 1) as nat);
        lemma_prefix_paths_index(n, xs);
        lemma_le_shape(sub, (fuel - 1) as nat);
        let j = pre.len() as int;
        assert(es[j] == prefix_paths(n, xs)[0]);
        assert(es[j].path == seq![n] + xs[0].path);
        assert(xs[0].path.len() >= 1);
        assert(es[j].path.len() >= 2 && es[j].path[0] == n);
    }
}

/// Round-trip for arbitrarily nested trees: hydrating nothing with
/// one upsert per leaf path of a faithful reading rebuilds exactly
/// the read tree's entry map. With [`lemma_leaf_round_trip_oid`],
/// content addressing then returns the read tree's own id.
pub proof fn lemma_leaf_round_trip(s: StoreV, items: Seq<(Seq<u8>, ReadNode)>, fuel: nat)
    requires
        store_wf(s),
        read_ok(s, items, fuel),
    ensures
        apply_edits(s, empty_tree_map(), leaf_edits(items, fuel)) == read_map(items),
    decreases fuel,
{
    let es = leaf_edits(items, fuel);
    let result = apply_edits(s, empty_tree_map(), es);
    lemma_read_ok_distinct(s, items, fuel);
    lemma_le_shape(items, fuel);
    lemma_le_after(items, fuel);
    let after = fold_direct(empty_tree_map(), direct_edits(es));
    assert forall|n: Seq<u8>|
        #![trigger result.dom().contains(n)]
        #![trigger read_map(items).dom().contains(n)]
        (result.dom().contains(n) == read_map(items).dom().contains(n)) && (read_map(
            items,
        ).dom().contains(n) ==> result[n] == read_map(items)[n]) by {
        lemma_group_names_contains(es, n);
        if exists|k: int| 0 <= k < items.len() && (#[trigger] items[k]).0 == n {
            let k = choose|k: int| 0 <= k < items.len() && (#[trigger] items[k]).0 == n;
            lemma_read_map_index(items, k);
            match items[k].1 {
                ReadNode::Leaf(o, m) => {
                    assert(!group_names(es).contains(n)) by {
                        if exists|i: int|
                            0 <= i < es.len() && (#[trigger] es[i]).path.len() >= 2 && es[i].path[0]
                                == n {
                            let i = choose|i: int|
                                0 <= i < es.len() && (#[trigger] es[i]).path.len() >= 2
                                    && es[i].path[0] == n;
                            let kk = choose|kk: int|
                                0 <= kk < items.len() && (#[trigger] items[kk]).1 is Nested
                                    && items[kk].0 == es[i].path[0];
                            assert(kk == k);
                        }
                    }
                    if group_names(es).len() != 0 {
                        let gs = groups_of(es);
                        assert forall|j: int| 0 <= j < gs.len() implies (#[trigger] gs[j]).0 != n by {
                            assert(gs[j] == (group_names(es)[j], group_of(es, group_names(es)[j])));
                            assert(group_names(es).contains(group_names(es)[j]));
                        }
                        crate::model::lemma_group_fold_frame(s, after, gs, n);
                    }
                    lemma_leaf_map_leaf(items, k, n, o, m);
                    assert(result.dom().contains(n) && result[n] == (o, m));
                },
                ReadNode::Nested(o, sub) => {
                    lemma_read_ok_at(s, items, fuel, k);
                    lemma_le_head_exists(s, items, fuel, k, n, o, sub);
                    assert(group_names(es).contains(n));
                    let kk = choose|kk: int|
                        0 <= kk < group_names(es).len() && group_names(es)[kk] == n;
                    lemma_apply_at_group_name(s, empty_tree_map(), es, kk);
                    assert forall|i: int|
                        0 <= i < items.len() implies (#[trigger] items[i]).0 != n || items[i].1 is Nested by {
                        if items[i].0 == n {
                            assert(i == k);
                        }
                    }
                    lemma_leaf_map_absent(items, n);
                    assert(map_item(after, n) is None);
                    assert(resolve_dir_item(s, map_item(after, n)) == empty_tree_map());
                    lemma_le_group_at(s, items, fuel, k, n, o, sub);
                    lemma_leaf_round_trip(s, sub, (fuel - 1) as nat);
                    let subr = apply_edits(s, empty_tree_map(), leaf_edits(sub, (fuel - 1) as nat));
                    assert(subr == read_map(sub));
                    lemma_read_ok_distinct(s, sub, (fuel - 1) as nat);
                    lemma_read_map_index(sub, sub.len() - 1);
                    assert(subr != empty_tree_map());
                    assert(result.dom().contains(n));
                    assert(result[n] == (tree_hash(read_map(sub)), MODE_TREE));
                    assert(tree_wf_in(s, o));
                    assert(tree_hash(s.trees[o]) == o);
                    assert(result[n] == (o, MODE_TREE));
                },
            }
        } else {
            lemma_read_map_absent(items, n);
            assert(!group_names(es).contains(n)) by {
                if exists|i: int|
                    0 <= i < es.len() && (#[trigger] es[i]).path.len() >= 2 && es[i].path[0] == n {
                    let i = choose|i: int|
                        0 <= i < es.len() && (#[trigger] es[i]).path.len() >= 2 && es[i].path[0]
                            == n;
                    let kk = choose|kk: int|
                        0 <= kk < items.len() && (#[trigger] items[kk]).1 is Nested && items[kk].0
                            == es[i].path[0];
                    assert(items[kk].0 == n);
                }
            }
            if group_names(es).len() != 0 {
                let gs = groups_of(es);
                assert forall|j: int| 0 <= j < gs.len() implies (#[trigger] gs[j]).0 != n by {
                    assert(gs[j] == (group_names(es)[j], group_of(es, group_names(es)[j])));
                    assert(group_names(es).contains(group_names(es)[j]));
                }
                crate::model::lemma_group_fold_frame(s, after, gs, n);
            }
            assert forall|i: int|
                0 <= i < items.len() implies (#[trigger] items[i]).0 != n || items[i].1 is Nested by {}
            lemma_leaf_map_absent(items, n);
            assert(!result.dom().contains(n));
        }
    }
    assert(result =~= read_map(items));
}

/// For a stored tree read leaf by leaf, the rebuilt tree keeps the
/// tree's own id.
pub proof fn lemma_leaf_round_trip_oid(
    s: StoreV,
    o: Seq<u8>,
    items: Seq<(Seq<u8>, ReadNode)>,
    fuel: nat,
)
    requires
        store_wf(s),
        s.trees.dom().contains(o),
        s.trees[o] == read_map(items),
        read_ok(s, items, fuel),
    ensures
        tree_hash(apply_edits(s, empty_tree_map(), leaf_edits(items, fuel))) == o,
{
    lemma_leaf_round_trip(s, items, fuel);
    assert(tree_wf_in(s, o));
}

/// The edit batch that deletes a tree leaf by leaf: one deletion per
/// leaf path, in reading order.
pub open spec fn leaf_deletions(items: Seq<(Seq<u8>, ReadNode)>, fuel: nat) -> Seq<EditV>
    decreases fuel, items.len(),
{
    if items.len() == 0 {
        Seq::empty()
    } else {
        leaf_deletions(items.drop_last(), fuel) + (match items.last().1 {
            ReadNode::Leaf(_, _) => seq![
                EditV { path: seq![items.last().0], val: None },
            ],
            ReadNode::Nested(_, sub) => if fuel == 0 {
                Seq::<EditV>::empty()
            } else {
                prefix_paths(items.last().0, leaf_deletions(sub, (fuel - 1) as nat))
            },
        })
    }
}

/// A map shorn of a reading's leaf names.
spec fn minus_leaves(t: TreeMapV, items: Seq<(Seq<u8>, ReadNode)>) -> TreeMapV
    decreases items.len(),
{
    if items.len() == 0 {
        t
    } else {
        let pre = minus_leaves(t, items.drop_last());
        match items.last().1 {
            ReadNode::Leaf(_, _) => pre.remove(items.last().0),
            ReadNode::Nested(_, _) => pre,
        }
    }
}

/// What survives shearing: everything but the leaf names, unchanged.
proof fn lemma_minus_leaves_at(t: TreeMapV, items: Seq<(Seq<u8>, ReadNode)>, n: Seq<u8>)
    ensures
        minus_leaves(t, items).dom().contains(n) == (t.dom().contains(n) && !exists|k: int|
            0 <= k < items.len() && (#[trigger] items[k]).0 == n && items[k].1 is Leaf),
        minus_leaves(t, items).dom().contains(n) ==> minus_leaves(t, items)[n] == t[n],
    decreases items.len(),
{
    if items.len() > 0 {
        lemma_minus_leaves_at(t, items.drop_last(), n);
        assert(items[items.len() - 1] == items.last());
        if exists|k: int|
            0 <= k < items.drop_last().len() && (#[trigger] items.drop_last()[k]).0 == n
                && items.drop_last()[k].1 is Leaf {
            let k = choose|k: int|
                0 <= k < items.drop_last().len() && (#[trigger] items.drop_last()[k]).0 == n
                    && items.drop_last()[k].1 is Leaf;
            assert(items[k] == items.drop_last()[k]);
            assert(items[k].0 == n && items[k].1 is Leaf);
        }
        if exists|k: int|
            0 <= k < items.len() && (#[trigger] items[k]).0 == n && items[k].1 is Leaf {
            let k = choose|k: int|
                0 <= k < items.len() && (#[trigger] items[k]).0 == n && items[k].1 is Leaf;
            if k < items.len() - 1 {
                assert(items.drop_last()[k] == items[k]);
                assert(items.drop_last()[k].0 == n && items.drop_last()[k].1 is Leaf);
            }
        }
    }
}

/// The deletion batch's shape: every path has a segment, and every
/// deep path starts with the name of a nested entry.
proof fn lemma_ld_shape(items: Seq<(Seq<u8>, ReadNode)>, fuel: nat)
    ensures
        forall|j: int|
            0 <= j < leaf_deletions(items, fuel).len() ==> (#[trigger] leaf_deletions(
                items,
                fuel,
            )[j]).path.len() >= 1,
        forall|j: int|
            0 <= j < leaf_deletions(items, fuel).len() && (#[trigger] leaf_deletions(
                items,
                fuel,
            )[j]).path.len() >= 2 ==> exists|k: int|
                0 <= k < items.len() && (#[trigger] items[k]).1 is Nested && items[k].0
                    == leaf_deletions(items, fuel)[j].path[0],
    decreases fuel, items.len(),
{
    if items.len() > 0 {
        lemma_ld_shape(items.drop_last(), fuel);
        let pre = leaf_deletions(items.drop_last(), fuel);
        let es = leaf_deletions(items, fuel);
        assert(items[items.len() - 1] == items.last());
        match items.last().1 {
            ReadNode::Leaf(_, _) => {
                let chunk = seq![EditV { path: seq![items.last().0], val: None }];
                assert(es == pre + chunk);
                lemma_le_shape_join(items, es, pre, chunk);
            },
            ReadNode::Nested(_, sub) => {
                if fuel == 0 {
                    let chunk = Seq::<EditV>::empty();
                    assert(es == pre + chunk);
                    lemma_le_shape_join(items, es, pre, chunk);
                } else {
                    lemma_ld_shape(sub, (fuel - 1) as nat);
                    let xs = leaf_deletions(sub, (fuel - 1) as nat);
                    lemma_prefix_paths_index(items.last().0, xs);
                    let chunk = prefix_paths(items.last().0, xs);
                    assert(es == pre + chunk);
                    assert forall|j: int|
                        0 <= j < chunk.len() implies (#[trigger] chunk[j]).path.len() >= 1 && (
                        chunk[j].path.len() >= 2 ==> chunk[j].path[0] == items.last().0) by {
                        assert(chunk[j] == (EditV {
                            path: seq![items.last().0] + xs[j].path,
                            val: xs[j].val,
                        }));
                        assert(chunk[j].path == seq![items.last().0] + xs[j].path);
                        assert((seq![items.last().0] + xs[j].path)[0] == items.last().0);
                    }
                    lemma_le_shape_join(items, es, pre, chunk);
                }
            },
        }
    }
}

/// The direct part of the deletion batch shears off exactly the leaf
/// names.
proof fn lemma_ld_after(t: TreeMapV, items: Seq<(Seq<u8>, ReadNode)>, fuel: nat)
    ensures
        fold_direct(t, direct_edits(leaf_deletions(items, fuel))) == minus_leaves(t, items),
    decreases items.len(),
{
    if items.len() == 0 {
        assert(leaf_deletions(items, fuel) =~= Seq::<EditV>::empty());
    } else {
        lemma_ld_after(t, items.drop_last(), fuel);
        let pre = leaf_deletions(items.drop_last(), fuel);
        match items.last().1 {
            ReadNode::Leaf(_, _) => {
                let e = EditV { path: seq![items.last().0], val: None };
                let chunk = seq![e];
                assert(leaf_deletions(items, fuel) == pre + chunk);
                lemma_direct_edits_concat(pre, chunk);
                lemma_fold_direct_concat(t, direct_edits(pre), direct_edits(chunk));
                let d = (items.last().0, None::<(Seq<u8>, u32)>);
                assert(chunk.drop_last() =~= Seq::<EditV>::empty());
                assert(chunk.last() == e);
                assert(e.path[0] == items.last().0);
                let ds = direct_edits(chunk);
                assert(ds == direct_edits(chunk.drop_last()).push(d));
                assert(ds.drop_last() =~= direct_edits(chunk.drop_last()));
                assert(ds.last() == d);
                assert(direct_edits(chunk.drop_last()) == Seq::<(
                    Seq<u8>,
                    Option<(Seq<u8>, u32)>,
                )>::empty());
                assert(fold_direct(minus_leaves(t, items.drop_last()), ds.drop_last())
                    == minus_leaves(t, items.drop_last()));
                assert(fold_direct(minus_leaves(t, items.drop_last()), ds) == minus_leaves(
                    t,
                    items.drop_last(),
                ).remove(items.last().0));
            },
            ReadNode::Nested(_, sub) => {
                if fuel == 0 {
                    let chunk = Seq::<EditV>::empty();
                    assert(leaf_deletions(items, fuel) == pre + chunk);
                    lemma_direct_edits_concat(pre, chunk);
                    lemma_fold_direct_concat(t, direct_edits(pre), direct_edits(chunk));
                } else {
                    let xs = leaf_deletions(sub, (fuel - 1) as nat);
                    let chunk = prefix_paths(items.last().0, xs);
                    assert(leaf_deletions(items, fuel) == pre + chunk);
                    lemma_direct_edits_concat(pre, chunk);
                    lemma_fold_direct_concat(t, direct_edits(pre), direct_edits(chunk));
                    lemma_prefix_paths_index(items.last().0, xs);
                    lemma_ld_shape(sub, (fuel - 1) as nat);
                    assert forall|i: int| 0 <= i < chunk.len() implies (#[trigger] chunk[i]).path.len()
                        != 1 by {
                        assert(xs[i].path.len() >= 1);
                        assert(chunk[i] == (EditV {
                            path: seq![items.last().0] + xs[i].path,
                            val: xs[i].val,
                        }));
                        assert(chunk[i].path == seq![items.last().0] + xs[i].path);
                        assert((seq![items.last().0] + xs[i].path).len() == 1 + xs[i].path.len());
                    }
                    lemma_no_directs(chunk);
                }
            },
        }
    }
}

/// The bucket at a nested entry's name holds exactly the deletion
/// batch of its sub-reading.
proof fn lemma_ld_group_at(
    s: StoreV,
    items: Seq<(Seq<u8>, ReadNode)>,
    fuel: nat,
    k: int,
    n: Seq<u8>,
    o: Seq<u8>,
    sub: Seq<(Seq<u8>, ReadNode)>,
)
    requires
        read_ok(s, items, fuel),
        0 <= k < items.len(),
        items[k] == (n, ReadNode::Nested(o, sub)),
    ensures
        group_of(leaf_deletions(items, fuel), n) == leaf_deletions(sub, (fuel - 1) as nat),
    decreases items.len(),
{
    lemma_read_ok_distinct(s, items, fuel);
    let pre = leaf_deletions(items.drop_last(), fuel);
    let chunk = match items.last().1 {
        ReadNode::Leaf(_, _) => seq![EditV { path: seq![items.last().0], val: None }],
        ReadNode::Nested(_, sub2) => if fuel == 0 {
            Seq::<EditV>::empty()
        } else {
            prefix_paths(items.last().0, leaf_deletions(sub2, (fuel - 1) as nat))
        },
    };
    assert(leaf_deletions(items, fuel) == pre + chunk);
    lemma_group_of_concat(pre, chunk, n);
    assert(items[items.len() - 1] == items.last());
    if k < items.len() - 1 {
        assert(items.drop_last()[k] == items[k]);
        lemma_ld_group_at(s, items.drop_last(), fuel, k, n, o, sub);
        assert(items.last().0 != n);
        match items.last().1 {
            ReadNode::Leaf(_, _) => {
                assert forall|i: int|
                    0 <= i < chunk.len() implies !((#[trigger] chunk[i]).path.len() >= 2
                        && chunk[i].path[0] == n) by {}
                lemma_group_of_absent(chunk, n);
            },
            ReadNode::Nested(_, sub2) => {
                if fuel == 0 {
                    lemma_read_ok_at(s, items, fuel, items.len() - 1);
                } else {
                    lemma_group_of_prefix_other(
                        items.last().0,
                        leaf_deletions(sub2, (fuel - 1) as nat),
                        n,
                    );
                }
            },
        }
        assert(group_of(leaf_deletions(items, fuel), n) =~= leaf_deletions(sub, (fuel - 1) as nat));
    } else {
        lemma_read_ok_at(s, items, fuel, k);
        assert(fuel > 0);
        lemma_ld_shape(items.drop_last(), fuel);
        assert forall|i: int|
            0 <= i < pre.len() implies !((#[trigger] pre[i]).path.len() >= 2 && pre[i].path[0]
                == n) by {
            if pre[i].path.len() >= 2 {
                let kk = choose|kk: int|
                    0 <= kk < items.drop_last().len() && (#[trigger] items.drop_last()[kk]).1 is Nested
                        && items.drop_last()[kk].0 == pre[i].path[0];
                assert(items[kk] == items.drop_last()[kk]);
                assert(items[kk].0 != n);
            }
        }
        lemma_group_of_absent(pre, n);
        lemma_ld_shape(sub, (fuel - 1) as nat);
        lemma_group_of_prefix_same(n, leaf_deletions(sub, (fuel - 1) as nat));
        assert(group_of(leaf_deletions(items, fuel), n) =~= leaf_deletions(sub, (fuel - 1) as nat));
    }
}

/// Deleting every leaf path of a faithful reading empties the read
/// tree entirely: leaves fall to the direct deletions, and every
/// nested entry collapses once its own leaves are gone.
pub proof fn lemma_leaf_delete_all(s: StoreV, items: Seq<(Seq<u8>, ReadNode)>, fuel: nat)
    requires
        store_wf(s),
        read_ok(s, items, fuel),
    ensures
        apply_edits(s, read_map(items), leaf_deletions(items, fuel)) == empty_tree_map(),
    decreases fuel,
{
    let es = leaf_deletions(items, fuel);
    let base = read_map(items);
    let result = apply_edits(s, base, es);
    lemma_read_ok_distinct(s, items, fuel);
    lemma_ld_shape(items, fuel);
    lemma_ld_after(base, items, fuel);
    let after = fold_direct(base, direct_edits(es));
    assert forall|n: Seq<u8>| !(#[trigger] result.dom().contains(n)) by {
        lemma_group_names_contains(es, n);
        lemma_minus_leaves_at(base, items, n);
        if exists|k: int| 0 <= k < items.len() && (#[trigger] items[k]).0 == n {
            let k = choose|k: int| 0 <= k < items.len() && (#[trigger] items[k]).0 == n;
            lemma_read_map_index(items, k);
            match items[k].1 {
                ReadNode::Leaf(o, m) => {
                    assert(!group_names(es).contains(n)) by {
                        if exists|i: int|
                            0 <= i < es.len() && (#[trigger] es[i]).path.len() >= 2 && es[i].path[0]
                                == n {
                            let i = choose|i: int|
                                0 <= i < es.len() && (#[trigger] es[i]).path.len() >= 2
                                    && es[i].path[0] == n;
                            let kk = choose|kk: int|
                                0 <= kk < items.len() && (#[trigger] items[kk]).1 is Nested
                                    && items[kk].0 == es[i].path[0];
                            assert(kk == k);
                        }
                    }
                    if group_names(es).len() != 0 {
                        let gs = groups_of(es);
                        assert forall|j: int| 0 <= j < gs.len() implies (#[trigger] gs[j]).0 != n by {
                            assert(gs[j] == (group_names(es)[j], group_of(es, group_names(es)[j])));
                            assert(group_names(es).contains(group_names(es)[j]));
                        }
                        crate::model::lemma_group_fold_frame(s, after, gs, n);
                    }
                    assert(!after.dom().contains(n));
                },
                ReadNode::Nested(o, sub) => {
                    lemma_read_ok_at(s, items, fuel, k);
                    lemma_ld_head_exists(s, items, fuel, k, n, o, sub);
                    assert(group_names(es).contains(n));
                    let kk = choose|kk: int|
                        0 <= kk < group_names(es).len() && group_names(es)[kk] == n;
                    lemma_apply_at_group_name(s, base, es, kk);
                    assert(after.dom().contains(n) && after[n] == (o, MODE_TREE));
                    assert(map_item(after, n) == Some((o, MODE_TREE)));
                    assert(resolve_dir_item(s, map_item(after, n)) == read_map(sub));
                    lemma_ld_group_at(s, items, fuel, k, n, o, sub);
                    lemma_leaf_delete_all(s, sub, (fuel - 1) as nat);
                    assert(!result.dom().contains(n));
                },
            }
        } else {
            lemma_read_map_absent(items, n);
            assert(!group_names(es).contains(n)) by {
                if exists|i: int|
                    0 <= i < es.len() && (#[trigger] es[i]).path.len() >= 2 && es[i].path[0] == n {
                    let i = choose|i: int|
                        0 <= i < es.len() && (#[trigger] es[i]).path.len() >= 2 && es[i].path[0]
                            == n;
                    let kk = choose|kk: int|
                        0 <= kk < items.len() && (#[trigger] items[kk]).1 is Nested && items[kk].0
                            == es[i].path[0];
                    assert(items[kk].0 == n);
                }
            }
            if group_names(es).len() != 0 {
                let gs = groups_of(es);
                assert forall|j: int| 0 <= j < gs.len() implies (#[trigger] gs[j]).0 != n by {
                    assert(gs[j] == (group_names(es)[j], group_of(es, group_names(es)[j])));
                    assert(group_names(es).contains(group_names(es)[j]));
                }
                crate::model::lemma_group_fold_frame(s, after, gs, n);
            }
            assert(!after.dom().contains(n));
        }
    }
    assert(result =~= empty_tree_map());
}

/// A nested entry's name heads at least one deep deletion of the
/// deletion batch.
proof fn lemma_ld_head_exists(
    s: StoreV,
    items: Seq<(Seq<u8>, ReadNode)>,
    fuel: nat,
    k: int,
    n: Seq<u8>,
    o: Seq<u8>,
    sub: Seq<(Seq<u8>, ReadNode)>,
)
    requires
        read_ok(s, items, fuel),
        0 <= k < items.len(),
        items[k] == (n, ReadNode::Nested(o, sub)),
    ensures
        exists|j: int|
            0 <= j < leaf_deletions(items, fuel).len() && (#[trigger] leaf_deletions(
                items,
                fuel,
            )[j]).path.len() >= 2 && leaf_deletions(items, fuel)[j].path[0] == n,
    decreases items.len(),
{
    let pre = leaf_deletions(items.drop_last(), fuel);
    let es = leaf_deletions(items, fuel);
    assert(items[items.len() - 1] == items.last());
    if k < items.len() - 1 {
        assert(items.drop_last()[k] == items[k]);
        lemma_ld_head_exists(s, items.drop_last(), fuel, k, n, o, sub);
        let j = choose|j: int|
            0 <= j < pre.len() && (#[trigger] pre[j]).path.len() >= 2 && pre[j].path[0] == n;
        assert(es[j] == pre[j]);
        assert(es[j].path.len() >= 2 && es[j].path[0] == n);
    } else {
        lemma_read_ok_at(s, items, fuel, k);
        assert(fuel > 0);
        lemma_ld_nonempty(s, sub, (fuel - 1) as nat);
        let xs = leaf_deletions(sub, (fuel - 1) as nat);
        lemma_prefix_paths_index(n, xs);
        lemma_ld_shape(sub, (fuel - 1) as nat);
        let j = pre.len() as int;
        assert(es[j] == prefix_paths(n, xs)[0]);
        assert(es[j].path == seq![n] + xs[0].path);
        assert(xs[0].path.len() >= 1);
        assert(es[j].path.len() >= 2 && es[j].path[0] == n);
    }
}

/// A faithful reading of anything at all yields at least one
/// deletion.
proof fn lemma_ld_nonempty(s: StoreV, items: Seq<(Seq<u8>, ReadNode)>, fuel: nat)
    requires
        read_ok(s, items, fuel),
        items.len() > 0,
    ensures
        leaf_deletions(items, fuel).len() > 0,
    decreases fuel, items.len(),
{
    if items.len() > 1 {
        lemma_ld_nonempty(s, items.drop_last(), fuel);
        let pre = leaf_deletions(items.drop_last(), fuel);
        assert(leaf_deletions(items, fuel).len() >= pre.len());
    } else {
        let pre = leaf_deletions(items.drop_last(), fuel);
        match items.last().1 {
            ReadNode::Leaf(_, _) => {},
            ReadNode::Nested(o, sub) => {
                lemma_read_ok_at(s, items, fuel, items.len() - 1);
                assert(items[items.len() - 1] == items.last());
                lemma_ld_nonempty(s, sub, (fuel - 1) as nat);
                lemma_prefix_paths_index(items.last().0, leaf_deletions(sub, (fuel - 1) as nat));
            },
        }
    }
}

/// Directory collapse at any depth: when a bucket's edits delete
/// every leaf path of the subtree it rebuilds — given by a faithful
/// reading of that subtree — the directory's own entry disappears
/// from the hydrated tree.
pub proof fn lemma_directory_collapse_deep(
    s: StoreV,
    base: TreeMapV,
    es: Seq<EditV>,
    k: int,
    items: Seq<(Seq<u8>, ReadNode)>,
    fuel: nat,
)
    requires
        store_wf(s),
        read_ok(s, items, fuel),
        0 <= k < group_names(es).len(),
        ({
            let n = group_names(es)[k];
            let after = fold_direct(base, direct_edits(es));
            &&& resolve_dir_item(s, map_item(after, n)) == read_map(items)
            &&& group_of(es, n) == leaf_deletions(items, fuel)
        }),
    ensures
        !apply_edits(s, base, es).dom().contains(group_names(es)[k]),
{
    lemma_apply_at_group_name(s, base, es, k);
    lemma_leaf_delete_all(s, items, fuel);
}

} // verus!
