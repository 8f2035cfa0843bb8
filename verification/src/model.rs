//! The mathematical model of trees, stores and edit batches.
//!
//! A tree is modelled as a finite map from entry name (a byte string)
//! to an `(object id, file mode)` pair; a store as the map of all tree
//! objects it can resolve, together with the set of blobs it holds.
//! Everything the executable engine promises is stated over these
//! types.

use vstd::prelude::*;

use crate::store::{entry_accepted, store_le, store_wf, tree_hash, tree_wf_in};

verus! {

/// Raw git file mode of a nested tree (directory) entry.
pub const MODE_TREE: u32 = 0o040000;

/// Raw git file mode of a regular file entry.
pub const MODE_BLOB: u32 = 0o100644;

/// Raw git file mode of a group-writable file entry (historical; the
/// store refuses to write it into new trees).
pub const MODE_BLOB_GROUP_WRITABLE: u32 = 0o100664;

/// Raw git file mode of an executable file entry.
pub const MODE_BLOB_EXECUTABLE: u32 = 0o100755;

/// Raw git file mode of a symbolic link entry.
pub const MODE_LINK: u32 = 0o120000;

/// Raw git file mode of a submodule (commit-link) entry.
pub const MODE_COMMIT: u32 = 0o160000;

/// The modes a tree entry may carry in a newly written tree.
pub open spec fn valid_entry_mode(m: u32) -> bool {
    ||| m == MODE_TREE
    ||| m == MODE_BLOB
    ||| m == MODE_BLOB_EXECUTABLE
    ||| m == MODE_LINK
    ||| m == MODE_COMMIT
}

/// An entry is tree-typed exactly when it carries the tree mode; this
/// is also how the object kind is derived from a mode.
pub open spec fn is_tree_mode(m: u32) -> bool {
    m == MODE_TREE
}

/// Model of one tree entry: a name, the id of the object it points at,
/// and its raw file mode.
pub ghost struct EntryV {
    pub name: Seq<u8>,
    pub oid: Seq<u8>,
    pub mode: u32,
}

/// Model of one tree: entries keyed by name.
pub type TreeMapV = Map<Seq<u8>, (Seq<u8>, u32)>;

/// Model of the object store: the trees it resolves and the blobs it
/// holds.
pub ghost struct StoreV {
    pub trees: Map<Seq<u8>, TreeMapV>,
    pub blobs: Set<Seq<u8>>,
}

/// Model of one edit: a relative path (a sequence of name segments)
/// mapped to either a new `(id, mode)` value or to a deletion.
pub ghost struct EditV {
    pub path: Seq<Seq<u8>>,
    pub val: Option<(Seq<u8>, u32)>,
}

/// The tree map described by an entry list; a later entry overrides an
/// earlier one of the same name, as a tree builder's map does.
pub open spec fn entry_map(es: Seq<EntryV>) -> TreeMapV
    decreases es.len(),
{
    if es.len() == 0 {
        Map::empty()
    } else {
        entry_map(es.drop_last()).insert(es.last().name, (es.last().oid, es.last().mode))
    }
}

/// No two entries of the list share a name.
pub open spec fn distinct_names(es: Seq<EntryV>) -> bool {
    forall|i: int, j: int| 0 <= i < j < es.len() ==> es[i].name != es[j].name
}

/// With distinct names, the entry map holds exactly the listed entries.
pub proof fn lemma_entry_map_index(es: Seq<EntryV>, i: int)
    requires
        distinct_names(es),
        0 <= i < es.len(),
    ensures
        entry_map(es).dom().contains(es[i].name),
        entry_map(es)[es[i].name] == (es[i].oid, es[i].mode),
    decreases es.len(),
{
    if i < es.len() - 1 {
        lemma_entry_map_index(es.drop_last(), i);
    }
}

/// A name no entry of the list carries is absent from the entry map.
pub proof fn lemma_entry_map_absent(es: Seq<EntryV>, n: Seq<u8>)
    requires
        forall|i: int| 0 <= i < es.len() ==> (#[trigger] es[i].name) != n,
    ensures
        !entry_map(es).dom().contains(n),
    decreases es.len(),
{
    if es.len() > 0 {
        assert(es[es.len() - 1].name != n);
        lemma_entry_map_absent(es.drop_last(), n);
    }
}

/// Every key of the entry map names some listed entry.
pub proof fn lemma_entry_map_dom(es: Seq<EntryV>, n: Seq<u8>)
    requires
        entry_map(es).dom().contains(n),
    ensures
        exists|i: int| 0 <= i < es.len() && es[i].name == n,
    decreases es.len(),
{
    if es.len() > 0 && es.last().name != n {
        lemma_entry_map_dom(es.drop_last(), n);
        let i = choose|i: int| 0 <= i < es.drop_last().len() && es.drop_last()[i].name == n;
        assert(es[i].name == n);
    }
}

/// The `(id, mode)` pair reached by descending `path` from the
/// optional tree `t`, resolving nested trees through the store `s`.
/// Descent stops (yielding nothing) at a missing name, at an entry that
/// is not tree-typed, or at a tree id the store does not resolve.
pub open spec fn node_at(s: StoreV, t: Option<TreeMapV>, path: Seq<Seq<u8>>) -> Option<(Seq<u8>, u32)>
    decreases path.len(),
{
    if path.len() == 0 {
        None
    } else {
        match t {
            None => None,
            Some(m) => {
                if !m.dom().contains(path[0]) {
                    None
                } else if path.len() == 1 {
                    Some(m[path[0]])
                } else {
                    let (o, md) = m[path[0]];
                    if is_tree_mode(md) && s.trees.dom().contains(o) {
                        node_at(s, Some(s.trees[o]), path.subrange(1, path.len() as int))
                    } else {
                        None
                    }
                }
            },
        }
    }
}

/// Whether a pair of nodes found at the same path counts as a change.
/// A path present on exactly one side is a change unless it is a
/// directory (a directory's own path stands for its contents, which
/// are reported individually); two files differ when their `(id,
/// mode)` pairs differ; a file facing a directory is always a change;
/// two directories differ only in their mode, never in their id alone,
/// since an id difference surfaces through the paths below them.
pub open spec fn changed_sig(a: Option<(Seq<u8>, u32)>, b: Option<(Seq<u8>, u32)>) -> bool {
    match (a, b) {
        (None, None) => false,
        (Some((_, m)), None) => !is_tree_mode(m),
        (None, Some((_, m))) => !is_tree_mode(m),
        (Some((o1, m1)), Some((o2, m2))) => {
            if is_tree_mode(m1) && is_tree_mode(m2) {
                m1 != m2
            } else if !is_tree_mode(m1) && !is_tree_mode(m2) {
                o1 != o2 || m1 != m2
            } else {
                true
            }
        },
    }
}

/// Whether `path` is a changed path between the two optional trees.
pub open spec fn pair_changed(
    s: StoreV,
    lhs: Option<TreeMapV>,
    rhs: Option<TreeMapV>,
    path: Seq<Seq<u8>>,
) -> bool {
    path.len() >= 1 && changed_sig(node_at(s, lhs, path), node_at(s, rhs, path))
}

/// The entry a tree map holds for a name, if any.
pub open spec fn map_item(t: TreeMapV, n: Seq<u8>) -> Option<(Seq<u8>, u32)> {
    if t.dom().contains(n) {
        Some(t[n])
    } else {
        None
    }
}

/// The entry a tree map holds for a name, if any; an absent tree
/// holds nothing.
pub open spec fn item_of(t: Option<TreeMapV>, n: Seq<u8>) -> Option<(Seq<u8>, u32)> {
    match t {
        Some(m) => if m.dom().contains(n) {
            Some(m[n])
        } else {
            None
        },
        None => None,
    }
}

/// The tree to descend into past an entry: the tree a tree-typed
/// entry resolves to, nothing otherwise.
pub open spec fn resolve_opt(s: StoreV, item: Option<(Seq<u8>, u32)>) -> Option<TreeMapV> {
    match item {
        Some((o, m)) => if is_tree_mode(m) && s.trees.dom().contains(o) {
            Some(s.trees[o])
        } else {
            None
        },
        None => None,
    }
}

/// A one-segment descent reads the entry itself.
pub proof fn lemma_node_at_unit(s: StoreV, t: Option<TreeMapV>, p: Seq<Seq<u8>>)
    requires
        p.len() == 1,
    ensures
        node_at(s, t, p) == item_of(t, p[0]),
{
}

/// A longer descent goes through the first entry's tree.
pub proof fn lemma_node_at_step(s: StoreV, t: Option<TreeMapV>, p: Seq<Seq<u8>>)
    requires
        p.len() >= 2,
    ensures
        node_at(s, t, p) == node_at(
            s,
            resolve_opt(s, item_of(t, p[0])),
            p.subrange(1, p.len() as int),
        ),
{
    match t {
        None => {},
        Some(m) => {
            if m.dom().contains(p[0]) {
                let (o, md) = m[p[0]];
                if is_tree_mode(md) && s.trees.dom().contains(o) {
                } else {
                    assert(resolve_opt(s, item_of(t, p[0])) is None);
                }
            }
        },
    }
}

/// Nothing changes between a tree and itself.
pub proof fn lemma_changed_same(s: StoreV, t: Option<TreeMapV>, p: Seq<Seq<u8>>)
    ensures
        !pair_changed(s, t, t, p),
{
}

/// Nothing changes between two absent trees.
pub proof fn lemma_changed_none(s: StoreV, p: Seq<Seq<u8>>)
    ensures
        !pair_changed(s, None, None, p),
{
}

/// An absent tree and the empty tree hold the same nodes.
pub proof fn lemma_node_at_none_empty(s: StoreV, p: Seq<Seq<u8>>)
    ensures
        node_at(s, Some(empty_tree_map()), p) == node_at(s, None, p),
{
}

/// A changed path's first segment names an entry on some side.
pub proof fn lemma_changed_head(s: StoreV, lhs: Option<TreeMapV>, rhs: Option<TreeMapV>, p: Seq<Seq<u8>>)
    requires
        pair_changed(s, lhs, rhs, p),
    ensures
        item_of(lhs, p[0]) is Some || item_of(rhs, p[0]) is Some,
{
    if item_of(lhs, p[0]) is None && item_of(rhs, p[0]) is None {
        if p.len() == 1 {
            lemma_node_at_unit(s, lhs, p);
            lemma_node_at_unit(s, rhs, p);
        } else {
            lemma_node_at_step(s, lhs, p);
            lemma_node_at_step(s, rhs, p);
        }
        assert(node_at(s, lhs, p) is None);
        assert(node_at(s, rhs, p) is None);
    }
}

/// The empty tree map.
pub open spec fn empty_tree_map() -> TreeMapV {
    Map::empty()
}

/// The larger of two naturals.
pub open spec fn nat_max(a: nat, b: nat) -> nat {
    if a >= b {
        a
    } else {
        b
    }
}

/// The direct edits of a batch: those whose path is a single segment,
/// reduced to `(name, value)`, in batch order.
pub open spec fn direct_edits(es: Seq<EditV>) -> Seq<(Seq<u8>, Option<(Seq<u8>, u32)>)>
    decreases es.len(),
{
    if es.len() == 0 {
        Seq::empty()
    } else {
        let pre = direct_edits(es.drop_last());
        let e = es.last();
        if e.path.len() == 1 {
            pre.push((e.path[0], e.val))
        } else {
            pre
        }
    }
}

/// The first segments of the deep edits of a batch, each once, in
/// order of first occurrence.
pub open spec fn group_names(es: Seq<EditV>) -> Seq<Seq<u8>>
    decreases es.len(),
{
    if es.len() == 0 {
        Seq::empty()
    } else {
        let pre = group_names(es.drop_last());
        let e = es.last();
        if e.path.len() >= 2 && !pre.contains(e.path[0]) {
            pre.push(e.path[0])
        } else {
            pre
        }
    }
}

/// The deep edits of a batch whose path starts with `n`, with that
/// first segment stripped, in batch order.
pub open spec fn group_of(es: Seq<EditV>, n: Seq<u8>) -> Seq<EditV>
    decreases es.len(),
{
    if es.len() == 0 {
        Seq::empty()
    } else {
        let pre = group_of(es.drop_last(), n);
        let e = es.last();
        if e.path.len() >= 2 && e.path[0] == n {
            pre.push(EditV { path: e.path.subrange(1, e.path.len() as int), val: e.val })
        } else {
            pre
        }
    }
}

/// The deep edits of a batch, bucketed by first segment.
pub open spec fn groups_of(es: Seq<EditV>) -> Seq<(Seq<u8>, Seq<EditV>)> {
    group_names(es).map_values(|n: Seq<u8>| (n, group_of(es, n)))
}

/// The longest path of a batch, in segments.
pub open spec fn edits_depth(es: Seq<EditV>) -> nat
    decreases es.len(),
{
    if es.len() == 0 {
        0
    } else {
        nat_max(edits_depth(es.drop_last()), es.last().path.len())
    }
}

/// The longest path found in any bucket of a grouped batch.
pub open spec fn groups_depth(gs: Seq<(Seq<u8>, Seq<EditV>)>) -> nat
    decreases gs.len(),
{
    if gs.len() == 0 {
        0
    } else {
        nat_max(groups_depth(gs.drop_last()), edits_depth(gs.last().1))
    }
}

/// One direct edit applied to a tree map: a value upserts the named
/// entry, a deletion removes it (silently when it is absent).
pub open spec fn apply_direct(t: TreeMapV, d: (Seq<u8>, Option<(Seq<u8>, u32)>)) -> TreeMapV {
    match d.1 {
        Some(v) => t.insert(d.0, v),
        None => t.remove(d.0),
    }
}

/// A list of direct edits applied to a tree map, in order.
pub open spec fn fold_direct(t: TreeMapV, ds: Seq<(Seq<u8>, Option<(Seq<u8>, u32)>)>) -> TreeMapV
    decreases ds.len(),
{
    if ds.len() == 0 {
        t
    } else {
        apply_direct(fold_direct(t, ds.drop_last()), ds.last())
    }
}

/// The tree an entry found in the evolving map offers as the base for
/// a nested batch: the tree it resolves to when it is tree-typed and
/// the store resolves it, and the empty tree otherwise (a non-tree
/// entry at that name is superseded, not descended into).
pub open spec fn resolve_dir_item(s: StoreV, item: Option<(Seq<u8>, u32)>) -> TreeMapV {
    match item {
        Some((o, m)) => if is_tree_mode(m) && s.trees.dom().contains(o) {
            s.trees[o]
        } else {
            empty_tree_map()
        },
        None => empty_tree_map(),
    }
}

/// The entry map of the tree that hydrating `base` with the batch
/// `es` describes: direct edits apply first, then each bucket of
/// deeper edits rebuilds the subtree at its name, whose entry is
/// dropped entirely when the rebuilt subtree is empty and points at
/// the rebuilt subtree's id otherwise. Edits with an empty path are
/// ignored. Resolution of nested trees goes through the store `s`.
pub open spec fn apply_edits(s: StoreV, base: TreeMapV, es: Seq<EditV>) -> TreeMapV
    decreases edits_depth(es), 0nat, 0nat,
        via apply_edits_decreases
{
    if group_names(es).len() == 0 {
        fold_direct(base, direct_edits(es))
    } else {
        group_fold(s, fold_direct(base, direct_edits(es)), groups_of(es))
    }
}

/// One bucket after another applied to the evolving tree map.
pub open spec fn group_fold(s: StoreV, t: TreeMapV, gs: Seq<(Seq<u8>, Seq<EditV>)>) -> TreeMapV
    decreases groups_depth(gs), 1nat, gs.len(),
{
    if gs.len() == 0 {
        t
    } else {
        let t1 = group_fold(s, t, gs.drop_last());
        let (n, ges) = gs.last();
        let item = if t1.dom().contains(n) {
            Some(t1[n])
        } else {
            None
        };
        let sub = apply_edits(s, resolve_dir_item(s, item), ges);
        if sub == empty_tree_map() {
            t1.remove(n)
        } else {
            t1.insert(n, (tree_hash(sub), MODE_TREE))
        }
    }
}

#[via_fn]
proof fn apply_edits_decreases(s: StoreV, base: TreeMapV, es: Seq<EditV>) {
    if group_names(es).len() != 0 {
        lemma_groups_of_depth_lt(es);
    }
}

/// Every edit of a batch is no longer than the batch's depth.
pub proof fn lemma_edits_depth_ge(es: Seq<EditV>, i: int)
    requires
        0 <= i < es.len(),
    ensures
        es[i].path.len() <= edits_depth(es),
    decreases es.len(),
{
    if i < es.len() - 1 {
        lemma_edits_depth_ge(es.drop_last(), i);
    }
}

/// A batch whose edits all fit in `k` segments has depth at most `k`.
pub proof fn lemma_edits_depth_le(es: Seq<EditV>, k: nat)
    requires
        forall|i: int| 0 <= i < es.len() ==> (#[trigger] es[i].path.len()) <= k,
    ensures
        edits_depth(es) <= k,
    decreases es.len(),
{
    if es.len() > 0 {
        lemma_edits_depth_le(es.drop_last(), k);
    }
}

/// Members of a bucket are the matching deep edits, stripped.
pub proof fn lemma_group_of_members(es: Seq<EditV>, n: Seq<u8>, j: int)
    requires
        0 <= j < group_of(es, n).len(),
    ensures
        exists|i: int|
            0 <= i < es.len() && es[i].path.len() >= 2 && es[i].path[0] == n && group_of(es, n)[j]
                == (EditV { path: es[i].path.subrange(1, es[i].path.len() as int), val: es[i].val }),
    decreases es.len(),
{
    if es.len() > 0 {
        let e = es.last();
        let pre = group_of(es.drop_last(), n);
        if e.path.len() >= 2 && e.path[0] == n && j == pre.len() {
            assert(es[es.len() - 1] == e);
        } else {
            lemma_group_of_members(es.drop_last(), n, j);
            let i = choose|i: int|
                0 <= i < es.drop_last().len() && es.drop_last()[i].path.len() >= 2
                    && es.drop_last()[i].path[0] == n && group_of(es.drop_last(), n)[j] == (EditV {
                    path: es.drop_last()[i].path.subrange(
                        1,
                        es.drop_last()[i].path.len() as int,
                    ),
                    val: es.drop_last()[i].val,
                });
            assert(es[i] == es.drop_last()[i]);
        }
    }
}

/// A bucket of a batch is strictly shallower than the batch.
pub proof fn lemma_group_of_depth(es: Seq<EditV>, n: Seq<u8>)
    requires
        edits_depth(es) >= 1,
    ensures
        edits_depth(group_of(es, n)) < edits_depth(es),
{
    let g = group_of(es, n);
    assert forall|j: int| 0 <= j < g.len() implies (#[trigger] g[j].path.len()) <= edits_depth(es)
        - 1 by {
        lemma_group_of_members(es, n, j);
        let i = choose|i: int|
            0 <= i < es.len() && es[i].path.len() >= 2 && es[i].path[0] == n && g[j] == (EditV {
                path: es[i].path.subrange(1, es[i].path.len() as int),
                val: es[i].val,
            });
        lemma_edits_depth_ge(es, i);
    }
    lemma_edits_depth_le(g, (edits_depth(es) - 1) as nat);
}

/// Bucketed depth is bounded by the per-bucket depths.
pub proof fn lemma_groups_depth_le(gs: Seq<(Seq<u8>, Seq<EditV>)>, k: nat)
    requires
        forall|i: int| 0 <= i < gs.len() ==> edits_depth((#[trigger] gs[i]).1) <= k,
    ensures
        groups_depth(gs) <= k,
    decreases gs.len(),
{
    if gs.len() > 0 {
        lemma_groups_depth_le(gs.drop_last(), k);
        assert(gs[gs.len() - 1] == gs.last());
    }
}

/// A batch with buckets is strictly deeper than any of them.
pub proof fn lemma_groups_of_depth_lt(es: Seq<EditV>)
    requires
        group_names(es).len() != 0,
    ensures
        groups_depth(groups_of(es)) < edits_depth(es),
{
    lemma_group_names_member(es);
    let i = choose|i: int| 0 <= i < es.len() && es[i].path.len() >= 2;
    lemma_edits_depth_ge(es, i);
    let gs = groups_of(es);
    assert forall|k: int| 0 <= k < gs.len() implies edits_depth((#[trigger] gs[k]).1) <= (
    edits_depth(es) - 1) as nat by {
        lemma_group_of_depth(es, group_names(es)[k]);
    }
    lemma_groups_depth_le(gs, (edits_depth(es) - 1) as nat);
}

/// A batch with bucket names holds a deep edit.
pub proof fn lemma_group_names_member(es: Seq<EditV>)
    requires
        group_names(es).len() != 0,
    ensures
        exists|i: int| 0 <= i < es.len() && (#[trigger] es[i].path.len()) >= 2,
    decreases es.len(),
{
    if es.len() > 0 {
        if es.last().path.len() >= 2 {
            assert(es[es.len() - 1].path.len() >= 2);
        } else {
            lemma_group_names_member(es.drop_last());
            let i = choose|i: int|
                0 <= i < es.drop_last().len() && (#[trigger] es.drop_last()[i].path.len()) >= 2;
            assert(es[i].path.len() >= 2);
        }
    }
}

/// Bucket names never repeat.
pub proof fn lemma_group_names_distinct(es: Seq<EditV>)
    ensures
        forall|i: int, j: int|
            0 <= i < j < group_names(es).len() ==> group_names(es)[i] != group_names(es)[j],
    decreases es.len(),
{
    if es.len() > 0 {
        lemma_group_names_distinct(es.drop_last());
        let pre = group_names(es.drop_last());
        let full = group_names(es);
        if full.len() > pre.len() {
            assert forall|i: int, j: int| 0 <= i < j < full.len() implies full[i] != full[j] by {
                if j == full.len() - 1 {
                    assert(pre.contains(pre[i]));
                }
            }
        }
    }
}

/// Appending one edit extends the direct list exactly when the edit
/// is direct.
pub proof fn lemma_direct_edits_push(es: Seq<EditV>, e: EditV)
    ensures
        direct_edits(es.push(e)) == if e.path.len() == 1 {
            direct_edits(es).push((e.path[0], e.val))
        } else {
            direct_edits(es)
        },
{
    assert(es.push(e).drop_last() =~= es);
    assert(es.push(e).last() == e);
}

/// Appending one edit extends the bucket names exactly when the edit
/// is deep and its head is new.
pub proof fn lemma_group_names_push(es: Seq<EditV>, e: EditV)
    ensures
        group_names(es.push(e)) == if e.path.len() >= 2 && !group_names(es).contains(e.path[0]) {
            group_names(es).push(e.path[0])
        } else {
            group_names(es)
        },
{
    assert(es.push(e).drop_last() =~= es);
    assert(es.push(e).last() == e);
}

/// Appending one edit extends one bucket exactly when the edit is
/// deep and heads there.
pub proof fn lemma_group_of_push(es: Seq<EditV>, e: EditV, n: Seq<u8>)
    ensures
        group_of(es.push(e), n) == if e.path.len() >= 2 && e.path[0] == n {
            group_of(es, n).push(EditV { path: e.path.subrange(1, e.path.len() as int), val: e.val })
        } else {
            group_of(es, n)
        },
{
    assert(es.push(e).drop_last() =~= es);
    assert(es.push(e).last() == e);
}

/// Names outside the buckets pass through a bucket fold untouched.
pub proof fn lemma_group_fold_frame(s: StoreV, t: TreeMapV, gs: Seq<(Seq<u8>, Seq<EditV>)>, m: Seq<u8>)
    requires
        forall|k: int| 0 <= k < gs.len() ==> (#[trigger] gs[k]).0 != m,
    ensures
        group_fold(s, t, gs).dom().contains(m) == t.dom().contains(m),
        t.dom().contains(m) ==> group_fold(s, t, gs)[m] == t[m],
    decreases gs.len(),
{
    if gs.len() > 0 {
        assert(gs[gs.len() - 1] == gs.last());
        lemma_group_fold_frame(s, t, gs.drop_last(), m);
    }
}

/// A tree map is anchored in a store when every tree-typed entry of
/// it resolves there.
pub open spec fn anchored_map(t: TreeMapV, s: StoreV) -> bool {
    forall|n: Seq<u8>|
        #[trigger] t.dom().contains(n) && is_tree_mode(t[n].1) ==> s.trees.dom().contains(t[n].0)
}

/// An edit value whose tree-typed id, if any, resolves in the store.
pub open spec fn edit_val_ok(v: Option<(Seq<u8>, u32)>, s: StoreV) -> bool {
    match v {
        Some((o, m)) => is_tree_mode(m) ==> s.trees.dom().contains(o),
        None => true,
    }
}

/// Every tree-typed value of an edit batch resolves in the store.
pub open spec fn edit_oids_in(es: Seq<EditV>, s: StoreV) -> bool {
    forall|i: int| 0 <= i < es.len() ==> edit_val_ok((#[trigger] es[i]).val, s)
}

/// The direct list's values come from the batch.
pub proof fn lemma_direct_edits_members(es: Seq<EditV>, j: int)
    requires
        0 <= j < direct_edits(es).len(),
    ensures
        exists|i: int|
            0 <= i < es.len() && (#[trigger] es[i].path.len()) == 1 && direct_edits(es)[j] == (
            es[i].path[0],
            es[i].val,
            ),
    decreases es.len(),
{
    if es.len() > 0 {
        let e = es.last();
        let pre = direct_edits(es.drop_last());
        if e.path.len() == 1 && j == pre.len() {
            assert(es[es.len() - 1] == e);
        } else {
            lemma_direct_edits_members(es.drop_last(), j);
            let i = choose|i: int|
                0 <= i < es.drop_last().len() && (#[trigger] es.drop_last()[i].path.len()) == 1
                    && direct_edits(es.drop_last())[j] == (
                es.drop_last()[i].path[0],
                es.drop_last()[i].val,
                );
            assert(es[i].path.len() == 1 && direct_edits(es)[j] == (es[i].path[0], es[i].val));
        }
    }
}

/// Folding direct edits keeps a map anchored, when the batch's values
/// resolve.
pub proof fn lemma_fold_direct_anchored(t: TreeMapV, es: Seq<EditV>, s: StoreV)
    requires
        anchored_map(t, s),
        edit_oids_in(es, s),
    ensures
        anchored_map(fold_direct(t, direct_edits(es)), s),
{
    let ds = direct_edits(es);
    assert forall|j: int| 0 <= j < ds.len() implies exists|i: int|
        0 <= i < es.len() && (#[trigger] ds[j]).1 == es[i].val by {
        lemma_direct_edits_members(es, j);
        let i = choose|i: int|
            0 <= i < es.len() && (#[trigger] es[i].path.len()) == 1 && ds[j] == (
            es[i].path[0],
            es[i].val,
            );
        assert(ds[j].1 == es[i].val);
    }
    lemma_fold_direct_anchored_inner(t, es, ds, s);
}

proof fn lemma_fold_direct_anchored_inner(t: TreeMapV, es: Seq<EditV>, ds: Seq<(Seq<u8>, Option<(Seq<u8>, u32)>)>, s: StoreV)
    requires
        anchored_map(t, s),
        edit_oids_in(es, s),
        forall|j: int|
            0 <= j < ds.len() ==> exists|i: int|
                0 <= i < es.len() && (#[trigger] ds[j]).1 == es[i].val,
    ensures
        anchored_map(fold_direct(t, ds), s),
    decreases ds.len(),
{
    if ds.len() > 0 {
        lemma_fold_direct_anchored_inner(t, es, ds.drop_last(), s);
        let t1 = fold_direct(t, ds.drop_last());
        let d = ds.last();
        assert(ds[ds.len() - 1] == d);
        match d.1 {
            Some(v) => {
                assert(exists|i: int| 0 <= i < es.len() && (#[trigger] ds[ds.len() - 1]).1 == es[i].val);
                let i = choose|i: int| 0 <= i < es.len() && ds[ds.len() - 1].1 == (#[trigger] es[i].val);
                assert(edit_val_ok(es[i].val, s));
                assert forall|n: Seq<u8>|
                    #[trigger] fold_direct(t, ds).dom().contains(n) && is_tree_mode(
                        fold_direct(t, ds)[n].1,
                    ) implies s.trees.dom().contains(fold_direct(t, ds)[n].0) by {
                    if n != d.0 {
                        assert(t1.dom().contains(n) && is_tree_mode(t1[n].1));
                    }
                }
            },
            None => {
                assert forall|n: Seq<u8>|
                    #[trigger] fold_direct(t, ds).dom().contains(n) && is_tree_mode(
                        fold_direct(t, ds)[n].1,
                    ) implies s.trees.dom().contains(fold_direct(t, ds)[n].0) by {
                    assert(t1.dom().contains(n) && is_tree_mode(t1[n].1));
                }
            },
        }
    }
}

/// Appending an entry upserts it into the entry map.
pub proof fn lemma_entry_map_push(es: Seq<EntryV>, e: EntryV)
    ensures
        entry_map(es.push(e)) == entry_map(es).insert(e.name, (e.oid, e.mode)),
{
    assert(es.push(e).drop_last() =~= es);
    assert(es.push(e).last() == e);
}

/// Replacing the entry of a name upserts its value in the entry map.
pub proof fn lemma_entry_map_update(es: Seq<EntryV>, i: int, e: EntryV)
    requires
        distinct_names(es),
        0 <= i < es.len(),
        es[i].name == e.name,
    ensures
        entry_map(es.update(i, e)) == entry_map(es).insert(e.name, (e.oid, e.mode)),
        distinct_names(es.update(i, e)),
    decreases es.len(),
{
    assert forall|j: int| 0 <= j < es.len() implies (#[trigger] es.update(i, e)[j]).name
        == es[j].name by {}
    if i == es.len() - 1 {
        assert(es.update(i, e).drop_last() =~= es.drop_last());
        assert(es.update(i, e).last() == e);
        assert(entry_map(es.update(i, e)) =~= entry_map(es).insert(e.name, (e.oid, e.mode)));
    } else {
        assert(es.update(i, e).drop_last() =~= es.drop_last().update(i, e));
        assert(es.update(i, e).last() == es.last());
        lemma_entry_map_update(es.drop_last(), i, e);
        assert(es.last().name != e.name);
        assert(entry_map(es.update(i, e)) =~= entry_map(es).insert(e.name, (e.oid, e.mode)));
    }
}

/// Taking an entry out removes its name from the entry map.
pub proof fn lemma_entry_map_remove_at(es: Seq<EntryV>, i: int)
    requires
        distinct_names(es),
        0 <= i < es.len(),
    ensures
        entry_map(es.remove(i)) == entry_map(es).remove(es[i].name),
        distinct_names(es.remove(i)),
    decreases es.len(),
{
    assert forall|j: int| 0 <= j < es.remove(i).len() implies (#[trigger] es.remove(i)[j]).name
        == (if j < i {
        es[j].name
    } else {
        es[j + 1].name
    }) by {}
    if i == es.len() - 1 {
        assert(es.remove(i) =~= es.drop_last());
        lemma_entry_map_absent(es.drop_last(), es[i].name);
        assert(entry_map(es.remove(i)) =~= entry_map(es).remove(es[i].name));
    } else {
        assert(es.remove(i).drop_last() =~= es.drop_last().remove(i));
        assert(es.remove(i).last() == es.last());
        lemma_entry_map_remove_at(es.drop_last(), i);
        assert(es.last().name != es[i].name);
        assert(entry_map(es.remove(i)) =~= entry_map(es).remove(es[i].name));
    }
}

/// Removing a name the map does not hold changes nothing.
pub proof fn lemma_map_remove_absent(t: TreeMapV, n: Seq<u8>)
    requires
        !t.dom().contains(n),
    ensures
        t.remove(n) == t,
{
    assert(t.remove(n) =~= t);
}

/// Every entry of the map carries a mode git writes, and its
/// tree-typed entries resolve in the store.
pub open spec fn entries_ok(t: TreeMapV, s: StoreV) -> bool {
    forall|n: Seq<u8>| #[trigger] t.dom().contains(n) ==> valid_entry_mode(t[n].1) && (is_tree_mode(
        t[n].1,
    ) ==> s.trees.dom().contains(t[n].0))
}

/// Trees resolved from a well-formed store have well-formed entries.
pub proof fn lemma_store_tree_entries_ok(s: StoreV, o: Seq<u8>)
    requires
        store_wf(s),
        s.trees.dom().contains(o),
    ensures
        entries_ok(s.trees[o], s),
{
    assert(tree_wf_in(s, o));
    assert forall|n: Seq<u8>| #[trigger] s.trees[o].dom().contains(n) implies valid_entry_mode(
        s.trees[o][n].1,
    ) && (is_tree_mode(s.trees[o][n].1) ==> s.trees.dom().contains(s.trees[o][n].0)) by {
        assert(entry_accepted(
            s,
            EntryV { name: n, oid: s.trees[o][n].0, mode: s.trees[o][n].1 },
            o,
        ));
    }
}

/// Whatever a descent through a well-formed store finds carries a
/// mode git writes, and resolves there when it is tree-typed.
pub proof fn lemma_node_at_wf(s: StoreV, t: TreeMapV, p: Seq<Seq<u8>>)
    requires
        store_wf(s),
        entries_ok(t, s),
    ensures
        match node_at(s, Some(t), p) {
            Some(item) => valid_entry_mode(item.1) && (is_tree_mode(item.1)
                ==> s.trees.dom().contains(item.0)),
            None => true,
        },
    decreases p.len(),
{
    if p.len() >= 2 && t.dom().contains(p[0]) {
        let (o, md) = t[p[0]];
        if is_tree_mode(md) && s.trees.dom().contains(o) {
            lemma_store_tree_entries_ok(s, o);
            lemma_node_at_wf(s, s.trees[o], p.subrange(1, p.len() as int));
        }
    }
}

/// The edit batch dehydration builds: each requested path mapped to
/// whatever the source tree holds there, or to an explicit absence.
pub open spec fn dehydrate_edits(s: StoreV, t: TreeMapV, ps: Seq<Seq<Seq<u8>>>) -> Seq<EditV> {
    ps.map_values(|p: Seq<Seq<u8>>| EditV { path: p, val: node_at(s, Some(t), p) })
}

/// A tree resolved from a well-formed store is anchored in it.
pub proof fn lemma_store_tree_anchored(s: StoreV, o: Seq<u8>)
    requires
        store_wf(s),
        s.trees.dom().contains(o),
    ensures
        anchored_map(s.trees[o], s),
{
    assert(tree_wf_in(s, o));
    assert forall|n: Seq<u8>|
        #[trigger] s.trees[o].dom().contains(n) && is_tree_mode(s.trees[o][n].1)
            implies s.trees.dom().contains(s.trees[o][n].0) by {
        assert(entry_accepted(
            s,
            EntryV { name: n, oid: s.trees[o][n].0, mode: s.trees[o][n].1 },
            o,
        ));
    }
}

/// Hydration reads the store only through ids that resolve when it
/// starts, so growing the store cannot change its outcome.
pub proof fn lemma_apply_stable(s1: StoreV, s2: StoreV, t: TreeMapV, es: Seq<EditV>)
    requires
        store_wf(s1),
        store_le(s1, s2),
        anchored_map(t, s1),
        edit_oids_in(es, s1),
    ensures
        apply_edits(s2, t, es) == apply_edits(s1, t, es),
    decreases edits_depth(es), 0nat, 0nat,
{
    if group_names(es).len() != 0 {
        let after = fold_direct(t, direct_edits(es));
        lemma_fold_direct_anchored(t, es, s1);
        lemma_group_names_distinct(es);
        let gs = groups_of(es);
        assert forall|k: int| 0 <= k < gs.len() implies edit_oids_in((#[trigger] gs[k]).1, s1) by {
            lemma_group_of_oids_in(es, group_names(es)[k], s1);
        }
        assert forall|k: int|
            0 <= k < gs.len() && after.dom().contains((#[trigger] gs[k]).0) && is_tree_mode(
                after[gs[k].0].1,
            ) implies s1.trees.dom().contains(after[gs[k].0].0) by {
            assert(anchored_map(after, s1));
        }
        lemma_groups_of_depth_lt(es);
        lemma_group_fold_stable(s1, s2, after, gs);
    }
}

/// The bucket-by-bucket fold reads the store only at ids anchored in
/// the smaller store, so both stores fold alike.
pub proof fn lemma_group_fold_stable(
    s1: StoreV,
    s2: StoreV,
    t: TreeMapV,
    gs: Seq<(Seq<u8>, Seq<EditV>)>,
)
    requires
        store_wf(s1),
        store_le(s1, s2),
        forall|i: int, j: int| 0 <= i < j < gs.len() ==> (#[trigger] gs[i]).0 != (#[trigger] gs[j]).0,
        forall|k: int| 0 <= k < gs.len() ==> edit_oids_in((#[trigger] gs[k]).1, s1),
        forall|k: int|
            0 <= k < gs.len() && t.dom().contains((#[trigger] gs[k]).0) && is_tree_mode(
                t[gs[k].0].1,
            ) ==> s1.trees.dom().contains(t[gs[k].0].0),
    ensures
        group_fold(s2, t, gs) == group_fold(s1, t, gs),
    decreases groups_depth(gs), 1nat, gs.len(),
{
    if gs.len() > 0 {
        let pre = gs.drop_last();
        assert forall|k: int| 0 <= k < pre.len() implies edit_oids_in((#[trigger] pre[k]).1, s1)
            by {
            assert(pre[k] == gs[k]);
        }
        assert forall|k: int|
            0 <= k < pre.len() && t.dom().contains((#[trigger] pre[k]).0) && is_tree_mode(
                t[pre[k].0].1,
            ) implies s1.trees.dom().contains(t[pre[k].0].0) by {
            assert(pre[k] == gs[k]);
        }
        lemma_group_fold_stable(s1, s2, t, pre);
        let t1 = group_fold(s1, t, pre);
        let n = gs.last().0;
        let ges = gs.last().1;
        assert(gs[gs.len() - 1] == gs.last());
        assert forall|k: int| 0 <= k < pre.len() implies (#[trigger] pre[k]).0 != n by {
            assert(pre[k] == gs[k]);
        }
        lemma_group_fold_frame(s1, t, pre, n);
        let item = if t1.dom().contains(n) {
            Some(t1[n])
        } else {
            None
        };
        let sub_base = resolve_dir_item(s1, item);
        assert(resolve_dir_item(s2, item) == sub_base);
        assert(anchored_map(sub_base, s1)) by {
            match item {
                Some((o, m)) => {
                    if is_tree_mode(m) && s1.trees.dom().contains(o) {
                        lemma_store_tree_anchored(s1, o);
                    }
                },
                None => {},
            }
        }
        assert(edit_oids_in(ges, s1));
        assert(edits_depth(ges) <= groups_depth(gs));
        lemma_apply_stable(s1, s2, sub_base, ges);
    }
}

/// A bucket inherits the batch's resolving values.
pub proof fn lemma_group_of_oids_in(es: Seq<EditV>, n: Seq<u8>, s: StoreV)
    requires
        edit_oids_in(es, s),
    ensures
        edit_oids_in(group_of(es, n), s),
{
    let g = group_of(es, n);
    assert forall|j: int| 0 <= j < g.len() implies edit_val_ok((#[trigger] g[j]).val, s) by {
        lemma_group_of_members(es, n, j);
        let i = choose|i: int|
            0 <= i < es.len() && es[i].path.len() >= 2 && es[i].path[0] == n && g[j] == (EditV {
                path: es[i].path.subrange(1, es[i].path.len() as int),
                val: es[i].val,
            });
        assert(edit_val_ok(es[i].val, s));
    }
}

} // verus!
