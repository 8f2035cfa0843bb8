use branchless_trees::diff::get_changed_paths_between_trees;
use branchless_trees::entry::{FileMode, TreeEdit};
use branchless_trees::hydrate::{
    dehydrate_tree, hydrate_tree, make_empty_tree, malformed_edit_positions,
};
use branchless_trees::messages::InitialCommitMessages;
use branchless_trees::oid::Oid;
use branchless_trees::store::Store;
use branchless_trees::tree::Tree;

const EMPTY_TREE_HEX: &str = "4b825dc642cb6eb9a060e54bf8d69288fbee4904";

fn hex(o: &Oid) -> String {
    o.bytes.iter().map(|b| format!("{:02x}", b)).collect()
}

fn unhex(s: &str) -> Vec<u8> {
    (0..s.len() / 2).map(|i| u8::from_str_radix(&s[2 * i..2 * i + 2], 16).unwrap()).collect()
}

fn path(s: &str) -> Vec<Vec<u8>> {
    s.split('/').filter(|x| !x.is_empty()).map(|x| x.as_bytes().to_vec()).collect()
}

fn edit_set(p: &str, oid: &Oid, m: FileMode) -> TreeEdit {
    TreeEdit { path: path(p), value: Some((oid.duplicate(), m)) }
}

fn edit_del(p: &str) -> TreeEdit {
    TreeEdit { path: path(p), value: None }
}

fn dump_tree_entries(tree: &Tree) -> String {
    tree.entries
        .iter()
        .map(|e| format!("{:?} {}\n", String::from_utf8(e.name.clone()).unwrap(), hex(&e.oid)))
        .collect()
}

fn blob(store: &mut Store, contents: &[u8]) -> Oid {
    store.write_blob(&contents.to_vec()).unwrap()
}

/// The base snapshot the original tests build: `foo.txt`,
/// `bar/bar.txt`, `bar/baz.txt`, `xyzzy.txt` and `initial.txt`.
fn make_head_tree(store: &mut Store) -> Tree {
    let foo = blob(store, b"foo");
    let bar = blob(store, b"bar");
    let qux = blob(store, b"qux");
    let xyzzy = blob(store, b"xyzzy");
    let initial = blob(store, b"initial contents\n");
    let edits = vec![
        edit_set("foo.txt", &foo, FileMode::Blob),
        edit_set("bar/bar.txt", &bar, FileMode::Blob),
        edit_set("bar/baz.txt", &qux, FileMode::Blob),
        edit_set("xyzzy.txt", &xyzzy, FileMode::Blob),
        edit_set("initial.txt", &initial, FileMode::Blob),
    ];
    let oid = hydrate_tree(store, None, &edits).unwrap();
    store.find_tree(&oid).unwrap()
}

fn diff_paths(store: &Store, lhs: Option<&Tree>, rhs: Option<&Tree>) -> Vec<String> {
    let mut out: Vec<String> = get_changed_paths_between_trees(store, lhs, rhs)
        .unwrap()
        .into_iter()
        .map(|p| {
            p.into_iter()
                .map(|seg| String::from_utf8(seg).unwrap())
                .collect::<Vec<_>>()
                .join("/")
        })
        .collect();
    out.sort();
    out
}

#[test]
fn test_hydrate_tree() {
    let mut store = Store::in_memory().unwrap();
    let head_tree = make_head_tree(&mut store);
    assert_eq!(
        dump_tree_entries(&head_tree),
        "\"bar\" 778e23a1e80b1feb10e00b15b29a33315929c5b5\n\
         \"foo.txt\" 19102815663d23f8b75a47e7a01965dcdc96468c\n\
         \"initial.txt\" 63af22885f8665a312ba8b83db722134f1f8290d\n\
         \"xyzzy.txt\" 7c465afc533f95ff7d2c91e18921f94aac8292fc\n"
    );

    {
        let foo_oid = head_tree.get_oid_for_path(&store, &path("foo.txt")).unwrap();
        let edits = vec![
            TreeEdit { path: path("foo-copy.txt"), value: Some((foo_oid, FileMode::Blob)) },
            edit_del("foo.txt"),
        ];
        let hydrated = hydrate_tree(&mut store, Some(&head_tree), &edits).unwrap();
        let hydrated_tree = store.find_tree(&hydrated).unwrap();
        assert_eq!(
            dump_tree_entries(&hydrated_tree),
            "\"bar\" 778e23a1e80b1feb10e00b15b29a33315929c5b5\n\
             \"foo-copy.txt\" 19102815663d23f8b75a47e7a01965dcdc96468c\n\
             \"initial.txt\" 63af22885f8665a312ba8b83db722134f1f8290d\n\
             \"xyzzy.txt\" 7c465afc533f95ff7d2c91e18921f94aac8292fc\n"
        );
    }

    {
        let edits = vec![edit_del("bar/bar.txt")];
        let hydrated = hydrate_tree(&mut store, Some(&head_tree), &edits).unwrap();
        let hydrated_tree = store.find_tree(&hydrated).unwrap();
        assert_eq!(
            dump_tree_entries(&hydrated_tree),
            "\"bar\" 08ee88e1c53fbd01ab76f136a4f2c9d759b981d0\n\
             \"foo.txt\" 19102815663d23f8b75a47e7a01965dcdc96468c\n\
             \"initial.txt\" 63af22885f8665a312ba8b83db722134f1f8290d\n\
             \"xyzzy.txt\" 7c465afc533f95ff7d2c91e18921f94aac8292fc\n"
        );
    }

    {
        let edits = vec![edit_del("bar/bar.txt"), edit_del("bar/baz.txt")];
        let hydrated = hydrate_tree(&mut store, Some(&head_tree), &edits).unwrap();
        let hydrated_tree = store.find_tree(&hydrated).unwrap();
        assert_eq!(
            dump_tree_entries(&hydrated_tree),
            "\"foo.txt\" 19102815663d23f8b75a47e7a01965dcdc96468c\n\
             \"initial.txt\" 63af22885f8665a312ba8b83db722134f1f8290d\n\
             \"xyzzy.txt\" 7c465afc533f95ff7d2c91e18921f94aac8292fc\n"
        );
    }

    {
        let dehydrated = dehydrate_tree(
            &mut store,
            &head_tree,
            &vec![path("bar/baz.txt"), path("foo.txt")],
        )
        .unwrap();
        let dehydrated_tree = store.find_tree(&dehydrated).unwrap();
        assert_eq!(
            dump_tree_entries(&dehydrated_tree),
            "\"bar\" 08ee88e1c53fbd01ab76f136a4f2c9d759b981d0\n\
             \"foo.txt\" 19102815663d23f8b75a47e7a01965dcdc96468c\n"
        );
    }
}

#[test]
fn test_detect_path_only_changed_file_mode() {
    let mut store = Store::in_memory().unwrap();
    let initial = blob(&mut store, b"initial contents\n");
    let lhs_oid = hydrate_tree(
        &mut store,
        None,
        &vec![edit_set("initial.txt", &initial, FileMode::Blob)],
    )
    .unwrap();
    let rhs_oid = hydrate_tree(
        &mut store,
        None,
        &vec![edit_set("initial.txt", &initial, FileMode::BlobExecutable)],
    )
    .unwrap();
    let lhs_tree = store.find_tree(&lhs_oid).unwrap();
    let rhs_tree = store.find_tree(&rhs_oid).unwrap();
    let changed_paths = diff_paths(&store, Some(&lhs_tree), Some(&rhs_tree));
    assert_eq!(changed_paths, vec!["initial.txt".to_string()]);
}

#[test]
fn test_make_empty_tree_is_canonical() {
    let mut store = Store::in_memory().unwrap();
    let empty = make_empty_tree(&mut store).unwrap();
    assert_eq!(hex(&empty.get_oid()), EMPTY_TREE_HEX);
    assert!(empty.is_empty());
    // content addressing converges on every call
    let again = make_empty_tree(&mut store).unwrap();
    assert_eq!(hex(&again.get_oid()), EMPTY_TREE_HEX);
}

#[test]
fn test_fresh_store_resolves_the_empty_tree() {
    // libgit2 hardcodes the canonical empty tree into every object
    // database, so a store that holds no objects still resolves it —
    // exactly what the store's opening contract says.
    let store = Store::in_memory().unwrap();
    let empty_id = Oid::from_bytes(unhex(EMPTY_TREE_HEX));
    let t = store.find_tree(&empty_id).unwrap();
    assert!(t.is_empty());
    assert_eq!(hex(&t.get_oid()), EMPTY_TREE_HEX);
    assert!(store.find_tree(&Oid::from_bytes(vec![0x11; 20])).is_none());
}

#[test]
fn test_dangling_tree_value_replaced_by_deeper_edits() {
    // a tree-typed edit value the store does not resolve is treated
    // as an absent base; the deeper edits of the same name rebuild
    // the subtree from nothing and supersede the dangling entry
    let mut store = Store::in_memory().unwrap();
    let data = blob(&mut store, b"data");
    let bogus = Oid::from_bytes(vec![0x42; 20]);
    let edits = vec![
        TreeEdit { path: path("a"), value: Some((bogus, FileMode::Tree)) },
        edit_set("a/b.txt", &data, FileMode::Blob),
    ];
    let oid = hydrate_tree(&mut store, None, &edits).unwrap();
    let tree = store.find_tree(&oid).unwrap();
    let found = tree.get_path(&store, &path("a/b.txt")).unwrap();
    assert_eq!(hex(&found.get_oid()), hex(&data));
    assert_eq!(tree.entries.len(), 1);
}

#[test]
fn test_hydrate_no_edits_is_identity() {
    let mut store = Store::in_memory().unwrap();
    let head_tree = make_head_tree(&mut store);
    let rehydrated = hydrate_tree(&mut store, Some(&head_tree), &vec![]).unwrap();
    assert_eq!(hex(&rehydrated), hex(&head_tree.get_oid()));
}

#[test]
fn test_round_trip_rebuilds_tree() {
    let mut store = Store::in_memory().unwrap();
    let head_tree = make_head_tree(&mut store);
    let edits: Vec<TreeEdit> = head_tree
        .entries
        .iter()
        .map(|e| TreeEdit {
            path: vec![e.name.clone()],
            value: Some((e.get_oid(), e.get_filemode())),
        })
        .collect();
    let rebuilt = hydrate_tree(&mut store, None, &edits).unwrap();
    assert_eq!(hex(&rebuilt), hex(&head_tree.get_oid()));
}

#[test]
fn test_round_trip_rebuilds_nested_tree() {
    let mut store = Store::in_memory().unwrap();
    let head_tree = make_head_tree(&mut store);
    // read every leaf path out of the tree and hydrate nothing with it
    let leaf_paths = ["bar/bar.txt", "bar/baz.txt", "foo.txt", "initial.txt", "xyzzy.txt"];
    let edits: Vec<TreeEdit> = leaf_paths
        .iter()
        .map(|p| {
            let e = head_tree.get_path(&store, &path(p)).unwrap();
            TreeEdit { path: path(p), value: Some((e.get_oid(), e.get_filemode())) }
        })
        .collect();
    let rebuilt = hydrate_tree(&mut store, None, &edits).unwrap();
    assert_eq!(hex(&rebuilt), hex(&head_tree.get_oid()));
}

#[test]
fn test_deep_directory_collapse() {
    let mut store = Store::in_memory().unwrap();
    let data = blob(&mut store, b"data");
    let base_oid = hydrate_tree(&mut store, None, &vec![
        edit_set("a/b/c.txt", &data, FileMode::Blob),
        edit_set("a/d.txt", &data, FileMode::Blob),
        edit_set("top.txt", &data, FileMode::Blob),
    ])
    .unwrap();
    let base = store.find_tree(&base_oid).unwrap();
    // deleting every leaf under `a`, at both depths, removes `a` itself
    let oid = hydrate_tree(&mut store, Some(&base), &vec![
        edit_del("a/b/c.txt"),
        edit_del("a/d.txt"),
    ])
    .unwrap();
    let tree = store.find_tree(&oid).unwrap();
    assert!(tree.get_path(&store, &path("a")).is_none());
    assert_eq!(tree.entries.len(), 1);
}

#[test]
fn test_directory_collapse_removes_entry() {
    let mut store = Store::in_memory().unwrap();
    let head_tree = make_head_tree(&mut store);
    let edits = vec![edit_del("bar/bar.txt"), edit_del("bar/baz.txt")];
    let hydrated = hydrate_tree(&mut store, Some(&head_tree), &edits).unwrap();
    let tree = store.find_tree(&hydrated).unwrap();
    assert!(tree.get_path(&store, &path("bar")).is_none());
    assert_eq!(tree.entries.len(), 3);
}

#[test]
fn test_mode_only_change_changes_tree_oid() {
    let mut store = Store::in_memory().unwrap();
    let data = blob(&mut store, b"same contents");
    let plain = hydrate_tree(&mut store, None, &vec![edit_set("a.txt", &data, FileMode::Blob)])
        .unwrap();
    let exec = hydrate_tree(
        &mut store,
        None,
        &vec![edit_set("a.txt", &data, FileMode::BlobExecutable)],
    )
    .unwrap();
    assert_ne!(hex(&plain), hex(&exec));
}

#[test]
fn test_diff_against_absent_tree_lists_files_only() {
    let mut store = Store::in_memory().unwrap();
    let head_tree = make_head_tree(&mut store);
    let changed = diff_paths(&store, None, Some(&head_tree));
    assert_eq!(
        changed,
        vec![
            "bar/bar.txt".to_string(),
            "bar/baz.txt".to_string(),
            "foo.txt".to_string(),
            "initial.txt".to_string(),
            "xyzzy.txt".to_string(),
        ]
    );
}

#[test]
fn test_diff_equal_trees_is_empty() {
    let mut store = Store::in_memory().unwrap();
    let head_tree = make_head_tree(&mut store);
    let other = store.find_tree(&head_tree.get_oid()).unwrap();
    let changed = diff_paths(&store, Some(&head_tree), Some(&other));
    assert!(changed.is_empty());
}

#[test]
fn test_diff_content_change_in_subdirectory() {
    let mut store = Store::in_memory().unwrap();
    let head_tree = make_head_tree(&mut store);
    let other_blob = blob(&mut store, b"changed");
    let new_oid = hydrate_tree(
        &mut store,
        Some(&head_tree),
        &vec![edit_set("bar/baz.txt", &other_blob, FileMode::Blob)],
    )
    .unwrap();
    let new_tree = store.find_tree(&new_oid).unwrap();
    let changed = diff_paths(&store, Some(&head_tree), Some(&new_tree));
    // only the file itself is listed, not `bar`, and the unchanged
    // sibling is pruned away
    assert_eq!(changed, vec!["bar/baz.txt".to_string()]);
}

#[test]
fn test_diff_type_change_reports_path_and_contents() {
    let mut store = Store::in_memory().unwrap();
    let data = blob(&mut store, b"data");
    let file_oid = hydrate_tree(&mut store, None, &vec![edit_set("a", &data, FileMode::Blob)])
        .unwrap();
    let dir_oid = hydrate_tree(&mut store, None, &vec![edit_set("a/b.txt", &data, FileMode::Blob)])
        .unwrap();
    let file_tree = store.find_tree(&file_oid).unwrap();
    let dir_tree = store.find_tree(&dir_oid).unwrap();
    let changed = diff_paths(&store, Some(&file_tree), Some(&dir_tree));
    // the path that changed type, and everything under the directory
    assert_eq!(changed, vec!["a".to_string(), "a/b.txt".to_string()]);
}

#[test]
fn test_hydrate_skips_empty_paths() {
    let mut store = Store::in_memory().unwrap();
    let head_tree = make_head_tree(&mut store);
    let edits = vec![TreeEdit { path: vec![], value: None }];
    let hydrated = hydrate_tree(&mut store, Some(&head_tree), &edits).unwrap();
    assert_eq!(hex(&hydrated), hex(&head_tree.get_oid()));
}

#[test]
fn test_malformed_edit_positions_are_reported() {
    let mut store = Store::in_memory().unwrap();
    let data = blob(&mut store, b"data");
    let edits = vec![
        TreeEdit { path: vec![], value: None },
        edit_set("ok.txt", &data, FileMode::Blob),
        TreeEdit { path: vec![], value: Some((data.duplicate(), FileMode::Blob)) },
    ];
    assert_eq!(malformed_edit_positions(&edits), vec![0, 2]);
    assert_eq!(malformed_edit_positions(&vec![edit_del("fine.txt")]), Vec::<usize>::new());
}

#[test]
fn test_delete_absent_path_is_noop() {
    let mut store = Store::in_memory().unwrap();
    let head_tree = make_head_tree(&mut store);
    let edits = vec![edit_del("no-such-file.txt"), edit_del("bar/no-such-file.txt")];
    let hydrated = hydrate_tree(&mut store, Some(&head_tree), &edits).unwrap();
    assert_eq!(hex(&hydrated), hex(&head_tree.get_oid()));
}

#[test]
fn test_hydrate_creates_intermediate_directories() {
    let mut store = Store::in_memory().unwrap();
    let data = blob(&mut store, b"deep");
    let oid = hydrate_tree(&mut store, None, &vec![edit_set("a/b/c.txt", &data, FileMode::Blob)])
        .unwrap();
    let tree = store.find_tree(&oid).unwrap();
    let found = tree.get_path(&store, &path("a/b/c.txt")).unwrap();
    assert_eq!(hex(&found.get_oid()), hex(&data));
    assert_eq!(found.get_filemode(), FileMode::Blob);
    assert!(tree.get_path(&store, &path("a/b")).is_some());
}

#[test]
fn test_hydrate_replaces_file_with_directory() {
    let mut store = Store::in_memory().unwrap();
    let data = blob(&mut store, b"data");
    let other = blob(&mut store, b"other");
    let base_oid = hydrate_tree(&mut store, None, &vec![edit_set("a", &data, FileMode::Blob)])
        .unwrap();
    let base = store.find_tree(&base_oid).unwrap();
    let oid = hydrate_tree(&mut store, Some(&base), &vec![
        edit_set("a/b.txt", &other, FileMode::Blob),
    ])
    .unwrap();
    let tree = store.find_tree(&oid).unwrap();
    let found = tree.get_path(&store, &path("a/b.txt")).unwrap();
    assert_eq!(hex(&found.get_oid()), hex(&other));
    let a = tree.get_path(&store, &path("a")).unwrap();
    assert_eq!(a.get_filemode(), FileMode::Tree);
}

#[test]
fn test_direct_edit_and_deeper_edit_on_same_name() {
    let mut store = Store::in_memory().unwrap();
    let data = blob(&mut store, b"data");
    let other = blob(&mut store, b"other");
    // the nested edit rebuilds `a` as a directory even though a direct
    // edit put a file there first
    let oid = hydrate_tree(&mut store, None, &vec![
        edit_set("a", &data, FileMode::Blob),
        edit_set("a/b.txt", &other, FileMode::Blob),
    ])
    .unwrap();
    let tree = store.find_tree(&oid).unwrap();
    let a = tree.get_path(&store, &path("a")).unwrap();
    assert_eq!(a.get_filemode(), FileMode::Tree);
    let found = tree.get_path(&store, &path("a/b.txt")).unwrap();
    assert_eq!(hex(&found.get_oid()), hex(&other));
}

#[test]
fn test_dehydrate_missing_path_is_omitted() {
    let mut store = Store::in_memory().unwrap();
    let head_tree = make_head_tree(&mut store);
    let dehydrated = dehydrate_tree(&mut store, &head_tree, &vec![path("no-such-file.txt")])
        .unwrap();
    assert_eq!(hex(&dehydrated), EMPTY_TREE_HEX);
}

#[test]
fn test_get_path_descends_and_misses() {
    let mut store = Store::in_memory().unwrap();
    let head_tree = make_head_tree(&mut store);
    let found = head_tree.get_path(&store, &path("bar/baz.txt")).unwrap();
    assert_eq!(found.name, b"baz.txt".to_vec());
    assert!(head_tree.get_path(&store, &path("bar/missing.txt")).is_none());
    assert!(head_tree.get_path(&store, &path("foo.txt/below-a-file")).is_none());
    assert!(head_tree.get_path(&store, &vec![]).is_none());
    let oid = head_tree.get_oid_for_path(&store, &path("foo.txt")).unwrap();
    assert_eq!(hex(&oid), "19102815663d23f8b75a47e7a01965dcdc96468c");
    assert!(head_tree.get_oid_for_path(&store, &path("nope")).is_none());
}

#[test]
fn test_write_blob_uses_content_hash() {
    let mut store = Store::in_memory().unwrap();
    let foo = blob(&mut store, b"foo");
    assert_eq!(hex(&foo), "19102815663d23f8b75a47e7a01965dcdc96468c");
    // identical content converges to the identical id
    let again = blob(&mut store, b"foo");
    assert_eq!(hex(&again), hex(&foo));
}

#[test]
fn test_store_rejects_unknown_ids() {
    let mut store = Store::in_memory().unwrap();
    let bogus = Oid::from_bytes(vec![0x42; 20]);
    let edits = vec![edit_set("a.txt", &bogus, FileMode::Blob)];
    assert!(hydrate_tree(&mut store, None, &edits).is_err());
}

#[test]
fn test_store_rejects_invalid_entry() {
    let mut store = Store::in_memory().unwrap();
    let data = blob(&mut store, b"data");
    // a name holding a slash is not a single path segment
    let edits = vec![TreeEdit {
        path: vec![b"a/b".to_vec()],
        value: Some((data.duplicate(), FileMode::Blob)),
    }];
    assert!(hydrate_tree(&mut store, None, &edits).is_err());
    // the zero id never names an object
    let zero = Oid::from_bytes(vec![0; 20]);
    let edits = vec![edit_set("a.txt", &zero, FileMode::Blob)];
    assert!(hydrate_tree(&mut store, None, &edits).is_err());
    // a blob written with the tree mode points at the wrong kind
    let edits = vec![edit_set("a", &data, FileMode::Tree)];
    assert!(hydrate_tree(&mut store, None, &edits).is_err());
}

#[test]
fn test_find_tree_on_non_trees() {
    let mut store = Store::in_memory().unwrap();
    let data = blob(&mut store, b"data");
    assert!(store.find_tree(&data).is_none());
    assert!(store.find_tree(&Oid::from_bytes(vec![1, 2, 3])).is_none());
    assert!(store.find_tree(&Oid::from_bytes(vec![0x99; 20])).is_none());
}

#[test]
fn test_filemode_raw_round_trip() {
    let modes = [
        (FileMode::Unreadable, 0o000000),
        (FileMode::Tree, 0o040000),
        (FileMode::Blob, 0o100644),
        (FileMode::BlobGroupWritable, 0o100664),
        (FileMode::BlobExecutable, 0o100755),
        (FileMode::Link, 0o120000),
        (FileMode::Commit, 0o160000),
    ];
    for (m, raw) in modes {
        assert_eq!(m.to_raw(), raw);
        assert_eq!(FileMode::from_raw(raw), m);
    }
    assert_eq!(FileMode::from_raw(0o777777), FileMode::Unreadable);
}

#[test]
fn test_initial_commit_messages_variants() {
    let discard = InitialCommitMessages::Discard;
    assert!(discard.is_discard());
    let given = InitialCommitMessages::Messages(vec!["first".to_string(), "second".to_string()]);
    assert!(!given.is_discard());
    match given {
        InitialCommitMessages::Messages(msgs) => assert_eq!(msgs.len(), 2),
        InitialCommitMessages::Discard => unreachable!(),
    }
}
