use linkfix::paths::parse_target;
use linkfix::rewrite::fresh_temp_name;
use linkfix::rewrite::temp_name_with;
use linkfix::rewrite::UNIQUE_LEN;
use linkfix::traverse::classify_entry;
use linkfix::traverse::rewrite_directory_entries;
use linkfix::traverse::rewrite_target_bytes;
use linkfix::traverse::EntryKind;
use linkfix::traverse::ModelEntry;
use linkfix::traverse::TraversalStep;

fn path(bytes: &[u8]) -> linkfix::paths::LinkPath {
    parse_target(&bytes.to_vec())
}

#[test]
fn classify_dispatch() {
    assert_eq!(classify_entry(EntryKind::Directory), TraversalStep::Recurse);
    assert_eq!(classify_entry(EntryKind::Symlink), TraversalStep::Examine);
    assert_eq!(classify_entry(EntryKind::Other), TraversalStep::Ignore);
}

#[test]
fn scenario_a_rewritten() {
    // /data/link -> /mnt/old/x/y and /mnt/new/x/y exists: repointed.
    let old = path(b"/mnt/old");
    let new = path(b"/mnt/new");
    let dest = vec![b"x/y".to_vec()];
    let out = rewrite_target_bytes(&b"/mnt/old/x/y".to_vec(), &old, &new, &dest);
    assert_eq!(out, b"/mnt/new/x/y".to_vec());
}

#[test]
fn scenario_b_no_prefix_match() {
    // /data/link2 -> /other/x/y: no prefix match, unchanged.
    let old = path(b"/mnt/old");
    let new = path(b"/mnt/new");
    let dest = vec![b"x/y".to_vec()];
    let out = rewrite_target_bytes(&b"/other/x/y".to_vec(), &old, &new, &dest);
    assert_eq!(out, b"/other/x/y".to_vec());
}

#[test]
fn scenario_c_destination_absent() {
    // /data/link3 -> /mnt/old/p/q but /mnt/new/p/q does not exist:
    // unchanged.
    let old = path(b"/mnt/old");
    let new = path(b"/mnt/new");
    let dest = vec![b"x/y".to_vec()];
    let out = rewrite_target_bytes(&b"/mnt/old/p/q".to_vec(), &old, &new, &dest);
    assert_eq!(out, b"/mnt/old/p/q".to_vec());
}

fn sample_entries() -> Vec<ModelEntry> {
    vec![
        ModelEntry { name: b"link".to_vec(), kind: EntryKind::Symlink, target: b"/mnt/old/x/y".to_vec() },
        ModelEntry { name: b"link2".to_vec(), kind: EntryKind::Symlink, target: b"/other/x/y".to_vec() },
        ModelEntry { name: b"link3".to_vec(), kind: EntryKind::Symlink, target: b"/mnt/old/p/q".to_vec() },
        ModelEntry { name: b"notes.txt".to_vec(), kind: EntryKind::Other, target: Vec::new() },
        ModelEntry { name: b"subdir".to_vec(), kind: EntryKind::Directory, target: Vec::new() },
    ]
}

#[test]
fn one_pass_over_directory() {
    let old = path(b"/mnt/old");
    let new = path(b"/mnt/new");
    let dest = vec![b"x/y".to_vec()];
    let out = rewrite_directory_entries(&sample_entries(), &old, &new, &dest);
    assert_eq!(out.len(), 5);
    assert_eq!(out[0].name, b"link".to_vec());
    assert_eq!(out[0].target, b"/mnt/new/x/y".to_vec());
    assert_eq!(out[1].target, b"/other/x/y".to_vec());
    assert_eq!(out[2].target, b"/mnt/old/p/q".to_vec());
    // Non-symlink entries are untouched.
    assert_eq!(out[3].name, b"notes.txt".to_vec());
    assert_eq!(out[3].kind, EntryKind::Other);
    assert_eq!(out[3].target, Vec::<u8>::new());
    assert_eq!(out[4].kind, EntryKind::Directory);
}

#[test]
fn second_pass_changes_nothing() {
    let old = path(b"/mnt/old");
    let new = path(b"/mnt/new");
    let dest = vec![b"x/y".to_vec(), b"p/q".to_vec()];
    let once = rewrite_directory_entries(&sample_entries(), &old, &new, &dest);
    let twice = rewrite_directory_entries(&once, &old, &new, &dest);
    assert_eq!(once.len(), twice.len());
    for (a, b) in once.iter().zip(twice.iter()) {
        assert_eq!(a.name, b.name);
        assert_eq!(a.kind, b.kind);
        assert_eq!(a.target, b.target);
    }
    // The first pass did rewrite both matching links.
    assert_eq!(once[0].target, b"/mnt/new/x/y".to_vec());
    assert_eq!(once[2].target, b"/mnt/new/p/q".to_vec());
}

use linkfix::traverse::{rewrite_tree, FsTree, TreeEntry};

fn sample_tree() -> FsTree {
    FsTree::Directory(vec![
        TreeEntry { name: b"link".to_vec(), node: FsTree::Symlink(b"/mnt/old/x/y".to_vec()) },
        TreeEntry { name: b"notes.txt".to_vec(), node: FsTree::Other },
        TreeEntry {
            name: b"subdir".to_vec(),
            node: FsTree::Directory(vec![
                TreeEntry {
                    name: b"deep".to_vec(),
                    node: FsTree::Symlink(b"/mnt/old/p/q".to_vec()),
                },
                TreeEntry {
                    name: b"other".to_vec(),
                    node: FsTree::Symlink(b"/other/x/y".to_vec()),
                },
            ]),
        },
    ])
}

fn expect_symlink(node: &FsTree) -> &Vec<u8> {
    match node {
        FsTree::Symlink(t) => t,
        _ => panic!("expected a symlink"),
    }
}

fn expect_dir(node: &FsTree) -> &Vec<TreeEntry> {
    match node {
        FsTree::Directory(es) => es,
        _ => panic!("expected a directory"),
    }
}

#[test]
fn tree_walk_rewrites_everywhere() {
    let old = path(b"/mnt/old");
    let new = path(b"/mnt/new");
    let dest = vec![b"x/y".to_vec()];
    let out = rewrite_tree(&sample_tree(), &old, &new, &dest);
    let entries = expect_dir(&out);
    assert_eq!(entries.len(), 3);
    assert_eq!(entries[0].name, b"link".to_vec());
    assert_eq!(expect_symlink(&entries[0].node), &b"/mnt/new/x/y".to_vec());
    assert!(matches!(entries[1].node, FsTree::Other));
    let sub = expect_dir(&entries[2].node);
    // /mnt/new/p/q does not exist, so the deep link stays.
    assert_eq!(expect_symlink(&sub[0].node), &b"/mnt/old/p/q".to_vec());
    assert_eq!(expect_symlink(&sub[1].node), &b"/other/x/y".to_vec());
}

#[test]
fn tree_walk_second_pass_is_noop() {
    let old = path(b"/mnt/old");
    let new = path(b"/mnt/new");
    let dest = vec![b"x/y".to_vec(), b"p/q".to_vec()];
    let once = rewrite_tree(&sample_tree(), &old, &new, &dest);
    let twice = rewrite_tree(&once, &old, &new, &dest);
    let a = expect_dir(&once);
    let b = expect_dir(&twice);
    assert_eq!(expect_symlink(&a[0].node), &b"/mnt/new/x/y".to_vec());
    assert_eq!(expect_symlink(&b[0].node), expect_symlink(&a[0].node));
    let asub = expect_dir(&a[2].node);
    let bsub = expect_dir(&b[2].node);
    assert_eq!(expect_symlink(&asub[0].node), &b"/mnt/new/p/q".to_vec());
    assert_eq!(expect_symlink(&bsub[0].node), expect_symlink(&asub[0].node));
    assert_eq!(expect_symlink(&bsub[1].node), &b"/other/x/y".to_vec());
}

#[test]
fn temp_name_composition() {
    let name = temp_name_with(&b"link".to_vec(), &b"AbCd".to_vec());
    assert_eq!(name, b"link.AbCd.tmp".to_vec());
}

#[test]
fn fresh_temp_name_shape() {
    let entry = b"link".to_vec();
    let name = fresh_temp_name(&entry);
    assert_eq!(name.len(), entry.len() + UNIQUE_LEN + 5);
    assert_eq!(&name[..entry.len()], &entry[..]);
    assert_eq!(name[entry.len()], b'.');
    for &b in &name[entry.len() + 1..entry.len() + 1 + UNIQUE_LEN] {
        assert!(b.is_ascii_alphanumeric());
    }
    assert_eq!(&name[entry.len() + 1 + UNIQUE_LEN..], b".tmp");
    assert_ne!(name, entry);
}
