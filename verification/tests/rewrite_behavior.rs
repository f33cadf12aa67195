use linkfix::paths::encode_path_bytes;
use linkfix::paths::encode_relative_bytes;
use linkfix::paths::is_component_prefix;
use linkfix::paths::join_path;
use linkfix::paths::parse_target;
use linkfix::paths::strip_prefix_components;
use linkfix::rewrite::examine_target;
use linkfix::rewrite::outcome_for;
use linkfix::rewrite::RewriteOutcome;

fn path(bytes: &[u8]) -> linkfix::paths::LinkPath {
    parse_target(&bytes.to_vec())
}

#[test]
fn parse_absolute_components() {
    let p = path(b"/mnt/old/x");
    assert!(p.absolute);
    assert_eq!(p.components, vec![b"mnt".to_vec(), b"old".to_vec(), b"x".to_vec()]);
}

#[test]
fn parse_relative_components() {
    let p = path(b"a/b");
    assert!(!p.absolute);
    assert_eq!(p.components, vec![b"a".to_vec(), b"b".to_vec()]);
}

#[test]
fn parse_collapses_repeated_separators() {
    let p = path(b"//mnt///old/");
    assert!(p.absolute);
    assert_eq!(p.components, vec![b"mnt".to_vec(), b"old".to_vec()]);
}

#[test]
fn parse_empty_and_root() {
    let empty = path(b"");
    assert!(!empty.absolute);
    assert!(empty.components.is_empty());
    let root = path(b"/");
    assert!(root.absolute);
    assert!(root.components.is_empty());
}

#[test]
fn encode_round_trip() {
    let p = path(b"/mnt/old/x");
    assert_eq!(encode_path_bytes(&p), b"/mnt/old/x".to_vec());
    let q = path(b"//a//b/");
    assert_eq!(encode_path_bytes(&q), b"/a/b".to_vec());
    let rel = path(b"a/b");
    assert_eq!(encode_path_bytes(&rel), b"a/b".to_vec());
    assert_eq!(encode_path_bytes(&path(b"/")), b"/".to_vec());
    assert_eq!(encode_path_bytes(&path(b"")), b"".to_vec());
}

#[test]
fn component_prefix_holds_componentwise() {
    let old = path(b"/mnt/old");
    assert!(is_component_prefix(&old, &path(b"/mnt/old/a/b")));
    assert!(is_component_prefix(&old, &path(b"/mnt/old")));
    assert!(!is_component_prefix(&old, &path(b"/mnt")));
}

#[test]
fn component_prefix_rejects_string_prefix() {
    // `/mnt/oldx` merely shares characters with `/mnt/old`.
    let old = path(b"/mnt/old");
    assert!(!is_component_prefix(&old, &path(b"/mnt/oldx/a/b")));
}

#[test]
fn component_prefix_rejects_relative_against_absolute() {
    let old = path(b"mnt/old");
    assert!(!is_component_prefix(&old, &path(b"/mnt/old/a")));
}

#[test]
fn strip_and_join() {
    let old = path(b"/mnt/old");
    let target = path(b"/mnt/old/a/b");
    let suffix = strip_prefix_components(&target, &old);
    assert_eq!(suffix, vec![b"a".to_vec(), b"b".to_vec()]);
    assert_eq!(encode_relative_bytes(&suffix), b"a/b".to_vec());
    let new = path(b"/mnt/new");
    let joined = join_path(&new, &suffix);
    assert_eq!(encode_path_bytes(&joined), b"/mnt/new/a/b".to_vec());
}

#[test]
fn examine_match_builds_candidate() {
    let old = path(b"/mnt/old");
    let new = path(b"/mnt/new");
    let c = examine_target(&b"/mnt/old/a/b".to_vec(), &old, &new).expect("prefix must match");
    assert_eq!(c.suffix, vec![b"a".to_vec(), b"b".to_vec()]);
    assert_eq!(encode_path_bytes(&c.target), b"/mnt/new/a/b".to_vec());
}

#[test]
fn examine_no_match_is_none() {
    let old = path(b"/mnt/old");
    let new = path(b"/mnt/new");
    assert!(examine_target(&b"/other/x/y".to_vec(), &old, &new).is_none());
    assert!(examine_target(&b"/mnt/oldx/a/b".to_vec(), &old, &new).is_none());
    assert!(examine_target(&b"relative/a".to_vec(), &old, &new).is_none());
}

#[test]
fn examine_target_equal_to_prefix() {
    // The whole old prefix itself: the suffix is empty and the candidate
    // is the bare new prefix.
    let old = path(b"/mnt/old");
    let new = path(b"/mnt/new");
    let c = examine_target(&b"/mnt/old".to_vec(), &old, &new).expect("prefix must match");
    assert!(c.suffix.is_empty());
    assert_eq!(encode_relative_bytes(&c.suffix), Vec::<u8>::new());
    assert_eq!(encode_path_bytes(&c.target), b"/mnt/new".to_vec());
}

#[test]
fn outcome_taxonomy() {
    assert_eq!(outcome_for(false, false), RewriteOutcome::SkippedNoPrefixMatch);
    assert_eq!(outcome_for(false, true), RewriteOutcome::SkippedNoPrefixMatch);
    assert_eq!(outcome_for(true, false), RewriteOutcome::SkippedTargetAbsent);
    assert_eq!(outcome_for(true, true), RewriteOutcome::Rewritten);
}
