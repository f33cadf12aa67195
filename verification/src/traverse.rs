//! The traversal engine's decisions, and the rewrite engine over a
//! directory listing.
//!
//! The walk itself performs I/O; what the library states and proves is
//! the dispatch rule for each entry kind and the effect of one pass over
//! the entries of a directory: every symlink's target is rewritten
//! exactly according to the prefix mapping and the destination listing,
//! every other entry is untouched, and each entry's outcome depends on
//! that entry alone, so the order in which a directory is read does not
//! matter.

use vstd::prelude::*;

use crate::paths::LinkPath;
use crate::paths::bytes_eq;
use crate::paths::comps_prefix_of;
use crate::paths::copy_bytes;
use crate::paths::encode_components;
use crate::paths::encode_path;
use crate::paths::is_absolute_bytes;
use crate::paths::split_components;
use crate::rewrite::examine_target;
use crate::paths::encode_path_bytes;
use crate::paths::encode_relative_bytes;

verus! {

/// The kind of one directory entry, as the traversal sees it.
#[derive(Debug, PartialEq, Eq, Structural, Clone, Copy)]
pub enum EntryKind {
    /// A subdirectory.
    Directory,
    /// A symbolic link.
    Symlink,
    /// Anything else: regular file, fifo, socket, and so on.
    Other,
}

/// What the traversal does with one entry.
#[derive(Debug, PartialEq, Eq, Structural, Clone, Copy)]
pub enum TraversalStep {
    /// Open the entry as a directory and walk it with the same context.
    Recurse,
    /// Hand the entry to the rewrite protocol.
    Examine,
    /// Leave the entry alone and continue with its siblings.
    Ignore,
}

/// The dispatch rule of the traversal: directories are recursed into,
/// symlinks are handed to the rewrite protocol, and every other entry
/// kind is ignored.
pub fn classify_entry(kind: EntryKind) -> (r: TraversalStep)
    ensures
        (r == TraversalStep::Recurse) == (kind == EntryKind::Directory),
        (r == TraversalStep::Examine) == (kind == EntryKind::Symlink),
        (r == TraversalStep::Ignore) == (kind == EntryKind::Other),
{
    match kind {
        EntryKind::Directory => TraversalStep::Recurse,
        EntryKind::Symlink => TraversalStep::Examine,
        EntryKind::Other => TraversalStep::Ignore,
    }
}

/// Whether the target falls under the old prefix component-wise.
pub open spec fn spec_target_matched(t: Seq<u8>, old_prefix: LinkPath) -> bool {
    is_absolute_bytes(t) == old_prefix.absolute && comps_prefix_of(
        old_prefix.comps(),
        split_components(t),
    )
}

/// The target's components below the old prefix.
pub open spec fn spec_suffix(t: Seq<u8>, old_prefix: LinkPath) -> Seq<Seq<u8>> {
    split_components(t).skip(old_prefix.comps().len() as int)
}

/// The bytes of the suffix as a relative path: what must exist under the
/// destination root for the rewrite to go ahead.
pub open spec fn spec_suffix_bytes(t: Seq<u8>, old_prefix: LinkPath) -> Seq<u8> {
    encode_components(spec_suffix(t, old_prefix))
}

/// The bytes of the candidate target: the new prefix joined with the
/// suffix.
pub open spec fn spec_candidate_bytes(t: Seq<u8>, old_prefix: LinkPath, new_prefix: LinkPath) -> Seq<
    u8,
> {
    encode_path(new_prefix.absolute, new_prefix.comps() + spec_suffix(t, old_prefix))
}

/// What one symlink's target is after the pass: rewritten to the
/// candidate when the old prefix matches component-wise and the suffix
/// exists in the destination listing, and unchanged otherwise.
pub open spec fn spec_rewritten_target(
    t: Seq<u8>,
    old_prefix: LinkPath,
    new_prefix: LinkPath,
    dest: Seq<Seq<u8>>,
) -> Seq<u8> {
    if spec_target_matched(t, old_prefix) && dest.contains(spec_suffix_bytes(t, old_prefix)) {
        spec_candidate_bytes(t, old_prefix, new_prefix)
    } else {
        t
    }
}

/// Destination gating: when the suffix does not exist in the
/// destination listing, the target is left unmodified, even if it falls
/// under the old prefix.
pub proof fn lemma_destination_gating(
    t: Seq<u8>,
    old_prefix: LinkPath,
    new_prefix: LinkPath,
    dest: Seq<Seq<u8>>,
)
    requires
        !dest.contains(spec_suffix_bytes(t, old_prefix)),
    ensures
        spec_rewritten_target(t, old_prefix, new_prefix, dest) == t,
{
}

/// Prefix gating: a target that does not fall under the old prefix
/// component-wise is left unmodified, whatever the destination holds.
pub proof fn lemma_no_match_untouched(
    t: Seq<u8>,
    old_prefix: LinkPath,
    new_prefix: LinkPath,
    dest: Seq<Seq<u8>>,
)
    requires
        !spec_target_matched(t, old_prefix),
    ensures
        spec_rewritten_target(t, old_prefix, new_prefix, dest) == t,
{
}

/// Idempotence of one pass: when neither prefix is a component-wise
/// prefix of the other, rewriting a target a second time — against the
/// same mapping and the same destination listing — changes nothing. A
/// rewritten target sits under the new prefix and so fails the old
/// prefix match; an untouched target is untouched again for the same
/// reason as before.
pub proof fn lemma_rewritten_target_stable(
    t: Seq<u8>,
    old_prefix: LinkPath,
    new_prefix: LinkPath,
    dest: Seq<Seq<u8>>,
)
    requires
        old_prefix.wf(),
        new_prefix.wf(),
        !crate::paths::spec_is_prefix(old_prefix, new_prefix),
        !crate::paths::spec_is_prefix(new_prefix, old_prefix),
    ensures
        spec_rewritten_target(
            spec_rewritten_target(t, old_prefix, new_prefix, dest),
            old_prefix,
            new_prefix,
            dest,
        ) == spec_rewritten_target(t, old_prefix, new_prefix, dest),
{
    if spec_target_matched(t, old_prefix) && dest.contains(spec_suffix_bytes(t, old_prefix)) {
        crate::paths::lemma_split_components_wf(t);
        crate::rewrite::lemma_second_pass_skips(old_prefix, new_prefix, split_components(t));
        let r1 = spec_rewritten_target(t, old_prefix, new_prefix, dest);
        assert(!spec_target_matched(r1, old_prefix));
    }
}

/// Whether the listing contains the given byte string.
fn listing_contains(listing: &Vec<Vec<u8>>, needle: &Vec<u8>) -> (r: bool)
    ensures
        r == listing.deep_view().contains(needle@),
{
    let mut i: usize = 0;
    while i < listing.len()
        invariant
            i <= listing.deep_view().len(),
            forall|j: int| 0 <= j < i ==> listing.deep_view()[j] != needle@,
        decreases listing.deep_view().len() - i,
    {
        if bytes_eq(&listing[i], needle) {
            proof {
                crate::paths::lemma_bytes_deep_view(listing@[i as int]);
                assert(listing.deep_view()[i as int] == needle@);
            }
            return true;
        }
        proof {
            crate::paths::lemma_bytes_deep_view(listing@[i as int]);
        }
        i = i + 1;
    }
    false
}

/// Rewrite one symlink target: the result is the candidate target when
/// the old prefix matches and the suffix exists in the destination
/// listing, and the target unchanged otherwise.
pub fn rewrite_target_bytes(
    t: &Vec<u8>,
    old_prefix: &LinkPath,
    new_prefix: &LinkPath,
    dest: &Vec<Vec<u8>>,
) -> (r: Vec<u8>)
    requires
        old_prefix.wf(),
        new_prefix.wf(),
    ensures
        r@ == spec_rewritten_target(t@, *old_prefix, *new_prefix, dest.deep_view()),
{
    match examine_target(t, old_prefix, new_prefix) {
        Some(c) => {
            let suffix_bytes = encode_relative_bytes(&c.suffix);
            if listing_contains(dest, &suffix_bytes) {
                encode_path_bytes(&c.target)
            } else {
                copy_bytes(t)
            }
        },
        None => copy_bytes(t),
    }
}

/// One directory entry of the model: its name, its kind, and — when it
/// is a symlink — its raw target bytes.
pub struct ModelEntry {
    /// The entry's name inside its directory.
    pub name: Vec<u8>,
    /// What kind of entry this is.
    pub kind: EntryKind,
    /// The link target; empty and meaningless unless `kind` is
    /// `Symlink`.
    pub target: Vec<u8>,
}

/// One pass of the engine over a directory listing. Every symlink's
/// target is rewritten exactly as `spec_rewritten_target` says; names,
/// kinds and all non-symlink entries are untouched; and each entry's
/// outcome depends on that entry alone, so the result does not depend on
/// the order in which the directory was read.
pub fn rewrite_directory_entries(
    entries: &Vec<ModelEntry>,
    old_prefix: &LinkPath,
    new_prefix: &LinkPath,
    dest: &Vec<Vec<u8>>,
) -> (r: Vec<ModelEntry>)
    requires
        old_prefix.wf(),
        new_prefix.wf(),
    ensures
        r@.len() == entries@.len(),
        forall|i: int|
            0 <= i < entries@.len() ==> {
                &&& (#[trigger] r@[i]).name@ == entries@[i].name@
                &&& r@[i].kind == entries@[i].kind
                &&& (entries@[i].kind == EntryKind::Symlink ==> r@[i].target@
                    == spec_rewritten_target(
                    entries@[i].target@,
                    *old_prefix,
                    *new_prefix,
                    dest.deep_view(),
                ))
                &&& (entries@[i].kind != EntryKind::Symlink ==> r@[i].target@
                    == entries@[i].target@)
            },
{
    let mut r: Vec<ModelEntry> = Vec::new();
    let mut i: usize = 0;
    while i < entries.len()
        invariant
            old_prefix.wf(),
            new_prefix.wf(),
            i <= entries@.len(),
            r@.len() == i,
            forall|j: int|
                0 <= j < i ==> {
                    &&& (#[trigger] r@[j]).name@ == entries@[j].name@
                    &&& r@[j].kind == entries@[j].kind
                    &&& (entries@[j].kind == EntryKind::Symlink ==> r@[j].target@
                        == spec_rewritten_target(
                        entries@[j].target@,
                        *old_prefix,
                        *new_prefix,
                        dest.deep_view(),
                    ))
                    &&& (entries@[j].kind != EntryKind::Symlink ==> r@[j].target@
                        == entries@[j].target@)
                },
        decreases entries@.len() - i,
    {
        let e = &entries[i];
        let name = copy_bytes(&e.name);
        let kind = e.kind;
        let target = match classify_entry(e.kind) {
            TraversalStep::Examine => rewrite_target_bytes(&e.target, old_prefix, new_prefix, dest),
            _ => copy_bytes(&e.target),
        };
        r.push(ModelEntry { name, kind, target });
        i = i + 1;
    }
    r
}

/// One node of a modeled directory tree: a directory with named child
/// nodes, a symlink with its raw target bytes, or any other entry kind.
pub enum FsTree {
    /// A directory and its entries.
    Directory(Vec<TreeEntry>),
    /// A symlink and its raw target bytes.
    Symlink(Vec<u8>),
    /// Any other entry kind: regular file, fifo, socket, and so on.
    Other,
}

/// A named child node inside a modeled directory.
pub struct TreeEntry {
    /// The child's name inside its directory.
    pub name: Vec<u8>,
    /// The child itself.
    pub node: FsTree,
}

/// How a whole tree looks after one run: every symlink's target anywhere
/// in the tree is rewritten exactly as `spec_rewritten_target` says, and
/// everything else — names, entry kinds, non-symlink entries — is
/// untouched.
pub open spec fn tree_rewritten(
    pre: FsTree,
    post: FsTree,
    old_prefix: LinkPath,
    new_prefix: LinkPath,
    dest: Seq<Seq<u8>>,
) -> bool
    decreases pre,
{
    match pre {
        FsTree::Symlink(t) => post matches FsTree::Symlink(u) && u@ == spec_rewritten_target(
            t@,
            old_prefix,
            new_prefix,
            dest,
        ),
        FsTree::Other => post matches FsTree::Other,
        FsTree::Directory(es) => post matches FsTree::Directory(gs) && es@.len() == gs@.len()
            && (forall|i: int|
            #![all_triggers]
            0 <= i < es@.len() ==> gs@[i].name@ == es@[i].name@ && tree_rewritten(
                es@[i].node,
                gs@[i].node,
                old_prefix,
                new_prefix,
                dest,
            )),
    }
}

/// Two trees hold the same entries: the same shape, the same names, and
/// the same symlink targets.
pub open spec fn tree_same(a: FsTree, b: FsTree) -> bool
    decreases a,
{
    match a {
        FsTree::Symlink(t) => b matches FsTree::Symlink(u) && u@ == t@,
        FsTree::Other => b matches FsTree::Other,
        FsTree::Directory(es) => b matches FsTree::Directory(gs) && es@.len() == gs@.len() && (
        forall|i: int|
            #![all_triggers]
            0 <= i < es@.len() ==> gs@[i].name@ == es@[i].name@ && tree_same(
                es@[i].node,
                gs@[i].node,
            )),
    }
}

/// One run over a whole modeled tree: the recursive walk of the
/// traversal engine. Directories are recursed into with the context
/// unchanged, symlinks are handed to the rewrite decision, and every
/// other entry is left alone.
pub fn rewrite_tree(
    node: &FsTree,
    old_prefix: &LinkPath,
    new_prefix: &LinkPath,
    dest: &Vec<Vec<u8>>,
) -> (r: FsTree)
    requires
        old_prefix.wf(),
        new_prefix.wf(),
    ensures
        tree_rewritten(*node, r, *old_prefix, *new_prefix, dest.deep_view()),
    decreases *node,
{
    match node {
        FsTree::Symlink(t) => FsTree::Symlink(
            rewrite_target_bytes(t, old_prefix, new_prefix, dest),
        ),
        FsTree::Other => FsTree::Other,
        FsTree::Directory(es) => {
            let mut out: Vec<TreeEntry> = Vec::new();
            let mut i: usize = 0;
            while i < es.len()
                invariant
                    old_prefix.wf(),
                    new_prefix.wf(),
                    *node == FsTree::Directory(*es),
                    i <= es@.len(),
                    out@.len() == i,
                    forall|j: int|
                        #![all_triggers]
                        0 <= j < i ==> out@[j].name@ == es@[j].name@ && tree_rewritten(
                            es@[j].node,
                            out@[j].node,
                            *old_prefix,
                            *new_prefix,
                            dest.deep_view(),
                        ),
                decreases es@.len() - i,
            {
                let e = &es[i];
                proof {
                    assert(decreases_to!(*node => node->Directory_0));
                    assert(decreases_to!(node->Directory_0 => node->Directory_0@));
                    assert(decreases_to!(node->Directory_0@ => node->Directory_0@[i as int]));
                    assert(decreases_to!(
                        node->Directory_0@[i as int] => node->Directory_0@[i as int].node
                    ));
                    assert(decreases_to!(*node => es@[i as int].node));
                }
                let sub = rewrite_tree(&e.node, old_prefix, new_prefix, dest);
                let name = copy_bytes(&e.name);
                out.push(TreeEntry { name, node: sub });
                i = i + 1;
            }
            FsTree::Directory(out)
        },
    }
}

/// Idempotence over a whole tree: when neither prefix is a
/// component-wise prefix of the other, a second run over the result of a
/// first run — against the same mapping and the same destination listing
/// — reproduces that result exactly.
pub proof fn lemma_tree_second_pass(
    pre: FsTree,
    mid: FsTree,
    post: FsTree,
    old_prefix: LinkPath,
    new_prefix: LinkPath,
    dest: Seq<Seq<u8>>,
)
    requires
        old_prefix.wf(),
        new_prefix.wf(),
        !crate::paths::spec_is_prefix(old_prefix, new_prefix),
        !crate::paths::spec_is_prefix(new_prefix, old_prefix),
        tree_rewritten(pre, mid, old_prefix, new_prefix, dest),
        tree_rewritten(mid, post, old_prefix, new_prefix, dest),
    ensures
        tree_same(mid, post),
    decreases pre,
{
    match pre {
        FsTree::Symlink(t) => {
            lemma_rewritten_target_stable(t@, old_prefix, new_prefix, dest);
        },
        FsTree::Other => {},
        FsTree::Directory(es) => {
            let ms = mid->Directory_0;
            let ps = post->Directory_0;
            assert forall|i: int|
                0 <= i < ms@.len() implies (#[trigger] ps@[i]).name@ == ms@[i].name@ && tree_same(
                ms@[i].node,
                ps@[i].node,
            ) by {
                assert(decreases_to!(pre => es@[i].node));
                lemma_tree_second_pass(
                    es@[i].node,
                    ms@[i].node,
                    ps@[i].node,
                    old_prefix,
                    new_prefix,
                    dest,
                );
            }
        },
    }
}

} // verus!
