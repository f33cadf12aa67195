//! Model of the atomic replace protocol inside one directory.
//!
//! A directory's symlinks are modeled as a map from entry name to raw
//! target bytes. The protocol creates a temporary link beside the
//! original, flushes, renames the temporary name onto the original name
//! in one step, and flushes again. The lemma below states its safety: at
//! every observable state the original name is present, resolving first
//! to the old target and after the rename to the new one, and no other
//! entry is ever touched.

use vstd::prelude::*;

verus! {

/// The directory's links after the temporary link was created: the
/// temporary name now points at the replacement target.
pub open spec fn links_after_create(
    links: Map<Seq<u8>, Seq<u8>>,
    temp: Seq<u8>,
    new_target: Seq<u8>,
) -> Map<Seq<u8>, Seq<u8>> {
    links.insert(temp, new_target)
}

/// The directory's links after the temporary name was renamed onto the
/// entry name: the entry now carries the temporary link's target and the
/// temporary name is gone.
pub open spec fn links_after_rename(
    links: Map<Seq<u8>, Seq<u8>>,
    temp: Seq<u8>,
    name: Seq<u8>,
) -> Map<Seq<u8>, Seq<u8>> {
    links.remove(temp).insert(name, links[temp])
}

/// Atomic visibility of the replace protocol: a reader that looks the
/// entry name up at any point finds it present — pointing at its old
/// target before the rename and at the new target after it, with no
/// third observable state — and every other entry of the directory is
/// untouched throughout. The temporary name does not survive the rename.
///
/// The hypotheses mirror the protocol: the temporary name is strictly
/// longer than the entry name, so the two always differ, and a collision
/// of the temporary name with an existing entry makes the create fail
/// and the run abort, so the rename only ever runs with a fresh
/// temporary name.
pub proof fn lemma_atomic_visibility(
    links: Map<Seq<u8>, Seq<u8>>,
    name: Seq<u8>,
    temp: Seq<u8>,
    new_target: Seq<u8>,
)
    requires
        links.dom().contains(name),
        !links.dom().contains(temp),
        temp != name,
    ensures
        ({
            let mid = links_after_create(links, temp, new_target);
            let done = links_after_rename(mid, temp, name);
            &&& mid.dom().contains(name)
            &&& mid[name] == links[name]
            &&& done.dom().contains(name)
            &&& done[name] == new_target
            &&& done.dom() == links.dom()
            &&& forall|n: Seq<u8>|
                links.dom().contains(n) && n != name && n != temp ==> mid.dom().contains(n)
                    && mid[n] == links[n] && done.dom().contains(n) && done[n] == links[n]
        }),
{
    let mid = links_after_create(links, temp, new_target);
    let done = links_after_rename(mid, temp, name);
    assert(done.dom() =~= links.dom());
}

} // verus!
