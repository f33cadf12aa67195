//! The rewrite decision for one symlink entry.
//!
//! Given the raw target bytes of a link and the (old, new) prefix mapping,
//! `examine_target` decides whether the target falls under the old prefix
//! component-wise and, when it does, computes the suffix below the old
//! prefix and the candidate target below the new prefix. `outcome_for`
//! maps the two gates (prefix match, destination existence) to the three
//! possible outcomes. `fresh_temp_name` composes the transient name used
//! by the replacement protocol from the entry name, a random alphanumeric
//! string and a fixed marker.

use vstd::prelude::*;

use rand::distributions::DistString;

use crate::paths::LinkPath;
use crate::paths::comps_prefix_of;
use crate::paths::encode_path;
use crate::paths::is_absolute_bytes;
use crate::paths::lemma_parse_encode_path;
use crate::paths::lemma_split_components_wf;
use crate::paths::split_components;
use crate::paths::wf_components;
use crate::paths::is_component_prefix;
use crate::paths::join_path;
use crate::paths::parse_target;
use crate::paths::strip_prefix_components;

verus! {

/// The byte `.`, the marker separator inside a temporary name.
pub const DOT: u8 = 46;

/// How many random alphanumeric bytes a temporary name carries.
pub const UNIQUE_LEN: usize = 16;

/// What happened, or would happen, to one examined symlink.
#[derive(Debug, PartialEq, Eq, Structural, Clone, Copy)]
pub enum RewriteOutcome {
    /// The target matched the old prefix and the destination path exists:
    /// the link is repointed.
    Rewritten,
    /// The target does not fall under the old prefix: the link is left
    /// untouched.
    SkippedNoPrefixMatch,
    /// The target falls under the old prefix but the corresponding path
    /// does not exist yet under the new root: the link is left untouched.
    SkippedTargetAbsent,
}

/// A planned rewrite: the suffix of the target below the old prefix, and
/// the candidate target below the new prefix.
pub struct RewriteCandidate {
    /// The target's components with the old prefix removed; the path that
    /// must exist relative to the destination root.
    pub suffix: Vec<Vec<u8>>,
    /// The new prefix joined with the suffix: what the replacement link
    /// will point at.
    pub target: LinkPath,
}

/// Examine one link target against the prefix mapping.
///
/// Returns `Some` exactly when the parsed target is component-wise
/// prefixed by `old_prefix`; the candidate then pairs the stripped suffix
/// with the new prefix joined to it.
pub fn examine_target(target_bytes: &Vec<u8>, old_prefix: &LinkPath, new_prefix: &LinkPath) -> (r:
    Option<RewriteCandidate>)
    requires
        old_prefix.wf(),
        new_prefix.wf(),
    ensures
        (r is Some) == (is_absolute_bytes(target_bytes@) == old_prefix.absolute
            && comps_prefix_of(old_prefix.comps(), split_components(target_bytes@))),
        r matches Some(c) ==> {
            &&& c.suffix.deep_view() == split_components(target_bytes@).skip(
                old_prefix.comps().len() as int,
            )
            &&& c.target.absolute == new_prefix.absolute
            &&& c.target.comps() == new_prefix.comps() + split_components(target_bytes@).skip(
                old_prefix.comps().len() as int,
            )
            &&& c.target.wf()
            &&& wf_components(c.suffix.deep_view())
        },
{
    let target = parse_target(target_bytes);
    if is_component_prefix(old_prefix, &target) {
        let suffix = strip_prefix_components(&target, old_prefix);
        let new_target = join_path(new_prefix, &suffix);
        proof {
            lemma_split_components_wf(target_bytes@);
            assert(wf_components(suffix.deep_view()));
            assert(wf_components(new_target.comps()));
        }
        Some(RewriteCandidate { suffix, target: new_target })
    } else {
        None
    }
}

/// Map the two gates of the protocol to the recorded outcome: no
/// component-wise prefix match means the link is skipped untouched; a
/// match whose destination path is still absent is skipped untouched as
/// well; only a match with an existing destination is rewritten.
pub fn outcome_for(prefix_matched: bool, destination_exists: bool) -> (r: RewriteOutcome)
    ensures
        (r == RewriteOutcome::SkippedNoPrefixMatch) == !prefix_matched,
        (r == RewriteOutcome::SkippedTargetAbsent) == (prefix_matched && !destination_exists),
        (r == RewriteOutcome::Rewritten) == (prefix_matched && destination_exists),
{
    if !prefix_matched {
        RewriteOutcome::SkippedNoPrefixMatch
    } else if !destination_exists {
        RewriteOutcome::SkippedTargetAbsent
    } else {
        RewriteOutcome::Rewritten
    }
}

/// Whether a byte is an ASCII letter or digit.
pub open spec fn is_ascii_alnum(b: u8) -> bool {
    (48 <= b <= 57) || (65 <= b <= 90) || (97 <= b <= 122)
}

/// The temporary name composed from an entry name and a unique string:
/// the name, a dot, the unique string, and the fixed `.tmp` marker.
pub open spec fn temp_name_spec(name: Seq<u8>, unique: Seq<u8>) -> Seq<u8> {
    name + seq![DOT] + unique + seq![DOT, 116u8, 109u8, 112u8]
}

/// Relies on rand's `Alphanumeric` distribution: `sample_string` appends
/// exactly the requested number of characters, each drawn from
/// `A`-`Z`, `a`-`z`, `0`-`9`, so the returned bytes are that many ASCII
/// alphanumerics. Nothing further is assumed of which characters come out.
#[verifier::external_body]
fn random_alnum_bytes() -> (r: Vec<u8>)
    ensures
        r@.len() == UNIQUE_LEN as nat,
        forall|i: int| 0 <= i < r@.len() ==> is_ascii_alnum(r@[i]),
{
    rand::distributions::Alphanumeric.sample_string(&mut rand::thread_rng(), UNIQUE_LEN)
        .into_bytes()
}

/// Compose the temporary name for an entry from the entry name and the
/// given unique bytes.
pub fn temp_name_with(name: &Vec<u8>, unique: &Vec<u8>) -> (r: Vec<u8>)
    ensures
        r@ == temp_name_spec(name@, unique@),
        r@.len() == name@.len() + unique@.len() + 5,
        r@ != name@,
{
    let mut r: Vec<u8> = Vec::new();
    let mut i: usize = 0;
    while i < name.len()
        invariant
            i <= name@.len(),
            r@ == name@.take(i as int),
        decreases name@.len() - i,
    {
        r.push(name[i]);
        i = i + 1;
        proof {
            assert(r@ =~= name@.take(i as int));
        }
    }
    proof {
        assert(name@.take(name@.len() as int) =~= name@);
    }
    r.push(DOT);
    let mut j: usize = 0;
    while j < unique.len()
        invariant
            j <= unique@.len(),
            r@ == name@ + seq![DOT] + unique@.take(j as int),
        decreases unique@.len() - j,
    {
        r.push(unique[j]);
        j = j + 1;
        proof {
            assert(r@ =~= name@ + seq![DOT] + unique@.take(j as int));
        }
    }
    proof {
        assert(unique@.take(unique@.len() as int) =~= unique@);
    }
    r.push(DOT);
    r.push(116);
    r.push(109);
    r.push(112);
    proof {
        assert(r@ =~= temp_name_spec(name@, unique@));
        assert(r@.len() != name@.len());
    }
    r
}

/// Compose a fresh temporary name for an entry: the entry name, a dot, a
/// random alphanumeric string, and the fixed `.tmp` marker. The result is
/// always longer than the entry name, so it never collides with the name
/// being replaced.
pub fn fresh_temp_name(name: &Vec<u8>) -> (r: Vec<u8>)
    ensures
        r@.len() == name@.len() + UNIQUE_LEN + 5,
        r@.subrange(0, name@.len() as int) == name@,
        r@[name@.len() as int] == DOT,
        forall|i: int|
            name@.len() + 1 <= i < name@.len() + 1 + UNIQUE_LEN ==> is_ascii_alnum(r@[i]),
        r@.subrange(name@.len() + 1 + UNIQUE_LEN, r@.len() as int) == seq![
            DOT,
            116u8,
            109u8,
            112u8,
        ],
        r@ != name@,
{
    let unique = random_alnum_bytes();
    let r = temp_name_with(name, &unique);
    proof {
        assert(r@.subrange(0, name@.len() as int) =~= name@);
        assert forall|i: int|
            name@.len() + 1 <= i < name@.len() + 1 + UNIQUE_LEN implies is_ascii_alnum(
            r@[i],
        ) by {
            assert(r@[i] == unique@[i - name@.len() - 1]);
        }
        assert(r@.subrange(name@.len() + 1 + UNIQUE_LEN, r@.len() as int) =~= seq![
            DOT,
            116u8,
            109u8,
            112u8,
        ]);
    }
    r
}

/// Idempotence of the rewrite at the level of one link: when neither
/// prefix is a component-wise prefix of the other, a target that was
/// rewritten to sit under the new prefix can never match the old prefix
/// again, so a second run leaves it untouched. `t_cs` are the components
/// of the examined target.
pub proof fn lemma_second_pass_skips(old_prefix: LinkPath, new_prefix: LinkPath, t_cs: Seq<Seq<u8>>)
    requires
        old_prefix.wf(),
        new_prefix.wf(),
        wf_components(t_cs),
        !crate::paths::spec_is_prefix(old_prefix, new_prefix),
        !crate::paths::spec_is_prefix(new_prefix, old_prefix),
        comps_prefix_of(old_prefix.comps(), t_cs),
    ensures
        ({
            let cand = new_prefix.comps() + t_cs.skip(old_prefix.comps().len() as int);
            let bytes = encode_path(new_prefix.absolute, cand);
            !(is_absolute_bytes(bytes) == old_prefix.absolute && comps_prefix_of(
                old_prefix.comps(),
                split_components(bytes),
            ))
        }),
{
    let oc = old_prefix.comps();
    let nc = new_prefix.comps();
    let cand = nc + t_cs.skip(oc.len() as int);
    assert(wf_components(cand)) by {
        assert forall|i: int| 0 <= i < cand.len() implies crate::paths::wf_component(
            #[trigger] cand[i],
        ) by {
            if i < nc.len() {
                assert(cand[i] == nc[i]);
            } else {
                assert(cand[i] == t_cs[i - nc.len() + oc.len()]);
            }
        }
    }
    lemma_parse_encode_path(new_prefix.absolute, cand);
    let bytes = encode_path(new_prefix.absolute, cand);
    if old_prefix.absolute == new_prefix.absolute {
        if oc.len() <= nc.len() {
            assert(exists|i: int| 0 <= i < oc.len() && oc[i] != nc[i]);
            let i = choose|i: int| 0 <= i < oc.len() && oc[i] != nc[i];
            assert(cand[i] == nc[i]);
            assert(!comps_prefix_of(oc, split_components(bytes)));
        } else {
            assert(exists|i: int| 0 <= i < nc.len() && nc[i] != oc[i]);
            let i = choose|i: int| 0 <= i < nc.len() && nc[i] != oc[i];
            assert(cand[i] == nc[i]);
            assert(!comps_prefix_of(oc, split_components(bytes)));
        }
    }
}

} // verus!
