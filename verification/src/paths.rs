//! Byte-level model of link-target paths.
//!
//! A target read from a symlink is a raw byte string. This module splits
//! such a string into its path components (maximal runs of bytes between
//! `/` separators), encodes a component list back into bytes, and defines
//! component-wise prefix matching, prefix stripping and joining. All
//! executable functions are specified against the spec-level functions
//! `split_components` and `encode_path`.

use vstd::prelude::*;

verus! {

/// The path separator byte, `/`.
pub const SLASH: u8 = 47;

/// A well-formed path component: nonempty and free of separator bytes.
pub open spec fn wf_component(c: Seq<u8>) -> bool {
    c.len() > 0 && forall|i: int| 0 <= i < c.len() ==> c[i] != SLASH
}

/// Every component of the list is well formed.
pub open spec fn wf_components(cs: Seq<Seq<u8>>) -> bool {
    forall|i: int| 0 <= i < cs.len() ==> wf_component(#[trigger] cs[i])
}

/// Whether a byte string denotes an absolute path: it starts with `/`.
pub open spec fn is_absolute_bytes(s: Seq<u8>) -> bool {
    s.len() > 0 && s[0] == SLASH
}

/// The path components of a byte string: the maximal nonempty runs of
/// non-separator bytes, in order. Repeated and leading separators
/// contribute no components.
pub open spec fn split_components(s: Seq<u8>) -> Seq<Seq<u8>>
    decreases s.len(),
{
    if s.len() == 0 {
        Seq::empty()
    } else if s[0] == SLASH {
        split_components(s.skip(1))
    } else {
        let rest = split_components(s.skip(1));
        if s.len() > 1 && s[1] != SLASH && rest.len() > 0 {
            seq![seq![s[0]] + rest[0]] + rest.skip(1)
        } else {
            seq![seq![s[0]]] + rest
        }
    }
}

/// The bytes of a relative path: the components joined by single
/// separators, with no leading or trailing separator.
pub open spec fn encode_components(cs: Seq<Seq<u8>>) -> Seq<u8>
    decreases cs.len(),
{
    if cs.len() == 0 {
        Seq::empty()
    } else if cs.len() == 1 {
        cs[0]
    } else {
        cs[0] + seq![SLASH] + encode_components(cs.skip(1))
    }
}

/// The bytes of a path: a leading separator when it is absolute, then the
/// components joined by single separators.
pub open spec fn encode_path(absolute: bool, cs: Seq<Seq<u8>>) -> Seq<u8> {
    if absolute {
        seq![SLASH] + encode_components(cs)
    } else {
        encode_components(cs)
    }
}

/// A parsed path: an absolute flag plus its components.
pub struct LinkPath {
    pub absolute: bool,
    pub components: Vec<Vec<u8>>,
}

impl LinkPath {
    /// The component sequences of this path.
    pub open spec fn comps(self) -> Seq<Seq<u8>> {
        self.components.deep_view()
    }

    /// Every stored component is well formed.
    pub open spec fn wf(self) -> bool {
        wf_components(self.comps())
    }
}

/// `p` is a component-wise prefix of `q`: same kind of path, and `p`'s
/// components are the first components of `q`.
pub open spec fn comps_prefix_of(p: Seq<Seq<u8>>, q: Seq<Seq<u8>>) -> bool {
    p.len() <= q.len() && forall|i: int| 0 <= i < p.len() ==> p[i] == q[i]
}

/// `p` is a component-wise prefix of `q` as paths: the absolute flags
/// agree and the components of `p` lead `q`'s.
pub open spec fn spec_is_prefix(p: LinkPath, q: LinkPath) -> bool {
    p.absolute == q.absolute && comps_prefix_of(p.comps(), q.comps())
}

/// The deep view of a byte vector is its view.
pub proof fn lemma_bytes_deep_view(v: Vec<u8>)
    ensures
        v.deep_view() == v@,
{
    assert(v.deep_view() =~= v@);
}

/// Pushing a byte vector onto a vector of components pushes its view onto
/// the deep view.
pub proof fn lemma_deep_view_push(prev: Vec<Vec<u8>>, v: Vec<Vec<u8>>, c: Vec<u8>)
    requires
        v@ == prev@.push(c),
    ensures
        v.deep_view() == prev.deep_view().push(c@),
{
    assert(v.deep_view() =~~= prev.deep_view().push(c@));
}

/// The components produced by `split_components` are all well formed.
pub proof fn lemma_split_components_wf(s: Seq<u8>)
    ensures
        wf_components(split_components(s)),
    decreases s.len(),
{
    if s.len() == 0 {
    } else if s[0] == SLASH {
        lemma_split_components_wf(s.skip(1));
    } else {
        lemma_split_components_wf(s.skip(1));
        let rest = split_components(s.skip(1));
        if s.len() > 1 && s[1] != SLASH && rest.len() > 0 {
            let r = split_components(s);
            assert(wf_component(rest[0]));
            assert(wf_component(seq![s[0]] + rest[0]));
            assert forall|i: int| 0 <= i < r.len() implies wf_component(#[trigger] r[i]) by {
                if i > 0 {
                    assert(r[i] == rest[i]);
                    assert(wf_component(rest[i]));
                }
            }
        } else {
            let r = split_components(s);
            assert(wf_component(seq![s[0]]));
            assert forall|i: int| 0 <= i < r.len() implies wf_component(#[trigger] r[i]) by {
                if i > 0 {
                    assert(r[i] == rest[i - 1]);
                }
            }
        }
    }
}

/// A leading separator contributes no component.
pub proof fn lemma_split_sep_prepend(t: Seq<u8>)
    ensures
        split_components(seq![SLASH] + t) == split_components(t),
{
    let s = seq![SLASH] + t;
    assert(s.len() > 0 && s[0] == SLASH);
    assert(s.skip(1) =~= t);
}

/// A single well-formed component splits into itself.
pub proof fn lemma_split_single(c: Seq<u8>)
    requires
        wf_component(c),
    ensures
        split_components(c) == seq![c],
    decreases c.len(),
{
    if c.len() == 1 {
        assert(c.skip(1) =~= Seq::<u8>::empty());
        assert(split_components(Seq::<u8>::empty()) == Seq::<Seq<u8>>::empty());
        assert(split_components(c) =~~= seq![c]);
    } else {
        assert(wf_component(c.skip(1)));
        lemma_split_single(c.skip(1));
        let rest = split_components(c.skip(1));
        assert(rest == seq![c.skip(1)]);
        assert(c[1] != SLASH);
        assert(seq![c[0]] + rest[0] =~= c);
        assert(rest.skip(1) =~= Seq::<Seq<u8>>::empty());
        assert(seq![seq![c[0]] + rest[0]] + rest.skip(1) =~~= seq![c]);
    }
}

/// A well-formed component followed by a separator splits off as the
/// first component.
pub proof fn lemma_split_component_sep(c: Seq<u8>, t: Seq<u8>)
    requires
        wf_component(c),
    ensures
        split_components(c + seq![SLASH] + t) == seq![c] + split_components(t),
    decreases c.len(),
{
    let s = c + seq![SLASH] + t;
    assert(s[0] == c[0] && c[0] != SLASH);
    if c.len() == 1 {
        assert(s[1] == SLASH);
        assert(s.skip(1) =~= seq![SLASH] + t);
        lemma_split_sep_prepend(t);
        assert(split_components(s) =~~= seq![c] + split_components(t));
    } else {
        assert(wf_component(c.skip(1)));
        lemma_split_component_sep(c.skip(1), t);
        assert(s.skip(1) =~= c.skip(1) + seq![SLASH] + t);
        let rest = split_components(s.skip(1));
        assert(rest == seq![c.skip(1)] + split_components(t));
        assert(s.len() > 1 && s[1] == c[1] && c[1] != SLASH);
        assert(rest.len() > 0);
        assert(rest[0] == c.skip(1));
        assert(seq![s[0]] + rest[0] =~= c);
        assert(rest.skip(1) =~= split_components(t));
        assert(split_components(s) =~~= seq![c] + split_components(t));
    }
}

/// Splitting the encoding of a well-formed component list yields the
/// list back.
pub proof fn lemma_split_encode_components(cs: Seq<Seq<u8>>)
    requires
        wf_components(cs),
    ensures
        split_components(encode_components(cs)) == cs,
    decreases cs.len(),
{
    if cs.len() == 0 {
        assert(split_components(encode_components(cs)) =~~= cs);
    } else if cs.len() == 1 {
        lemma_split_single(cs[0]);
        assert(seq![cs[0]] =~= cs);
    } else {
        assert(wf_components(cs.skip(1)));
        lemma_split_encode_components(cs.skip(1));
        lemma_split_component_sep(cs[0], encode_components(cs.skip(1)));
        assert(split_components(encode_components(cs)) =~~= cs);
    }
}

/// Parsing the encoding of a well-formed path yields the path back:
/// the same absolute flag and the same components.
pub proof fn lemma_parse_encode_path(absolute: bool, cs: Seq<Seq<u8>>)
    requires
        wf_components(cs),
    ensures
        split_components(encode_path(absolute, cs)) == cs,
        is_absolute_bytes(encode_path(absolute, cs)) == absolute,
{
    lemma_split_encode_components(cs);
    if absolute {
        lemma_split_sep_prepend(encode_components(cs));
    } else {
        if cs.len() > 0 {
            if cs.len() == 1 {
                assert(encode_path(absolute, cs)[0] == cs[0][0]);
            } else {
                assert(encode_path(absolute, cs)[0] == cs[0][0]);
            }
            assert(cs[0][0] != SLASH);
        }
    }
}

/// Parse the components of `b` from position `i` on.
fn parse_components_from(b: &Vec<u8>, i: usize) -> (r: Vec<Vec<u8>>)
    requires
        i <= b@.len(),
    ensures
        r.deep_view() == split_components(b@.skip(i as int)),
    decreases b@.len() - i,
{
    if i == b.len() {
        let r: Vec<Vec<u8>> = Vec::new();
        proof {
            assert(b@.skip(i as int) =~= Seq::<u8>::empty());
            assert(r.deep_view() =~= Seq::<Seq<u8>>::empty());
        }
        r
    } else if b[i] == SLASH {
        let r = parse_components_from(b, i + 1);
        proof {
            assert(b@.skip(i as int).skip(1) =~= b@.skip(i + 1 as int));
        }
        r
    } else {
        let mut rest = parse_components_from(b, i + 1);
        proof {
            assert(b@.skip(i as int).skip(1) =~= b@.skip(i + 1 as int));
        }
        let ghost s = b@.skip(i as int);
        let ghost rest0 = rest.deep_view();
        if i + 1 < b.len() && b[i + 1] != SLASH {
            proof {
                assert(s.len() > 1 && s[1] == b@[i + 1]);
                // the tail starts with a non-separator byte, so it has a
                // first component
                assert(split_components(b@.skip(i + 1 as int)).len() > 0);
            }
            let mut first = rest.remove(0);
            first.insert(0, b[i]);
            rest.insert(0, first);
            proof {
                assert(first@ =~= seq![s[0]] + rest0[0]);
                assert(rest.deep_view() =~~= seq![seq![s[0]] + rest0[0]] + rest0.skip(1));
            }
            rest
        } else {
            let mut c: Vec<u8> = Vec::new();
            c.push(b[i]);
            rest.insert(0, c);
            proof {
                assert(c@ =~= seq![s[0]]);
                assert(rest.deep_view() =~~= seq![seq![s[0]]] + rest0);
                if s.len() > 1 {
                    assert(s[1] == b@[i + 1]);
                }
            }
            rest
        }
    }
}

/// Parse raw link-target bytes into a path: the absolute flag and the
/// component list.
pub fn parse_target(b: &Vec<u8>) -> (r: LinkPath)
    ensures
        r.absolute == is_absolute_bytes(b@),
        r.comps() == split_components(b@),
        r.wf(),
{
    let absolute = b.len() > 0 && b[0] == SLASH;
    let components = parse_components_from(b, 0);
    proof {
        assert(b@.skip(0) =~= b@);
        lemma_split_components_wf(b@);
    }
    LinkPath { absolute, components }
}

/// Copy a byte vector.
pub(crate) fn copy_bytes(src: &Vec<u8>) -> (r: Vec<u8>)
    ensures
        r@ == src@,
{
    let mut r: Vec<u8> = Vec::new();
    let mut i: usize = 0;
    while i < src.len()
        invariant
            i <= src@.len(),
            r@ == src@.take(i as int),
        decreases src@.len() - i,
    {
        r.push(src[i]);
        i = i + 1;
        proof {
            assert(r@ =~= src@.take(i as int));
        }
    }
    proof {
        assert(src@.take(src@.len() as int) =~= src@);
    }
    r
}

/// Whether two byte vectors hold the same bytes.
pub(crate) fn bytes_eq(a: &Vec<u8>, b: &Vec<u8>) -> (r: bool)
    ensures
        r == (a@ == b@),
{
    if a.len() != b.len() {
        return false;
    }
    let mut i: usize = 0;
    while i < a.len()
        invariant
            a@.len() == b@.len(),
            i <= a@.len(),
            forall|j: int| 0 <= j < i ==> a@[j] == b@[j],
        decreases a@.len() - i,
    {
        if a[i] != b[i] {
            return false;
        }
        i = i + 1;
    }
    proof {
        assert(a@ =~= b@);
    }
    true
}

/// Encode the components of `cs` from position `i` on, joined by single
/// separators.
fn encode_components_from(cs: &Vec<Vec<u8>>, i: usize) -> (r: Vec<u8>)
    requires
        i <= cs@.len(),
    ensures
        r@ == encode_components(cs.deep_view().skip(i as int)),
    decreases cs@.len() - i,
{
    let ghost tail = cs.deep_view().skip(i as int);
    if i == cs.len() {
        let r: Vec<u8> = Vec::new();
        proof {
            assert(tail =~= Seq::<Seq<u8>>::empty());
        }
        r
    } else if i + 1 == cs.len() {
        let r = copy_bytes(&cs[i]);
        proof {
            assert(tail.len() == 1);
            assert(tail[0] == cs.deep_view()[i as int]);
        }
        r
    } else {
        let mut r = copy_bytes(&cs[i]);
        r.push(SLASH);
        let mut rest = encode_components_from(cs, i + 1);
        r.append(&mut rest);
        proof {
            assert(tail.skip(1) =~= cs.deep_view().skip(i + 1 as int));
            assert(r@ =~= tail[0] + seq![SLASH] + encode_components(tail.skip(1)));
        }
        r
    }
}

/// Encode a path back into bytes: a leading separator when absolute, then
/// the components joined by single separators.
pub fn encode_path_bytes(p: &LinkPath) -> (r: Vec<u8>)
    ensures
        r@ == encode_path(p.absolute, p.comps()),
{
    let mut r: Vec<u8> = Vec::new();
    if p.absolute {
        r.push(SLASH);
    }
    let mut rest = encode_components_from(&p.components, 0);
    r.append(&mut rest);
    proof {
        assert(p.comps().skip(0) =~= p.comps());
        if p.absolute {
            assert(r@ =~= seq![SLASH] + encode_components(p.comps()));
        } else {
            assert(r@ =~= encode_components(p.comps()));
        }
    }
    r
}

/// Encode a relative component list (a suffix below a root) into bytes.
pub fn encode_relative_bytes(cs: &Vec<Vec<u8>>) -> (r: Vec<u8>)
    ensures
        r@ == encode_components(cs.deep_view()),
{
    let r = encode_components_from(cs, 0);
    proof {
        assert(cs.deep_view().skip(0) =~= cs.deep_view());
    }
    r
}

/// Whether `p` is a component-wise prefix of `q`.
pub fn is_component_prefix(p: &LinkPath, q: &LinkPath) -> (r: bool)
    ensures
        r == spec_is_prefix(*p, *q),
{
    if p.absolute != q.absolute {
        return false;
    }
    if p.components.len() > q.components.len() {
        return false;
    }
    let mut i: usize = 0;
    while i < p.components.len()
        invariant
            i <= p.comps().len(),
            p.comps().len() <= q.comps().len(),
            forall|j: int| 0 <= j < i ==> p.comps()[j] == q.comps()[j],
        decreases p.comps().len() - i,
    {
        if !bytes_eq(&p.components[i], &q.components[i]) {
            proof {
                lemma_bytes_deep_view(p.components@[i as int]);
                lemma_bytes_deep_view(q.components@[i as int]);
                assert(p.components@[i as int]@ != q.components@[i as int]@);
                assert(p.comps()[i as int] != q.comps()[i as int]);
                assert(!comps_prefix_of(p.comps(), q.comps()));
            }
            return false;
        }
        proof {
            lemma_bytes_deep_view(p.components@[i as int]);
            lemma_bytes_deep_view(q.components@[i as int]);
        }
        i = i + 1;
    }
    true
}

/// The components of `q` that remain after removing the leading
/// components of `p`.
pub fn strip_prefix_components(q: &LinkPath, p: &LinkPath) -> (r: Vec<Vec<u8>>)
    requires
        spec_is_prefix(*p, *q),
    ensures
        r.deep_view() == q.comps().skip(p.comps().len() as int),
{
    let mut r: Vec<Vec<u8>> = Vec::new();
    let mut i: usize = p.components.len();
    while i < q.components.len()
        invariant
            p.comps().len() <= i <= q.comps().len(),
            r.deep_view() == q.comps().subrange(p.comps().len() as int, i as int),
        decreases q.comps().len() - i,
    {
        let ghost prev = r;
        let c = copy_bytes(&q.components[i]);
        let ghost cv = c;
        r.push(c);
        proof {
            lemma_deep_view_push(prev, r, cv);
            lemma_bytes_deep_view(q.components@[i as int]);
            assert(q.comps().subrange(p.comps().len() as int, i + 1 as int)
                =~= q.comps().subrange(p.comps().len() as int, i as int).push(q.comps()[i as int]));
        }
        i = i + 1;
    }
    proof {
        assert(q.comps().subrange(p.comps().len() as int, q.comps().len() as int)
            =~= q.comps().skip(p.comps().len() as int));
    }
    r
}

/// Join a root path with a relative suffix: the result keeps the root's
/// absolute flag and appends the suffix components.
pub fn join_path(root: &LinkPath, suffix: &Vec<Vec<u8>>) -> (r: LinkPath)
    ensures
        r.absolute == root.absolute,
        r.comps() == root.comps() + suffix.deep_view(),
{
    let mut components: Vec<Vec<u8>> = Vec::new();
    let mut i: usize = 0;
    while i < root.components.len()
        invariant
            i <= root.comps().len(),
            components.deep_view() == root.comps().take(i as int),
        decreases root.comps().len() - i,
    {
        let ghost prev = components;
        let c = copy_bytes(&root.components[i]);
        let ghost cv = c;
        components.push(c);
        proof {
            lemma_deep_view_push(prev, components, cv);
            lemma_bytes_deep_view(root.components@[i as int]);
            assert(root.comps().take(i + 1 as int)
                =~= root.comps().take(i as int).push(root.comps()[i as int]));
        }
        i = i + 1;
    }
    proof {
        assert(root.comps().take(root.comps().len() as int) =~= root.comps());
        assert(root.comps() + suffix.deep_view().take(0) =~= root.comps());
    }
    let mut j: usize = 0;
    while j < suffix.len()
        invariant
            j <= suffix.deep_view().len(),
            components.deep_view() == root.comps() + suffix.deep_view().take(j as int),
        decreases suffix.deep_view().len() - j,
    {
        let ghost prev = components;
        let c = copy_bytes(&suffix[j]);
        let ghost cv = c;
        components.push(c);
        proof {
            lemma_deep_view_push(prev, components, cv);
            lemma_bytes_deep_view(suffix@[j as int]);
            assert(root.comps() + suffix.deep_view().take(j + 1 as int)
                =~= (root.comps() + suffix.deep_view().take(j as int)).push(
                    suffix.deep_view()[j as int]));
        }
        j = j + 1;
    }
    proof {
        assert(root.comps() + suffix.deep_view().take(suffix.deep_view().len() as int)
            =~= root.comps() + suffix.deep_view());
    }
    LinkPath { absolute: root.absolute, components }
}

} // verus!
