//! The namespace codec and the mathematical model of the store.
//!
//! A logical `(namespace, path)` pair maps to one physical key,
//! `namespace + "_." + path`; prefixes of that shape drive every scan.  The
//! spec functions here describe the store as a `Map` from physical keys to
//! values, and the effect of each operation on that map.

use vstd::prelude::*;

verus! {

use vstd::string::StrSliceExecFns;
use crate::strutil::{dots, str_concat};

/// The separator written between namespace and path in a physical key.
pub open spec fn sep() -> Seq<char> {
    seq!['_', '.']
}

/// The physical key of path `p` in namespace `ns`.
pub open spec fn enc(ns: Seq<char>, p: Seq<char>) -> Seq<char> {
    ns + sep() + p
}

/// The scan prefix that covers every physical key of namespace `ns`.
pub open spec fn ns_prefix(ns: Seq<char>) -> Seq<char> {
    ns + sep()
}

/// `node` followed by a dot, or the empty sequence for the root node: the
/// path prefix shared by all strict descendants of `node`.
pub open spec fn node_dot(node: Seq<char>) -> Seq<char> {
    if node.len() == 0 {
        node
    } else {
        node.push('.')
    }
}

/// What a point read of `(ns, p)` finds in store `m`.
pub open spec fn read_model(
    m: Map<Seq<char>, Seq<char>>,
    ns: Seq<char>,
    p: Seq<char>,
) -> Option<Seq<char>> {
    if m.contains_key(enc(ns, p)) {
        Some(m[enc(ns, p)])
    } else {
        None
    }
}

/// The store after writing value `v` under `(ns, p)`.
pub open spec fn write_model(
    m: Map<Seq<char>, Seq<char>>,
    ns: Seq<char>,
    p: Seq<char>,
    v: Seq<char>,
) -> Map<Seq<char>, Seq<char>> {
    m.insert(enc(ns, p), v)
}

/// The store after deleting `(ns, p)`.
pub open spec fn delete_model(
    m: Map<Seq<char>, Seq<char>>,
    ns: Seq<char>,
    p: Seq<char>,
) -> Map<Seq<char>, Seq<char>> {
    m.remove(enc(ns, p))
}

/// The physical keys of node `node` in `ns` and of all its strict
/// descendants.
pub open spec fn subtree_set(ns: Seq<char>, node: Seq<char>) -> Set<Seq<char>> {
    Set::new(
        |k: Seq<char>|
            (ns_prefix(ns) + node_dot(node)).is_prefix_of(k) || k == enc(ns, node),
    )
}

/// The store after recursively deleting the subtree rooted at `(ns, node)`.
pub open spec fn subtree_delete_model(
    m: Map<Seq<char>, Seq<char>>,
    ns: Seq<char>,
    node: Seq<char>,
) -> Map<Seq<char>, Seq<char>> {
    m.remove_keys(subtree_set(ns, node))
}

/// The logical paths of the strict descendants of `node` present in `m`
/// under `ns`.
pub open spec fn descendants(
    m: Map<Seq<char>, Seq<char>>,
    ns: Seq<char>,
    node: Seq<char>,
) -> Set<Seq<char>> {
    Set::new(|d: Seq<char>| m.contains_key(enc(ns, d)) && node_dot(node).is_prefix_of(d))
}

/// The dot count at which a depth traversal from `node` with `layers` layers
/// truncates a descendant path.
pub open spec fn layer_target(node: Seq<char>, layers: int) -> int {
    if node.len() == 0 {
        layers - 1
    } else {
        dots(node) + layers
    }
}

/// Prefixing both sequences keeps the prefix relation.
pub proof fn lemma_concat_prefix_mono(x: Seq<char>, p: Seq<char>, q: Seq<char>)
    requires
        p.is_prefix_of(q),
    ensures
        (x + p).is_prefix_of(x + q),
{
    assert((x + p) =~= (x + q).subrange(0, (x + p).len() as int));
}

/// A prefix of shape `x + p` splits: `x` opens `k` and `p` opens the rest.
pub proof fn lemma_prefix_through_concat(x: Seq<char>, p: Seq<char>, k: Seq<char>)
    requires
        (x + p).is_prefix_of(k),
    ensures
        x.is_prefix_of(k),
        p.is_prefix_of(k.skip(x.len() as int)),
{
    let xp = x + p;
    assert(xp =~= k.subrange(0, xp.len() as int));
    assert forall|i: int| 0 <= i < x.len() implies x[i] == k[i] by {
        assert(xp[i] == x[i]);
        assert(k.subrange(0, xp.len() as int)[i] == k[i]);
    }
    assert(x =~= k.subrange(0, x.len() as int));
    assert forall|i: int| 0 <= i < p.len()
        implies p[i] == k.skip(x.len() as int)[i] by {
        assert(xp[x.len() + i] == p[i]);
        assert(k.subrange(0, xp.len() as int)[x.len() + i] == k[x.len() + i]);
    }
    assert(p =~= k.skip(x.len() as int).subrange(0, p.len() as int));
}

/// Dropping a prefix it was built from gives the tail back.
pub proof fn lemma_concat_skip(x: Seq<char>, d: Seq<char>)
    ensures
        (x + d).skip(x.len() as int) == d,
{
    assert((x + d).skip(x.len() as int) =~= d);
}

/// A key that a namespace prefix opens decodes to the path that re-encodes
/// to the same key.
pub proof fn lemma_decode(ns: Seq<char>, k: Seq<char>)
    requires
        ns_prefix(ns).is_prefix_of(k),
    ensures
        enc(ns, k.skip(ns_prefix(ns).len() as int)) == k,
{
    assert(enc(ns, k.skip(ns_prefix(ns).len() as int)) =~= k);
}

/// Physical keys of one path collide only within one namespace.
pub proof fn lemma_enc_same_path(ns1: Seq<char>, ns2: Seq<char>, p: Seq<char>)
    requires
        enc(ns1, p) == enc(ns2, p),
    ensures
        ns1 == ns2,
{
    assert(enc(ns1, p).len() == ns1.len() + 2 + p.len());
    assert(enc(ns2, p).len() == ns2.len() + 2 + p.len());
    assert(ns1.len() == ns2.len());
    assert forall|i: int| 0 <= i < ns1.len() implies ns1[i] == ns2[i] by {
        assert(enc(ns1, p)[i] == ns1[i]);
        assert(enc(ns2, p)[i] == ns2[i]);
    }
    assert(ns1 =~= ns2);
}

/// The physical key of `(namespace, key)`.
pub fn encode_key(namespace: &str, key: &str) -> (r: String)
    ensures
        r@ == enc(namespace@, key@),
{
    proof {
        reveal_strlit("_.");
        assert("_."@ =~= sep());
    }
    let head = str_concat(namespace, "_.");
    let r = str_concat(head.as_str(), key);
    proof {
        assert(r@ =~= enc(namespace@, key@));
    }
    r
}

/// The scan prefix of a whole namespace.
pub fn namespace_prefix(namespace: &str) -> (r: String)
    ensures
        r@ == ns_prefix(namespace@),
{
    proof {
        reveal_strlit("_.");
        assert("_."@ =~= sep());
    }
    str_concat(namespace, "_.")
}

/// The scan prefix of the strict descendants of `(namespace, node)`.
pub fn descendants_prefix(namespace: &str, node: &str) -> (r: String)
    ensures
        r@ == ns_prefix(namespace@) + node_dot(node@),
{
    let head = namespace_prefix(namespace);
    if node.is_empty() {
        proof {
            assert(head@ =~= ns_prefix(namespace@) + node_dot(node@));
        }
        head
    } else {
        proof {
            reveal_strlit(".");
        }
        let mid = str_concat(head.as_str(), node);
        let r = str_concat(mid.as_str(), ".");
        proof {
            assert("."@ =~= seq!['.']);
            assert(node_dot(node@) =~= node@ + seq!['.']);
            assert(r@ =~= ns_prefix(namespace@) + node_dot(node@));
        }
        r
    }
}

} // verus!
