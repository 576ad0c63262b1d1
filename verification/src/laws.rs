//! Laws of the store model.
//!
//! The service contracts in `crate::service` relate every operation to the
//! model functions of `crate::codec`; the proofs here state what those model
//! functions guarantee in combination, for all stores, namespaces, paths and
//! values.

use vstd::prelude::*;

verus! {

use crate::codec::{
    enc, ns_prefix, node_dot, read_model, write_model, delete_model, subtree_set,
    subtree_delete_model, lemma_enc_same_path, lemma_concat_prefix_mono,
};

/// Round trip: writing a value under a path and then reading that path
/// yields exactly the written value, whatever the store held before.
pub proof fn lemma_write_then_read(
    m: Map<Seq<char>, Seq<char>>,
    ns: Seq<char>,
    p: Seq<char>,
    v: Seq<char>,
)
    ensures
        read_model(write_model(m, ns, p, v), ns, p) == Some(v),
{
}

/// Delete removes: a read after deleting the path finds nothing, whatever
/// was written there before.
pub proof fn lemma_delete_removes(m: Map<Seq<char>, Seq<char>>, ns: Seq<char>, p: Seq<char>)
    ensures
        read_model(delete_model(m, ns, p), ns, p) is None,
{
}

/// Namespace isolation: a write under one namespace never changes what a
/// read of the same path under a different namespace returns.
pub proof fn lemma_namespace_isolation(
    m: Map<Seq<char>, Seq<char>>,
    ns1: Seq<char>,
    ns2: Seq<char>,
    p: Seq<char>,
    v: Seq<char>,
)
    requires
        ns1 != ns2,
    ensures
        read_model(write_model(m, ns1, p, v), ns2, p) == read_model(m, ns2, p),
{
    if enc(ns1, p) == enc(ns2, p) {
        lemma_enc_same_path(ns1, ns2, p);
    }
}

/// Recursive deletion removes the node itself and every strict descendant.
pub proof fn lemma_subtree_delete_removes(
    m: Map<Seq<char>, Seq<char>>,
    ns: Seq<char>,
    node: Seq<char>,
    d: Seq<char>,
)
    requires
        d == node || node_dot(node).is_prefix_of(d),
    ensures
        read_model(subtree_delete_model(m, ns, node), ns, d) is None,
{
    if node_dot(node).is_prefix_of(d) {
        lemma_concat_prefix_mono(ns_prefix(ns), node_dot(node), d);
        assert(subtree_set(ns, node).contains(enc(ns, d)));
    } else {
        assert(subtree_set(ns, node).contains(enc(ns, node)));
    }
}

/// Recursive deletion leaves every entry outside the subtree untouched:
/// sibling subtrees and other namespaces read as before.
pub proof fn lemma_subtree_delete_preserves(
    m: Map<Seq<char>, Seq<char>>,
    ns: Seq<char>,
    node: Seq<char>,
    ns2: Seq<char>,
    p2: Seq<char>,
)
    requires
        !subtree_set(ns, node).contains(enc(ns2, p2)),
    ensures
        read_model(subtree_delete_model(m, ns, node), ns2, p2) == read_model(m, ns2, p2),
{
}

/// After a destroy the store is the empty map, and a fresh write/read round
/// trip on it succeeds: the store is usable again.
pub proof fn lemma_destroyed_store_round_trip(ns: Seq<char>, p: Seq<char>, v: Seq<char>)
    ensures
        read_model(
            write_model(Map::<Seq<char>, Seq<char>>::empty(), ns, p, v),
            ns,
            p,
        ) == Some(v),
{
    lemma_write_then_read(Map::<Seq<char>, Seq<char>>::empty(), ns, p, v);
}

/// A read of the empty path fails on any store that holds no entry at its
/// physical key.  Writes reject the empty path, so within one namespace no
/// write ever creates that key (see `lemma_write_keeps_empty_path_absent`);
/// a namespace string that itself embeds the separator can, however, collide
/// with it from another namespace.
pub proof fn lemma_empty_path_read_fails(m: Map<Seq<char>, Seq<char>>, ns: Seq<char>)
    requires
        !m.contains_key(enc(ns, Seq::<char>::empty())),
    ensures
        read_model(m, ns, Seq::<char>::empty()) is None,
{
}

/// A write under a non-empty path never creates the empty-path entry of its
/// own namespace.
pub proof fn lemma_write_keeps_empty_path_absent(
    m: Map<Seq<char>, Seq<char>>,
    ns: Seq<char>,
    p: Seq<char>,
    v: Seq<char>,
)
    requires
        p.len() > 0,
        !m.contains_key(enc(ns, Seq::<char>::empty())),
    ensures
        !write_model(m, ns, p, v).contains_key(enc(ns, Seq::<char>::empty())),
{
    assert(enc(ns, p).len() != enc(ns, Seq::<char>::empty()).len());
}

} // verus!
