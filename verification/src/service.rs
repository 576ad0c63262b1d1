//! The namespaced key-value service: point operations, substring search,
//! depth-bounded subtree listing and recursive subtree deletion, all over
//! the sorted engine behind the facade.
//!
//! Every operation reports its outcome as a `(success, message, ...)` tuple;
//! domain failures never escape as anything else.  The contracts relate each
//! outcome to the store model of `crate::codec`.

use vstd::prelude::*;

verus! {

use vstd::string::StrSliceExecFns;
use vstd::string::StringExecFns;
use crate::facade::RocksDbFacade;
use crate::codec::{
    enc, ns_prefix, node_dot, read_model, write_model, delete_model, subtree_set,
    subtree_delete_model, descendants, layer_target, encode_key, namespace_prefix,
    descendants_prefix, lemma_concat_prefix_mono, lemma_prefix_through_concat,
    lemma_concat_skip, lemma_decode,
};
use crate::strutil::{
    has_view, views_sorted, views_upto, contains_substr, is_cut, str_concat,
    str_contains, suffix_from, count_dots, cut_path, insert_sorted, lemma_cut_unique,
    lemma_cut_needs_dots,
};

/// Some path in `m` under `ns` is a strict descendant of `node`.
pub open spec fn has_descendant(
    m: Map<Seq<char>, Seq<char>>,
    ns: Seq<char>,
    node: Seq<char>,
) -> bool {
    exists|d: Seq<char>|
        #[trigger] m.contains_key(enc(ns, d)) && node_dot(node).is_prefix_of(d)
}

/// The `layers` argument of a traversal, with its default of one layer.
pub open spec fn layers_or_default(layers: Option<i32>) -> int {
    match layers {
        Option::Some(l) => l as int,
        Option::None => 1,
    }
}

/// The success condition of a traversal: the root node always lists, any
/// other node must exist as an entry or have descendants.
pub open spec fn traversal_succeeds(
    m: Map<Seq<char>, Seq<char>>,
    ns: Seq<char>,
    node: Seq<char>,
) -> bool {
    node.len() == 0 || has_descendant(m, ns, node) || m.contains_key(enc(ns, node))
}

/// The namespaced key-value service over one engine handle.
#[derive(Debug)]
pub struct DbService {
    rocks_db_facade: RocksDbFacade,
    db_path: String,
}

impl DbService {
    /// Whether the engine handle is open.
    pub closed spec fn is_opened(&self) -> bool {
        self.rocks_db_facade.is_opened()
    }

    /// The store behind the service, as a map from physical keys to values.
    pub closed spec fn entries(&self) -> Map<Seq<char>, Seq<char>> {
        self.rocks_db_facade.entries()
    }

    /// A fresh service over an empty store.
    pub fn new() -> (r: DbService)
        ensures
            !r.is_opened(),
            r.entries() == Map::<Seq<char>, Seq<char>>::empty(),
    {
        DbService {
            rocks_db_facade: RocksDbFacade::new(),
            db_path: "AGLPersistentStorageAPI".to_owned(),
        }
    }

    /// Opens the engine lazily; a second open is a no-op.
    fn open_db(&mut self) -> (r: (bool, String))
        ensures
            r.0,
            final(self).is_opened(),
            final(self).entries() == old(self).entries(),
            final(self).db_path == old(self).db_path,
    {
        let path = self.db_path.clone();
        match self.rocks_db_facade.open_db(path.as_str()) {
            Ok(()) => {
                let msg = str_concat("Opened database at path '", path.as_str());
                (true, str_concat(msg.as_str(), "'"))
            },
            Err(e) => {
                let msg = str_concat("Error when trying to open database at path '", path.as_str());
                let msg = str_concat(msg.as_str(), "': ");
                (false, str_concat(msg.as_str(), e.as_str()))
            },
        }
    }

    /// Erases every namespace and every entry; the store is usable again
    /// afterwards.
    pub fn destroy_db(&mut self) -> (r: (bool, String))
        ensures
            r.0,
            !final(self).is_opened(),
            final(self).entries() == Map::<Seq<char>, Seq<char>>::empty(),
    {
        let (is_open, msg) = self.open_db();
        let path = self.db_path.clone();
        if !is_open {
            return (false, msg);
        }
        match self.rocks_db_facade.destroy_db(path.as_str()) {
            Ok(()) => {
                let msg = str_concat("Destroyed database at path '", path.as_str());
                (true, str_concat(msg.as_str(), "'"))
            },
            Err(e) => {
                let msg = str_concat(
                    "Error when trying to destroy database at path '",
                    path.as_str(),
                );
                let msg = str_concat(msg.as_str(), "': ");
                (false, str_concat(msg.as_str(), e.as_str()))
            },
        }
    }

    /// Writes `value` under `(namespace, key)`; an empty key is rejected,
    /// an existing entry is overwritten.
    pub fn write_db(&mut self, key: &str, value: &str, namespace: &str) -> (r: (bool, String))
        ensures
            final(self).is_opened(),
            r.0 == (key@.len() > 0),
            r.0 ==> final(self).entries()
                == write_model(old(self).entries(), namespace@, key@, value@),
            !r.0 ==> final(self).entries() == old(self).entries(),
    {
        let (is_open, msg) = self.open_db();
        if !is_open {
            return (false, msg);
        }
        if key.is_empty() {
            let msg = str_concat("Error when trying to write key '", key);
            let msg = str_concat(msg.as_str(), "' and value '");
            let msg = str_concat(msg.as_str(), value);
            let msg = str_concat(msg.as_str(), "': Key cannot be empty string.");
            return (false, msg);
        }
        let namespace_key = encode_key(namespace, key);
        match self.rocks_db_facade.write_db(namespace_key.as_str(), value) {
            Ok(()) => {
                let msg = str_concat("Wrote key '", key);
                let msg = str_concat(msg.as_str(), "' and value '");
                let msg = str_concat(msg.as_str(), value);
                let msg = str_concat(msg.as_str(), "' in namespace '");
                let msg = str_concat(msg.as_str(), namespace);
                let msg = str_concat(msg.as_str(), "'");
                (true, msg)
            },
            Err(e) => {
                let msg = str_concat("Error when trying to write key '", key);
                let msg = str_concat(msg.as_str(), "' in namespace '");
                let msg = str_concat(msg.as_str(), namespace);
                let msg = str_concat(msg.as_str(), "': ");
                (false, str_concat(msg.as_str(), e.as_str()))
            },
        }
    }

    /// Reads the value under `(namespace, key)`; an absent entry fails and
    /// yields the empty string as value.
    pub fn read_db(&mut self, key: &str, namespace: &str) -> (r: (bool, String, String))
        ensures
            final(self).is_opened(),
            final(self).entries() == old(self).entries(),
            r.0 == (read_model(old(self).entries(), namespace@, key@) is Some),
            r.0 ==> read_model(old(self).entries(), namespace@, key@) == Some(r.2@),
            !r.0 ==> r.2@ == Seq::<char>::empty(),
    {
        let (is_open, msg) = self.open_db();
        if !is_open {
            proof {
                reveal_strlit("");
                assert(""@ =~= Seq::<char>::empty());
            }
            return (false, msg, "".to_owned());
        }
        let namespace_key = encode_key(namespace, key);
        match self.rocks_db_facade.read_db(namespace_key.as_str()) {
            Ok(value) => {
                let msg = str_concat("Retrieved value '", value.as_str());
                let msg = str_concat(msg.as_str(), "' from key '");
                let msg = str_concat(msg.as_str(), key);
                let msg = str_concat(msg.as_str(), "' in namespace '");
                let msg = str_concat(msg.as_str(), namespace);
                let msg = str_concat(msg.as_str(), "'");
                (true, msg, value)
            },
            Err(e) => {
                let msg = str_concat("Error when trying to retrieve from key '", key);
                let msg = str_concat(msg.as_str(), "' in namespace '");
                let msg = str_concat(msg.as_str(), namespace);
                let msg = str_concat(msg.as_str(), "': ");
                let msg = str_concat(msg.as_str(), e.as_str());
                proof {
                    reveal_strlit("");
                    assert(""@ =~= Seq::<char>::empty());
                }
                (false, msg, "".to_owned())
            },
        }
    }

    /// Whether `(namespace, key)` is stored; a closed handle reports `false`
    /// without opening it.
    pub fn check_if_key_exists(&mut self, key: &str, namespace: &str) -> (r: bool)
        ensures
            *final(self) == *old(self),
            r == (old(self).is_opened()
                && old(self).entries().contains_key(enc(namespace@, key@))),
    {
        let namespace_key = encode_key(namespace, key);
        match self.rocks_db_facade.read_db(namespace_key.as_str()) {
            Ok(_value) => true,
            Err(_e) => false,
        }
    }

    /// Deletes `(namespace, key)`; deleting an absent entry fails.
    pub fn delete_db(&mut self, key: &str, namespace: &str) -> (r: (bool, String))
        ensures
            final(self).is_opened(),
            r.0 == old(self).entries().contains_key(enc(namespace@, key@)),
            r.0 ==> final(self).entries()
                == delete_model(old(self).entries(), namespace@, key@),
            !r.0 ==> final(self).entries() == old(self).entries(),
    {
        let (is_open, msg) = self.open_db();
        if !is_open {
            return (false, msg);
        }
        if self.check_if_key_exists(key, namespace) {
            let namespace_key = encode_key(namespace, key);
            match self.rocks_db_facade.delete_db(namespace_key.as_str()) {
                Ok(()) => {
                    let msg = str_concat("Deleted key '", key);
                    let msg = str_concat(msg.as_str(), "' in namespace '");
                    let msg = str_concat(msg.as_str(), namespace);
                    let msg = str_concat(msg.as_str(), "'");
                    (true, msg)
                },
                Err(e) => {
                    let msg = str_concat("Error when trying to delete key '", key);
                    let msg = str_concat(msg.as_str(), "' in namespace '");
                    let msg = str_concat(msg.as_str(), namespace);
                    let msg = str_concat(msg.as_str(), "': ");
                    (false, str_concat(msg.as_str(), e.as_str()))
                },
            }
        } else {
            let msg = str_concat("Key '", key);
            let msg = str_concat(msg.as_str(), "' does not exist in namespace '");
            let msg = str_concat(msg.as_str(), namespace);
            let msg = str_concat(msg.as_str(), "'!");
            (false, msg)
        }
    }

    /// Lists, in ascending order, every path of `namespace` that holds
    /// `substring` anywhere in it.
    pub fn search_db(&mut self, substring: &str, namespace: &str) -> (r: (
        bool,
        String,
        Vec<String>,
    ))
        ensures
            final(self).is_opened(),
            final(self).entries() == old(self).entries(),
            r.0,
            views_sorted(r.2@),
            forall|d: Seq<char>|
                #[trigger] has_view(r.2@, d) == (old(self).entries().contains_key(
                    enc(namespace@, d),
                ) && contains_substr(d, substring@)),
    {
        let (is_open, msg) = self.open_db();
        if !is_open {
            return (false, msg, Vec::new());
        }
        let nspfx = namespace_prefix(namespace);
        let pfx_len = nspfx.as_str().unicode_len();
        let ghost m = self.entries();
        match self.rocks_db_facade.list_keys_with_prefix(nspfx.as_str()) {
            Ok(keys) => {
                let mut res: Vec<String> = Vec::new();
                let mut i: usize = 0;
                while i < keys.len()
                    invariant
                        i <= keys@.len(),
                        pfx_len == ns_prefix(namespace@).len(),
                        views_sorted(keys@),
                        forall|x: Seq<char>|
                            #[trigger] has_view(keys@, x) == (m.contains_key(x)
                                && ns_prefix(namespace@).is_prefix_of(x)),
                        views_sorted(res@),
                        forall|d: Seq<char>|
                            #[trigger] has_view(res@, d) == (exists|j: int|
                                0 <= j < i && #[trigger] keys@[j]@ == enc(namespace@, d)
                                    && contains_substr(d, substring@)),
                    decreases keys@.len() - i,
                {
                    let k = &keys[i];
                    proof {
                        assert(has_view(keys@, k@));
                        lemma_decode(namespace@, k@);
                    }
                    let d = suffix_from(k.as_str(), pfx_len);
                    let ghost prev = res@;
                    if str_contains(d.as_str(), substring) {
                        insert_sorted(&mut res, d);
                    }
                    i += 1;
                    proof {
                        assert forall|dd: Seq<char>|
                            #[trigger] has_view(res@, dd) == (exists|j: int|
                                0 <= j < i && #[trigger] keys@[j]@ == enc(namespace@, dd)
                                    && contains_substr(dd, substring@)) by {
                            if has_view(res@, dd) {
                                if has_view(prev, dd) {
                                } else {
                                    assert(keys@[i - 1]@ == enc(namespace@, dd));
                                }
                            }
                            if exists|j: int|
                                0 <= j < i && #[trigger] keys@[j]@ == enc(namespace@, dd)
                                    && contains_substr(dd, substring@) {
                                let j = choose|j: int|
                                    0 <= j < i && #[trigger] keys@[j]@ == enc(namespace@, dd)
                                        && contains_substr(dd, substring@);
                                if j == i - 1 {
                                    lemma_concat_skip(ns_prefix(namespace@), dd);
                                    assert(dd == k@.skip(pfx_len as int));
                                } else {
                                    assert(has_view(prev, dd));
                                }
                            }
                        }
                    }
                }
                proof {
                    assert forall|d: Seq<char>|
                        #[trigger] has_view(res@, d) == (m.contains_key(enc(namespace@, d))
                            && contains_substr(d, substring@)) by {
                        if has_view(res@, d) {
                            let j = choose|j: int|
                                0 <= j < keys@.len() && #[trigger] keys@[j]@
                                    == enc(namespace@, d) && contains_substr(d, substring@);
                            assert(has_view(keys@, enc(namespace@, d)));
                        }
                        if m.contains_key(enc(namespace@, d)) && contains_substr(
                            d,
                            substring@,
                        ) {
                            assert(ns_prefix(namespace@).is_prefix_of(enc(namespace@, d))) by {
                                assert(ns_prefix(namespace@) =~= enc(namespace@, d).subrange(
                                    0,
                                    ns_prefix(namespace@).len() as int,
                                ));
                            }
                            assert(has_view(keys@, enc(namespace@, d)));
                            let j = choose|j: int|
                                0 <= j < keys@.len() && keys@[j]@ == enc(namespace@, d);
                            assert(keys@[j]@ == enc(namespace@, d));
                        }
                    }
                }
                let msg = str_concat("Retrieved list of keys containing substring '", substring);
                let msg = str_concat(msg.as_str(), "' in namespace '");
                let msg = str_concat(msg.as_str(), namespace);
                let msg = str_concat(msg.as_str(), "'");
                (true, msg, res)
            },
            Err(e) => {
                let msg = str_concat("Error when trying to search for keys containing '", substring);
                let msg = str_concat(msg.as_str(), "' in namespace '");
                let msg = str_concat(msg.as_str(), namespace);
                let msg = str_concat(msg.as_str(), "': ");
                (false, str_concat(msg.as_str(), e.as_str()), Vec::new())
            },
        }
    }

    /// Deletes `(namespace, node)` and every entry strictly under it;
    /// sibling subtrees and other namespaces are untouched.  An empty node
    /// is rejected: erasing everything takes `destroy_db`.
    pub fn delete_recursively_from_db(&mut self, node: &str, namespace: &str) -> (r: (
        bool,
        String,
    ))
        ensures
            final(self).is_opened(),
            r.0 == (node@.len() > 0),
            r.0 ==> final(self).entries()
                == subtree_delete_model(old(self).entries(), namespace@, node@),
            !r.0 ==> final(self).entries() == old(self).entries(),
    {
        let (is_open, msg) = self.open_db();
        if !is_open {
            return (false, msg);
        }
        if node.is_empty() {
            return (false, "Error: Key String was empty!".to_owned());
        }
        let ghost m = self.entries();
        let ghost sset = subtree_set(namespace@, node@);
        let scan = descendants_prefix(namespace, node);
        let nspfx = namespace_prefix(namespace);
        let pfx_len = nspfx.as_str().unicode_len();
        match self.rocks_db_facade.list_keys_with_prefix(scan.as_str()) {
            Ok(keys) => {
                let ghost keys0 = keys@;
                let mut keys = keys;
                let node_exists = self.check_if_key_exists(node, namespace);
                if node_exists {
                    keys.push(encode_key(namespace, node));
                }
                proof {
                    assert forall|j: int| 0 <= j < keys@.len()
                        implies sset.contains(#[trigger] keys@[j]@)
                            && ns_prefix(namespace@).is_prefix_of(keys@[j]@) by {
                        if j < keys0.len() {
                            assert(keys@[j] == keys0[j]);
                            assert(has_view(keys0, keys0[j]@));
                            lemma_prefix_through_concat(
                                ns_prefix(namespace@),
                                node_dot(node@),
                                keys@[j]@,
                            );
                        } else {
                            assert(keys@[j]@ == enc(namespace@, node@));
                            assert(ns_prefix(namespace@).is_prefix_of(enc(namespace@, node@))) by {
                                assert(ns_prefix(namespace@) =~= enc(namespace@, node@).subrange(
                                    0,
                                    ns_prefix(namespace@).len() as int,
                                ));
                            }
                        }
                    }
                    assert forall|kk: Seq<char>|
                        #[trigger] sset.contains(kk) && m.contains_key(kk)
                            implies has_view(keys@, kk) by {
                        if (ns_prefix(namespace@) + node_dot(node@)).is_prefix_of(kk) {
                            assert(has_view(keys0, kk));
                            let j = choose|j: int| 0 <= j < keys0.len() && keys0[j]@ == kk;
                            assert(keys@[j]@ == kk);
                        } else {
                            assert(kk == enc(namespace@, node@));
                            assert(node_exists);
                            assert(keys@[keys0.len() as int]@ == kk);
                        }
                    }
                    assert(self.entries() =~= m.remove_keys(views_upto(keys@, 0)));
                }
                let mut deleted_keys = "Deleted Keys: ".to_owned();
                let mut i: usize = 0;
                while i < keys.len()
                    invariant
                        i <= keys@.len(),
                        self.is_opened(),
                        pfx_len == ns_prefix(namespace@).len(),
                        self.entries() == m.remove_keys(views_upto(keys@, i as int)),
                        forall|j: int| 0 <= j < keys@.len()
                            ==> sset.contains(#[trigger] keys@[j]@)
                                && ns_prefix(namespace@).is_prefix_of(keys@[j]@),
                        forall|kk: Seq<char>|
                            #[trigger] sset.contains(kk) && m.contains_key(kk)
                                ==> has_view(keys@, kk),
                    decreases keys@.len() - i,
                {
                    let k = keys[i].clone();
                    let ghost before = self.entries();
                    match self.rocks_db_facade.delete_db(k.as_str()) {
                        Ok(()) => {
                            let short = suffix_from(k.as_str(), pfx_len);
                            let dk = str_concat(deleted_keys.as_str(), " ");
                            deleted_keys = str_concat(dk.as_str(), short.as_str());
                        },
                        Err(e) => {
                            let emsg = str_concat("Error deleting key '", k.as_str());
                            let emsg = str_concat(emsg.as_str(), "' in namespace '");
                            let emsg = str_concat(emsg.as_str(), namespace);
                            let emsg = str_concat(emsg.as_str(), "'.");
                            return (false, emsg);
                        },
                    }
                    i += 1;
                    proof {
                        assert(self.entries() =~= m.remove_keys(views_upto(keys@, i as int))) by {
                            assert(self.entries() == before.remove(keys@[i - 1]@));
                        }
                    }
                }
                proof {
                    assert(self.entries() =~= subtree_delete_model(m, namespace@, node@)) by {
                        assert forall|kk: Seq<char>|
                            #[trigger] m.contains_key(kk) && !sset.contains(kk)
                                implies !views_upto(keys@, keys@.len() as int).contains(kk) by {
                            if views_upto(keys@, keys@.len() as int).contains(kk) {
                                let j = choose|j: int|
                                    0 <= j < keys@.len() && keys@[j]@ == kk;
                            }
                        }
                        assert forall|kk: Seq<char>|
                            #[trigger] m.contains_key(kk) && sset.contains(kk)
                                implies views_upto(keys@, keys@.len() as int).contains(kk) by {
                            assert(has_view(keys@, kk));
                        }
                    }
                }
                let msg = str_concat("Successfully deleted keys: ", deleted_keys.as_str());
                let msg = str_concat(msg.as_str(), " in namespace '");
                let msg = str_concat(msg.as_str(), namespace);
                let msg = str_concat(msg.as_str(), "'.");
                (true, msg)
            },
            Err(_e) => {
                let msg = str_concat("Error when trying to list keys with prefix '", node);
                (false, str_concat(msg.as_str(), "'"))
            },
        }
    }

    /// Lists the nodes exactly `layers` layers under `node` (default one
    /// layer), truncating deeper descendants to their ancestor at that
    /// depth; `layers == 0` lists every descendant at any depth, plus the
    /// node itself when it is an entry.
    pub fn nodes_starting_in(
        &mut self,
        node: &str,
        layers: Option<i32>,
        namespace: &str,
    ) -> (r: (bool, String, Vec<String>))
        ensures
            final(self).entries() == old(self).entries(),
            ({
                let l = layers_or_default(layers);
                let m = old(self).entries();
                &&& l < 0 ==> !r.0 && *final(self) == *old(self)
                &&& l >= 0 ==> final(self).is_opened()
                &&& r.0 == (l >= 0 && traversal_succeeds(m, namespace@, node@))
                &&& !r.0 ==> r.2@.len() == 0
                &&& r.0 ==> views_sorted(r.2@)
                &&& (r.0 && l == 0) ==> (forall|d: Seq<char>|
                    #[trigger] has_view(r.2@, d) == (descendants(m, namespace@, node@).contains(d)
                        || (d == node@ && m.contains_key(enc(namespace@, node@)))))
                &&& (r.0 && l > 0) ==> (forall|q: Seq<char>|
                    #[trigger] has_view(r.2@, q) == (exists|d: Seq<char>|
                        #[trigger] descendants(m, namespace@, node@).contains(d)
                            && is_cut(d, layer_target(node@, l), q)))
            }),
    {
        let l: i32 = match layers {
            Some(v) => v,
            None => 1,
        };
        if l < 0 {
            let msg = str_concat("Error when trying to list nodes starting in '", node);
            let msg = str_concat(msg.as_str(), "': layers must be non-negative");
            return (false, msg, Vec::new());
        }
        let (is_open, omsg) = self.open_db();
        if !is_open {
            return (false, omsg, Vec::new());
        }
        let ghost m = self.entries();
        let scan = descendants_prefix(namespace, node);
        let nspfx = namespace_prefix(namespace);
        let pfx_len = nspfx.as_str().unicode_len();
        match self.rocks_db_facade.list_keys_with_prefix(scan.as_str()) {
            Ok(keys) => {
                let node_exists = self.check_if_key_exists(node, namespace);
                if keys.is_empty() && !node.is_empty() && !node_exists {
                    proof {
                        assert(!traversal_succeeds(m, namespace@, node@)) by {
                            assert forall|d: Seq<char>|
                                #[trigger] m.contains_key(enc(namespace@, d))
                                    implies !node_dot(node@).is_prefix_of(d) by {
                                if node_dot(node@).is_prefix_of(d) {
                                    lemma_concat_prefix_mono(
                                        ns_prefix(namespace@),
                                        node_dot(node@),
                                        d,
                                    );
                                    assert(has_view(keys@, enc(namespace@, d)));
                                }
                            }
                        }
                    }
                    let msg = str_concat("Error when trying to list nodes starting in '", node);
                    let msg = str_concat(msg.as_str(), "': node '");
                    let msg = str_concat(msg.as_str(), node);
                    let msg = str_concat(msg.as_str(), "' doesn't exist");
                    return (false, msg, Vec::new());
                }
                proof {
                    assert(traversal_succeeds(m, namespace@, node@)) by {
                        if keys@.len() > 0 {
                            let x0 = keys@[0]@;
                            assert(has_view(keys@, x0));
                            lemma_prefix_through_concat(
                                ns_prefix(namespace@),
                                node_dot(node@),
                                x0,
                            );
                            lemma_decode(namespace@, x0);
                            let d0 = x0.skip(ns_prefix(namespace@).len() as int);
                            assert(m.contains_key(enc(namespace@, d0)));
                            assert(has_descendant(m, namespace@, node@));
                        }
                    }
                }
                if l == 0 {
                    let mut res: Vec<String> = Vec::new();
                    let mut i: usize = 0;
                    while i < keys.len()
                        invariant
                            i <= keys@.len(),
                            pfx_len == ns_prefix(namespace@).len(),
                            forall|x: Seq<char>|
                                #[trigger] has_view(keys@, x) == (m.contains_key(x) && (
                                ns_prefix(namespace@) + node_dot(node@)).is_prefix_of(x)),
                            views_sorted(res@),
                            forall|d: Seq<char>|
                                #[trigger] has_view(res@, d) == (exists|j: int|
                                    0 <= j < i && #[trigger] keys@[j]@ == enc(namespace@, d)),
                        decreases keys@.len() - i,
                    {
                        let k = &keys[i];
                        proof {
                            assert(has_view(keys@, k@));
                            lemma_prefix_through_concat(
                                ns_prefix(namespace@),
                                node_dot(node@),
                                k@,
                            );
                            lemma_decode(namespace@, k@);
                        }
                        let d = suffix_from(k.as_str(), pfx_len);
                        let ghost prev = res@;
                        insert_sorted(&mut res, d);
                        i += 1;
                        proof {
                            assert forall|dd: Seq<char>|
                                #[trigger] has_view(res@, dd) == (exists|j: int|
                                    0 <= j < i && #[trigger] keys@[j]@ == enc(namespace@, dd)) by {
                                if has_view(res@, dd) && !has_view(prev, dd) {
                                    assert(keys@[i - 1]@ == enc(namespace@, dd));
                                }
                                if exists|j: int|
                                    0 <= j < i && #[trigger] keys@[j]@ == enc(namespace@, dd) {
                                    let j = choose|j: int|
                                        0 <= j < i && #[trigger] keys@[j]@ == enc(namespace@, dd);
                                    if j == i - 1 {
                                        lemma_concat_skip(ns_prefix(namespace@), dd);
                                        assert(dd == k@.skip(pfx_len as int));
                                    } else {
                                        assert(has_view(prev, dd));
                                    }
                                }
                            }
                        }
                    }
                    let ghost before_node = res@;
                    if node_exists {
                        insert_sorted(&mut res, node.to_owned());
                    }
                    proof {
                        assert forall|d: Seq<char>|
                            #[trigger] has_view(res@, d) == (descendants(
                                m,
                                namespace@,
                                node@,
                            ).contains(d) || (d == node@ && m.contains_key(enc(namespace@, node@)))) by {
                            if descendants(m, namespace@, node@).contains(d) {
                                lemma_concat_prefix_mono(
                                    ns_prefix(namespace@),
                                    node_dot(node@),
                                    d,
                                );
                                assert(has_view(keys@, enc(namespace@, d)));
                                let j = choose|j: int|
                                    0 <= j < keys@.len() && keys@[j]@ == enc(namespace@, d);
                                assert(keys@[j]@ == enc(namespace@, d));
                                assert(has_view(before_node, d));
                            }
                            if has_view(before_node, d) {
                                let j = choose|j: int|
                                    0 <= j < keys@.len() && #[trigger] keys@[j]@ == enc(
                                        namespace@,
                                        d,
                                    );
                                assert(has_view(keys@, enc(namespace@, d)));
                                lemma_prefix_through_concat(
                                    ns_prefix(namespace@),
                                    node_dot(node@),
                                    enc(namespace@, d),
                                );
                                lemma_concat_skip(ns_prefix(namespace@), d);
                            }
                        }
                    }
                    let msg = str_concat("Retrieved list of keys starting in '", node);
                    let msg = str_concat(
                        msg.as_str(),
                        "' any number of layers deep (special case layers = '0')",
                    );
                    (true, msg, res)
                } else {
                    let t: u128 = if node.is_empty() {
                        (l - 1) as u128
                    } else {
                        (count_dots(node) as u128) + (l as u128)
                    };
                    proof {
                        assert(t as int == layer_target(node@, l as int));
                    }
                    let mut res: Vec<String> = Vec::new();
                    let mut i: usize = 0;
                    while i < keys.len()
                        invariant
                            i <= keys@.len(),
                            pfx_len == ns_prefix(namespace@).len(),
                            t as int == layer_target(node@, l as int),
                            forall|x: Seq<char>|
                                #[trigger] has_view(keys@, x) == (m.contains_key(x) && (
                                ns_prefix(namespace@) + node_dot(node@)).is_prefix_of(x)),
                            views_sorted(res@),
                            forall|q: Seq<char>|
                                #[trigger] has_view(res@, q) == (exists|j: int|
                                    0 <= j < i && is_cut(
                                        #[trigger] keys@[j]@.skip(pfx_len as int),
                                        t as int,
                                        q,
                                    )),
                        decreases keys@.len() - i,
                    {
                        let k = &keys[i];
                        proof {
                            assert(has_view(keys@, k@));
                            lemma_prefix_through_concat(
                                ns_prefix(namespace@),
                                node_dot(node@),
                                k@,
                            );
                        }
                        let d = suffix_from(k.as_str(), pfx_len);
                        let ghost prev = res@;
                        let cut = cut_path(d.as_str(), t);
                        match cut {
                            Some(q) => {
                                insert_sorted(&mut res, q);
                            },
                            None => {},
                        }
                        i += 1;
                        proof {
                            assert forall|q: Seq<char>|
                                #[trigger] has_view(res@, q) == (exists|j: int|
                                    0 <= j < i && is_cut(
                                        #[trigger] keys@[j]@.skip(pfx_len as int),
                                        t as int,
                                        q,
                                    )) by {
                                if has_view(res@, q) && !has_view(prev, q) {
                                    assert(is_cut(keys@[i - 1]@.skip(pfx_len as int), t as int, q));
                                }
                                if exists|j: int|
                                    0 <= j < i && is_cut(
                                        #[trigger] keys@[j]@.skip(pfx_len as int),
                                        t as int,
                                        q,
                                    ) {
                                    let j = choose|j: int|
                                        0 <= j < i && is_cut(
                                            #[trigger] keys@[j]@.skip(pfx_len as int),
                                            t as int,
                                            q,
                                        );
                                    if j == i - 1 {
                                        lemma_cut_needs_dots(d@, t as int, q);
                                        assert(cut is Some);
                                        lemma_cut_unique(d@, t as int, q, cut.unwrap()@);
                                        assert(has_view(res@, q));
                                    } else {
                                        assert(has_view(prev, q));
                                    }
                                }
                            }
                        }
                    }
                    proof {
                        assert forall|q: Seq<char>|
                            #[trigger] has_view(res@, q) == (exists|d: Seq<char>|
                                #[trigger] descendants(m, namespace@, node@).contains(d)
                                    && is_cut(d, layer_target(node@, l as int), q)) by {
                            if has_view(res@, q) {
                                let j = choose|j: int|
                                    0 <= j < keys@.len() && is_cut(
                                        #[trigger] keys@[j]@.skip(pfx_len as int),
                                        t as int,
                                        q,
                                    );
                                let x = keys@[j]@;
                                assert(has_view(keys@, x));
                                lemma_prefix_through_concat(
                                    ns_prefix(namespace@),
                                    node_dot(node@),
                                    x,
                                );
                                lemma_decode(namespace@, x);
                                let d = x.skip(pfx_len as int);
                                assert(m.contains_key(enc(namespace@, d)));
                                assert(descendants(m, namespace@, node@).contains(d));
                            }
                            if exists|d: Seq<char>|
                                #[trigger] descendants(m, namespace@, node@).contains(d)
                                    && is_cut(d, layer_target(node@, l as int), q) {
                                let d = choose|d: Seq<char>|
                                    #[trigger] descendants(m, namespace@, node@).contains(d)
                                        && is_cut(d, layer_target(node@, l as int), q);
                                lemma_concat_prefix_mono(
                                    ns_prefix(namespace@),
                                    node_dot(node@),
                                    d,
                                );
                                assert(has_view(keys@, enc(namespace@, d)));
                                let j = choose|j: int|
                                    0 <= j < keys@.len() && keys@[j]@ == enc(namespace@, d);
                                lemma_concat_skip(ns_prefix(namespace@), d);
                                assert(keys@[j]@.skip(pfx_len as int) == d);
                            }
                        }
                    }
                    let msg = str_concat("Retrieved list of nodes starting in '", node);
                    let msg = str_concat(msg.as_str(), "' exactly the requested layers deep");
                    (true, msg, res)
                }
            },
            Err(e) => {
                let msg = str_concat("Error when trying to list nodes starting in '", node);
                let msg = str_concat(msg.as_str(), "': ");
                (false, str_concat(msg.as_str(), e.as_str()), Vec::new())
            },
        }
    }
}

} // verus!
