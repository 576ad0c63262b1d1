//! The engine adapter: an open/close/destroy lifecycle around the sorted
//! store, with point operations and ordered prefix scans.
//!
//! Every operation demands an open handle and reports a closed one as an
//! error.  Closing keeps the stored entries (as a durable engine would);
//! only `destroy_db` erases them.

use vstd::prelude::*;

verus! {

use crate::engine::StoreEngine;
use crate::strutil::{has_view, views_sorted};

/// Handle to the sorted store.  The name keeps the shape of a facade over a
/// sorted key-value engine: open and destroy take the storage location, and
/// scans hand keys back in ascending order.
#[derive(Debug)]
pub struct RocksDbFacade {
    opened: bool,
    store: StoreEngine,
}

impl RocksDbFacade {
    /// Whether the handle is open.
    pub closed spec fn is_opened(&self) -> bool {
        self.opened
    }

    /// The entries of the store behind this handle.
    pub closed spec fn entries(&self) -> Map<Seq<char>, Seq<char>> {
        self.store@
    }

    /// A fresh, closed handle over an empty store.
    pub fn new() -> (r: RocksDbFacade)
        ensures
            !r.is_opened(),
            r.entries() == Map::<Seq<char>, Seq<char>>::empty(),
    {
        RocksDbFacade { opened: false, store: StoreEngine::new() }
    }

    /// Opens the store; a second open on an already-open handle is a no-op
    /// success.  The entries are kept.
    pub fn open_db(&mut self, _path: &str) -> (r: Result<(), String>)
        ensures
            r is Ok,
            final(self).is_opened(),
            final(self).entries() == old(self).entries(),
    {
        self.opened = true;
        Ok(())
    }

    /// Closes the handle; the entries survive for the next open.
    pub fn close_db(&mut self) -> (r: Result<(), String>)
        ensures
            r is Ok,
            !final(self).is_opened(),
            final(self).entries() == old(self).entries(),
    {
        self.opened = false;
        Ok(())
    }

    /// Erases the whole store and leaves the handle closed.
    pub fn destroy_db(&mut self, _path: &str) -> (r: Result<(), String>)
        ensures
            r is Ok,
            !final(self).is_opened(),
            final(self).entries() == Map::<Seq<char>, Seq<char>>::empty(),
    {
        self.opened = false;
        self.store = StoreEngine::new();
        Ok(())
    }

    /// Stores `value` under `key`, overwriting any earlier value.
    pub fn write_db(&mut self, key: &str, value: &str) -> (r: Result<(), String>)
        ensures
            !old(self).is_opened() ==> r is Err && *final(self) == *old(self),
            old(self).is_opened() ==> r is Ok && final(self).is_opened()
                && final(self).entries() == old(self).entries().insert(key@, value@),
    {
        if !self.opened {
            return Err(no_db_message());
        }
        self.store.put(key, value);
        Ok(())
    }

    /// The value stored under `key`; an absent key or a closed handle is an
    /// error.
    pub fn read_db(&mut self, key: &str) -> (r: Result<String, String>)
        ensures
            *final(self) == *old(self),
            (r is Ok) == (old(self).is_opened() && old(self).entries().contains_key(key@)),
            r is Ok ==> r.unwrap()@ == old(self).entries()[key@],
    {
        if !self.opened {
            return Err(no_db_message());
        }
        match self.store.get(key) {
            Some(v) => Ok(v),
            None => Err(not_found_message()),
        }
    }

    /// Deletes `key` unconditionally: deleting an absent key succeeds.
    pub fn delete_db(&mut self, key: &str) -> (r: Result<(), String>)
        ensures
            !old(self).is_opened() ==> r is Err && *final(self) == *old(self),
            old(self).is_opened() ==> r is Ok && final(self).is_opened()
                && final(self).entries() == old(self).entries().remove(key@),
    {
        if !self.opened {
            return Err(no_db_message());
        }
        self.store.del(key);
        Ok(())
    }

    /// Every key of the store, in ascending order.
    pub fn list_all_keys(&mut self) -> (r: Result<Vec<String>, String>)
        ensures
            *final(self) == *old(self),
            (r is Ok) == old(self).is_opened(),
            r is Ok ==> views_sorted(r.unwrap()@) && forall|x: Seq<char>|
                #[trigger] has_view(r.unwrap()@, x) == old(self).entries().contains_key(x),
    {
        if !self.opened {
            return Err(no_db_message());
        }
        let keys = self.store.keys_with_prefix("");
        proof {
            reveal_strlit("");
            assert forall|x: Seq<char>| #[trigger] has_view(keys@, x)
                == old(self).entries().contains_key(x) by {
                assert(""@.len() == 0);
                assert(""@.is_prefix_of(x)) by {
                    assert(""@ =~= x.subrange(0, 0));
                }
            }
        }
        Ok(keys)
    }

    /// Every key of the store that opens with `prefix`, in ascending order.
    pub fn list_keys_with_prefix(&mut self, prefix: &str) -> (r: Result<Vec<String>, String>)
        ensures
            *final(self) == *old(self),
            (r is Ok) == old(self).is_opened(),
            r is Ok ==> views_sorted(r.unwrap()@) && forall|x: Seq<char>|
                #[trigger] has_view(r.unwrap()@, x)
                    == (old(self).entries().contains_key(x) && prefix@.is_prefix_of(x)),
    {
        if !self.opened {
            return Err(no_db_message());
        }
        Ok(self.store.keys_with_prefix(prefix))
    }
}

/// The error text of an operation on a closed handle.
fn no_db_message() -> String {
    "No database opened".to_owned()
}

/// The error text of a read that found nothing.
fn not_found_message() -> String {
    "Key not found".to_owned()
}

} // verus!
