//! A sorted key-value engine: entries are held in ascending order of their
//! keys, so point operations and ordered prefix scans come from one strictly
//! sorted vector.  The engine views as a `Map<Seq<char>, Seq<char>>`.

use vstd::prelude::*;

verus! {

use crate::lex::{lex_lt, str_lt, lemma_lex_trichotomy, lemma_lex_lt_transitive};
use crate::strutil::{has_view, views_sorted, starts_with_str, insert_sorted};

/// The keys of `es`, in order, are strictly ascending.
pub open spec fn entries_sorted(es: Seq<(String, String)>) -> bool {
    forall|i: int, j: int| 0 <= i < j < es.len() ==> lex_lt(es[i].0@, es[j].0@)
}

/// Some entry of `es` has key view `k`.
pub open spec fn has_entry_key(es: Seq<(String, String)>, k: Seq<char>) -> bool {
    exists|i: int| 0 <= i < es.len() && es[i].0@ == k
}

/// The index of the entry with key view `k`.
pub open spec fn entry_index(es: Seq<(String, String)>, k: Seq<char>) -> int {
    choose|i: int| 0 <= i < es.len() && es[i].0@ == k
}

/// A sorted key-value store: the flat engine under the namespace layer.
#[derive(Debug)]
pub struct StoreEngine {
    entries: Vec<(String, String)>,
}

impl View for StoreEngine {
    type V = Map<Seq<char>, Seq<char>>;

    closed spec fn view(&self) -> Map<Seq<char>, Seq<char>> {
        Map::new(
            |k: Seq<char>| has_entry_key(self.entries@, k),
            |k: Seq<char>| self.entries@[entry_index(self.entries@, k)].1@,
        )
    }
}

/// In a sorted entry sequence each key occurs at one index only.
proof fn lemma_key_at_one_index(es: Seq<(String, String)>, i: int, j: int)
    requires
        entries_sorted(es),
        0 <= i < es.len(),
        0 <= j < es.len(),
        es[i].0@ == es[j].0@,
    ensures
        i == j,
{
    if i < j {
        lemma_lex_trichotomy(es[i].0@, es[j].0@);
    } else if j < i {
        lemma_lex_trichotomy(es[j].0@, es[i].0@);
    }
}

impl StoreEngine {
    #[verifier::type_invariant]
    spec fn inv(self) -> bool {
        entries_sorted(self.entries@)
    }

    /// An empty store.
    pub fn new() -> (r: Self)
        ensures
            r@ == Map::<Seq<char>, Seq<char>>::empty(),
    {
        let r = StoreEngine { entries: Vec::new() };
        proof {
            assert(r@ =~= Map::<Seq<char>, Seq<char>>::empty());
        }
        r
    }

    /// The least index whose key is not below `key`; all earlier keys are
    /// strictly below it.
    fn find_pos(&self, key: &str) -> (r: usize)
        ensures
            r <= self.entries@.len(),
            forall|j: int| 0 <= j < r ==> lex_lt(self.entries@[j].0@, key@),
            r < self.entries@.len() ==> !lex_lt(self.entries@[r as int].0@, key@),
    {
        let mut i: usize = 0;
        while i < self.entries.len() && str_lt(self.entries[i].0.as_str(), key)
            invariant
                i <= self.entries@.len(),
                forall|j: int| 0 <= j < i ==> lex_lt(self.entries@[j].0@, key@),
            decreases self.entries@.len() - i,
        {
            i += 1;
        }
        i
    }

    /// No entry carries `key` when the probe position rules it out.
    proof fn lemma_absent(&self, key: Seq<char>, r: int)
        requires
            self.inv(),
            0 <= r <= self.entries@.len(),
            forall|j: int| 0 <= j < r ==> lex_lt(self.entries@[j].0@, key),
            r < self.entries@.len() ==> lex_lt(key, self.entries@[r].0@),
        ensures
            !has_entry_key(self.entries@, key),
    {
        let es = self.entries@;
        assert forall|j: int| 0 <= j < es.len() implies es[j].0@ != key by {
            if j < r {
                lemma_lex_trichotomy(es[j].0@, key);
            } else {
                lemma_lex_trichotomy(key, es[r].0@);
                if j > r {
                    lemma_lex_lt_transitive(key, es[r].0@, es[j].0@);
                    lemma_lex_trichotomy(key, es[j].0@);
                }
            }
        }
    }

    /// The stored value for `key`, if the key is present.
    pub fn get(&self, key: &str) -> (r: Option<String>)
        ensures
            (r is Some) == self@.contains_key(key@),
            r is Some ==> r.unwrap()@ == self@[key@],
    {
        proof {
            use_type_invariant(&*self);
        }
        let pos = self.find_pos(key);
        if pos < self.entries.len() {
            let hit = !str_lt(key, self.entries[pos].0.as_str());
            proof {
                lemma_lex_trichotomy(key@, self.entries@[pos as int].0@);
            }
            if hit {
                proof {
                    assert(self.entries@[pos as int].0@ == key@);
                    lemma_key_at_one_index(
                        self.entries@,
                        pos as int,
                        entry_index(self.entries@, key@),
                    );
                }
                return Some(self.entries[pos].1.clone());
            }
        }
        proof {
            self.lemma_absent(key@, pos as int);
        }
        None
    }

    /// Stores `value` under `key`, overwriting any earlier value.
    pub fn put(&mut self, key: &str, value: &str)
        ensures
            final(self)@ == old(self)@.insert(key@, value@),
    {
        proof {
            use_type_invariant(&*self);
        }
        let ghost oldes = self.entries@;
        let ghost oldmap = self@;
        let pos = self.find_pos(key);
        let mut es: Vec<(String, String)> = Vec::new();
        std::mem::swap(&mut es, &mut self.entries);
        let overwrite = if pos < es.len() { !str_lt(key, es[pos].0.as_str()) } else { false };
        proof {
            if pos < oldes.len() {
                lemma_lex_trichotomy(key@, oldes[pos as int].0@);
            }
        }
        if overwrite {
            let _ = es.remove(pos);
            es.insert(pos, (key.to_owned(), value.to_owned()));
            proof {
                assert(es@ =~= oldes.update(pos as int, (es@[pos as int].0, es@[pos as int].1)));
            }
        } else {
            proof {
                self.lemma_absent_seq(oldes, key@, pos as int);
            }
            es.insert(pos, (key.to_owned(), value.to_owned()));
        }
        proof {
            let newes = es@;
            assert(newes[pos as int].0@ == key@ && newes[pos as int].1@ == value@);
            if overwrite {
                assert(forall|j: int| 0 <= j < newes.len() && j != pos ==> newes[j] == oldes[j]);
                assert(entries_sorted(newes)) by {
                    assert forall|a: int, b: int| 0 <= a < b < newes.len()
                        implies lex_lt(newes[a].0@, newes[b].0@) by {
                        assert(newes[a].0@ == oldes[a].0@);
                        assert(newes[b].0@ == oldes[b].0@);
                    }
                }
            } else {
                assert(forall|j: int| 0 <= j < pos ==> newes[j] == oldes[j]);
                assert(forall|j: int| pos < j < newes.len() ==> newes[j] == oldes[j - 1]);
                assert(entries_sorted(newes)) by {
                    assert forall|a: int, b: int| 0 <= a < b < newes.len()
                        implies lex_lt(newes[a].0@, newes[b].0@) by {
                        if a < pos && b == pos {
                        } else if a == pos && b > pos {
                            if pos < oldes.len() && pos < b - 1 {
                                lemma_lex_lt_transitive(key@, oldes[pos as int].0@, oldes[b - 1].0@);
                            }
                        } else if a < pos && b > pos {
                            if pos < oldes.len() && pos < b - 1 {
                                lemma_lex_lt_transitive(oldes[a].0@, oldes[pos as int].0@, oldes[b - 1].0@);
                            }
                        }
                    }
                }
            }
        }
        self.entries = es;
        proof {
            self.lemma_view_after_put(oldes, oldmap, key@, value@, pos as int, overwrite);
        }
    }

    /// `lemma_absent` restated over a plain entry sequence.
    proof fn lemma_absent_seq(&self, es: Seq<(String, String)>, key: Seq<char>, r: int)
        requires
            entries_sorted(es),
            0 <= r <= es.len(),
            forall|j: int| 0 <= j < r ==> lex_lt(es[j].0@, key),
            r < es.len() ==> lex_lt(key, es[r].0@),
        ensures
            !has_entry_key(es, key),
    {
        assert forall|j: int| 0 <= j < es.len() implies es[j].0@ != key by {
            if j < r {
                lemma_lex_trichotomy(es[j].0@, key);
            } else {
                lemma_lex_trichotomy(key, es[r].0@);
                if j > r {
                    lemma_lex_lt_transitive(key, es[r].0@, es[j].0@);
                    lemma_lex_trichotomy(key, es[j].0@);
                }
            }
        }
    }

    /// After `put` wrote at `pos`, the store views as `oldmap.insert(key, value)`.
    proof fn lemma_view_after_put(
        &self,
        oldes: Seq<(String, String)>,
        oldmap: Map<Seq<char>, Seq<char>>,
        key: Seq<char>,
        value: Seq<char>,
        pos: int,
        overwrite: bool,
    )
        requires
            self.inv(),
            entries_sorted(oldes),
            oldmap == Map::new(
                |k: Seq<char>| has_entry_key(oldes, k),
                |k: Seq<char>| oldes[entry_index(oldes, k)].1@,
            ),
            0 <= pos <= oldes.len(),
            self.entries@[pos].0@ == key && self.entries@[pos].1@ == value,
            overwrite ==> pos < oldes.len() && oldes[pos].0@ == key
                && self.entries@.len() == oldes.len()
                && (forall|j: int| 0 <= j < oldes.len() && j != pos ==> self.entries@[j] == oldes[j]),
            !overwrite ==> !has_entry_key(oldes, key)
                && self.entries@.len() == oldes.len() + 1
                && (forall|j: int| 0 <= j < pos ==> self.entries@[j] == oldes[j])
                && (forall|j: int| pos < j < self.entries@.len() ==> self.entries@[j] == oldes[j - 1]),
        ensures
            self@ == oldmap.insert(key, value),
    {
        let newes = self.entries@;
        assert forall|k: Seq<char>| #[trigger] has_entry_key(newes, k)
            implies has_entry_key(oldes, k) || k == key by {
            let i = choose|i: int| 0 <= i < newes.len() && newes[i].0@ == k;
            if i != pos {
                if overwrite {
                    assert(oldes[i].0@ == k);
                } else if i < pos {
                    assert(oldes[i].0@ == k);
                } else {
                    assert(oldes[i - 1].0@ == k);
                }
            }
        }
        assert forall|k: Seq<char>| has_entry_key(oldes, k)
            implies #[trigger] has_entry_key(newes, k) by {
            let i = choose|i: int| 0 <= i < oldes.len() && oldes[i].0@ == k;
            if overwrite {
                if i == pos {
                    assert(newes[pos].0@ == k);
                } else {
                    assert(newes[i].0@ == k);
                }
            } else {
                if i < pos {
                    assert(newes[i].0@ == k);
                } else {
                    assert(newes[i + 1].0@ == k);
                }
            }
        }
        assert(has_entry_key(newes, key)) by {
            assert(newes[pos].0@ == key);
        }
        assert forall|k: Seq<char>| #[trigger] has_entry_key(newes, k) && k != key
            implies self@[k] == oldmap[k] by {
            let i = entry_index(newes, k);
            assert(0 <= i < newes.len() && newes[i].0@ == k);
            assert(i != pos);
            let io = entry_index(oldes, k);
            assert(has_entry_key(oldes, k));
            assert(0 <= io < oldes.len() && oldes[io].0@ == k);
            if overwrite {
                assert(newes[io].0@ == k);
                lemma_key_at_one_index(newes, i, io);
                assert(self@[k] == newes[i].1@ && oldmap[k] == oldes[io].1@);
            } else {
                if io < pos {
                    assert(newes[io].0@ == k);
                    lemma_key_at_one_index(newes, i, io);
                } else {
                    assert(newes[io + 1].0@ == k);
                    lemma_key_at_one_index(newes, i, io + 1);
                }
            }
        }
        assert(self@[key] == value) by {
            lemma_key_at_one_index(newes, entry_index(newes, key), pos);
        }
        assert(self@ =~= oldmap.insert(key, value));
    }

    /// Removes `key`; absent keys are left alone.
    pub fn del(&mut self, key: &str)
        ensures
            final(self)@ == old(self)@.remove(key@),
    {
        proof {
            use_type_invariant(&*self);
        }
        let ghost oldes = self.entries@;
        let ghost oldmap = self@;
        let pos = self.find_pos(key);
        let hit = if pos < self.entries.len() {
            !str_lt(key, self.entries[pos].0.as_str())
        } else {
            false
        };
        proof {
            if pos < oldes.len() {
                lemma_lex_trichotomy(key@, oldes[pos as int].0@);
            }
        }
        if !hit {
            proof {
                self.lemma_absent_seq(oldes, key@, pos as int);
                assert forall|k: Seq<char>| #[trigger] has_entry_key(oldes, k)
                    implies k != key@ by {}
                assert(self@ =~= oldmap.remove(key@));
            }
            return;
        }
        let mut es: Vec<(String, String)> = Vec::new();
        std::mem::swap(&mut es, &mut self.entries);
        let _ = es.remove(pos);
        proof {
            let newes = es@;
            assert(forall|j: int| 0 <= j < pos ==> newes[j] == oldes[j]);
            assert(forall|j: int| pos <= j < newes.len() ==> newes[j] == oldes[j + 1]);
            assert(entries_sorted(newes)) by {
                assert forall|a: int, b: int| 0 <= a < b < newes.len()
                    implies lex_lt(newes[a].0@, newes[b].0@) by {}
            }
        }
        self.entries = es;
        proof {
            let newes = self.entries@;
            assert forall|k: Seq<char>| #[trigger] has_entry_key(newes, k)
                implies has_entry_key(oldes, k) && k != key@ by {
                let i = choose|i: int| 0 <= i < newes.len() && newes[i].0@ == k;
                if i < pos {
                    assert(oldes[i].0@ == k);
                    if k == key@ {
                        lemma_key_at_one_index(oldes, i, pos as int);
                    }
                } else {
                    assert(oldes[i + 1].0@ == k);
                    if k == key@ {
                        lemma_key_at_one_index(oldes, i + 1, pos as int);
                    }
                }
            }
            assert forall|k: Seq<char>| has_entry_key(oldes, k) && k != key@
                implies #[trigger] has_entry_key(newes, k) by {
                let i = choose|i: int| 0 <= i < oldes.len() && oldes[i].0@ == k;
                assert(i != pos);
                if i < pos {
                    assert(newes[i].0@ == k);
                } else {
                    assert(newes[i - 1].0@ == k);
                }
            }
            assert forall|k: Seq<char>| #[trigger] has_entry_key(newes, k)
                implies self@[k] == oldmap[k] by {
                let i = entry_index(newes, k);
                assert(0 <= i < newes.len() && newes[i].0@ == k);
                let io = entry_index(oldes, k);
                assert(0 <= io < oldes.len() && oldes[io].0@ == k);
                if io < pos {
                    assert(newes[io].0@ == k);
                    lemma_key_at_one_index(newes, i, io);
                } else {
                    assert(io != pos);
                    assert(newes[io - 1].0@ == k);
                    lemma_key_at_one_index(newes, i, io - 1);
                }
            }
            assert(self@ =~= oldmap.remove(key@));
        }
    }

    /// All keys of the store that open with `prefix`, in ascending order.
    pub fn keys_with_prefix(&self, prefix: &str) -> (r: Vec<String>)
        ensures
            views_sorted(r@),
            forall|x: Seq<char>|
                #[trigger] has_view(r@, x) == (self@.contains_key(x) && prefix@.is_prefix_of(x)),
    {
        proof {
            use_type_invariant(&*self);
        }
        let mut out: Vec<String> = Vec::new();
        let mut i: usize = 0;
        while i < self.entries.len()
            invariant
                i <= self.entries@.len(),
                entries_sorted(self.entries@),
                views_sorted(out@),
                forall|x: Seq<char>|
                    #[trigger] has_view(out@, x) == (exists|j: int|
                        0 <= j < i && self.entries@[j].0@ == x && prefix@.is_prefix_of(x)),
            decreases self.entries@.len() - i,
        {
            let e = &self.entries[i];
            if starts_with_str(e.0.as_str(), prefix) {
                insert_sorted(&mut out, e.0.clone());
            }
            i += 1;
            proof {
                assert forall|x: Seq<char>|
                    #[trigger] has_view(out@, x) == (exists|j: int|
                        0 <= j < i && self.entries@[j].0@ == x && prefix@.is_prefix_of(x)) by {
                    if has_view(out@, x) {
                    }
                    if exists|j: int|
                        0 <= j < i && self.entries@[j].0@ == x && prefix@.is_prefix_of(x) {
                        let j = choose|j: int|
                            0 <= j < i && self.entries@[j].0@ == x && prefix@.is_prefix_of(x);
                    }
                }
            }
        }
        proof {
            assert forall|x: Seq<char>|
                #[trigger] has_view(out@, x)
                    == (self@.contains_key(x) && prefix@.is_prefix_of(x)) by {
                if self@.contains_key(x) {
                    assert(has_entry_key(self.entries@, x));
                }
            }
        }
        out
    }
}

} // verus!
