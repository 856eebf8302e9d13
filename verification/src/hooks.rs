//! Hook tables: how an application plugs its own types into the codec.
//!
//! A dehydration hook turns an application object into a value that the
//! format can carry, just before it is encoded. A hydration hook turns a
//! decoded structure into an application value, just after it is decoded.
//! The application owns both tables; the codec only reads them.

use crate::value::{Foreign, Structure, Value};
use vstd::prelude::*;

verus! {

/// The type of a dehydration hook that is a plain function. A caller without
/// hooks names it where the type of the hooks cannot be inferred.
pub type Dehydrate = fn(Foreign) -> Result<Value, HookError>;

/// The type of a hydration hook that is a plain function. A caller without
/// hooks names it where the type of the hooks cannot be inferred.
pub type Hydrate = fn(Structure) -> Result<Value, HookError>;

/// What a hook reports when it cannot do its work.
#[derive(Debug, PartialEq, Eq)]
pub struct HookError {
    pub message: String,
}

/// The index of the last occurrence of `key` in `keys`, or -1.
pub open spec fn last_index_of<K>(keys: Seq<K>, key: K) -> int
    decreases keys.len(),
{
    if keys.len() == 0 {
        -1
    } else if keys.last() == key {
        keys.len() - 1
    } else {
        last_index_of(keys.drop_last(), key)
    }
}

/// Where the last occurrence of a key is: within the sequence and at an
/// entry with that key, if the key occurs at all.
pub proof fn lemma_last_index_of<K>(keys: Seq<K>, key: K)
    ensures
        -1 <= last_index_of(keys, key) < keys.len(),
        last_index_of(keys, key) >= 0 ==> keys[last_index_of(keys, key)] == key,
        last_index_of(keys, key) < 0 <==> !keys.contains(key),
    decreases keys.len(),
{
    if keys.len() > 0 {
        lemma_last_index_of(keys.drop_last(), key);
        if keys.last() != key {
            if keys.contains(key) {
                let i = choose|i: int| 0 <= i < keys.len() && keys[i] == key;
                assert(keys.drop_last()[i] == key);
            }
            if keys.drop_last().contains(key) {
                let i = choose|i: int| 0 <= i < keys.len() - 1 && keys.drop_last()[i] == key;
                assert(keys[i] == key);
            }
        }
    }
}

/// The dehydration table: for each kind of application object, the
/// transform that turns such an object into a value.
pub struct DehydrationHooks<F> {
    pub entries: Vec<(u64, F)>,
}

impl<F> DehydrationHooks<F> {
    /// The kinds in the order in which they were registered.
    pub open spec fn keys(&self) -> Seq<u64> {
        Seq::new(self.entries@.len(), |i: int| self.entries@[i].0)
    }

    /// The kinds that have a transform.
    pub open spec fn kinds(&self) -> Set<u64> {
        Set::new(|kind: u64| self.keys().contains(kind))
    }

    /// The transform for a kind that has one: the one registered last.
    pub open spec fn transform(&self, kind: u64) -> F
        recommends
            self.kinds().contains(kind),
    {
        self.entries@[last_index_of(self.keys(), kind)].1
    }

    /// A table without any transform.
    pub fn new() -> (hooks: Self)
        ensures
            hooks.entries@.len() == 0,
            hooks.kinds() == Set::<u64>::empty(),
    {
        let hooks = DehydrationHooks { entries: Vec::new() };
        assert(hooks.kinds() =~= Set::<u64>::empty());
        hooks
    }

    /// Registers the transform for a kind. It takes the place of one that
    /// was registered for the same kind before.
    pub fn register(&mut self, kind: u64, transform: F)
        ensures
            final(self).entries@ == old(self).entries@.push((kind, transform)),
            final(self).kinds() == old(self).kinds().insert(kind),
    {
        self.entries.push((kind, transform));
        proof {
            let before = old(self).keys();
            let after = final(self).keys();
            assert(after =~= before.push(kind));
            assert forall|k: u64| after.contains(k) <==> (before.contains(k) || k == kind) by {
                if before.contains(k) {
                    let i = choose|i: int| 0 <= i < before.len() && before[i] == k;
                    assert(after[i] == k);
                }
                if k == kind {
                    assert(after[after.len() - 1] == k);
                }
            }
            assert(final(self).kinds() =~= old(self).kinds().insert(kind));
        }
    }

    /// The transform for a kind: the one registered last, if there is one.
    pub fn get_transformer(&self, kind: u64) -> (found: Option<&F>)
        ensures
            match found {
                Some(transform) => {
                    &&& self.kinds().contains(kind)
                    &&& 0 <= last_index_of(self.keys(), kind) < self.entries@.len()
                    &&& *transform == self.transform(kind)
                },
                None => !self.kinds().contains(kind),
            },
    {
        let mut i: usize = self.entries.len();
        assert(self.keys().take(i as int) =~= self.keys());
        while i > 0
            invariant
                i <= self.entries@.len(),
                last_index_of(self.keys(), kind) == last_index_of(self.keys().take(i as int), kind),
            decreases i,
        {
            i = i - 1;
            if self.entries[i].0 == kind {
                proof {
                    lemma_last_index_of(self.keys(), kind);
                }
                return Some(&self.entries[i].1);
            }
            proof {
                assert(self.keys().take(i + 1).drop_last() =~= self.keys().take(i as int));
            }
        }
        proof {
            lemma_last_index_of(self.keys(), kind);
        }
        None
    }
}

/// The hydration table: for each structure tag, the transform that turns a
/// decoded structure with that tag into an application value.
pub struct HydrationHooks<F> {
    pub entries: Vec<(u8, F)>,
}

impl<F> HydrationHooks<F> {
    /// The tags in the order in which they were registered.
    pub open spec fn keys(&self) -> Seq<u8> {
        Seq::new(self.entries@.len(), |i: int| self.entries@[i].0)
    }

    /// The tags that have a transform.
    pub open spec fn tags(&self) -> Set<u8> {
        Set::new(|tag: u8| self.keys().contains(tag))
    }

    /// The transform for a tag that has one: the one registered last.
    pub open spec fn transform(&self, tag: u8) -> F
        recommends
            self.tags().contains(tag),
    {
        self.entries@[last_index_of(self.keys(), tag)].1
    }

    /// A table without any transform.
    pub fn new() -> (hooks: Self)
        ensures
            hooks.entries@.len() == 0,
            hooks.tags() == Set::<u8>::empty(),
    {
        let hooks = HydrationHooks { entries: Vec::new() };
        assert(hooks.tags() =~= Set::<u8>::empty());
        hooks
    }

    /// Registers the transform for a tag. It takes the place of one that was
    /// registered for the same tag before.
    pub fn register(&mut self, tag: u8, transform: F)
        ensures
            final(self).entries@ == old(self).entries@.push((tag, transform)),
            final(self).tags() == old(self).tags().insert(tag),
    {
        self.entries.push((tag, transform));
        proof {
            let before = old(self).keys();
            let after = final(self).keys();
            assert(after =~= before.push(tag));
            assert forall|k: u8| after.contains(k) <==> (before.contains(k) || k == tag) by {
                if before.contains(k) {
                    let i = choose|i: int| 0 <= i < before.len() && before[i] == k;
                    assert(after[i] == k);
                }
                if k == tag {
                    assert(after[after.len() - 1] == k);
                }
            }
            assert(final(self).tags() =~= old(self).tags().insert(tag));
        }
    }

    /// The transform for a tag: the one registered last, if there is one.
    pub fn get_transformer(&self, tag: u8) -> (found: Option<&F>)
        ensures
            match found {
                Some(transform) => {
                    &&& self.tags().contains(tag)
                    &&& 0 <= last_index_of(self.keys(), tag) < self.entries@.len()
                    &&& *transform == self.transform(tag)
                },
                None => !self.tags().contains(tag),
            },
    {
        let mut i: usize = self.entries.len();
        assert(self.keys().take(i as int) =~= self.keys());
        while i > 0
            invariant
                i <= self.entries@.len(),
                last_index_of(self.keys(), tag) == last_index_of(self.keys().take(i as int), tag),
            decreases i,
        {
            i = i - 1;
            if self.entries[i].0 == tag {
                proof {
                    lemma_last_index_of(self.keys(), tag);
                }
                return Some(&self.entries[i].1);
            }
            proof {
                assert(self.keys().take(i + 1).drop_last() =~= self.keys().take(i as int));
            }
        }
        proof {
            lemma_last_index_of(self.keys(), tag);
        }
        None
    }
}

} // verus!
