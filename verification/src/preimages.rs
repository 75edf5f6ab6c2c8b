//! The preimage store: resolves content hashes to calls. The engine treats a
//! hash reference as opaque until execution; scheduling never fails because a
//! hash is not yet resolvable, since the content may appear between
//! scheduling and execution.

use vstd::prelude::*;
use crate::task::{Call, CallRef};

verus! {

/// Resolution of a hash against the store's contents: the first entry whose
/// hash matches, if any.
pub open spec fn resolve_hash(entries: Seq<(u64, Call)>, hash: u64) -> Option<Call>
    decreases entries.len(),
{
    if entries.len() == 0 {
        None
    } else if entries[0].0 == hash {
        Some(entries[0].1)
    } else {
        resolve_hash(entries.skip(1), hash)
    }
}

/// Resolution of a call reference: inline calls resolve to themselves, hash
/// references through the store.
pub open spec fn resolve_ref(entries: Seq<(u64, Call)>, call: CallRef) -> Option<Call> {
    match call {
        CallRef::Inline(c) => Some(c),
        CallRef::Hashed(h) => resolve_hash(entries, h),
    }
}

/// A store of preimages, keyed by content hash.
pub struct PreimageStore {
    entries: Vec<(u64, Call)>,
}

impl View for PreimageStore {
    type V = Seq<(u64, Call)>;

    closed spec fn view(&self) -> Seq<(u64, Call)> {
        self.entries@
    }
}

impl PreimageStore {
    /// An empty store: no hash resolves.
    pub fn new() -> (r: PreimageStore)
        ensures
            r@ == Seq::<(u64, Call)>::empty(),
    {
        PreimageStore { entries: Vec::new() }
    }

    /// Make `call` available under `hash`.
    pub fn provide(&mut self, hash: u64, call: Call)
        ensures
            final(self)@ == old(self)@.push((hash, call)),
    {
        self.entries.push((hash, call));
    }

    /// Fetch the content for `hash`, if the store can resolve it.
    pub fn fetch(&self, hash: u64) -> (r: Option<Call>)
        ensures
            r == resolve_hash(self@, hash),
    {
        let mut i: usize = 0;
        proof {
            assert(self@.skip(0) =~= self@);
        }
        while i < self.entries.len()
            invariant
                0 <= i <= self.entries.len(),
                resolve_hash(self@, hash) == resolve_hash(self@.skip(i as int), hash),
            decreases self.entries.len() - i,
        {
            proof {
                assert(self@.skip(i as int).len() > 0);
                assert(self@.skip(i as int)[0] == self@[i as int]);
                assert(self@.skip(i as int).skip(1) =~= self@.skip(i + 1));
            }
            if self.entries[i].0 == hash {
                return Some(self.entries[i].1);
            }
            i = i + 1;
        }
        proof {
            assert(self@.skip(i as int).len() == 0);
        }
        None
    }

    /// Whether `hash` currently resolves.
    pub fn is_available(&self, hash: u64) -> (r: bool)
        ensures
            r == (resolve_hash(self@, hash) is Some),
    {
        match self.fetch(hash) {
            Some(_) => true,
            None => false,
        }
    }
}

} // verus!
