//! The cache-aside coordinator: answers from the cache while the index has
//! not been reloaded since, and stores fresh answers under the query's
//! fingerprint.
use vstd::prelude::*;
use crate::cache::{part_of, CacheError, PartitionedCache, add_post};
use crate::index::{LocalStorage, StorageData};
use crate::query::{fingerprint_of, StorageQuery};
use std::sync::Arc;

verus! {

/// Whether a cache partition holds, for `key`, an entry computed from
/// generation `generation`.
pub open spec fn fresh_entry<V>(c: crate::cache::Cache<V>, key: u64, generation: u64) -> bool {
    exists|j: int|
        0 <= j < c.entries@.len() && #[trigger] c.entries@[j].key == key && c.entries@[j].stamp
            == generation
}

pub struct StorageImpl {
    pub cache: PartitionedCache<Arc<StorageData>>,
    pub backend: LocalStorage,
}

impl StorageImpl {
    pub open spec fn wf(&self) -> bool {
        self.cache.wf()
    }

    /// A coordinator over an index, with `total` cache bytes split across
    /// the weighted classes.
    pub fn init(backend: LocalStorage, total: usize, weights: &Vec<(String, u64)>) -> (r: StorageImpl)
        ensures
            r.wf(),
            r.backend == backend,
            r.cache.parts@.len() == weights@.len(),
    {
        StorageImpl { cache: PartitionedCache::new(total, weights), backend }
    }

    /// Whether content computed at generation `stamp` may be out of date.
    pub fn has_changed(&self, stamp: u64) -> (r: bool)
        ensures
            r == (stamp != self.backend.generation),
    {
        self.backend.has_changed(stamp)
    }

    /// The cached answer to a query, if one was stored since the index was
    /// last reloaded; a stale answer is never returned.
    pub fn query_cache(&mut self, qry: &StorageQuery) -> (r: Option<Arc<StorageData>>)
        requires
            old(self).wf(),
            qry.wf(),
        ensures
            final(self).wf(),
            final(self).backend == old(self).backend,
            final(self).cache.parts@.len() == old(self).cache.parts@.len(),
            r is Some ==> (part_of(old(self).cache.parts@, qry@.slug) matches Some(i) && exists|j: int|
                0 <= j < old(self).cache.parts@[i].1.entries@.len()
                    && #[trigger] old(self).cache.parts@[i].1.entries@[j].key == fingerprint_of(qry@)
                    && old(self).cache.parts@[i].1.entries@[j].stamp == old(self).backend.generation
                    && cloned(old(self).cache.parts@[i].1.entries@[j].value, r->Some_0)),
            r is None ==> (part_of(old(self).cache.parts@, qry@.slug) matches Some(i) ==> !fresh_entry(
                old(self).cache.parts@[i].1,
                fingerprint_of(qry@),
                old(self).backend.generation,
            )),
    {
        let key = qry.key();
        match self.cache.part_index(&qry.storage_slug) {
            None => None,
            Some(i) => {
                let stamp = self.cache.parts[i].1.stamp_of(key);
                match stamp {
                    Some(g) => {
                        if g != self.backend.generation {
                            assert(!fresh_entry(self.cache.parts@[i as int].1, key, self.backend.generation)) by {
                                let c = self.cache.parts@[i as int].1;
                                if fresh_entry(c, key, self.backend.generation) {
                                    let j = choose|j: int| 0 <= j < c.entries@.len() && #[trigger] c.entries@[j].key == key && c.entries@[j].stamp == self.backend.generation;
                                    let j2 = choose|j2: int| 0 <= j2 < c.entries@.len() && c.entries@[j2].key == key && c.entries@[j2].stamp == g;
                                    assert(j == j2);
                                }
                            }
                            return None;
                        }
                        let r = self.cache.get(&qry.storage_slug, key);
                        r
                    },
                    None => None,
                }
            },
        }
    }

    /// Stores an answer computed while the index was at generation `stamp`.
    /// An answer computed before the latest reload is stamped as such, so
    /// it is never served.
    #[verifier::rlimit(60)]
    pub fn store(&mut self, qry: &StorageQuery, data: Arc<StorageData>, size: usize, stamp: u64) -> (r: Result<(), CacheError>)
        requires
            old(self).wf(),
            qry.wf(),
        ensures
            final(self).wf(),
            final(self).backend == old(self).backend,
            match part_of(old(self).cache.parts@, qry@.slug) {
                None => r is Err && final(self).cache.parts@ == old(self).cache.parts@,
                Some(i) => add_post(
                    old(self).cache.parts@[i].1,
                    final(self).cache.parts@[i].1,
                    fingerprint_of(qry@),
                    data,
                    size,
                    stamp,
                    r,
                ),
            },
    {
        let key = qry.key();
        self.cache.add(&qry.storage_slug, key, data, size, stamp)
    }
}

/// The coordinator over the file-backed index.
pub type Storage = StorageImpl;

} // verus!
