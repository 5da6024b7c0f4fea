//! A byte-budgeted key/value store that evicts its least-read entries first.
use vstd::prelude::*;

verus! {

/// A cached value and what eviction needs to know of it.
pub struct CacheEntry<V> {
    pub key: u64,
    pub value: V,
    pub byte_size: usize,
    pub hit_count: usize,
    pub first_seen: usize,
    /// The content generation the value was computed from.
    pub stamp: u64,
}

/// Why a value was not cached.
#[derive(Clone, Debug)]
pub enum CacheError {
    /// The value is larger than the whole budget of the cache.
    CacheOversize,
    /// No partition is kept for the class.
    UnknownPartition,
}

/// One partition: entries in insertion order, with their sizes summed.
pub struct Cache<V> {
    pub size_limit: usize,
    pub tot_size: usize,
    pub tot_count: usize,
    pub entries: Vec<CacheEntry<V>>,
}

/// The sum of the sizes of some entries.
pub open spec fn sizes<V>(s: Seq<CacheEntry<V>>) -> nat
    decreases s.len(),
{
    if s.len() == 0 {
        0
    } else {
        sizes(s.drop_last()) + s.last().byte_size as nat
    }
}

/// Queries seen since an entry was added; a fresh entry counts as one.
pub open spec fn age<V>(e: CacheEntry<V>, total: usize) -> int {
    if total > e.first_seen {
        total - e.first_seen
    } else {
        1
    }
}

/// Entry `a` has a score (hits per query since it was added) no greater
/// than entry `b`.
pub open spec fn score_le<V>(a: CacheEntry<V>, b: CacheEntry<V>, total: usize) -> bool {
    a.hit_count * age(b, total) <= b.hit_count * age(a, total)
}

pub open spec fn sat_inc(n: usize) -> usize {
    if n < usize::MAX {
        (n + 1) as usize
    } else {
        n
    }
}

pub open spec fn has_key<V>(s: Seq<CacheEntry<V>>, k: u64) -> bool {
    exists|i: int| 0 <= i < s.len() && #[trigger] s[i].key == k
}

pub proof fn lemma_sizes_push<V>(s: Seq<CacheEntry<V>>, e: CacheEntry<V>)
    ensures
        sizes(s.push(e)) == sizes(s) + e.byte_size,
{
    assert(s.push(e).drop_last() =~= s);
}

pub proof fn lemma_sizes_remove<V>(s: Seq<CacheEntry<V>>, i: int)
    requires
        0 <= i < s.len(),
    ensures
        sizes(s.remove(i)) + s[i].byte_size == sizes(s),
    decreases s.len(),
{
    if i == s.len() - 1 {
        assert(s.remove(i) =~= s.drop_last());
    } else {
        lemma_sizes_remove(s.drop_last(), i);
        assert(s.remove(i).drop_last() =~= s.drop_last().remove(i));
    }
}

pub proof fn lemma_sizes_update<V>(s: Seq<CacheEntry<V>>, i: int, e: CacheEntry<V>)
    requires
        0 <= i < s.len(),
        e.byte_size == s[i].byte_size,
    ensures
        sizes(s.update(i, e)) == sizes(s),
    decreases s.len(),
{
    if i == s.len() - 1 {
        assert(s.update(i, e).drop_last() =~= s.drop_last());
    } else {
        lemma_sizes_update(s.drop_last(), i, e);
        assert(s.update(i, e).drop_last() =~= s.drop_last().update(i, e));
    }
}

fn score_le_exec<V>(a: &CacheEntry<V>, b: &CacheEntry<V>, total: usize) -> (r: bool)
    ensures
        r == score_le(*a, *b, total),
{
    let age_a: u128 = if total > a.first_seen { (total - a.first_seen) as u128 } else { 1 };
    let age_b: u128 = if total > b.first_seen { (total - b.first_seen) as u128 } else { 1 };
    let ha = a.hit_count as u128;
    let hb = b.hit_count as u128;
    assert(ha * age_b <= 0xffff_ffff_ffff_ffffu128 * 0xffff_ffff_ffff_ffffu128) by (nonlinear_arith)
        requires
            ha <= 0xffff_ffff_ffff_ffffu128,
            age_b <= 0xffff_ffff_ffff_ffffu128,
    ;
    assert(hb * age_a <= 0xffff_ffff_ffff_ffffu128 * 0xffff_ffff_ffff_ffffu128) by (nonlinear_arith)
        requires
            hb <= 0xffff_ffff_ffff_ffffu128,
            age_a <= 0xffff_ffff_ffff_ffffu128,
    ;
    ha * age_b <= hb * age_a
}

/// Entries of `cur` stand in the order they have in `base`.
pub open spec fn ordered_in<V>(cur: Seq<CacheEntry<V>>, base: Seq<CacheEntry<V>>) -> bool {
    forall|a: int, b: int, x: int, y: int|
        #![trigger cur[a], cur[b], base[x], base[y]]
        0 <= a < b < cur.len() && 0 <= x < base.len() && 0 <= y < base.len() && cur[a] == base[x]
            && cur[b] == base[y] ==> x < y
}

/// Entry `i` of `base`, under another key than `key`, is gone from `cur`.
pub open spec fn evicted<V>(base: Seq<CacheEntry<V>>, cur: Seq<CacheEntry<V>>, key: u64, i: int) -> bool {
    0 <= i < base.len() && base[i].key != key && !cur.contains(base[i])
}

/// Among equal scores, the earlier-added entry went first.
pub open spec fn ties_ok<V>(base: Seq<CacheEntry<V>>, cur: Seq<CacheEntry<V>>, key: u64, t: usize) -> bool {
    forall|i: int, k: int|
        #![trigger evicted(base, cur, key, i), base[k]]
        evicted(base, cur, key, i) && 0 <= k < base.len() && cur.contains(base[k]) && score_le(
            base[k],
            base[i],
            t,
        ) ==> i < k
}

/// Every evicted entry scores no higher than `e`.
pub open spec fn below<V>(base: Seq<CacheEntry<V>>, cur: Seq<CacheEntry<V>>, key: u64, t: usize, e: CacheEntry<V>) -> bool {
    forall|i: int| #[trigger] evicted(base, cur, key, i) ==> score_le(base[i], e, t)
}

/// Removing the first lowest-scoring entry keeps the order, settles ties by
/// insertion order, and leaves the removed entry the highest-scoring gone.
proof fn lemma_evict_step<V>(base: Seq<CacheEntry<V>>, cur: Seq<CacheEntry<V>>, key: u64, t: usize, mi: int)
    requires
        0 <= mi < cur.len(),
        forall|j: int| 0 <= j < cur.len() ==> score_le(cur[mi], #[trigger] cur[j], t),
        forall|j: int| 0 <= j < mi ==> !score_le(#[trigger] cur[j], cur[mi], t),
        forall|i: int, j: int| 0 <= i < j < cur.len() ==> #[trigger] cur[i].key != #[trigger] cur[j].key,
        ordered_in(cur, base),
        ties_ok(base, cur, key, t),
        forall|i: int, j: int|
            0 <= i < base.len() && base[i].key != key && !cur.contains(base[i]) && 0 <= j < cur.len()
                ==> score_le(#[trigger] base[i], #[trigger] cur[j], t),
        forall|j: int| 0 <= j < cur.len() ==> #[trigger] cur[j].key != key && base.contains(cur[j]),
    ensures
        ordered_in(cur.remove(mi), base),
        ties_ok(base, cur.remove(mi), key, t),
        below(base, cur.remove(mi), key, t, cur[mi]),
{
    let now = cur.remove(mi);
    let gone = cur[mi];
    assert forall|j: int| 0 <= j < now.len() implies #[trigger] now[j] == cur[if j < mi { j } else { j + 1 }] by {}
    // what was in `cur` and is not in `now` is the removed entry
    assert forall|i: int| 0 <= i < base.len() && cur.contains(base[i]) && !now.contains(base[i]) implies base[i] == gone by {
        let c = choose|c: int| 0 <= c < cur.len() && cur[c] == base[i];
        if c != mi {
            let j = if c < mi { c } else { c - 1 };
            assert(now[j] == cur[c]);
        }
    }
    assert forall|j: int| 0 <= j < now.len() implies cur.contains(#[trigger] now[j]) by {
        let k = if j < mi { j } else { j + 1 };
        assert(cur[k] == now[j]);
    }
    assert(ordered_in(now, base)) by {
        assert forall|a: int, b: int, x: int, y: int|
            #![trigger now[a], now[b], base[x], base[y]]
            0 <= a < b < now.len() && 0 <= x < base.len() && 0 <= y < base.len() && now[a] == base[x]
                && now[b] == base[y] implies x < y by {
            let a2 = if a < mi { a } else { a + 1 };
            let b2 = if b < mi { b } else { b + 1 };
            assert(now[a] == cur[a2] && now[b] == cur[b2]);
        }
    }
    assert(below(base, now, key, t, gone)) by {
        assert forall|i: int| #[trigger] evicted(base, now, key, i) implies score_le(base[i], gone, t) by {
            if cur.contains(base[i]) {
                assert(base[i] == gone);
            } else {
                assert(score_le(base[i], cur[mi], t));
            }
        }
    }
    assert(ties_ok(base, now, key, t)) by {
        assert forall|i: int, k: int|
            #![trigger evicted(base, now, key, i), base[k]]
            evicted(base, now, key, i) && 0 <= k < base.len() && now.contains(base[k]) && score_le(
                base[k],
                base[i],
                t,
            ) implies i < k by {
            let j = choose|j: int| 0 <= j < now.len() && now[j] == base[k];
            assert(cur.contains(base[k]));
            if cur.contains(base[i]) {
                assert(base[i] == gone);
                let c = if j < mi { j } else { j + 1 };
                assert(cur[c] == base[k]);
                assert(c != mi) by {
                    if c == mi {
                        assert(now.contains(gone));
                        assert(base[i] == base[k]);
                    }
                }
                if c < mi {
                    assert(!score_le(cur[c], cur[mi], t));
                }
                assert(cur[mi] == base[i]);
            } else {
                assert(evicted(base, cur, key, i));
            }
        }
    }
}

proof fn lemma_ordered_start<V>(base: Seq<CacheEntry<V>>, start: Seq<CacheEntry<V>>, x: int)
    requires
        forall|i: int, j: int| 0 <= i < j < base.len() ==> #[trigger] base[i].key != #[trigger] base[j].key,
        start == base || (0 <= x < base.len() && start == base.remove(x)),
    ensures
        ordered_in(start, base),
{
    assert forall|a: int, b: int, p: int, q: int|
        #![trigger start[a], start[b], base[p], base[q]]
        0 <= a < b < start.len() && 0 <= p < base.len() && 0 <= q < base.len() && start[a] == base[p]
            && start[b] == base[q] implies p < q by {
        let (a2, b2) = if start == base { (a, b) } else {
            (if a < x { a } else { a + 1 }, if b < x { b } else { b + 1 })
        };
        assert(start[a] == base[a2] && start[b] == base[b2]);
        if p != a2 {
            if p < a2 { assert(base[p].key != base[a2].key); } else { assert(base[a2].key != base[p].key); }
        }
        if q != b2 {
            if q < b2 { assert(base[q].key != base[b2].key); } else { assert(base[b2].key != base[q].key); }
        }
    }
}

/// What `add` promises: the budget holds afterwards; a value larger than the
/// whole budget leaves the cache as it was; otherwise the new entry is last,
/// the other entries kept are old ones in their order, each evicted entry
/// scores no higher than any kept one, and the last one evicted was needed
/// gone for the new entry to fit.
pub open spec fn add_post<V>(
    pre: Cache<V>,
    post: Cache<V>,
    key: u64,
    value: V,
    size: usize,
    stamp: u64,
    r: Result<(), CacheError>,
) -> bool {
    &&& post.wf()
    &&& post.size_limit == pre.size_limit
    &&& post.tot_count == pre.tot_count
    &&& size > pre.size_limit ==> r is Err && post == pre
    &&& size <= pre.size_limit ==> r is Ok && ({
        let s = post.entries@;
        let kept = s.drop_last();
        let base = pre.entries@;
        &&& s.len() > 0
        &&& s.last() == (CacheEntry {
            key,
            value,
            byte_size: size,
            hit_count: 0,
            first_seen: pre.tot_count,
            stamp,
        })
        &&& forall|j: int| 0 <= j < kept.len() ==> #[trigger] kept[j].key != key && base.contains(
            kept[j],
        )
        &&& forall|i: int, j: int|
            0 <= i < base.len() && base[i].key != key && !kept.contains(base[i]) && 0 <= j
                < kept.len() ==> score_le(#[trigger] base[i], #[trigger] kept[j], pre.tot_count)
        &&& ties_ok(base, kept, key, pre.tot_count)
        &&& (exists|i: int| evicted(base, kept, key, i)) ==> (exists|i: int|
            #[trigger] evicted(base, kept, key, i) && sizes(kept) + base[i].byte_size + size
                > pre.size_limit && below(base, kept, key, pre.tot_count, base[i]))
    })
}

/// What `get` promises: one more query is counted; on a hit the value is a
/// clone of the entry's and the entry counts one more read, on a miss no
/// entry changes.
pub open spec fn get_post<V: Clone>(pre: Cache<V>, post: Cache<V>, key: u64, r: Option<V>) -> bool {
    &&& post.wf()
    &&& post.size_limit == pre.size_limit
    &&& post.tot_count == sat_inc(pre.tot_count)
    &&& match r {
        None => !has_key(pre.entries@, key) && post.entries@ == pre.entries@,
        Some(v) => exists|i: int|
            0 <= i < pre.entries@.len() && pre.entries@[i].key == key && cloned(
                pre.entries@[i].value,
                v,
            ) && post.entries@ == pre.entries@.update(
                i,
                CacheEntry { hit_count: sat_inc(pre.entries@[i].hit_count), ..pre.entries@[i] },
            ),
    }
}

impl<V> Cache<V> {
    /// Sizes add up, the budget holds, keys are unique, and no entry was
    /// added after the latest query.
    pub open spec fn wf(&self) -> bool {
        &&& self.tot_size == sizes(self.entries@)
        &&& self.tot_size <= self.size_limit
        &&& forall|i: int, j: int|
            0 <= i < j < self.entries@.len() ==> #[trigger] self.entries@[i].key
                != #[trigger] self.entries@[j].key
        &&& forall|i: int| 0 <= i < self.entries@.len() ==> #[trigger] self.entries@[i].first_seen
            <= self.tot_count
    }

    /// An empty cache with a budget of `size_limit` bytes.
    pub fn empty(size_limit: usize) -> (r: Cache<V>)
        ensures
            r.wf(),
            r.size_limit == size_limit,
            r.entries@.len() == 0,
            r.tot_count == 0,
    {
        Cache { size_limit, tot_size: 0, tot_count: 0, entries: Vec::new() }
    }

    /// Where `key` is held, if anywhere.
    pub fn position(&self, key: u64) -> (r: Option<usize>)
        ensures
            match r {
                Some(i) => i < self.entries@.len() && self.entries@[i as int].key == key,
                None => !has_key(self.entries@, key),
            },
    {
        let mut i: usize = 0;
        while i < self.entries.len()
            invariant
                0 <= i <= self.entries@.len(),
                forall|j: int| 0 <= j < i ==> #[trigger] self.entries@[j].key != key,
            decreases self.entries.len() - i,
        {
            if self.entries[i].key == key {
                return Some(i);
            }
            i = i + 1;
        }
        None
    }

    /// The generation stamped on the entry held for `key`; not a query.
    pub fn stamp_of(&self, key: u64) -> (r: Option<u64>)
        ensures
            match r {
                Some(g) => exists|i: int|
                    0 <= i < self.entries@.len() && self.entries@[i].key == key
                        && self.entries@[i].stamp == g,
                None => !has_key(self.entries@, key),
            },
    {
        match self.position(key) {
            Some(i) => Some(self.entries[i].stamp),
            None => None,
        }
    }

    /// The value held for `key`. Each call counts as one query, and a hit
    /// counts as a read of the entry.
    pub fn get(&mut self, key: u64) -> (r: Option<V>)
        where
            V: Clone,
        requires
            old(self).wf(),
        ensures
            get_post(*old(self), *final(self), key, r),
    {
        if self.tot_count < usize::MAX {
            self.tot_count = self.tot_count + 1;
        }
        match self.position(key) {
            None => None,
            Some(i) => {
                let ghost before = self.entries@;
                let mut e = self.entries.remove(i);
                if e.hit_count < usize::MAX {
                    e.hit_count = e.hit_count + 1;
                }
                let v = e.value.clone();
                self.entries.insert(i, e);
                proof {
                    assert(self.entries@ =~= before.update(i as int, e));
                    lemma_sizes_update(before, i as int, e);
                }
                Some(v)
            },
        }
    }

    fn remove_at(&mut self, i: usize)
        requires
            old(self).wf(),
            i < old(self).entries@.len(),
        ensures
            final(self).wf(),
            final(self).size_limit == old(self).size_limit,
            final(self).tot_count == old(self).tot_count,
            final(self).entries@ == old(self).entries@.remove(i as int),
    {
        proof {
            lemma_sizes_remove(self.entries@, i as int);
        }
        let e = self.entries.remove(i);
        self.tot_size = self.tot_size - e.byte_size;
    }

    /// Removes the entry held for `key`, if any, with its size.
    pub fn purge(&mut self, key: u64) -> (r: bool)
        requires
            old(self).wf(),
        ensures
            final(self).wf(),
            final(self).size_limit == old(self).size_limit,
            final(self).tot_count == old(self).tot_count,
            !has_key(final(self).entries@, key),
            r == has_key(old(self).entries@, key),
            r ==> exists|i: int|
                0 <= i < old(self).entries@.len() && old(self).entries@[i].key == key
                    && final(self).entries@ == old(self).entries@.remove(i),
            !r ==> final(self).entries@ == old(self).entries@,
    {
        match self.position(key) {
            None => false,
            Some(i) => {
                let ghost before = self.entries@;
                self.remove_at(i);
                assert(!has_key(self.entries@, key)) by {
                    assert forall|j: int| 0 <= j < self.entries@.len() implies #[trigger] self.entries@[j].key
                        != key by {
                        if j < i {
                            assert(self.entries@[j] == before[j]);
                        } else {
                            assert(self.entries@[j] == before[j + 1]);
                        }
                    }
                }
                true
            },
        }
    }

    /// The first entry among those of lowest score.
    fn min_score_index(&self) -> (r: usize)
        requires
            self.entries@.len() > 0,
        ensures
            r < self.entries@.len(),
            forall|j: int|
                0 <= j < self.entries@.len() ==> score_le(
                    self.entries@[r as int],
                    #[trigger] self.entries@[j],
                    self.tot_count,
                ),
            forall|j: int|
                0 <= j < r ==> !score_le(#[trigger] self.entries@[j], self.entries@[r as int], self.tot_count),
    {
        let mut best: usize = 0;
        let mut i: usize = 1;
        while i < self.entries.len()
            invariant
                1 <= i <= self.entries@.len(),
                best < i,
                forall|j: int|
                    0 <= j < i ==> score_le(
                        self.entries@[best as int],
                        #[trigger] self.entries@[j],
                        self.tot_count,
                    ),
                forall|j: int|
                    0 <= j < best ==> !score_le(#[trigger] self.entries@[j], self.entries@[best as int], self.tot_count),
            decreases self.entries.len() - i,
        {
            if !score_le_exec(&self.entries[best], &self.entries[i], self.tot_count) {
                let ghost old_best = best;
                best = i;
                proof {
                    let t = self.tot_count;
                    let b = self.entries@[old_best as int];
                    let n = self.entries@[i as int];
                    assert forall|j: int| 0 <= j < i + 1 implies score_le(
                        n,
                        #[trigger] self.entries@[j],
                        t,
                    ) by {
                        let e = self.entries@[j];
                        if j < i {
                            lemma_score_le_trans(n, b, e, t);
                        }
                    }
                    assert forall|j: int| 0 <= j < i implies !score_le(#[trigger] self.entries@[j], n, t) by {
                        let e = self.entries@[j];
                        if score_le(e, n, t) {
                            lemma_score_le_total(b, n, t);
                            lemma_score_le_chain(e, n, b, t);
                            if j >= old_best {
                                lemma_score_le_chain(b, e, n, t);
                            }
                        }
                    }
                }
            }
            i = i + 1;
        }
        best
    }

    /// Caches `value` under `key`, as an entry of `size` bytes that has not
    /// been read yet; an entry already held for `key` is replaced. Where the
    /// budget left is too small, entries are evicted in ascending order of
    /// score, the earliest added first among equals, until the new entry fits.
    /// A value larger than the whole budget is not cached, and the cache is
    /// left as it was.
    pub fn add(&mut self, key: u64, value: V, size: usize, stamp: u64) -> (r: Result<(), CacheError>)
        requires
            old(self).wf(),
        ensures
            add_post(*old(self), *final(self), key, value, size, stamp, r),
    {
        if size > self.size_limit {
            return Err(CacheError::CacheOversize);
        }
        let ghost base = self.entries@;
        self.purge(key);
        let ghost start = self.entries@;
        let ghost t = self.tot_count;
        let ghost mut last: Option<CacheEntry<V>> = None;
        proof {
            assert forall|j: int| 0 <= j < start.len() implies #[trigger] start[j].key != key && base.contains(start[j]) by {
                assert(!has_key(start, key));
                if start =~= base {
                    assert(base[j] == start[j]);
                } else {
                    let i = choose|i: int| 0 <= i < base.len() && base[i].key == key && start == base.remove(i);
                    if j < i { assert(base[j] == start[j]); } else { assert(base[j + 1] == start[j]); }
                }
            }
            if start =~= base {
                lemma_ordered_start(base, start, 0);
            } else {
                let x = choose|x: int| 0 <= x < base.len() && base[x].key == key && start == base.remove(x);
                lemma_ordered_start(base, start, x);
            }
            assert forall|i: int| 0 <= i < base.len() && base[i].key != key implies start.contains(#[trigger] base[i]) by {
                if start =~= base {
                    assert(start[i] == base[i]);
                } else {
                    let x = choose|x: int| 0 <= x < base.len() && base[x].key == key && start == base.remove(x);
                    if i < x { assert(start[i] == base[i]); } else { assert(start[i - 1] == base[i]); }
                }
            }
        }
        while size > self.size_limit - self.tot_size
            invariant
                self.wf(),
                self.size_limit == old(self).size_limit,
                self.tot_count == t,
                size <= self.size_limit,
                forall|j: int| 0 <= j < self.entries@.len() ==> #[trigger] self.entries@[j].key != key
                    && base.contains(self.entries@[j]),
                forall|i: int, j: int|
                    0 <= i < base.len() && base[i].key != key && !self.entries@.contains(base[i]) && 0 <= j
                        < self.entries@.len() ==> score_le(#[trigger] base[i], #[trigger] self.entries@[j], t),
                last is None ==> forall|i: int| 0 <= i < base.len() && base[i].key != key ==> self.entries@.contains(#[trigger] base[i]),
                last is Some ==> ({
                    let e = last->Some_0;
                    base.contains(e) && e.key != key && !self.entries@.contains(e) && sizes(self.entries@) + e.byte_size + size > self.size_limit
                        && below(base, self.entries@, key, t, e)
                }),
                ordered_in(self.entries@, base),
                ties_ok(base, self.entries@, key, t),
            decreases self.entries@.len(),
        {
            proof {
                assert(forall|j: int| 0 <= j < self.entries@.len() ==> self.entries@[j].key != key);
                assert(forall|j: int| 0 <= j < self.entries@.len() ==> base.contains(#[trigger] self.entries@[j]));
            }
            let m = self.min_score_index();
            let ghost cur = self.entries@;
            let ghost gone = cur[m as int];
            let ghost old_size = self.tot_size;
            proof {
                assert(cur[m as int].key != key && base.contains(cur[m as int]));
                lemma_evict_step(base, cur, key, t, m as int);
            }
            self.remove_at(m);
            proof {
                lemma_sizes_remove(cur, m as int);
                assert(sizes(self.entries@) + gone.byte_size + size > self.size_limit);
                last = Some(gone);
                let now = self.entries@;
                assert forall|j: int| 0 <= j < now.len() implies #[trigger] now[j] == cur[if j < m { j } else { j + 1 }] by {}
                assert(!now.contains(gone)) by {
                    if now.contains(gone) {
                        let j = choose|j: int| 0 <= j < now.len() && now[j] == gone;
                        let k = if j < m { j } else { j + 1 };
                        assert(cur[k] == gone);
                        assert(cur[k].key == cur[m as int].key);
                    }
                }
                assert forall|i: int, j: int|
                    0 <= i < base.len() && base[i].key != key && !now.contains(base[i]) && 0 <= j
                        < now.len() implies score_le(#[trigger] base[i], #[trigger] now[j], t) by {
                    let k = if j < m { j } else { j + 1 };
                    assert(now[j] == cur[k]);
                    if !cur.contains(base[i]) {
                    } else {
                        let c = choose|c: int| 0 <= c < cur.len() && cur[c] == base[i];
                        if c != m {
                            let jj = if c < m { c } else { c - 1 };
                            assert(now[jj] == cur[c]);
                        }
                    }
                }
                assert forall|j: int| 0 <= j < now.len() implies #[trigger] now[j].key != key
                    && base.contains(now[j]) by {
                    let k = if j < m { j } else { j + 1 };
                    assert(now[j] == cur[k]);
                    assert(cur[k].key != key && base.contains(cur[k]));
                }
            }
        }
        let ghost kept = self.entries@;
        let e = CacheEntry { key, value, byte_size: size, hit_count: 0, first_seen: self.tot_count, stamp };
        proof {
            lemma_sizes_push(self.entries@, e);
        }
        self.entries.push(e);
        self.tot_size = self.tot_size + size;
        proof {
            let s = self.entries@;
            assert(s.drop_last() =~= kept);
            assert forall|i: int, j: int| 0 <= i < j < s.len() implies #[trigger] s[i].key != #[trigger] s[j].key by {
                if j == s.len() - 1 {
                    assert(kept[i].key != key);
                }
            }
            if exists|i: int| 0 <= i < base.len() && base[i].key != key && !kept.contains(base[i]) {
                let i = choose|i: int| 0 <= i < base.len() && base[i].key != key && !kept.contains(base[i]);
                assert(last is Some);
                let e = last->Some_0;
                let x = choose|x: int| 0 <= x < base.len() && base[x] == e;
                assert(evicted(base, kept, key, x));
                assert(base[x].key != key && !kept.contains(base[x]) && sizes(kept) + base[x].byte_size + size > self.size_limit);
            }
        }
        Ok(())
    }
}

pub proof fn lemma_score_le_total<V>(a: CacheEntry<V>, b: CacheEntry<V>, t: usize)
    ensures
        !score_le(a, b, t) ==> score_le(b, a, t),
{
}

pub proof fn lemma_score_le_chain<V>(a: CacheEntry<V>, b: CacheEntry<V>, c: CacheEntry<V>, t: usize)
    requires
        score_le(a, b, t),
        score_le(b, c, t),
    ensures
        score_le(a, c, t),
{
    let (ha, hb, hc) = (a.hit_count as int, b.hit_count as int, c.hit_count as int);
    let (aa, ab, ac) = (age(a, t), age(b, t), age(c, t));
    assert(ha * ac <= hc * aa) by (nonlinear_arith)
        requires
            ha * ab <= hb * aa,
            hb * ac <= hc * ab,
            aa > 0,
            ab > 0,
            ac > 0,
            ha >= 0,
            hb >= 0,
            hc >= 0,
    ;
}

pub proof fn lemma_score_le_trans<V>(a: CacheEntry<V>, b: CacheEntry<V>, c: CacheEntry<V>, t: usize)
    requires
        !score_le(b, a, t),
        score_le(b, c, t),
    ensures
        score_le(a, c, t),
{
    let (ha, hb, hc) = (a.hit_count as int, b.hit_count as int, c.hit_count as int);
    let (aa, ab, ac) = (age(a, t), age(b, t), age(c, t));
    assert(aa > 0 && ab > 0 && ac > 0);
    // hb * aa > ha * ab, and hb * ac <= hc * ab
    assert(ha * ac <= hc * aa) by (nonlinear_arith)
        requires
            hb * aa > ha * ab,
            hb * ac <= hc * ab,
            aa > 0,
            ab > 0,
            ac > 0,
            ha >= 0,
            hb >= 0,
            hc >= 0,
    ;
}

/// The sum of the weights of some partitions.
pub open spec fn weight_sum(w: Seq<(String, u64)>) -> nat
    decreases w.len(),
{
    if w.len() == 0 {
        0
    } else {
        weight_sum(w.drop_last()) + w.last().1 as nat
    }
}

pub proof fn lemma_weight_le_sum(w: Seq<(String, u64)>, i: int)
    requires
        0 <= i < w.len(),
    ensures
        w[i].1 <= weight_sum(w),
    decreases w.len(),
{
    if i < w.len() - 1 {
        lemma_weight_le_sum(w.drop_last(), i);
    }
}

pub proof fn lemma_weight_sum_bound(w: Seq<(String, u64)>)
    ensures
        weight_sum(w) <= w.len() * 0xffff_ffff_ffff_ffff,
    decreases w.len(),
{
    if w.len() > 0 {
        lemma_weight_sum_bound(w.drop_last());
    }
}

/// The budget of a partition: its share of the weights, rounded down.
pub open spec fn share(weight: u64, sum: nat, total: usize) -> int {
    if sum == 0 {
        0
    } else {
        (weight * total) / (sum as int)
    }
}

/// One byte budget split across named content classes by weight; a class
/// never uses the budget of another.
pub struct PartitionedCache<V> {
    pub parts: Vec<(String, Cache<V>)>,
}

/// The first partition named `class`.
pub open spec fn part_of<V>(parts: Seq<(String, Cache<V>)>, class: Seq<char>) -> Option<int> {
    if exists|i: int| 0 <= i < parts.len() && #[trigger] parts[i].0@ == class {
        Some(choose|i: int| 0 <= i < parts.len() && #[trigger] parts[i].0@ == class && forall|j: int| 0 <= j < i ==> #[trigger] parts[j].0@ != class)
    } else {
        None
    }
}

impl<V> PartitionedCache<V> {
    pub open spec fn wf(&self) -> bool {
        forall|i: int| 0 <= i < self.parts@.len() ==> (#[trigger] self.parts@[i]).1.wf()
    }

    /// Empty partitions, one per weighted class, each with its share of
    /// `total` bytes.
    pub fn new(total: usize, weights: &Vec<(String, u64)>) -> (r: PartitionedCache<V>)
        ensures
            r.wf(),
            r.parts@.len() == weights@.len(),
            forall|i: int|
                0 <= i < weights@.len() ==> (#[trigger] r.parts@[i]).0@ == weights@[i].0@
                    && r.parts@[i].1.entries@.len() == 0 && r.parts@[i].1.size_limit == share(
                    weights@[i].1,
                    weight_sum(weights@),
                    total,
                ),
    {
        let mut sum: u128 = 0;
        let mut i: usize = 0;
        while i < weights.len()
            invariant
                0 <= i <= weights@.len(),
                sum == weight_sum(weights@.subrange(0, i as int)),
                sum <= i * 0xffff_ffff_ffff_ffff,
                i <= usize::MAX,
            decreases weights.len() - i,
        {
            proof {
                assert(weights@.subrange(0, i + 1).drop_last() =~= weights@.subrange(0, i as int));
            }
            sum = sum + weights[i].1 as u128;
            i = i + 1;
        }
        assert(weights@.subrange(0, weights.len() as int) =~= weights@);
        let mut parts: Vec<(String, Cache<V>)> = Vec::new();
        let mut i: usize = 0;
        while i < weights.len()
            invariant
                0 <= i <= weights@.len(),
                sum == weight_sum(weights@),
                parts@.len() == i,
                forall|k: int|
                    0 <= k < i ==> (#[trigger] parts@[k]).1.wf() && parts@[k].0@ == weights@[k].0@
                        && parts@[k].1.entries@.len() == 0 && parts@[k].1.size_limit == share(
                        weights@[k].1,
                        weight_sum(weights@),
                        total,
                    ),
            decreases weights.len() - i,
        {
            let w = weights[i].1;
            let limit: usize = if sum == 0 {
                0
            } else {
                proof {
                    lemma_weight_le_sum(weights@, i as int);
                }
                let wt = w as u128;
                let tt = total as u128;
                assert(wt * tt <= 0xffff_ffff_ffff_ffffu128 * 0xffff_ffff_ffff_ffffu128) by (nonlinear_arith)
                    requires
                        wt <= 0xffff_ffff_ffff_ffffu128,
                        tt <= 0xffff_ffff_ffff_ffffu128,
                ;
                let ghost (gw, gt, gs) = (wt as int, tt as int, sum as int);
                assert((gw * gt) / gs <= gt) by (nonlinear_arith)
                    requires
                        gw <= gs,
                        gs > 0,
                        gt >= 0,
                        gw >= 0,
                ;
                ((wt * tt) / sum) as usize
            };
            parts.push((weights[i].0.clone(), Cache::empty(limit)));
            i = i + 1;
        }
        PartitionedCache { parts }
    }

    /// Where the partition of `class` stands.
    pub fn part_index(&self, class: &String) -> (r: Option<usize>)
        ensures
            r matches Some(i) ==> i < self.parts@.len() && part_of(self.parts@, class@) == Some(i as int),
            r is None ==> part_of(self.parts@, class@) is None,
    {
        let mut i: usize = 0;
        while i < self.parts.len()
            invariant
                0 <= i <= self.parts@.len(),
                forall|j: int| 0 <= j < i ==> #[trigger] self.parts@[j].0@ != class@,
            decreases self.parts.len() - i,
        {
            if self.parts[i].0.eq(class) {
                let ghost c = choose|k: int| 0 <= k < self.parts@.len() && #[trigger] self.parts@[k].0@ == class@ && forall|j: int| 0 <= j < k ==> #[trigger] self.parts@[j].0@ != class@;
                proof {
                    if c < i {
                    } else if c > i {
                        assert(self.parts@[i as int].0@ == class@);
                    }
                }
                return Some(i);
            }
            i = i + 1;
        }
        None
    }

    /// Looks `key` up in the partition of `class`.
    pub fn get(&mut self, class: &String, key: u64) -> (r: Option<V>)
        where
            V: Clone,
        requires
            old(self).wf(),
        ensures
            final(self).wf(),
            final(self).parts@.len() == old(self).parts@.len(),
            match part_of(old(self).parts@, class@) {
                None => r is None && final(self).parts@ == old(self).parts@,
                Some(i) => final(self).parts@ == old(self).parts@.update(i, (old(self).parts@[i].0, final(self).parts@[i].1))
                    && get_post(old(self).parts@[i].1, final(self).parts@[i].1, key, r),
            },
    {
        match self.part_index(class) {
            None => None,
            Some(i) => {
                let ghost before = self.parts@;
                let (name, mut c) = self.parts.remove(i);
                let r = c.get(key);
                self.parts.insert(i, (name, c));
                proof {
                    assert(self.parts@ =~= before.update(i as int, (before[i as int].0, c)));
                    assert forall|j: int| 0 <= j < self.parts@.len() implies (#[trigger] self.parts@[j]).1.wf() by {
                        if j != i {
                            assert(self.parts@[j] == before[j]);
                        }
                    }
                }
                r
            },
        }
    }

    /// Caches `value` in the partition of `class`, as `Cache::add` does;
    /// a class with no partition caches nothing.
    pub fn add(&mut self, class: &String, key: u64, value: V, size: usize, stamp: u64) -> (r: Result<(), CacheError>)
        requires
            old(self).wf(),
        ensures
            final(self).wf(),
            final(self).parts@.len() == old(self).parts@.len(),
            match part_of(old(self).parts@, class@) {
                None => r == Err::<(), CacheError>(CacheError::UnknownPartition) && final(self).parts@ == old(self).parts@,
                Some(i) => final(self).parts@ == old(self).parts@.update(i, (old(self).parts@[i].0, final(self).parts@[i].1))
                    && add_post(old(self).parts@[i].1, final(self).parts@[i].1, key, value, size, stamp, r),
            },
    {
        match self.part_index(class) {
            None => Err(CacheError::UnknownPartition),
            Some(i) => {
                let ghost before = self.parts@;
                let (name, mut c) = self.parts.remove(i);
                let r = c.add(key, value, size, stamp);
                self.parts.insert(i, (name, c));
                proof {
                    assert(self.parts@ =~= before.update(i as int, (before[i as int].0, c)));
                    assert forall|j: int| 0 <= j < self.parts@.len() implies (#[trigger] self.parts@[j]).1.wf() by {
                        if j != i {
                            assert(self.parts@[j] == before[j]);
                        }
                    }
                }
                r
            },
        }
    }
}

/// Whatever `add` and `get` calls are made, every partition stays within
/// its budget.
pub proof fn lemma_partition_budget<V>(c: PartitionedCache<V>, i: int)
    requires
        c.wf(),
        0 <= i < c.parts@.len(),
    ensures
        c.parts@[i].1.tot_size <= c.parts@[i].1.size_limit,
        c.parts@[i].1.tot_size == sizes(c.parts@[i].1.entries@),
{
}

} // verus!
