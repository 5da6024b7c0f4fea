//! Per-address rate limiting: too many connections within a second earn a
//! ban, and each attempt while banned extends it. Times are milliseconds of
//! a monotonic clock, supplied by the caller.
use vstd::prelude::*;

verus! {

/// The window within which connections are counted.
pub const WINDOW_MS: u64 = 1000;

/// How long a first ban lasts.
pub const BAN_MS: u64 = 30000;

/// How much each attempt while banned adds to the ban.
pub const BAN_STEP_MS: u64 = 10000;

pub struct ProtectionMiddlewareBuilder {
    pub limit_per_sec: usize,
}

impl ProtectionMiddlewareBuilder {
    pub fn new(limit_per_sec: usize) -> (r: ProtectionMiddlewareBuilder)
        ensures
            r.limit_per_sec == limit_per_sec,
    {
        ProtectionMiddlewareBuilder { limit_per_sec }
    }
}

/// What is remembered of one address.
pub struct PastConnections {
    pub last: u64,
    pub count: usize,
    pub banned_since: Option<u64>,
    pub ban_duration: u64,
}

pub open spec fn elapsed(now: u64, since: u64) -> int {
    if now >= since {
        now - since
    } else {
        0
    }
}

impl PastConnections {
    /// An address first seen at `now`.
    pub fn starting_at(now: u64) -> (r: PastConnections)
        ensures
            r.last == now,
            r.count == 0,
            r.banned_since is None,
            r.ban_duration == BAN_MS,
    {
        PastConnections { last: now, count: 0, banned_since: None, ban_duration: BAN_MS }
    }

    /// Counts a connection at `now`; whether the address stays under the
    /// limit. A connection a window or more after the window's start opens a
    /// new window.
    pub fn new_connection(&mut self, now: u64, limit_per_sec: usize) -> (r: bool)
        ensures
            elapsed(now, old(self).last) < WINDOW_MS ==> final(self).last == old(self).last && final(self).count
                == crate::cache::sat_inc(old(self).count),
            elapsed(now, old(self).last) >= WINDOW_MS ==> final(self).last == now && final(self).count == 0,
            r == (final(self).count < limit_per_sec),
            final(self).banned_since == old(self).banned_since,
            final(self).ban_duration == old(self).ban_duration,
    {
        let delta = if now >= self.last { now - self.last } else { 0 };
        if delta < WINDOW_MS {
            if self.count < usize::MAX {
                self.count = self.count + 1;
            }
        } else {
            self.count = 0;
            self.last = now;
        }
        self.count < limit_per_sec
    }

    /// Bans the address from `now` on.
    pub fn ban_now(&mut self, now: u64)
        ensures
            final(self).banned_since == Some(now),
            final(self).ban_duration == BAN_MS,
            final(self).last == old(self).last,
            final(self).count == old(self).count,
    {
        self.banned_since = Some(now);
        self.ban_duration = BAN_MS;
    }

    /// Whether the address is banned at `now`. An attempt while banned
    /// restarts the ban and makes it longer.
    pub fn banned(&mut self, now: u64) -> (r: bool)
        ensures
            final(self).last == old(self).last,
            final(self).count == old(self).count,
            match old(self).banned_since {
                None => !r && final(self).banned_since == old(self).banned_since && final(self).ban_duration
                    == old(self).ban_duration,
                Some(since) => if now as int > since as int + old(self).ban_duration as int {
                    !r && final(self).banned_since == old(self).banned_since && final(self).ban_duration
                        == old(self).ban_duration
                } else {
                    r && final(self).banned_since == Some(now) && final(self).ban_duration == (
                    if old(self).ban_duration as int + BAN_STEP_MS as int <= u64::MAX as int {
                        (old(self).ban_duration + BAN_STEP_MS) as u64
                    } else {
                        u64::MAX
                    })
                },
            },
    {
        match self.banned_since {
            None => false,
            Some(since) => {
                let expired = now > since && now - since > self.ban_duration;
                if expired {
                    false
                } else {
                    self.banned_since = Some(now);
                    self.ban_duration = if self.ban_duration <= u64::MAX - BAN_STEP_MS {
                        self.ban_duration + BAN_STEP_MS
                    } else {
                        u64::MAX
                    };
                    true
                }
            },
        }
    }
}

/// The state of every address seen, by address.
pub struct ProtectionMiddleware {
    pub limit_per_sec: usize,
    pub addresses: Vec<(u128, PastConnections)>,
}

/// Where address `addr` is remembered, if it is.
pub open spec fn address_pos(a: Seq<(u128, PastConnections)>, addr: u128) -> Option<int> {
    if exists|i: int| 0 <= i < a.len() && #[trigger] a[i].0 == addr {
        Some(choose|i: int| 0 <= i < a.len() && #[trigger] a[i].0 == addr)
    } else {
        None
    }
}

/// Whether a connection at `now` from an address with record `p` is let
/// through: not while banned, nor when it passes the limit.
pub open spec fn connection_allowed(p: PastConnections, now: u64, limit: usize) -> bool {
    let banned = match p.banned_since {
        None => false,
        Some(since) => now as int <= since as int + p.ban_duration as int,
    };
    let count = if elapsed(now, p.last) < WINDOW_MS { crate::cache::sat_inc(p.count) } else { 0 };
    !banned && count < limit
}

impl ProtectionMiddleware {
    pub open spec fn wf(&self) -> bool {
        forall|i: int, j: int|
            0 <= i < j < self.addresses@.len() ==> #[trigger] self.addresses@[i].0 != #[trigger] self.addresses@[j].0
    }

    pub fn from_builder(b: &ProtectionMiddlewareBuilder) -> (r: ProtectionMiddleware)
        ensures
            r.wf(),
            r.limit_per_sec == b.limit_per_sec,
            r.addresses@.len() == 0,
    {
        ProtectionMiddleware { limit_per_sec: b.limit_per_sec, addresses: Vec::new() }
    }

    /// Decides on a connection from `addr` at `now`: refused while the
    /// address is banned (the ban grows), refused and banned when it passes
    /// the limit, let through otherwise. An address not seen before starts
    /// a fresh record.
    pub fn check_connection(&mut self, addr: u128, now: u64) -> (r: bool)
        requires
            old(self).wf(),
        ensures
            final(self).wf(),
            final(self).limit_per_sec == old(self).limit_per_sec,
            r == connection_allowed(
                match address_pos(old(self).addresses@, addr) {
                    Some(i) => old(self).addresses@[i].1,
                    None => PastConnections { last: now, count: 0, banned_since: None, ban_duration: BAN_MS },
                },
                now,
                old(self).limit_per_sec,
            ),
            address_pos(final(self).addresses@, addr) is Some,
    {
        let mut i: usize = 0;
        while i < self.addresses.len() && self.addresses[i].0 != addr
            invariant
                0 <= i <= self.addresses@.len(),
                forall|j: int| 0 <= j < i ==> #[trigger] self.addresses@[j].0 != addr,
            decreases self.addresses.len() - i,
        {
            i = i + 1;
        }
        let ghost before = self.addresses@;
        let mut rec = if i < self.addresses.len() {
            let (_, p) = self.addresses.remove(i);
            proof {
                assert(before[i as int].0 == addr);
                let c = choose|k: int| 0 <= k < before.len() && #[trigger] before[k].0 == addr;
                if c < i {
                    assert(before[c].0 != before[i as int].0);
                } else if c > i {
                    assert(before[i as int].0 != before[c].0);
                }
                assert(address_pos(before, addr) == Some(i as int));
            }
            p
        } else {
            assert(address_pos(before, addr) is None);
            PastConnections::starting_at(now)
        };
        let ghost start = rec;
        let r = if rec.banned(now) {
            false
        } else if !rec.new_connection(now, self.limit_per_sec) {
            rec.ban_now(now);
            false
        } else {
            true
        };
        let ghost mid = self.addresses@;
        if i <= self.addresses.len() {
            self.addresses.insert(i, (addr, rec));
        } else {
            self.addresses.push((addr, rec));
        }
        proof {
            let a = self.addresses@;
            let k = if i <= mid.len() { i as int } else { mid.len() as int };
            assert(a[k].0 == addr);
            assert forall|x: int, y: int| 0 <= x < y < a.len() implies #[trigger] a[x].0 != #[trigger] a[y].0 by {
                if x != k && y != k {
                    let ox = if x < k { x } else { x - 1 };
                    let oy = if y < k { y } else { y - 1 };
                    assert(a[x] == mid[ox] && a[y] == mid[oy]);
                    let bx = if ox < i { ox } else { ox + 1 };
                    let by = if oy < i { oy } else { oy + 1 };
                    if i < before.len() {
                        assert(mid[ox] == before[bx] && mid[oy] == before[by]);
                    } else {
                        assert(mid[ox] == before[ox] && mid[oy] == before[oy]);
                    }
                } else if x == k {
                    let oy = y - 1;
                    assert(a[y] == mid[oy]);
                    if i < before.len() {
                        let by = if oy < i { oy } else { oy + 1 };
                        assert(mid[oy] == before[by]);
                        if by < i {
                        } else {
                            assert(before[by].0 != before[i as int].0);
                        }
                    } else {
                        assert(mid[oy] == before[oy]);
                    }
                } else {
                    let ox = x;
                    assert(a[x] == mid[ox]);
                    if i < before.len() {
                        assert(mid[ox] == before[ox]);
                    } else {
                        assert(mid[ox] == before[ox]);
                    }
                }
            }
            assert(address_pos(a, addr) is Some);
        }
        r
    }
}

} // verus!
