//! The per-tenant pool registry: one pooled connection handle per tenant,
//! created on first use, touched on every acquire, and evicted only when
//! idle, unborrowed and unpinned.
//!
//! The registry holds opaque numeric handles; the shell keeps the actual
//! pools keyed by handle and serializes access to the registry.  The
//! insert-if-absent step is the synchronization-critical section: racing
//! first acquires each construct a candidate pool, and the registry's
//! check-and-set lets exactly one win while the losers converge on it.

use vstd::prelude::*;

use crate::errors::Error;

verus! {

/// One registry entry, in mathematical form.
pub struct EntryV {
    pub tenant: Seq<char>,
    pub handle: u64,
    pub last_access: u64,
    pub borrowers: u64,
    pub pinned: bool,
}

/// One registry entry: the tenant, its pool handle, and the lifecycle
/// counters the sweep consults.
pub struct PoolEntry {
    pub tenant: String,
    pub handle: u64,
    pub last_access: u64,
    pub borrowers: u64,
    pub pinned: bool,
}

pub open spec fn entry_v(e: PoolEntry) -> EntryV {
    EntryV {
        tenant: e.tenant@,
        handle: e.handle,
        last_access: e.last_access,
        borrowers: e.borrowers,
        pinned: e.pinned,
    }
}

/// The position of the tenant's entry, or -1.
pub open spec fn find_tenant(s: Seq<EntryV>, t: Seq<char>) -> int
    decreases s.len(),
{
    if s.len() == 0 {
        -1
    } else if s[0].tenant == t {
        0
    } else {
        let r = find_tenant(s.drop_first(), t);
        if r == -1 {
            -1
        } else {
            1 + r
        }
    }
}

pub proof fn lemma_find_tenant_range(s: Seq<EntryV>, t: Seq<char>)
    ensures
        find_tenant(s, t) == -1 || (0 <= find_tenant(s, t) < s.len() && s[find_tenant(
            s,
            t,
        )].tenant == t),
    decreases s.len(),
{
    if s.len() == 0 {
    } else if s[0].tenant == t {
    } else {
        lemma_find_tenant_range(s.drop_first(), t);
    }
}

pub proof fn lemma_find_tenant_at(s: Seq<EntryV>, t: Seq<char>, k: int)
    requires
        0 <= k <= s.len(),
        forall|i: int| 0 <= i < k ==> (#[trigger] s[i]).tenant != t,
        k == s.len() || s[k].tenant == t,
    ensures
        find_tenant(s, t) == if k == s.len() {
            -1
        } else {
            k
        },
    decreases s.len(),
{
    if s.len() == 0 {
    } else if k == 0 {
    } else {
        assert(s[0].tenant != t);
        assert forall|i: int| 0 <= i < k - 1 implies (#[trigger] s.drop_first()[i]).tenant != t by {
            assert(s.drop_first()[i] == s[i + 1]);
        }
        lemma_find_tenant_at(s.drop_first(), t, k - 1);
    }
}

/// At most one live entry per tenant.
pub open spec fn wf_registry(s: Seq<EntryV>) -> bool {
    forall|i: int, j: int|
        0 <= i < j < s.len() ==> (#[trigger] s[i]).tenant != (#[trigger] s[j]).tenant
}

/// The entry with its last-access time refreshed.
pub open spec fn touched(e: EntryV, now: u64) -> EntryV {
    EntryV { last_access: now, ..e }
}

/// The registry after an install attempt, and the handle the caller
/// converges on: the existing one when the tenant already has an entry,
/// else the caller's own, inserted.
pub open spec fn spec_install(s: Seq<EntryV>, t: Seq<char>, h: u64, now: u64) -> (
    Seq<EntryV>,
    u64,
) {
    let i = find_tenant(s, t);
    if i >= 0 {
        (s.update(i, touched(s[i], now)), s[i].handle)
    } else {
        (s + seq![EntryV { tenant: t, handle: h, last_access: now, borrowers: 0, pinned: false }], h)
    }
}

/// An entry the sweep may evict: idle past the threshold, with no
/// in-flight borrowers and no restore pin.
pub open spec fn should_evict(e: EntryV, now: u64, max_idle: u64) -> bool {
    &&& !e.pinned
    &&& e.borrowers == 0
    &&& e.last_access <= now
    &&& now - e.last_access > max_idle
}

/// The registry after a sweep: the entries that must stay, in order.
pub open spec fn spec_sweep(s: Seq<EntryV>, now: u64, max_idle: u64) -> Seq<EntryV>
    decreases s.len(),
{
    if s.len() == 0 {
        Seq::empty()
    } else {
        let rest = spec_sweep(s.drop_first(), now, max_idle);
        if should_evict(s[0], now, max_idle) {
            rest
        } else {
            seq![s[0]] + rest
        }
    }
}

/// The handles a sweep releases, in order.
pub open spec fn spec_swept_handles(s: Seq<EntryV>, now: u64, max_idle: u64) -> Seq<u64>
    decreases s.len(),
{
    if s.len() == 0 {
        Seq::empty()
    } else {
        let rest = spec_swept_handles(s.drop_first(), now, max_idle);
        if should_evict(s[0], now, max_idle) {
            seq![s[0].handle] + rest
        } else {
            rest
        }
    }
}

/// Law (pool singleton): when two installs for the same tenant race, the
/// one the registry admits first wins, the later caller converges on the
/// same handle, and the tenant still has exactly one entry.
pub proof fn lemma_install_singleton(
    s: Seq<EntryV>,
    t: Seq<char>,
    h1: u64,
    h2: u64,
    n1: u64,
    n2: u64,
)
    requires
        wf_registry(s),
        find_tenant(s, t) == -1,
    ensures
        spec_install(s, t, h1, n1).1 == h1,
        spec_install(spec_install(s, t, h1, n1).0, t, h2, n2).1 == h1,
        wf_registry(spec_install(spec_install(s, t, h1, n1).0, t, h2, n2).0),
        ({
            let s2 = spec_install(spec_install(s, t, h1, n1).0, t, h2, n2).0;
            let s1 = spec_install(s, t, h1, n1).0;
            &&& s2.len() == s1.len()
            &&& forall|i: int|
                0 <= i < s2.len() ==> (#[trigger] s2[i]).tenant == s1[i].tenant && s2[i].handle
                    == s1[i].handle
        }),
{
    let s1 = spec_install(s, t, h1, n1).0;
    let e = EntryV { tenant: t, handle: h1, last_access: n1, borrowers: 0, pinned: false };
    assert(s1 == s + seq![e]);
    assert forall|i: int| 0 <= i < s.len() implies (#[trigger] s1[i]).tenant != t by {
        assert(s1[i] == s[i]);
        if s[i].tenant == t {
            lemma_find_tenant_at_contains(s, t, i);
        }
    }
    assert forall|a: int, b: int| 0 <= a < b < s1.len() implies (#[trigger] s1[a]).tenant != (
    #[trigger] s1[b]).tenant by {
        if b < s.len() {
            assert(s1[a] == s[a]);
            assert(s1[b] == s[b]);
        }
    }
    assert(s1[s.len() as int].tenant == t);
    lemma_find_tenant_at(s1, t, s.len() as int);
    assert(find_tenant(s1, t) == s.len());
    assert(s1[s.len() as int].handle == h1);
    assert(touched(s1[s.len() as int], n2) == EntryV {
        tenant: t,
        handle: h1,
        last_access: n2,
        borrowers: 0,
        pinned: false,
    });
    let s2 = spec_install(s1, t, h2, n2).0;
    assert(s2 == s1.update(s.len() as int, touched(s1[s.len() as int], n2)));
    assert forall|i: int| 0 <= i < s2.len() implies (#[trigger] s2[i]).tenant == s1[i].tenant
        && s2[i].handle == s1[i].handle by {}
    assert forall|a: int, b: int| 0 <= a < b < s2.len() implies (#[trigger] s2[a]).tenant != (
    #[trigger] s2[b]).tenant by {
        assert(s2[a].tenant == s1[a].tenant);
        assert(s2[b].tenant == s1[b].tenant);
    }
}

/// If some position holds the tenant, `find_tenant` succeeds at or
/// before it.
pub proof fn lemma_find_tenant_at_contains(s: Seq<EntryV>, t: Seq<char>, w: int)
    requires
        0 <= w < s.len(),
        s[w].tenant == t,
    ensures
        0 <= find_tenant(s, t) <= w,
    decreases s.len(),
{
    if s[0].tenant == t {
    } else {
        assert(s.drop_first()[w - 1] == s[w]);
        lemma_find_tenant_at_contains(s.drop_first(), t, w - 1);
    }
}

/// Law (eviction safety): an entry with a live borrower — or a restore
/// pin, or recent use — survives any sweep unchanged.
pub proof fn lemma_sweep_spares(s: Seq<EntryV>, now: u64, max_idle: u64, i: int)
    requires
        0 <= i < s.len(),
        !should_evict(s[i], now, max_idle),
    ensures
        spec_sweep(s, now, max_idle).contains(s[i]),
    decreases s.len(),
{
    if i == 0 {
        assert(spec_sweep(s, now, max_idle)[0] == s[0]);
    } else {
        assert(s.drop_first()[i - 1] == s[i]);
        lemma_sweep_spares(s.drop_first(), now, max_idle, i - 1);
        let rest = spec_sweep(s.drop_first(), now, max_idle);
        let w = choose|w: int| 0 <= w < rest.len() && rest[w] == s[i];
        if should_evict(s[0], now, max_idle) {
        } else {
            assert(spec_sweep(s, now, max_idle)[w + 1] == s[i]);
        }
    }
}

/// The registry.  The shell serializes calls on it; the contracts here
/// say what each transition does to the entry table.
pub struct PoolRegistry {
    entries: Vec<PoolEntry>,
}

impl View for PoolRegistry {
    type V = Seq<EntryV>;

    closed spec fn view(&self) -> Seq<EntryV> {
        Seq::new(self.entries@.len(), |i: int| entry_v(self.entries@[i]))
    }
}

impl PoolRegistry {
    pub open spec fn wf(&self) -> bool {
        wf_registry(self@)
    }

    pub fn new() -> (r: PoolRegistry)
        ensures
            r@ =~= Seq::<EntryV>::empty(),
            r.wf(),
    {
        PoolRegistry { entries: Vec::new() }
    }

    pub fn len(&self) -> (n: usize)
        ensures
            n == self@.len(),
    {
        self.entries.len()
    }

    /// The position of the tenant's entry.
    fn find(&self, tenant: &String) -> (r: Option<usize>)
        ensures
            match r {
                Some(i) => 0 <= i < self@.len() && find_tenant(self@, tenant@) == i as int,
                None => find_tenant(self@, tenant@) == -1,
            },
    {
        let n = self.entries.len();
        let mut i: usize = 0;
        while i < n
            invariant
                i <= n,
                n == self.entries.len(),
                self@.len() == n,
                forall|k: int| 0 <= k < i ==> (#[trigger] self@[k]).tenant != tenant@,
            decreases n - i,
        {
            if crate::strings::str_eq(self.entries[i].tenant.as_str(), tenant.as_str()) {
                proof {
                    assert(self@[i as int].tenant == tenant@);
                    lemma_find_tenant_at(self@, tenant@, i as int);
                }
                return Some(i);
            }
            i += 1;
        }
        proof {
            lemma_find_tenant_at(self@, tenant@, n as int);
        }
        None
    }

    /// The fast path of `acquire`: the handle of an existing entry, its
    /// last-access time refreshed; `None` when the tenant has no pool
    /// yet and the caller must construct one and `install_pool` it.
    pub fn acquire_hit(&mut self, tenant: &String, now: u64) -> (r: Option<u64>)
        requires
            old(self).wf(),
        ensures
            final(self).wf(),
            match r {
                Some(h) => {
                    let i = find_tenant(old(self)@, tenant@);
                    &&& i >= 0
                    &&& h == old(self)@[i].handle
                    &&& final(self)@ == old(self)@.update(i, touched(old(self)@[i], now))
                },
                None => find_tenant(old(self)@, tenant@) == -1 && final(self)@ == old(self)@,
            },
    {
        match self.find(tenant) {
            None => None,
            Some(i) => {
                let h = self.entries[i].handle;
                self.touch_at(i, now);
                Some(h)
            },
        }
    }

    /// Refreshes the entry at `i`.
    fn touch_at(&mut self, i: usize, now: u64)
        requires
            i < old(self)@.len(),
        ensures
            final(self)@ == old(self)@.update(i as int, touched(old(self)@[i as int], now)),
            final(self).wf() == old(self).wf(),
    {
        let ghost before = self@;
        let e = PoolEntry {
            tenant: self.entries[i].tenant.clone(),
            handle: self.entries[i].handle,
            last_access: now,
            borrowers: self.entries[i].borrowers,
            pinned: self.entries[i].pinned,
        };
        self.entries.set(i, e);
        proof {
            assert(self@ =~= before.update(i as int, touched(before[i as int], now)));
            assert forall|a: int, b: int|
                0 <= a < b < self@.len() && wf_registry(before) implies (#[trigger] self@[a]).tenant
                != (#[trigger] self@[b]).tenant by {
                assert(self@[a].tenant == before[a].tenant);
                assert(self@[b].tenant == before[b].tenant);
            }
            assert forall|a: int, b: int|
                0 <= a < b < before.len() && wf_registry(self@) implies (
            #[trigger] before[a]).tenant != (#[trigger] before[b]).tenant by {
                assert(self@[a].tenant == before[a].tenant);
                assert(self@[b].tenant == before[b].tenant);
            }
        }
    }

    /// The check-and-set that ends a first acquire: the caller has built
    /// a pool under `handle`; if the tenant raced ahead and already has
    /// an entry, the caller's pool loses and the existing handle is
    /// returned, else the entry is inserted and the caller's handle wins.
    pub fn install_pool(&mut self, tenant: String, handle: u64, now: u64) -> (winner: u64)
        requires
            old(self).wf(),
        ensures
            final(self).wf(),
            final(self)@ == spec_install(old(self)@, tenant@, handle, now).0,
            winner == spec_install(old(self)@, tenant@, handle, now).1,
            winner == handle || find_tenant(old(self)@, tenant@) >= 0,
    {
        match self.find(&tenant) {
            Some(i) => {
                let h = self.entries[i].handle;
                proof {
                    lemma_find_tenant_range(self@, tenant@);
                }
                self.touch_at(i, now);
                h
            },
            None => {
                let ghost before = self@;
                let ghost tv = tenant@;
                self.entries.push(
                    PoolEntry { tenant, handle, last_access: now, borrowers: 0, pinned: false },
                );
                proof {
                    assert(self@ =~= spec_install(before, tv, handle, now).0);
                    assert forall|a: int, b: int|
                        0 <= a < b < self@.len() implies (#[trigger] self@[a]).tenant != (
                    #[trigger] self@[b]).tenant by {
                        if b == before.len() as int {
                            assert(self@[a] == before[a]);
                            assert(self@[b].tenant == tv);
                            if before[a].tenant == tv {
                                lemma_find_tenant_at_contains(before, tv, a);
                            }
                        } else {
                            assert(self@[a] == before[a]);
                            assert(self@[b] == before[b]);
                        }
                    }
                }
                handle
            },
        }
    }

    /// Marks one more in-flight borrower of the tenant's pool.
    pub fn borrow_conn(&mut self, tenant: &String) -> (r: Result<(), Error>)
        requires
            old(self).wf(),
            forall|i: int| 0 <= i < old(self)@.len() ==> (#[trigger] old(self)@[i]).borrowers
                < u64::MAX,
        ensures
            final(self).wf(),
            match r {
                Ok(()) => {
                    let i = find_tenant(old(self)@, tenant@);
                    &&& i >= 0
                    &&& final(self)@ == old(self)@.update(
                        i,
                        EntryV { borrowers: (old(self)@[i].borrowers + 1) as u64, ..old(self)@[i] },
                    )
                },
                Err(Error::NotFound) => find_tenant(old(self)@, tenant@) == -1 && final(self)@
                    == old(self)@,
                Err(_) => false,
            },
    {
        match self.find(tenant) {
            None => Err(Error::NotFound),
            Some(i) => {
                let ghost before = self@;
                proof {
                    assert(old(self)@[i as int].borrowers < u64::MAX);
                }
                let e = PoolEntry {
                    tenant: self.entries[i].tenant.clone(),
                    handle: self.entries[i].handle,
                    last_access: self.entries[i].last_access,
                    borrowers: self.entries[i].borrowers + 1,
                    pinned: self.entries[i].pinned,
                };
                self.entries.set(i, e);
                proof {
                    assert(self@ =~= before.update(
                        i as int,
                        EntryV { borrowers: (before[i as int].borrowers + 1) as u64, ..before[
                            i as int] },
                    ));
                    lemma_same_tenants_wf(before, self@);
                }
                Ok(())
            },
        }
    }

    /// Releases one borrower; already-zero counts stay zero.
    pub fn release_conn(&mut self, tenant: &String) -> (r: Result<(), Error>)
        requires
            old(self).wf(),
        ensures
            final(self).wf(),
            match r {
                Ok(()) => {
                    let i = find_tenant(old(self)@, tenant@);
                    &&& i >= 0
                    &&& final(self)@ == old(self)@.update(
                        i,
                        EntryV {
                            borrowers: if old(self)@[i].borrowers > 0 {
                                (old(self)@[i].borrowers - 1) as u64
                            } else {
                                0
                            },
                            ..old(self)@[i]
                        },
                    )
                },
                Err(Error::NotFound) => find_tenant(old(self)@, tenant@) == -1 && final(self)@
                    == old(self)@,
                Err(_) => false,
            },
    {
        match self.find(tenant) {
            None => Err(Error::NotFound),
            Some(i) => {
                let ghost before = self@;
                let b = self.entries[i].borrowers;
                let e = PoolEntry {
                    tenant: self.entries[i].tenant.clone(),
                    handle: self.entries[i].handle,
                    last_access: self.entries[i].last_access,
                    borrowers: if b > 0 {
                        b - 1
                    } else {
                        0
                    },
                    pinned: self.entries[i].pinned,
                };
                self.entries.set(i, e);
                proof {
                    assert(self@ =~= before.update(
                        i as int,
                        EntryV {
                            borrowers: if before[i as int].borrowers > 0 {
                                (before[i as int].borrowers - 1) as u64
                            } else {
                                0
                            },
                            ..before[i as int]
                        },
                    ));
                    lemma_same_tenants_wf(before, self@);
                }
                Ok(())
            },
        }
    }

    /// Pins the tenant for a backup or restore: blocks eviction and makes
    /// restore single-flight.  A second pin attempt while one is in
    /// progress is a conflict.
    pub fn pin_restore(&mut self, tenant: &String) -> (r: Result<(), Error>)
        requires
            old(self).wf(),
        ensures
            final(self).wf(),
            match r {
                Ok(()) => {
                    let i = find_tenant(old(self)@, tenant@);
                    &&& i >= 0
                    &&& !old(self)@[i].pinned
                    &&& final(self)@ == old(self)@.update(
                        i,
                        EntryV { pinned: true, ..old(self)@[i] },
                    )
                },
                Err(Error::NotFound) => find_tenant(old(self)@, tenant@) == -1 && final(self)@
                    == old(self)@,
                Err(Error::Conflict) => {
                    let i = find_tenant(old(self)@, tenant@);
                    i >= 0 && old(self)@[i].pinned && final(self)@ == old(self)@
                },
                Err(_) => false,
            },
    {
        match self.find(tenant) {
            None => Err(Error::NotFound),
            Some(i) => {
                if self.entries[i].pinned {
                    return Err(Error::Conflict);
                }
                let ghost before = self@;
                let e = PoolEntry {
                    tenant: self.entries[i].tenant.clone(),
                    handle: self.entries[i].handle,
                    last_access: self.entries[i].last_access,
                    borrowers: self.entries[i].borrowers,
                    pinned: true,
                };
                self.entries.set(i, e);
                proof {
                    assert(self@ =~= before.update(
                        i as int,
                        EntryV { pinned: true, ..before[i as int] },
                    ));
                    lemma_same_tenants_wf(before, self@);
                }
                Ok(())
            },
        }
    }

    /// Releases the restore pin.
    pub fn unpin_restore(&mut self, tenant: &String) -> (r: Result<(), Error>)
        requires
            old(self).wf(),
        ensures
            final(self).wf(),
            match r {
                Ok(()) => {
                    let i = find_tenant(old(self)@, tenant@);
                    &&& i >= 0
                    &&& final(self)@ == old(self)@.update(
                        i,
                        EntryV { pinned: false, ..old(self)@[i] },
                    )
                },
                Err(Error::NotFound) => find_tenant(old(self)@, tenant@) == -1 && final(self)@
                    == old(self)@,
                Err(_) => false,
            },
    {
        match self.find(tenant) {
            None => Err(Error::NotFound),
            Some(i) => {
                let ghost before = self@;
                let e = PoolEntry {
                    tenant: self.entries[i].tenant.clone(),
                    handle: self.entries[i].handle,
                    last_access: self.entries[i].last_access,
                    borrowers: self.entries[i].borrowers,
                    pinned: false,
                };
                self.entries.set(i, e);
                proof {
                    assert(self@ =~= before.update(
                        i as int,
                        EntryV { pinned: false, ..before[i as int] },
                    ));
                    lemma_same_tenants_wf(before, self@);
                }
                Ok(())
            },
        }
    }

    /// The periodic idle sweep: evicts exactly the entries that are idle
    /// past `max_idle`, have zero in-flight borrowers, and are not
    /// pinned by a restore; returns the evicted handles so the shell can
    /// drop the pools.  Borrowed or pinned entries are never evicted.
    pub fn sweep(&mut self, now: u64, max_idle: u64) -> (evicted: Vec<u64>)
        requires
            old(self).wf(),
        ensures
            final(self).wf(),
            final(self)@ == spec_sweep(old(self)@, now, max_idle),
            evicted@ == spec_swept_handles(old(self)@, now, max_idle),
    {
        let ghost before = self@;
        let n = self.entries.len();
        let mut kept: Vec<PoolEntry> = Vec::new();
        let mut evicted: Vec<u64> = Vec::new();
        let mut i: usize = 0;
        proof {
            assert(before.skip(0) =~= before);
        }
        while i < n
            invariant
                i <= n,
                n == self.entries.len(),
                self@ == before,
                before.len() == n,
                spec_sweep(before, now, max_idle) == kept_view(kept@) + spec_sweep(
                    before.skip(i as int),
                    now,
                    max_idle,
                ),
                spec_swept_handles(before, now, max_idle) == evicted@ + spec_swept_handles(
                    before.skip(i as int),
                    now,
                    max_idle,
                ),
            decreases n - i,
        {
            proof {
                assert(before.skip(i as int).drop_first() =~= before.skip(i + 1));
                assert(before.skip(i as int)[0] == before[i as int]);
            }
            let e = &self.entries[i];
            let ghost keptv = kept_view(kept@);
            let evict = !e.pinned && e.borrowers == 0 && e.last_access <= now && now
                - e.last_access > max_idle;
            if evict {
                evicted.push(e.handle);
            } else {
                let copy = PoolEntry {
                    tenant: e.tenant.clone(),
                    handle: e.handle,
                    last_access: e.last_access,
                    borrowers: e.borrowers,
                    pinned: e.pinned,
                };
                kept.push(copy);
                proof {
                    assert(kept_view(kept@) =~= keptv + seq![before[i as int]]);
                }
            }
            i += 1;
        }
        proof {
            assert(before.skip(n as int) =~= Seq::<EntryV>::empty());
        }
        self.entries = kept;
        proof {
            assert(self@ =~= spec_sweep(before, now, max_idle));
            lemma_sweep_wf(before, now, max_idle);
        }
        evicted
    }
}

pub open spec fn kept_view(es: Seq<PoolEntry>) -> Seq<EntryV> {
    Seq::new(es.len(), |i: int| entry_v(es[i]))
}

/// Two tables with pairwise equal tenants are equally well-formed.
proof fn lemma_same_tenants_wf(a: Seq<EntryV>, b: Seq<EntryV>)
    requires
        a.len() == b.len(),
        forall|i: int| 0 <= i < a.len() ==> (#[trigger] a[i]).tenant == (#[trigger] b[i]).tenant,
        wf_registry(a),
    ensures
        wf_registry(b),
{
    assert forall|i: int, j: int| 0 <= i < j < b.len() implies (#[trigger] b[i]).tenant != (
    #[trigger] b[j]).tenant by {
        assert(a[i].tenant == b[i].tenant);
        assert(a[j].tenant == b[j].tenant);
    }
}

/// A sweep keeps a subsequence: well-formedness survives.
proof fn lemma_sweep_wf(s: Seq<EntryV>, now: u64, max_idle: u64)
    requires
        wf_registry(s),
    ensures
        wf_registry(spec_sweep(s, now, max_idle)),
        forall|i: int|
            0 <= i < spec_sweep(s, now, max_idle).len() ==> s.contains(
                #[trigger] spec_sweep(s, now, max_idle)[i],
            ),
    decreases s.len(),
{
    if s.len() == 0 {
    } else {
        let rest = s.drop_first();
        assert forall|a: int, b: int| 0 <= a < b < rest.len() implies (
        #[trigger] rest[a]).tenant != (#[trigger] rest[b]).tenant by {
            assert(rest[a] == s[a + 1]);
            assert(rest[b] == s[b + 1]);
        }
        lemma_sweep_wf(rest, now, max_idle);
        let sw = spec_sweep(s, now, max_idle);
        let swr = spec_sweep(rest, now, max_idle);
        assert forall|i: int| 0 <= i < swr.len() implies s.contains(#[trigger] swr[i]) by {
            let w = choose|w: int| 0 <= w < rest.len() && rest[w] == swr[i];
            assert(s[w + 1] == swr[i]);
        }
        if should_evict(s[0], now, max_idle) {
        } else {
            assert(sw == seq![s[0]] + swr);
            assert(s.contains(s[0])) by {
                assert(s[0] == s[0]);
            }
            assert forall|a: int, b: int| 0 <= a < b < sw.len() implies (#[trigger] sw[a]).tenant
                != (#[trigger] sw[b]).tenant by {
                if a == 0 {
                    let w = choose|w: int| 0 <= w < rest.len() && rest[w] == swr[b - 1];
                    assert(sw[b] == swr[b - 1]);
                    assert(s[w + 1] == swr[b - 1]);
                    assert(s[0].tenant != s[w + 1].tenant);
                } else {
                    assert(sw[a] == swr[a - 1]);
                    assert(sw[b] == swr[b - 1]);
                }
            }
        }
    }
}

} // verus!
