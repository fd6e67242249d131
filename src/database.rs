use vstd::prelude::*;
use vstd::string::StringExecFns;
use crate::strings_view;

verus! {

/// Nanoseconds in one second.
pub const NANOS_PER_SEC: u64 = 1_000_000_000;

/// Lifetime of an entry stored without an explicit expiration: seven days, in seconds.
pub const DEFAULT_TTL_SECS: u64 = 604_800;

/// What the store holds for a key: the value and the instant (in nanoseconds on the
/// store's clock) after which it is no longer returned.
pub type Stored = (Seq<char>, u64);

/// The absolute expiration of an entry written at `now` with the given lifetime in
/// seconds (seven days when none is given), capped at the largest instant.
pub open spec fn deadline(now: u64, ttl_secs: Option<u64>) -> u64 {
    let secs: u64 = match ttl_secs {
        Some(s) => s,
        None => DEFAULT_TTL_SECS,
    };
    let d = now + secs * NANOS_PER_SEC;
    if d > u64::MAX {
        u64::MAX
    } else {
        d as u64
    }
}

/// An entry is live at `now` while `now` has not passed its expiration.
pub open spec fn is_live(s: Stored, now: u64) -> bool {
    now <= s.1
}

/// What a read of `k` at `now` returns.
pub open spec fn lookup(m: Map<Seq<char>, Stored>, k: Seq<char>, now: u64) -> Option<Seq<char>> {
    if m.contains_key(k) && is_live(m[k], now) {
        Some(m[k].0)
    } else {
        None
    }
}

/// The store after a read of `k` at `now`: an expired entry for `k` is dropped.
pub open spec fn evict(m: Map<Seq<char>, Stored>, k: Seq<char>, now: u64) -> Map<
    Seq<char>,
    Stored,
> {
    if m.contains_key(k) && !is_live(m[k], now) {
        m.remove(k)
    } else {
        m
    }
}

/// The entries of `m` whose keys are not among `keys`.
pub open spec fn without_keys(m: Map<Seq<char>, Stored>, keys: Seq<Seq<char>>) -> Map<
    Seq<char>,
    Stored,
> {
    Map::new(|k: Seq<char>| m.contains_key(k) && !keys.contains(k), |k: Seq<char>| m[k])
}

/// The entries of `m` that are live at `now`.
pub open spec fn live_entries(m: Map<Seq<char>, Stored>, now: u64) -> Map<Seq<char>, Stored> {
    Map::new(|k: Seq<char>| m.contains_key(k) && is_live(m[k], now), |k: Seq<char>| m[k])
}

pub open spec fn opt_view(o: Option<String>) -> Option<Seq<char>> {
    match o {
        Some(v) => Some(v@),
        None => None,
    }
}

#[verifier::external_type_specification]
#[verifier::external_body]
pub struct ExInstant(std::time::Instant);

/// Relies on std::time::Instant::now: the current instant of the monotonic clock.
#[verifier::external_body]
fn instant_now() -> std::time::Instant {
    std::time::Instant::now()
}

/// Relies on std::time::Instant::elapsed: the time passed since `origin`.
#[verifier::external_body]
fn elapsed_since(origin: &std::time::Instant) -> std::time::Duration {
    origin.elapsed()
}

/// Relies on std::time::Duration::as_nanos: the whole nanoseconds in `d`.
#[verifier::external_body]
fn whole_nanos(d: &std::time::Duration) -> u128 {
    d.as_nanos()
}

/// The nanoseconds passed since `origin`, capped at the largest `u64`.
fn nanos_since(origin: &std::time::Instant) -> u64 {
    let n = whole_nanos(&elapsed_since(origin));
    if n > u64::MAX as u128 {
        u64::MAX
    } else {
        n as u64
    }
}

struct Entry {
    key: String,
    value: String,
    expires_at: u64,
}

impl Entry {
    /// What the entry holds for its key.
    spec fn stored(&self) -> Stored {
        (self.value@, self.expires_at)
    }
}

/// A key-value store whose entries expire. Instants are nanoseconds since the store
/// was created.
pub struct Database {
    entries: Vec<Entry>,
    contents: Ghost<Map<Seq<char>, Stored>>,
    origin: std::time::Instant,
    /// The latest instant that `now` has returned.
    last_reading: u64,
}

impl View for Database {
    type V = Map<Seq<char>, Stored>;

    closed spec fn view(&self) -> Map<Seq<char>, Stored> {
        self.contents@
    }
}

impl Database {
    /// The store is well formed: its entries have distinct keys and are exactly
    /// what its view maps.
    pub closed spec fn wf(&self) -> bool {
        &&& self.contents@.dom().finite()
        &&& self.contents@.dom().len() == self.entries@.len()
        &&& forall|i: int, j: int|
            0 <= i < j < self.entries@.len() ==> #[trigger] self.entries@[i].key@
                != #[trigger] self.entries@[j].key@
        &&& forall|i: int|
            0 <= i < self.entries@.len() ==> #[trigger] self.contents@.contains_key(
                self.entries@[i].key@,
            ) && self.contents@[self.entries@[i].key@] == (
                self.entries@[i].value@,
                self.entries@[i].expires_at,
            )
        &&& forall|k: Seq<char>| #[trigger]
            self.contents@.contains_key(k) ==> exists|i: int|
                0 <= i < self.entries@.len() && #[trigger] self.entries@[i].key@ == k
    }

    /// The latest instant read from the store's clock; readings never go back.
    pub closed spec fn clock(&self) -> u64 {
        self.last_reading
    }

    /// An empty store whose clock starts now.
    pub fn new() -> (r: Database)
        ensures
            r.wf(),
            r@ == Map::<Seq<char>, Stored>::empty(),
            r.clock() == 0,
    {
        Database {
            entries: Vec::new(),
            contents: Ghost(Map::empty()),
            origin: instant_now(),
            last_reading: 0,
        }
    }

    /// The current instant on the store's clock: never earlier than any reading
    /// before it.
    pub fn now(&mut self) -> (r: u64)
        requires
            old(self).wf(),
        ensures
            final(self).wf(),
            final(self)@ == old(self)@,
            r >= old(self).clock(),
            final(self).clock() == r,
    {
        let t = nanos_since(&self.origin);
        if t > self.last_reading {
            self.last_reading = t;
        }
        self.last_reading
    }

    /// The number of entries held, expired ones included.
    pub fn len(&self) -> (r: usize)
        requires
            self.wf(),
        ensures
            r == self@.dom().len(),
    {
        self.entries.len()
    }

    /// Whether the store holds no entry at all.
    pub fn is_empty(&self) -> (r: bool)
        requires
            self.wf(),
        ensures
            r == (self@.dom().len() == 0),
    {
        self.entries.len() == 0
    }

    /// The position of the entry for `key`, if there is one.
    fn find(&self, key: &String) -> (r: Option<usize>)
        requires
            self.wf(),
        ensures
            match r {
                Some(i) => i < self.entries@.len() && self.entries@[i as int].key@ == key@,
                None => !self@.contains_key(key@),
            },
    {
        let mut i: usize = 0;
        while i < self.entries.len()
            invariant
                i <= self.entries@.len(),
                forall|j: int| 0 <= j < i ==> self.entries@[j].key@ != key@,
            decreases self.entries@.len() - i,
        {
            if self.entries[i].key == *key {
                return Some(i);
            }
            i = i + 1;
        }
        None
    }

    /// Removes the entry at position `i`.
    fn remove_at(&mut self, i: usize)
        requires
            old(self).wf(),
            i < old(self).entries@.len(),
        ensures
            final(self).wf(),
            final(self)@ == old(self)@.remove(old(self).entries@[i as int].key@),
            final(self).entries@ == old(self).entries@.remove(i as int),
            final(self).origin == old(self).origin,
            final(self).last_reading == old(self).last_reading,
    {
        let ghost k = self.entries@[i as int].key@;
        let ghost old_entries = self.entries@;
        let ghost old_map = self.contents@;
        self.entries.remove(i);
        self.contents = Ghost(self.contents@.remove(k));
        proof {
            assert(old_map.contains_key(k));
            assert forall|k2: Seq<char>| #[trigger] self.contents@.contains_key(k2) implies exists|
                j: int,
            | 0 <= j < self.entries@.len() && #[trigger] self.entries@[j].key@ == k2 by {
                assert(old_map.contains_key(k2));
                let j = choose|j: int| 0 <= j < old_entries.len() && old_entries[j].key@ == k2;
                assert(j != i);
                if j < i {
                    assert(self.entries@[j].key@ == k2);
                } else {
                    assert(self.entries@[j - 1].key@ == k2);
                }
            }
            assert forall|a: int|
                0 <= a < self.entries@.len() implies #[trigger] self.contents@.contains_key(
                self.entries@[a].key@,
            ) && self.contents@[self.entries@[a].key@] == (
                self.entries@[a].value@,
                self.entries@[a].expires_at,
            ) by {
                if a < i {
                    assert(old_entries[a].key@ != old_entries[i as int].key@);
                } else {
                    assert(self.entries@[a] == old_entries[a + 1]);
                    assert(old_entries[a + 1].key@ != old_entries[i as int].key@);
                }
            }
            assert forall|a: int, b: int|
                0 <= a < b < self.entries@.len() implies #[trigger] self.entries@[a].key@
                != #[trigger] self.entries@[b].key@ by {
                let a0 = if a < i {
                    a
                } else {
                    a + 1
                };
                let b0 = if b < i {
                    b
                } else {
                    b + 1
                };
                assert(self.entries@[a] == old_entries[a0]);
                assert(self.entries@[b] == old_entries[b0]);
            }
        }
    }

    /// Stores `value` under `key` at instant `now`, replacing any entry for `key`.
    /// The entry expires `ttl_secs` seconds after `now`, or seven days after when
    /// no lifetime is given.
    pub fn set_at(&mut self, key: String, value: String, ttl_secs: Option<u64>, now: u64)
        requires
            old(self).wf(),
        ensures
            final(self).wf(),
            final(self)@ == old(self)@.insert(key@, (value@, deadline(now, ttl_secs))),
            final(self).clock() == old(self).clock(),
    {
        let secs: u64 = match ttl_secs {
            Some(s) => s,
            None => DEFAULT_TTL_SECS,
        };
        let span: u64 = if secs <= u64::MAX / NANOS_PER_SEC {
            secs * NANOS_PER_SEC
        } else {
            u64::MAX
        };
        let expires_at = now.saturating_add(span);
        proof {
            if secs > u64::MAX / NANOS_PER_SEC {
                assert(secs * NANOS_PER_SEC > u64::MAX) by (nonlinear_arith)
                    requires
                        secs > u64::MAX / NANOS_PER_SEC,
                        NANOS_PER_SEC == 1_000_000_000,
                ;
            }
            assert(expires_at == deadline(now, ttl_secs));
        }
        let ghost k = key@;
        let ghost old_map = self.contents@;
        let ghost old_entries = self.entries@;
        let ghost stored = (value@, expires_at);
        match self.find(&key) {
            Some(i) => {
                self.entries.set(i, Entry { key, value, expires_at });
                self.contents = Ghost(self.contents@.insert(k, stored));
                proof {
                    assert(self.contents@.dom() =~= old_map.dom());
                    assert forall|k2: Seq<char>| #[trigger]
                        self.contents@.contains_key(k2) implies exists|j: int|
                        0 <= j < self.entries@.len() && #[trigger] self.entries@[j].key@
                            == k2 by {
                        let j = choose|j: int|
                            0 <= j < old_entries.len() && old_entries[j].key@ == k2;
                        assert(self.entries@[j].key@ == k2);
                    }
                    assert forall|a: int, b: int|
                        0 <= a < b < self.entries@.len() implies #[trigger] self.entries@[a].key@
                        != #[trigger] self.entries@[b].key@ by {
                        assert(old_entries[a].key@ != old_entries[b].key@);
                    }
                    assert forall|a: int|
                        0 <= a < self.entries@.len() implies #[trigger] self.contents@.contains_key(
                        self.entries@[a].key@,
                    ) && self.contents@[self.entries@[a].key@] == (
                        self.entries@[a].value@,
                        self.entries@[a].expires_at,
                    ) by {
                        if a != i {
                            assert(old_entries[a].key@ != old_entries[i as int].key@);
                        }
                    }
                }
            },
            None => {
                self.entries.push(Entry { key, value, expires_at });
                self.contents = Ghost(self.contents@.insert(k, stored));
                proof {
                    assert(self.contents@.dom() =~= old_map.dom().insert(k));
                    assert forall|k2: Seq<char>| #[trigger]
                        self.contents@.contains_key(k2) implies exists|j: int|
                        0 <= j < self.entries@.len() && #[trigger] self.entries@[j].key@
                            == k2 by {
                        if k2 == k {
                            assert(self.entries@[old_entries.len() as int].key@ == k2);
                        } else {
                            let j = choose|j: int|
                                0 <= j < old_entries.len() && old_entries[j].key@ == k2;
                            assert(self.entries@[j].key@ == k2);
                        }
                    }
                    assert forall|a: int|
                        0 <= a < old_entries.len() implies old_entries[a].key@ != k by {
                        assert(old_map.contains_key(old_entries[a].key@));
                    }
                    assert forall|a: int, b: int|
                        0 <= a < b < self.entries@.len() implies #[trigger] self.entries@[a].key@
                        != #[trigger] self.entries@[b].key@ by {
                        if b < old_entries.len() {
                            assert(old_entries[a].key@ != old_entries[b].key@);
                        }
                    }
                    assert forall|a: int|
                        0 <= a < self.entries@.len() implies #[trigger] self.contents@.contains_key(
                        self.entries@[a].key@,
                    ) && self.contents@[self.entries@[a].key@] == (
                        self.entries@[a].value@,
                        self.entries@[a].expires_at,
                    ) by {
                        if a < old_entries.len() {
                            assert(self.entries@[a] == old_entries[a]);
                        }
                    }
                }
            },
        }
    }

    /// Stores `value` under `key` at the clock's current instant, as `set_at` does.
    pub fn set(&mut self, key: String, value: String, ttl_secs: Option<u64>)
        requires
            old(self).wf(),
        ensures
            final(self).wf(),
            exists|t: u64|
                t >= old(self).clock() && final(self).clock() == t && final(self)@ == old(
                    self,
                )@.insert(key@, (value@, #[trigger] deadline(t, ttl_secs))),
    {
        let now = self.now();
        self.set_at(key, value, ttl_secs, now);
    }
    /// Reads `key` at instant `now`. A live entry gives its value; an expired one is
    /// removed and reads as absent.
    pub fn get_at(&mut self, key: &str, now: u64) -> (r: Option<String>)
        requires
            old(self).wf(),
        ensures
            final(self).wf(),
            opt_view(r) == lookup(old(self)@, key@, now),
            final(self)@ == evict(old(self)@, key@, now),
            final(self).clock() == old(self).clock(),
    {
        let k = String::from_str(key);
        match self.find(&k) {
            None => None,
            Some(i) => {
                proof {
                    assert(self@.contains_key(self.entries@[i as int].key@));
                }
                if now <= self.entries[i].expires_at {
                    Some(self.entries[i].value.clone())
                } else {
                    self.remove_at(i);
                    None
                }
            },
        }
    }

    /// Reads `key` at the clock's current instant, as `get_at` does.
    pub fn get(&mut self, key: &str) -> (r: Option<String>)
        requires
            old(self).wf(),
        ensures
            final(self).wf(),
            exists|t: u64|
                t >= old(self).clock() && final(self).clock() == t && opt_view(r) == lookup(
                    old(self)@,
                    key@,
                    t,
                ) && final(self)@ == #[trigger] evict(
                    old(self)@,
                    key@,
                    t,
                ),
    {
        let now = self.now();
        self.get_at(key, now)
    }

    /// Removes the entry of each key in `keys`; keys that are absent are ignored.
    pub fn del(&mut self, keys: &[String])
        requires
            old(self).wf(),
        ensures
            final(self).wf(),
            final(self)@ == without_keys(old(self)@, strings_view(keys@)),
            final(self).clock() == old(self).clock(),
    {
        let ghost m = self@;
        let ghost c = self.last_reading;
        let mut j: usize = 0;
        proof {
            assert(self@ =~= without_keys(m, strings_view(keys@).take(0)));
        }
        while j < keys.len()
            invariant
                self.wf(),
                self.last_reading == c,
                j <= keys@.len(),
                self@ == without_keys(m, strings_view(keys@).take(j as int)),
            decreases keys@.len() - j,
        {
            let ghost before = self@;
            match self.find(&keys[j]) {
                Some(i) => {
                    self.remove_at(i);
                },
                None => {},
            }
            proof {
                let ks = strings_view(keys@);
                let prev = ks.take(j as int);
                let next = ks.take(j + 1);
                let kj = keys@[j as int]@;
                assert(next =~= prev.push(kj));
                assert forall|k: Seq<char>| #[trigger] next.contains(k) <==> prev.contains(k) || k == kj by {
                    if next.contains(k) {
                        let a = choose|a: int| 0 <= a < next.len() && next[a] == k;
                        if a < j {
                            assert(prev[a] == k);
                        }
                    }
                    if prev.contains(k) {
                        let a = choose|a: int| 0 <= a < prev.len() && prev[a] == k;
                        assert(next[a] == k);
                    }
                    if k == kj {
                        assert(next[j as int] == k);
                    }
                }
                assert(self@ =~= without_keys(m, next));
            }
            j = j + 1;
        }
        proof {
            assert(strings_view(keys@).take(keys@.len() as int) =~= strings_view(keys@));
        }
    }

    /// Removes every entry that has expired at instant `now`, and returns how many
    /// were removed.
    pub fn garbage_collect_at(&mut self, now: u64) -> (r: usize)
        requires
            old(self).wf(),
        ensures
            final(self).wf(),
            final(self)@ == live_entries(old(self)@, now),
            r == old(self)@.dom().len() - final(self)@.dom().len(),
            final(self).clock() == old(self).clock(),
    {
        let ghost m = self@;
        let ghost c = self.last_reading;
        let n0: usize = self.entries.len();
        let mut removed: usize = 0;
        let mut i: usize = 0;
        while i < self.entries.len()
            invariant
                self.wf(),
                self.last_reading == c,
                i <= self.entries@.len(),
                removed + self.entries@.len() == n0,
                n0 == m.dom().len(),
                forall|j: int| 0 <= j < i ==> is_live(#[trigger] self.entries@[j].stored(), now),
                forall|k: Seq<char>| #[trigger]
                    self@.contains_key(k) ==> m.contains_key(k) && self@[k] == m[k],
                forall|k: Seq<char>|
                    #[trigger] m.contains_key(k) && !self@.contains_key(k) ==> !is_live(m[k], now),
            decreases self.entries@.len() - i,
        {
            if now <= self.entries[i].expires_at {
                i = i + 1;
            } else {
                let ghost k = self.entries@[i as int].key@;
                let ghost before = self.entries@;
                proof {
                    assert(self@.contains_key(k));
                }
                self.remove_at(i);
                removed = removed + 1;
                proof {
                    assert forall|j: int| 0 <= j < i implies is_live(
                        #[trigger] self.entries@[j].stored(),
                        now,
                    ) by {
                        assert(self.entries@[j] == before[j]);
                    }
                }
            }
        }
        proof {
            assert forall|k: Seq<char>| #[trigger] self@.contains_key(k) implies is_live(m[k], now) by {
                let j = choose|j: int| 0 <= j < self.entries@.len() && self.entries@[j].key@ == k;
                assert(is_live(self.entries@[j].stored(), now));
            }
            assert(self@ =~= live_entries(m, now));
        }
        removed
    }

    /// Removes every entry that has expired at the clock's current instant, as
    /// `garbage_collect_at` does.
    pub fn garbage_collect(&mut self) -> (r: usize)
        requires
            old(self).wf(),
        ensures
            final(self).wf(),
            exists|t: u64|
                t >= old(self).clock() && final(self).clock() == t && final(self)@
                    == #[trigger] live_entries(old(self)@, t),
            r == old(self)@.dom().len() - final(self)@.dom().len(),
    {
        let now = self.now();
        self.garbage_collect_at(now)
    }
}

} // verus!
