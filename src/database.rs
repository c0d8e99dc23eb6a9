use vstd::prelude::*;

verus! {

/// `std::time::Instant`, held opaque: the origin of the store's clock.
#[verifier::external_type_specification]
#[verifier::external_body]
pub struct ExInstant(std::time::Instant);

/// Relies on `std::time::Instant::now`: the current instant of the monotonic clock.
/// Nothing is promised of the value.
#[verifier::external_body]
fn clock_origin() -> std::time::Instant {
    std::time::Instant::now()
}

/// Relies on `std::time::Instant::elapsed` and `Duration::as_millis`: whole milliseconds
/// since `origin`. Nothing is promised of the value.
#[verifier::external_body]
fn millis_since(origin: &std::time::Instant) -> u64 {
    origin.elapsed().as_millis() as u64
}

/// What the store keeps for a key: its value and the instant, in milliseconds of the
/// store's clock, after which it no longer counts.
pub type EntryView = (Seq<char>, Option<u128>);

/// The expiry instant of an entry written at `now` with time to live `ttl`.
pub open spec fn expire_from(ttl: Option<u64>, now: u64) -> Option<u128> {
    match ttl {
        Some(t) => Some((now + t) as u128),
        None => None,
    }
}

/// An entry whose expiry instant lies strictly before `now`.
pub open spec fn is_expired(e: EntryView, now: u64) -> bool {
    match e.1 {
        Some(at) => at < now,
        None => false,
    }
}

/// What a read of `key` at `now` sees.
pub open spec fn lookup(m: Map<Seq<char>, EntryView>, key: Seq<char>, now: u64) -> Option<Seq<char>> {
    if m.contains_key(key) && !is_expired(m[key], now) {
        Some(m[key].0)
    } else {
        None
    }
}

/// The store after writing `value` under `key` at `now`.
pub open spec fn insert_spec(
    m: Map<Seq<char>, EntryView>,
    key: Seq<char>,
    value: Seq<char>,
    ttl: Option<u64>,
    now: u64,
) -> Map<Seq<char>, EntryView> {
    m.insert(key, (value, expire_from(ttl, now)))
}

#[derive(Debug)]
struct RedisDatabaseEntry {
    key: String,
    value: String,
    expire: Option<u128>,
}

/// A key-value store whose entries may carry an expiry instant. Expired entries stay
/// in place; reads just do not see them.
#[derive(Debug)]
pub struct RedisDatabase {
    content: Vec<RedisDatabaseEntry>,
    origin: std::time::Instant,
}

spec fn entry_view(e: RedisDatabaseEntry) -> EntryView {
    (e.value@, e.expire)
}

spec fn has_key(s: Seq<RedisDatabaseEntry>, k: Seq<char>) -> bool {
    exists|i: int| 0 <= i < s.len() && (#[trigger] s[i]).key@ == k
}

spec fn map_of(s: Seq<RedisDatabaseEntry>) -> Map<Seq<char>, EntryView> {
    Map::new(
        |k: Seq<char>| has_key(s, k),
        |k: Seq<char>| entry_view(s[choose|i: int| 0 <= i < s.len() && (#[trigger] s[i]).key@ == k]),
    )
}

spec fn keys_unique(s: Seq<RedisDatabaseEntry>) -> bool {
    forall|i: int, j: int|
        0 <= i < s.len() && 0 <= j < s.len() && i != j ==> (#[trigger] s[i]).key@ != (#[trigger] s[j]).key@
}

proof fn lemma_map_of_at(s: Seq<RedisDatabaseEntry>, i: int)
    requires
        keys_unique(s),
        0 <= i < s.len(),
    ensures
        map_of(s).contains_key(s[i].key@),
        map_of(s)[s[i].key@] == entry_view(s[i]),
{
    let k = s[i].key@;
    assert(has_key(s, k));
    let c = choose|j: int| 0 <= j < s.len() && (#[trigger] s[j]).key@ == k;
    assert(c == i);
}

impl RedisDatabase {
    /// The entries, by key.
    pub closed spec fn view(&self) -> Map<Seq<char>, EntryView> {
        map_of(self.content@)
    }

    /// No key is stored twice.
    pub closed spec fn wf(&self) -> bool {
        keys_unique(self.content@)
    }

    /// The position of `key`, if it is stored.
    fn position(&self, key: &String) -> (r: Option<usize>)
        requires
            self.wf(),
        ensures
            match r {
                Some(i) => i < self.content@.len() && self.content@[i as int].key@ == key@,
                None => !self@.contains_key(key@),
            },
    {
        let mut i: usize = 0;
        while i < self.content.len()
            invariant
                i <= self.content@.len(),
                forall|j: int| 0 <= j < i ==> (#[trigger] self.content@[j]).key@ != key@,
            decreases self.content@.len() - i,
        {
            if self.content[i].key == *key {
                return Some(i);
            }
            i = i + 1;
        }
        None
    }

    /// An empty store.
    pub fn new() -> (r: Self)
        ensures
            r.wf(),
            r@ == Map::<Seq<char>, EntryView>::empty(),
    {
        let r = RedisDatabase { content: Vec::new(), origin: clock_origin() };
        assert(r@ =~= Map::<Seq<char>, EntryView>::empty());
        r
    }

    /// Writes `value` under `key` as at instant `now` of the store's clock, replacing any
    /// entry there; with a time to live the entry expires `ttl` milliseconds after `now`.
    /// Returns the value replaced, expired or not.
    pub fn insert_at(&mut self, key: &str, value: &str, expiration: Option<u64>, now: u64) -> (r:
        Option<String>)
        requires
            old(self).wf(),
        ensures
            final(self).wf(),
            final(self)@ == insert_spec(old(self)@, key@, value@, expiration, now),
            match r {
                Some(v) => old(self)@.contains_key(key@) && v@ == old(self)@[key@].0,
                None => !old(self)@.contains_key(key@),
            },
    {
        let expire: Option<u128> = match expiration {
            Some(t) => Some(now as u128 + t as u128),
            None => None,
        };
        let k = key.to_owned();
        let entry = RedisDatabaseEntry { key: key.to_owned(), value: value.to_owned(), expire };
        let ghost s = self.content@;
        let ghost target = insert_spec(old(self)@, key@, value@, expiration, now);
        match self.position(&k) {
            Some(i) => {
                proof {
                    lemma_map_of_at(s, i as int);
                }
                self.content.push(entry);
                let old_entry = self.content.swap_remove(i);
                proof {
                    let t = self.content@;
                    assert(t =~= s.update(i as int, entry));
                    assert forall|a: int, b: int|
                        0 <= a < t.len() && 0 <= b < t.len() && a != b implies (#[trigger] t[a]).key@
                        != (#[trigger] t[b]).key@ by {
                        if a != i && b != i {
                            assert(s[a].key@ != s[b].key@);
                        } else if a == i {
                            assert(s[b].key@ != s[a].key@);
                        } else {
                            assert(s[a].key@ != s[b].key@);
                        }
                    }
                    assert forall|kk: Seq<char>| #[trigger] map_of(t).contains_key(kk)
                        == target.contains_key(kk) by {
                        if has_key(s, kk) {
                            let j = choose|j: int| 0 <= j < s.len() && (#[trigger] s[j]).key@ == kk;
                            if j != i {
                                assert(t[j].key@ == kk);
                            }
                        }
                        if has_key(t, kk) {
                            let j = choose|j: int| 0 <= j < t.len() && (#[trigger] t[j]).key@ == kk;
                            if j != i {
                                assert(s[j].key@ == kk);
                            }
                        }
                    }
                    assert forall|kk: Seq<char>| #[trigger] map_of(t).contains_key(kk) implies
                        map_of(t)[kk] == target[kk] by {
                        let j = choose|j: int| 0 <= j < t.len() && (#[trigger] t[j]).key@ == kk;
                        lemma_map_of_at(t, j);
                        if j != i {
                            lemma_map_of_at(s, j);
                        }
                    }
                    assert(map_of(t) =~= target);
                }
                Some(old_entry.value)
            },
            None => {
                self.content.push(entry);
                proof {
                    let t = self.content@;
                    assert(t == s.push(entry));
                    assert forall|a: int, b: int|
                        0 <= a < t.len() && 0 <= b < t.len() && a != b implies (#[trigger] t[a]).key@
                        != (#[trigger] t[b]).key@ by {
                        if a < s.len() && b < s.len() {
                            assert(s[a].key@ != s[b].key@);
                        } else if a < s.len() {
                            assert(has_key(s, s[a].key@));
                        } else {
                            assert(has_key(s, s[b].key@));
                        }
                    }
                    assert forall|kk: Seq<char>| #[trigger] map_of(t).contains_key(kk)
                        == target.contains_key(kk) by {
                        if has_key(s, kk) {
                            let j = choose|j: int| 0 <= j < s.len() && (#[trigger] s[j]).key@ == kk;
                            assert(t[j].key@ == kk);
                        }
                        if kk == key@ {
                            assert(t[s.len() as int].key@ == kk);
                        }
                        if has_key(t, kk) {
                            let j = choose|j: int| 0 <= j < t.len() && (#[trigger] t[j]).key@ == kk;
                            if j < s.len() {
                                assert(s[j].key@ == kk);
                            }
                        }
                    }
                    assert forall|kk: Seq<char>| #[trigger] map_of(t).contains_key(kk) implies
                        map_of(t)[kk] == target[kk] by {
                        let j = choose|j: int| 0 <= j < t.len() && (#[trigger] t[j]).key@ == kk;
                        lemma_map_of_at(t, j);
                        if j < s.len() {
                            assert(s[j] == t[j]);
                            lemma_map_of_at(s, j);
                        }
                    }
                    assert(map_of(t) =~= target);
                }
                None
            },
        }
    }

    /// Reads `key` as at instant `now` of the store's clock: its value, unless it is
    /// absent or expired before `now`.
    pub fn get_at(&self, key: &str, now: u64) -> (r: Option<&String>)
        requires
            self.wf(),
        ensures
            match r {
                Some(v) => lookup(self@, key@, now) == Some(v@),
                None => lookup(self@, key@, now) is None,
            },
    {
        let k = key.to_owned();
        match self.position(&k) {
            Some(i) => {
                proof {
                    lemma_map_of_at(self.content@, i as int);
                }
                let entry = &self.content[i];
                let expired = match entry.expire {
                    Some(at) => at < now as u128,
                    None => false,
                };
                if expired {
                    None
                } else {
                    Some(&entry.value)
                }
            },
            None => None,
        }
    }

    /// Writes `value` under `key` now; see `insert_at`.
    pub fn insert(&mut self, key: &str, value: &str, expiration: Option<u64>) -> (r: Option<String>)
        requires
            old(self).wf(),
        ensures
            final(self).wf(),
            exists|now: u64| final(self)@ == insert_spec(old(self)@, key@, value@, expiration, now),
            match r {
                Some(v) => old(self)@.contains_key(key@) && v@ == old(self)@[key@].0,
                None => !old(self)@.contains_key(key@),
            },
    {
        let now = millis_since(&self.origin);
        self.insert_at(key, value, expiration, now)
    }

    /// Reads `key` now; see `get_at`.
    pub fn get(&self, key: &str) -> (r: Option<&String>)
        requires
            self.wf(),
        ensures
            exists|now: u64| match r {
                Some(v) => lookup(self@, key@, now) == Some(v@),
                None => lookup(self@, key@, now) is None,
            },
    {
        let now = millis_since(&self.origin);
        self.get_at(key, now)
    }
}

} // verus!
