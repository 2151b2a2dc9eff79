//! The shared state of the cache: entries, the expiration index, and the
//! shutdown flag. Times are milliseconds on the server's monotonic clock.
use vstd::prelude::*;
use crate::entity::Entity;
use crate::frame::Frame;

verus! {

/// The buffer size of each pub/sub channel.
pub const CHANNEL_CAPACITY: usize = 1024;

/// One stored key.
pub struct Entry {
    pub key: Entity,
    pub data: Entity,
    pub expires_at: Option<u64>,
}

/// What a key maps to, as a mathematical value.
pub struct Stored {
    pub data: Frame,
    pub expires_at: Option<int>,
}

/// The state as a mathematical value.
pub struct StateModel {
    pub entries: Map<Frame, Stored>,
    pub expirations: Set<(int, Frame)>,
    pub shutdown: bool,
}

pub open spec fn opt_time(o: Option<u64>) -> Option<int> {
    match o {
        Some(t) => Some(t as int),
        None => None,
    }
}

/// Whether a value with this expiry is still readable at `now`.
pub open spec fn live(expires_at: Option<int>, now: int) -> bool {
    match expires_at {
        Some(t) => now < t,
        None => true,
    }
}

/// The expiration index names exactly the entries that expire, each with
/// its own deadline.
pub open spec fn index_consistent(m: StateModel) -> bool {
    forall|t: int, k: Frame|
        #![trigger m.expirations.contains((t, k))]
        m.expirations.contains((t, k)) <==> (m.entries.contains_key(k)
            && m.entries[k].expires_at == Some(t))
}

/// The deadline of `expire` milliseconds from `now`, held at the clock's end.
pub open spec fn deadline(now: u64, expire: u64) -> int {
    if now + expire > u64::MAX {
        u64::MAX as int
    } else {
        now + expire
    }
}

/// The deadline, if any, of a value set at `now` to lapse after `expire`.
pub open spec fn deadline_of(expire: Option<u64>, now: u64) -> Option<int> {
    match expire {
        Some(d) => Some(deadline(now, d)),
        None => None,
    }
}

/// The state after `SET key value` at `now`, lapsing after `expire`.
pub open spec fn after_set(m: StateModel, key: Frame, value: Frame, expire: Option<u64>, now: u64) -> StateModel {
    StateModel {
        entries: m.entries.insert(key, Stored { data: value, expires_at: deadline_of(expire, now) }),
        expirations: match deadline_of(expire, now) {
            Some(t) => m.expirations.filter(|p: (int, Frame)| p.1 != key).insert((t, key)),
            None => m.expirations.filter(|p: (int, Frame)| p.1 != key),
        },
        shutdown: m.shutdown,
    }
}

/// The state after `DEL key`.
pub open spec fn after_del(m: StateModel, key: Frame) -> StateModel {
    StateModel {
        entries: m.entries.remove(key),
        expirations: m.expirations.filter(|p: (int, Frame)| p.1 != key),
        shutdown: m.shutdown,
    }
}

/// What `GET key` reads at `now`: the value, or null when the key is
/// missing or has expired.
pub open spec fn get_reply(m: StateModel, key: Frame, now: int) -> Frame {
    if m.entries.contains_key(key) && live(m.entries[key].expires_at, now) {
        m.entries[key].data
    } else {
        Frame::Null
    }
}

/// The state after the purger's pass at `now`: the entries that have
/// expired are gone, with their pairs.
pub open spec fn after_purge(m: StateModel, now: u64) -> StateModel {
    StateModel {
        entries: Map::new(
            |k: Frame| m.entries.contains_key(k) && live(m.entries[k].expires_at, now as int),
            |k: Frame| m.entries[k],
        ),
        expirations: m.expirations.filter(|p: (int, Frame)| now < p.0),
        shutdown: m.shutdown,
    }
}

pub open spec fn stored_of(e: Entry) -> Stored {
    Stored { data: e.data@, expires_at: opt_time(e.expires_at) }
}

pub open spec fn has_entry(s: Seq<Entry>, k: Frame, t: u64) -> bool {
    exists|i: int| 0 <= i < s.len() && (#[trigger] s[i]).key@ == k && s[i].expires_at == Some(t)
}

pub open spec fn has_pair(x: Seq<(u64, Entity)>, t: u64, k: Frame) -> bool {
    exists|j: int| 0 <= j < x.len() && (#[trigger] x[j]).0 == t && x[j].1@ == k
}

pub open spec fn keys_unique(s: Seq<Entry>) -> bool {
    forall|i: int, j: int|
        0 <= i < s.len() && 0 <= j < s.len() && (#[trigger] s[i]).key@ == (#[trigger] s[j]).key@
            ==> i == j
}

pub open spec fn sorted(x: Seq<(u64, Entity)>) -> bool {
    forall|i: int, j: int| 0 <= i < j < x.len() ==> (#[trigger] x[i]).0 <= (#[trigger] x[j]).0
}

pub open spec fn pair_keys_unique(x: Seq<(u64, Entity)>) -> bool {
    forall|i: int, j: int|
        0 <= i < x.len() && 0 <= j < x.len() && (#[trigger] x[i]).1@ == (#[trigger] x[j]).1@
            ==> i == j
}

pub open spec fn sound(s: Seq<Entry>, x: Seq<(u64, Entity)>) -> bool {
    forall|j: int| 0 <= j < x.len() ==> has_entry(s, (#[trigger] x[j]).1@, x[j].0)
}

pub open spec fn complete(s: Seq<Entry>, x: Seq<(u64, Entity)>) -> bool {
    forall|i: int|
        0 <= i < s.len() && (#[trigger] s[i]).expires_at is Some ==> has_pair(
            x,
            s[i].expires_at->0,
            s[i].key@,
        )
}

pub open spec fn has_key(s: Seq<Entry>, k: Frame) -> bool {
    exists|i: int| 0 <= i < s.len() && (#[trigger] s[i]).key@ == k
}

pub open spec fn entries_map(s: Seq<Entry>) -> Map<Frame, Stored> {
    Map::new(
        |k: Frame| has_key(s, k),
        |k: Frame| stored_of(s[choose|i: int| 0 <= i < s.len() && (#[trigger] s[i]).key@ == k]),
    )
}

pub open spec fn pairs_set(x: Seq<(u64, Entity)>) -> Set<(int, Frame)> {
    Set::new(|p: (int, Frame)| has_pair(x, p.0 as u64, p.1) && 0 <= p.0 <= u64::MAX)
}

proof fn lemma_entries_map_at(s: Seq<Entry>, i: int)
    requires
        keys_unique(s),
        0 <= i < s.len(),
    ensures
        entries_map(s).contains_key(s[i].key@),
        entries_map(s)[s[i].key@] == stored_of(s[i]),
{
    let k = s[i].key@;
    assert(has_key(s, k));
    let c = choose|c: int| 0 <= c < s.len() && (#[trigger] s[c]).key@ == k;
    assert(s[c].key@ == s[i].key@);
}

proof fn lemma_entries_remove(s: Seq<Entry>, i: int)
    requires
        keys_unique(s),
        0 <= i < s.len(),
    ensures
        keys_unique(s.remove(i)),
        entries_map(s.remove(i)) == entries_map(s).remove(s[i].key@),
        forall|k: Frame| has_key(s.remove(i), k) <==> has_key(s, k) && k != s[i].key@,
{
    let r = s.remove(i);
    let k0 = s[i].key@;
    assert forall|a: int, b: int|
        0 <= a < r.len() && 0 <= b < r.len() && (#[trigger] r[a]).key@ == (#[trigger] r[b]).key@
            implies a == b by {
        let a1 = if a < i { a } else { a + 1 };
        let b1 = if b < i { b } else { b + 1 };
        assert(r[a] == s[a1] && r[b] == s[b1]);
    }
    assert forall|k: Frame| has_key(r, k) <==> has_key(s, k) && k != k0 by {
        if has_key(r, k) {
            let a = choose|a: int| 0 <= a < r.len() && (#[trigger] r[a]).key@ == k;
            let a1 = if a < i { a } else { a + 1 };
            assert(r[a] == s[a1]);
        }
        if has_key(s, k) && k != k0 {
            let b = choose|b: int| 0 <= b < s.len() && (#[trigger] s[b]).key@ == k;
            if b < i {
                assert(r[b] == s[b]);
            } else {
                assert(r[b - 1] == s[b]);
            }
        }
    }
    assert forall|k: Frame| #[trigger] entries_map(r).contains_key(k) implies entries_map(r)[k]
        == entries_map(s)[k] by {
        let a = choose|a: int| 0 <= a < r.len() && (#[trigger] r[a]).key@ == k;
        let a1 = if a < i { a } else { a + 1 };
        assert(r[a] == s[a1]);
        lemma_entries_map_at(r, a);
        lemma_entries_map_at(s, a1);
    }
    assert(entries_map(r) =~= entries_map(s).remove(k0));
}

proof fn lemma_entries_push(s: Seq<Entry>, e: Entry)
    requires
        keys_unique(s),
        !has_key(s, e.key@),
    ensures
        keys_unique(s.push(e)),
        entries_map(s.push(e)) == entries_map(s).insert(e.key@, stored_of(e)),
        forall|k: Frame| has_key(s.push(e), k) <==> has_key(s, k) || k == e.key@,
{
    let r = s.push(e);
    assert forall|a: int, b: int|
        0 <= a < r.len() && 0 <= b < r.len() && (#[trigger] r[a]).key@ == (#[trigger] r[b]).key@
            implies a == b by {
        if a < s.len() && b < s.len() {
            assert(r[a] == s[a] && r[b] == s[b]);
        } else if a < s.len() {
            assert(r[a] == s[a]);
        } else if b < s.len() {
            assert(r[b] == s[b]);
        }
    }
    assert forall|k: Frame| has_key(r, k) <==> has_key(s, k) || k == e.key@ by {
        if has_key(r, k) {
            let a = choose|a: int| 0 <= a < r.len() && (#[trigger] r[a]).key@ == k;
            if a < s.len() {
                assert(r[a] == s[a]);
            }
        }
        if has_key(s, k) {
            let b = choose|b: int| 0 <= b < s.len() && (#[trigger] s[b]).key@ == k;
            assert(r[b] == s[b]);
        }
        if k == e.key@ {
            assert(r[s.len() as int] == e);
        }
    }
    assert forall|k: Frame| #[trigger] entries_map(r).contains_key(k) implies entries_map(r)[k]
        == entries_map(s).insert(e.key@, stored_of(e))[k] by {
        let a = choose|a: int| 0 <= a < r.len() && (#[trigger] r[a]).key@ == k;
        lemma_entries_map_at(r, a);
        if a < s.len() {
            assert(r[a] == s[a]);
            lemma_entries_map_at(s, a);
        }
    }
    assert(entries_map(r) =~= entries_map(s).insert(e.key@, stored_of(e)));
}

proof fn lemma_pairs_remove(x: Seq<(u64, Entity)>, j: int)
    requires
        sorted(x),
        pair_keys_unique(x),
        0 <= j < x.len(),
    ensures
        sorted(x.remove(j)),
        pair_keys_unique(x.remove(j)),
        forall|t: u64, k: Frame| has_pair(x.remove(j), t, k) <==> has_pair(x, t, k) && k != x[j].1@,
        pairs_set(x.remove(j)) == pairs_set(x).filter(|p: (int, Frame)| p.1 != x[j].1@),
{
    let r = x.remove(j);
    let k0 = x[j].1@;
    assert forall|a: int, b: int| 0 <= a < b < r.len() implies (#[trigger] r[a]).0 <= (#[trigger] r[b]).0 by {
        let a1 = if a < j { a } else { a + 1 };
        let b1 = if b < j { b } else { b + 1 };
        assert(r[a] == x[a1] && r[b] == x[b1]);
    }
    assert forall|a: int, b: int|
        0 <= a < r.len() && 0 <= b < r.len() && (#[trigger] r[a]).1@ == (#[trigger] r[b]).1@
            implies a == b by {
        let a1 = if a < j { a } else { a + 1 };
        let b1 = if b < j { b } else { b + 1 };
        assert(r[a] == x[a1] && r[b] == x[b1]);
    }
    assert forall|t: u64, k: Frame| has_pair(r, t, k) <==> has_pair(x, t, k) && k != k0 by {
        if has_pair(r, t, k) {
            let a = choose|a: int| 0 <= a < r.len() && (#[trigger] r[a]).0 == t && r[a].1@ == k;
            let a1 = if a < j { a } else { a + 1 };
            assert(r[a] == x[a1]);
        }
        if has_pair(x, t, k) && k != k0 {
            let b = choose|b: int| 0 <= b < x.len() && (#[trigger] x[b]).0 == t && x[b].1@ == k;
            if b < j {
                assert(r[b] == x[b]);
            } else {
                assert(r[b - 1] == x[b]);
            }
        }
    }
    assert(pairs_set(r) =~= pairs_set(x).filter(|p: (int, Frame)| p.1 != k0));
}

proof fn lemma_pairs_insert(x: Seq<(u64, Entity)>, j: int, t: u64, e: Entity)
    requires
        sorted(x),
        pair_keys_unique(x),
        0 <= j <= x.len(),
        forall|a: int| 0 <= a < j ==> (#[trigger] x[a]).0 <= t,
        forall|a: int| j <= a < x.len() ==> t < (#[trigger] x[a]).0,
        forall|a: int| 0 <= a < x.len() ==> (#[trigger] x[a]).1@ != e@,
    ensures
        sorted(x.insert(j, (t, e))),
        pair_keys_unique(x.insert(j, (t, e))),
        forall|t2: u64, k: Frame| has_pair(x.insert(j, (t, e)), t2, k) <==> has_pair(x, t2, k) || (t2
            == t && k == e@),
        pairs_set(x.insert(j, (t, e))) == pairs_set(x).insert((t as int, e@)),
{
    let r = x.insert(j, (t, e));
    assert forall|a: int, b: int| 0 <= a < b < r.len() implies (#[trigger] r[a]).0 <= (#[trigger] r[b]).0 by {
        if a < j {
            assert(r[a] == x[a]);
        } else if a > j {
            assert(r[a] == x[a - 1]);
        }
        if b < j {
            assert(r[b] == x[b]);
        } else if b > j {
            assert(r[b] == x[b - 1]);
        }
    }
    assert forall|a: int, b: int|
        0 <= a < r.len() && 0 <= b < r.len() && (#[trigger] r[a]).1@ == (#[trigger] r[b]).1@
            implies a == b by {
        if a < j {
            assert(r[a] == x[a]);
        } else if a > j {
            assert(r[a] == x[a - 1]);
        }
        if b < j {
            assert(r[b] == x[b]);
        } else if b > j {
            assert(r[b] == x[b - 1]);
        }
    }
    assert forall|t2: u64, k: Frame| has_pair(r, t2, k) <==> has_pair(x, t2, k) || (t2 == t && k == e@) by {
        if has_pair(r, t2, k) {
            let a = choose|a: int| 0 <= a < r.len() && (#[trigger] r[a]).0 == t2 && r[a].1@ == k;
            if a < j {
                assert(r[a] == x[a]);
            } else if a > j {
                assert(r[a] == x[a - 1]);
            }
        }
        if has_pair(x, t2, k) {
            let b = choose|b: int| 0 <= b < x.len() && (#[trigger] x[b]).0 == t2 && x[b].1@ == k;
            if b < j {
                assert(r[b] == x[b]);
            } else {
                assert(r[b + 1] == x[b]);
            }
        }
        if t2 == t && k == e@ {
            assert(r[j] == (t, e));
        }
    }
    assert(pairs_set(r) =~= pairs_set(x).insert((t as int, e@)));
}

proof fn lemma_no_pair(x: Seq<(u64, Entity)>, k: Frame)
    requires
        forall|a: int| 0 <= a < x.len() ==> (#[trigger] x[a]).1@ != k,
    ensures
        pairs_set(x).filter(|p: (int, Frame)| p.1 != k) == pairs_set(x),
        forall|t: u64| !has_pair(x, t, k),
{
    assert(pairs_set(x).filter(|p: (int, Frame)| p.1 != k) =~= pairs_set(x));
}

proof fn lemma_no_key(s: Seq<Entry>, k: Frame)
    requires
        forall|a: int| 0 <= a < s.len() ==> (#[trigger] s[a]).key@ != k,
    ensures
        entries_map(s).remove(k) == entries_map(s),
        !has_key(s, k),
{
    assert(entries_map(s).remove(k) =~= entries_map(s));
}

/// Entries, expiration index and shutdown flag, kept together.
pub struct State {
    entries: Vec<Entry>,
    expirations: Vec<(u64, Entity)>,
    shutdown: bool,
}

impl State {
    pub closed spec fn wf(&self) -> bool {
        &&& keys_unique(self.entries@)
        &&& sorted(self.expirations@)
        &&& pair_keys_unique(self.expirations@)
        &&& sound(self.entries@, self.expirations@)
        &&& complete(self.entries@, self.expirations@)
    }

    /// How many pairs the expiration index holds.
    pub closed spec fn index_len(&self) -> nat {
        self.expirations@.len()
    }

    pub closed spec fn view(&self) -> StateModel {
        StateModel {
            entries: entries_map(self.entries@),
            expirations: pairs_set(self.expirations@),
            shutdown: self.shutdown,
        }
    }

    proof fn lemma_entry(&self, i: int)
        requires
            self.wf(),
            0 <= i < self.entries@.len(),
        ensures
            self.view().entries.contains_key(self.entries@[i].key@),
            self.view().entries[self.entries@[i].key@] == stored_of(self.entries@[i]),
    {
        lemma_entries_map_at(self.entries@, i);
    }

    /// The I1 invariant: the index names exactly the expiring entries.
    pub proof fn lemma_index_consistent(&self)
        requires
            self.wf(),
        ensures
            index_consistent(self.view()),
    {
        let m = self.view();
        let s = self.entries@;
        let x = self.expirations@;
        assert forall|t: int, k: Frame| #![trigger m.expirations.contains((t, k))]
            m.expirations.contains((t, k)) <==> (m.entries.contains_key(k)
                && m.entries[k].expires_at == Some(t)) by {
            if m.expirations.contains((t, k)) {
                let j = choose|j: int| 0 <= j < x.len() && (#[trigger] x[j]).0 == t && x[j].1@ == k;
                assert(has_entry(s, x[j].1@, x[j].0));
                let i = choose|i: int| 0 <= i < s.len() && (#[trigger] s[i]).key@ == x[j].1@ && s[i].expires_at == Some(x[j].0);
                self.lemma_entry(i);
            }
            if m.entries.contains_key(k) && m.entries[k].expires_at == Some(t) {
                let i = choose|i: int| 0 <= i < s.len() && (#[trigger] s[i]).key@ == k;
                self.lemma_entry(i);
                assert(has_pair(x, s[i].expires_at->0, s[i].key@));
                let j = choose|j: int| 0 <= j < x.len() && (#[trigger] x[j]).0 == s[i].expires_at->0 && x[j].1@ == s[i].key@;
                assert(m.expirations.contains((t, k)));
            }
        }
    }

    /// An empty state.
    pub fn new() -> (r: State)
        ensures
            r.wf(),
            r.view().entries == Map::<Frame, Stored>::empty(),
            r.view().expirations == Set::<(int, Frame)>::empty(),
            !r.view().shutdown,
    {
        let r = State { entries: Vec::new(), expirations: Vec::new(), shutdown: false };
        proof {
            assert(r.view().entries =~= Map::<Frame, Stored>::empty());
            assert(r.view().expirations =~= Set::<(int, Frame)>::empty());
        }
        r
    }

    fn find(&self, key: &Entity) -> (r: Option<usize>)
        ensures
            r matches Some(i) ==> i < self.entries@.len() && self.entries@[i as int].key@ == key@,
            r is None ==> forall|i: int| 0 <= i < self.entries@.len() ==> (#[trigger] self.entries@[i]).key@ != key@,
    {
        let mut i: usize = 0;
        while i < self.entries.len()
            invariant
                i <= self.entries@.len(),
                forall|k: int| 0 <= k < i ==> (#[trigger] self.entries@[k]).key@ != key@,
            decreases self.entries@.len() - i,
        {
            if self.entries[i].key.same(key) {
                return Some(i);
            }
            i = i + 1;
        }
        None
    }

    fn find_expiration(&self, key: &Entity) -> (r: Option<usize>)
        ensures
            r matches Some(j) ==> j < self.expirations@.len() && self.expirations@[j as int].1@ == key@,
            r is None ==> forall|j: int| 0 <= j < self.expirations@.len() ==> (#[trigger] self.expirations@[j]).1@ != key@,
    {
        let mut j: usize = 0;
        while j < self.expirations.len()
            invariant
                j <= self.expirations@.len(),
                forall|k: int| 0 <= k < j ==> (#[trigger] self.expirations@[k]).1@ != key@,
            decreases self.expirations@.len() - j,
        {
            if self.expirations[j].1.same(key) {
                return Some(j);
            }
            j = j + 1;
        }
        None
    }

    /// The value at `key`, unless it is missing or has expired at `now`.
    pub fn get(&self, key: &Entity, now: u64) -> (r: Option<Entity>)
        requires
            self.wf(),
        ensures
            r is Some <==> (self.view().entries.contains_key(key@) && live(
                self.view().entries[key@].expires_at,
                now as int,
            )),
            r matches Some(v) ==> v@ == self.view().entries[key@].data,
    {
        match self.find(key) {
            Some(i) => {
                proof {
                    self.lemma_entry(i as int);
                }
                let e = &self.entries[i];
                match e.expires_at {
                    Some(t) => if now < t {
                        Some(e.data.duplicate())
                    } else {
                        None
                    },
                    None => Some(e.data.duplicate()),
                }
            },
            None => None,
        }
    }

    /// Whether the state has been shut down.
    pub fn is_shutdown(&self) -> (r: bool)
        ensures
            r == self.view().shutdown,
    {
        self.shutdown
    }

    /// The earliest deadline in the expiration index.
    pub fn next_expiration(&self) -> (r: Option<u64>)
        requires
            self.wf(),
        ensures
            r is None <==> self.view().expirations.is_empty(),
            r matches Some(t) ==> (exists|k: Frame| self.view().expirations.contains((t as int, k)))
                && forall|p: (int, Frame)| #[trigger] self.view().expirations.contains(p) ==> t <= p.0,
    {
        let ghost x = self.expirations@;
        if self.expirations.len() == 0 {
            proof {
                assert(self.view().expirations =~= Set::<(int, Frame)>::empty());
            }
            None
        } else {
            let t = self.expirations[0].0;
            proof {
                assert(self.view().expirations.contains((t as int, x[0].1@)));
                assert forall|p: (int, Frame)| #[trigger] self.view().expirations.contains(p) implies t <= p.0 by {
                    let j = choose|j: int| 0 <= j < x.len() && (#[trigger] x[j]).0 == p.0 && x[j].1@ == p.1;
                    if j > 0 {
                        assert(x[0].0 <= x[j].0);
                    }
                }
            }
            Some(t)
        }
    }
    /// Removes `key` and its expiration pair, if any.
    pub fn del(&mut self, key: &Entity) -> (removed: Option<Entity>)
        requires
            old(self).wf(),
        ensures
            removed is Some <==> old(self).view().entries.contains_key(key@),
            removed matches Some(v) ==> v@ == old(self).view().entries[key@].data,
            final(self).wf(),
            final(self).view() == after_del(old(self).view(), key@),
            (exists|t: int| old(self).view().expirations.contains((t, key@))) ==> final(self).index_len()
                < old(self).index_len(),
    {
        let ghost s0 = self.entries@;
        let ghost x0 = self.expirations@;
        let removed = match self.find(key) {
            Some(i) => {
                proof {
                    lemma_entries_remove(s0, i as int);
                    lemma_entries_map_at(s0, i as int);
                }
                let e = self.entries.remove(i);
                Some(e.data)
            },
            None => {
                proof {
                    lemma_no_key(s0, key@);
                }
                None
            },
        };
        assert(keys_unique(self.entries@));
        assert(forall|k: Frame| has_key(self.entries@, k) <==> has_key(s0, k) && k != key@);
        assert(entries_map(self.entries@) == entries_map(s0).remove(key@));
        match self.find_expiration(key) {
            Some(j) => {
                proof {
                    lemma_pairs_remove(x0, j as int);
                }
                self.expirations.remove(j);
            },
            None => {
                proof {
                    lemma_no_pair(x0, key@);
                    assert forall|t: int| !pairs_set(x0).contains((t, key@)) by {
                        assert(!has_pair(x0, t as u64, key@));
                    }
                }
            },
        }
        assert(sorted(self.expirations@) && pair_keys_unique(self.expirations@));
        assert(forall|t: u64, k: Frame| has_pair(self.expirations@, t, k) <==> has_pair(x0, t, k) && k != key@);
        assert(pairs_set(self.expirations@) == pairs_set(x0).filter(|p: (int, Frame)| p.1 != key@));
        proof {
            let s = self.entries@;
            let x = self.expirations@;
            assert forall|j: int| 0 <= j < x.len() implies has_entry(s, (#[trigger] x[j]).1@, x[j].0) by {
                assert(has_pair(x, x[j].0, x[j].1@));
                assert(has_pair(x0, x[j].0, x[j].1@) && x[j].1@ != key@);
                let b = choose|b: int| 0 <= b < x0.len() && (#[trigger] x0[b]).0 == x[j].0 && x0[b].1@ == x[j].1@;
                assert(has_entry(s0, x0[b].1@, x0[b].0));
                let a = choose|a: int| 0 <= a < s0.len() && (#[trigger] s0[a]).key@ == x[j].1@ && s0[a].expires_at == Some(x[j].0);
                assert(has_key(s0, s0[a].key@));
                assert(has_key(s, s0[a].key@));
                let c = choose|c: int| 0 <= c < s.len() && (#[trigger] s[c]).key@ == s0[a].key@;
                lemma_entries_map_at(s, c);
                lemma_entries_map_at(s0, a);
                assert(entries_map(s)[s0[a].key@] == entries_map(s0)[s0[a].key@]);
            }
            assert forall|i: int| 0 <= i < s.len() && (#[trigger] s[i]).expires_at is Some implies has_pair(
                x,
                s[i].expires_at->0,
                s[i].key@,
            ) by {
                assert(has_key(s, s[i].key@));
                let a = choose|a: int| 0 <= a < s0.len() && (#[trigger] s0[a]).key@ == s[i].key@;
                lemma_entries_map_at(s, i);
                lemma_entries_map_at(s0, a);
                assert(opt_time(s0[a].expires_at) == opt_time(s[i].expires_at));
                assert(has_pair(x0, s0[a].expires_at->0, s0[a].key@));
            }
        }
        removed
    }

    /// Stores `value` at `key`, replacing what was there, to lapse
    /// `expire` milliseconds after `now` when that is given. Returns whether
    /// the new deadline comes before every deadline already indexed, so
    /// that the purger must be woken.
    pub fn set(&mut self, key: Entity, value: Entity, expire: Option<u64>, now: u64) -> (notify: bool)
        requires
            old(self).wf(),
        ensures
            final(self).wf(),
            final(self).view() == after_set(old(self).view(), key@, value@, expire, now),
            notify == (expire is Some && forall|p: (int, Frame)|
                #[trigger] old(self).view().expirations.contains(p) ==> deadline_of(expire, now)->0
                    < p.0),
    {
        let ghost pre = self.view();
        let when: Option<u64> = match expire {
            Some(d) => if d > u64::MAX - now {
                Some(u64::MAX)
            } else {
                Some(now + d)
            },
            None => None,
        };
        let next = self.next_expiration();
        let notify = match when {
            Some(w) => match next {
                Some(t) => t > w,
                None => true,
            },
            None => false,
        };
        proof {
            if let Some(w) = when {
                assert(deadline_of(expire, now) == Some(w as int));
                if let Some(t) = next {
                    if t <= w {
                        let k = choose|k: Frame| pre.expirations.contains((t as int, k));
                        assert(pre.expirations.contains((t as int, k)));
                    }
                }
            }
        }
        self.del(&key);
        let ghost s1 = self.entries@;
        let ghost x1 = self.expirations@;
        proof {
            assert(!has_key(s1, key@)) by {
                assert(!entries_map(s1).contains_key(key@));
            }
            assert forall|a: int| 0 <= a < x1.len() implies (#[trigger] x1[a]).1@ != key@ by {
                if x1[a].1@ == key@ {
                    assert(has_pair(x1, x1[a].0, x1[a].1@));
                    assert(pairs_set(x1).contains((x1[a].0 as int, key@)));
                }
            }
        }
        let index_key = key.duplicate();
        let e = Entry { key, data: value, expires_at: when };
        proof {
            lemma_entries_push(s1, e);
        }
        self.entries.push(e);
        let ghost s2 = self.entries@;
        proof {
            assert(s2[s1.len() as int] == e);
            assert(self.view().entries =~= pre.entries.insert(
                index_key@,
                Stored { data: e.data@, expires_at: deadline_of(expire, now) },
            ));
        }
        match when {
            Some(w) => {
                let mut j: usize = 0;
                while j < self.expirations.len() && self.expirations[j].0 <= w
                    invariant
                        j <= x1.len(),
                        self.expirations@ == x1,
                        forall|a: int| 0 <= a < j ==> (#[trigger] x1[a]).0 <= w,
                    decreases x1.len() - j,
                {
                    j = j + 1;
                }
                proof {
                    assert forall|a: int| j <= a < x1.len() implies w < (#[trigger] x1[a]).0 by {
                        assert(x1[j as int].0 <= x1[a].0);
                    }
                    lemma_pairs_insert(x1, j as int, w, index_key);
                }
                self.expirations.insert(j, (w, index_key));
                proof {
                    let x = self.expirations@;
                    assert(x[j as int] == (w, index_key));
                    assert(has_entry(s2, key@, w)) by {
                        assert(s2[s1.len() as int].key@ == key@);
                    }
                    assert forall|b: int| 0 <= b < x.len() implies has_entry(s2, (#[trigger] x[b]).1@, x[b].0) by {
                        if b != j {
                            assert(has_pair(x, x[b].0, x[b].1@));
                            if has_pair(x1, x[b].0, x[b].1@) {
                                let c = choose|c: int| 0 <= c < x1.len() && (#[trigger] x1[c]).0 == x[b].0 && x1[c].1@ == x[b].1@;
                                assert(has_entry(s1, x1[c].1@, x1[c].0));
                                let a = choose|a: int| 0 <= a < s1.len() && (#[trigger] s1[a]).key@ == x1[c].1@ && s1[a].expires_at == Some(x1[c].0);
                                assert(s2[a] == s1[a]);
                            }
                        }
                    }
                    assert forall|i: int| 0 <= i < s2.len() && (#[trigger] s2[i]).expires_at is Some implies has_pair(
                        x,
                        s2[i].expires_at->0,
                        s2[i].key@,
                    ) by {
                        if i < s1.len() {
                            assert(s2[i] == s1[i]);
                            assert(has_pair(x1, s1[i].expires_at->0, s1[i].key@));
                        }
                    }
                    assert(self.view().expirations =~= pre.expirations.filter(|p: (int, Frame)| p.1 != key@).insert((w as int, key@)));
                }
            },
            None => {
                proof {
                    let x = self.expirations@;
                    assert forall|b: int| 0 <= b < x.len() implies has_entry(s2, (#[trigger] x[b]).1@, x[b].0) by {
                        assert(has_entry(s1, x1[b].1@, x1[b].0));
                        let a = choose|a: int| 0 <= a < s1.len() && (#[trigger] s1[a]).key@ == x1[b].1@ && s1[a].expires_at == Some(x1[b].0);
                        assert(s2[a] == s1[a]);
                    }
                    assert forall|i: int| 0 <= i < s2.len() && (#[trigger] s2[i]).expires_at is Some implies has_pair(
                        x,
                        s2[i].expires_at->0,
                        s2[i].key@,
                    ) by {
                        if i < s1.len() {
                            assert(s2[i] == s1[i]);
                        }
                    }
                }
            },
        }
        notify
    }
    /// Marks the state as shut down: the purger does no more work.
    pub fn shutdown(&mut self)
        requires
            old(self).wf(),
        ensures
            final(self).wf(),
            final(self).view() == (StateModel { shutdown: true, ..old(self).view() }),
    {
        self.shutdown = true;
    }

    /// Removes every entry whose deadline is at or before `now`, with its
    /// pair, and returns the next deadline left. Does nothing once shut down.
    pub fn purge_expired_keys(&mut self, now: u64) -> (r: Option<u64>)
        requires
            old(self).wf(),
        ensures
            final(self).wf(),
            old(self).view().shutdown ==> final(self).view() == old(self).view() && r is None,
            !old(self).view().shutdown ==> {
                &&& final(self).view() == after_purge(old(self).view(), now)
                &&& final(self).view().shutdown == old(self).view().shutdown
                &&& forall|k: Frame| #[trigger] final(self).view().entries.contains_key(k) <==> (
                    old(self).view().entries.contains_key(k) && live(
                        old(self).view().entries[k].expires_at,
                        now as int,
                    ))
                &&& forall|k: Frame| #[trigger] final(self).view().entries.contains_key(k)
                    ==> final(self).view().entries[k] == old(self).view().entries[k]
                &&& forall|p: (int, Frame)| #[trigger] final(self).view().expirations.contains(p) <==> (
                    old(self).view().expirations.contains(p) && now < p.0)
                &&& (r is None <==> final(self).view().expirations.is_empty())
                &&& (r matches Some(t) ==> (exists|k: Frame|
                    final(self).view().expirations.contains((t as int, k))) && forall|p: (int, Frame)|
                    #[trigger] final(self).view().expirations.contains(p) ==> t <= p.0)
            },
    {
        if self.shutdown {
            return None;
        }
        let ghost pre = self.view();
        proof {
            self.lemma_index_consistent();
        }
        while self.expirations.len() > 0 && self.expirations[0].0 <= now
            invariant
                self.wf(),
                self.view().shutdown == pre.shutdown,
                index_consistent(pre),
                forall|k: Frame| #[trigger] self.view().entries.contains_key(k) ==> pre.entries.contains_key(k)
                    && self.view().entries[k] == pre.entries[k],
                forall|k: Frame| #[trigger] pre.entries.contains_key(k) && !self.view().entries.contains_key(k)
                    ==> !live(pre.entries[k].expires_at, now as int),
            decreases self.index_len(),
        {
            let ghost before = self.view();
            let ghost x = self.expirations@;
            let k = self.expirations[0].1.duplicate();
            proof {
                self.lemma_index_consistent();
                assert(has_pair(x, x[0].0, x[0].1@));
                assert(before.expirations.contains((x[0].0 as int, k@)));
            }
            self.del(&k);
            proof {
                assert forall|k2: Frame| #[trigger] pre.entries.contains_key(k2) && !self.view().entries.contains_key(k2)
                    implies !live(pre.entries[k2].expires_at, now as int) by {
                    if k2 == k@ && before.entries.contains_key(k2) {
                        assert(before.entries[k2].expires_at == Some(x[0].0 as int));
                    }
                }
            }
        }
        let r = self.next_expiration();
        proof {
            self.lemma_index_consistent();
            let fin = self.view();
            let goal = after_purge(pre, now);
            assert(fin.entries =~= goal.entries);
            assert(fin.expirations =~= goal.expirations);
        }
        r
    }
}

} // verus!
