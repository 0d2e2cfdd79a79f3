use vstd::prelude::*;

use crate::filters::clone_strings;
use crate::ids::{bytes_eq, copy_bytes};
use crate::models::Status;
use crate::pagination::{ConnectionV, SampleConnection};

verus! {

// ---------------------------------------------------------------------------
// Cache keys
// ---------------------------------------------------------------------------

/// Mathematical view of [`QueryKey`].
#[verifier::ext_equal]
pub enum KeyV {
    AllSamples {
        limit: Option<i32>,
        after: Option<Seq<u8>>,
        before: Option<Seq<u8>>,
        skip: Option<i32>,
    },
    SearchSamples {
        term: Seq<char>,
        fields: Seq<Seq<char>>,
        limit: Option<i32>,
        after: Option<Seq<u8>>,
        before: Option<Seq<u8>>,
        skip: Option<i32>,
    },
    SamplesByStatus {
        status: Option<Status>,
        limit: Option<i32>,
        after: Option<Seq<u8>>,
        before: Option<Seq<u8>>,
        skip: Option<i32>,
    },
    SampleByNames { names: Seq<Seq<char>>, status: Option<Status> },
}

/// The normalized argument tuple of one cached query.
///
/// Equal argument sets — explicit absence included — give keys with equal
/// views, and only those; the key is the arguments as received, cursors
/// still in their opaque encoded form.
pub enum QueryKey {
    AllSamples {
        limit: Option<i32>,
        after: Option<Vec<u8>>,
        before: Option<Vec<u8>>,
        skip: Option<i32>,
    },
    SearchSamples {
        term: String,
        fields: Vec<String>,
        limit: Option<i32>,
        after: Option<Vec<u8>>,
        before: Option<Vec<u8>>,
        skip: Option<i32>,
    },
    SamplesByStatus {
        status: Option<Status>,
        limit: Option<i32>,
        after: Option<Vec<u8>>,
        before: Option<Vec<u8>>,
        skip: Option<i32>,
    },
    SampleByNames { names: Vec<String>, status: Option<Status> },
}

impl View for QueryKey {
    type V = KeyV;

    open spec fn view(&self) -> KeyV {
        match self {
            QueryKey::AllSamples { limit, after, before, skip } => KeyV::AllSamples {
                limit: *limit,
                after: after.deep_view(),
                before: before.deep_view(),
                skip: *skip,
            },
            QueryKey::SearchSamples { term, fields, limit, after, before, skip } => KeyV::SearchSamples {
                term: term@,
                fields: fields.deep_view(),
                limit: *limit,
                after: after.deep_view(),
                before: before.deep_view(),
                skip: *skip,
            },
            QueryKey::SamplesByStatus { status, limit, after, before, skip } => KeyV::SamplesByStatus {
                status: *status,
                limit: *limit,
                after: after.deep_view(),
                before: before.deep_view(),
                skip: *skip,
            },
            QueryKey::SampleByNames { names, status } => KeyV::SampleByNames {
                names: names.deep_view(),
                status: *status,
            },
        }
    }
}

/// Whether two optional page counts are the same.
fn opt_i32_eq(a: &Option<i32>, b: &Option<i32>) -> (r: bool)
    ensures
        r == (*a == *b),
{
    match (a, b) {
        (Some(x), Some(y)) => *x == *y,
        (None, None) => true,
        _ => false,
    }
}

/// Whether two optional encoded cursors are the same.
fn opt_bytes_eq(a: &Option<Vec<u8>>, b: &Option<Vec<u8>>) -> (r: bool)
    ensures
        r == (a.deep_view() == b.deep_view()),
{
    match (a, b) {
        (Some(x), Some(y)) => {
            let r = bytes_eq(x, y);
            proof {
                assert(x.deep_view() =~= x@);
                assert(y.deep_view() =~= y@);
            }
            r
        },
        (None, None) => true,
        _ => false,
    }
}

/// Whether two optional statuses are the same.
fn opt_status_eq(a: &Option<Status>, b: &Option<Status>) -> (r: bool)
    ensures
        r == (*a == *b),
{
    match (a, b) {
        (Some(x), Some(y)) => *x == *y,
        (None, None) => true,
        _ => false,
    }
}

/// Whether two lists of texts are the same, element for element.
fn strings_eq(a: &Vec<String>, b: &Vec<String>) -> (r: bool)
    ensures
        r == (a.deep_view() == b.deep_view()),
{
    if a.len() != b.len() {
        proof {
            assert(a.deep_view().len() != b.deep_view().len());
        }
        return false;
    }
    let mut i: usize = 0;
    while i < a.len()
        invariant
            0 <= i <= a@.len(),
            a@.len() == b@.len(),
            forall|j: int| 0 <= j < i ==> a.deep_view()[j] == b.deep_view()[j],
        decreases a@.len() - i,
    {
        if !(a[i] == b[i]) {
            proof {
                assert(a.deep_view()[i as int] != b.deep_view()[i as int]);
            }
            return false;
        }
        proof {
            assert(a.deep_view()[i as int] == b.deep_view()[i as int]);
        }
        i = i + 1;
    }
    proof {
        assert(a.deep_view() =~= b.deep_view());
    }
    true
}

/// Whether two keys carry the same arguments.
pub fn key_eq(a: &QueryKey, b: &QueryKey) -> (r: bool)
    ensures
        r == (a@ == b@),
{
    match (a, b) {
        (
            QueryKey::AllSamples { limit: l1, after: a1, before: b1, skip: s1 },
            QueryKey::AllSamples { limit: l2, after: a2, before: b2, skip: s2 },
        ) => {
            let r = opt_i32_eq(l1, l2) && opt_bytes_eq(a1, a2) && opt_bytes_eq(b1, b2)
                && opt_i32_eq(s1, s2);
            proof {
                if r {
                    assert(a@ =~= b@);
                }
            }
            r
        },
        (
            QueryKey::SearchSamples { term: t1, fields: f1, limit: l1, after: a1, before: b1, skip: s1 },
            QueryKey::SearchSamples { term: t2, fields: f2, limit: l2, after: a2, before: b2, skip: s2 },
        ) => {
            let r = *t1 == *t2 && strings_eq(f1, f2) && opt_i32_eq(l1, l2) && opt_bytes_eq(a1, a2)
                && opt_bytes_eq(b1, b2) && opt_i32_eq(s1, s2);
            proof {
                if r {
                    assert(a@ =~= b@);
                }
            }
            r
        },
        (
            QueryKey::SamplesByStatus { status: t1, limit: l1, after: a1, before: b1, skip: s1 },
            QueryKey::SamplesByStatus { status: t2, limit: l2, after: a2, before: b2, skip: s2 },
        ) => {
            let r = opt_status_eq(t1, t2) && opt_i32_eq(l1, l2) && opt_bytes_eq(a1, a2)
                && opt_bytes_eq(b1, b2) && opt_i32_eq(s1, s2);
            proof {
                if r {
                    assert(a@ =~= b@);
                }
            }
            r
        },
        (
            QueryKey::SampleByNames { names: n1, status: t1 },
            QueryKey::SampleByNames { names: n2, status: t2 },
        ) => {
            let r = strings_eq(n1, n2) && opt_status_eq(t1, t2);
            proof {
                if r {
                    assert(a@ =~= b@);
                }
            }
            r
        },
        _ => false,
    }
}

/// Clones an optional encoded cursor.
pub fn clone_opt_arg_bytes(o: &Option<Vec<u8>>) -> (r: Option<Vec<u8>>)
    ensures
        r.deep_view() == o.deep_view(),
{
    match o {
        Some(b) => Some(copy_bytes(b)),
        None => None,
    }
}

impl Clone for QueryKey {
    fn clone(&self) -> (r: Self)
        ensures
            r@ == self@,
    {
        let r = match self {
            QueryKey::AllSamples { limit, after, before, skip } => QueryKey::AllSamples {
                limit: *limit,
                after: clone_opt_arg_bytes(after),
                before: clone_opt_arg_bytes(before),
                skip: *skip,
            },
            QueryKey::SearchSamples { term, fields, limit, after, before, skip } => QueryKey::SearchSamples {
                term: term.clone(),
                fields: clone_strings(fields),
                limit: *limit,
                after: clone_opt_arg_bytes(after),
                before: clone_opt_arg_bytes(before),
                skip: *skip,
            },
            QueryKey::SamplesByStatus { status, limit, after, before, skip } => QueryKey::SamplesByStatus {
                status: *status,
                limit: *limit,
                after: clone_opt_arg_bytes(after),
                before: clone_opt_arg_bytes(before),
                skip: *skip,
            },
            QueryKey::SampleByNames { names, status } => QueryKey::SampleByNames {
                names: clone_strings(names),
                status: *status,
            },
        };
        proof {
            assert(r@ =~= self@);
        }
        r
    }
}

// ---------------------------------------------------------------------------
// The cache
// ---------------------------------------------------------------------------

/// Mathematical view of [`CacheEntry`].
#[verifier::ext_equal]
pub struct EntryV {
    pub key: KeyV,
    pub value: ConnectionV,
    pub stamp: u64,
}

/// One memoized result: the key it was computed for, the value, and when
/// it was inserted.
pub struct CacheEntry {
    pub key: QueryKey,
    pub value: SampleConnection,
    pub stamp: u64,
}

impl View for CacheEntry {
    type V = EntryV;

    open spec fn view(&self) -> EntryV {
        EntryV { key: self.key@, value: self.value@, stamp: self.stamp }
    }
}

impl DeepView for CacheEntry {
    type V = EntryV;

    open spec fn deep_view(&self) -> EntryV {
        self.view()
    }
}

/// Mathematical view of [`QueryCache`].
#[verifier::ext_equal]
pub struct CacheV {
    pub entries: Seq<EntryV>,
    pub capacity: usize,
    pub ttl: u64,
}

/// A TTL-and-capacity bounded memoization of one query shape.
///
/// Entries expire `ttl` seconds after insertion; when the capacity is
/// exceeded the oldest entries leave first, whatever time remains on
/// them. A capacity or TTL of zero disables caching: every lookup
/// misses. A successful mutation invalidates nothing here — readers may
/// observe results up to `ttl` seconds stale, by design.
pub struct QueryCache {
    entries: Vec<CacheEntry>,
    capacity: usize,
    ttl: u64,
}

impl View for QueryCache {
    type V = CacheV;

    closed spec fn view(&self) -> CacheV {
        CacheV { entries: self.entries.deep_view(), capacity: self.capacity, ttl: self.ttl }
    }
}

/// The first index holding `key`, or the length when no entry does.
pub open spec fn find_entry(entries: Seq<EntryV>, key: KeyV) -> int
    decreases entries.len(),
{
    if entries.len() == 0 {
        0
    } else if entries[0].key == key {
        0
    } else {
        1 + find_entry(entries.skip(1), key)
    }
}

/// An index below which no entry holds `key`, and which (unless it is
/// the length) holds `key`, is exactly `find_entry`.
pub proof fn lemma_find_entry_found(entries: Seq<EntryV>, key: KeyV, k: int)
    requires
        0 <= k <= entries.len(),
        forall|j: int| 0 <= j < k ==> (#[trigger] entries[j]).key != key,
        k < entries.len() ==> entries[k].key == key,
    ensures
        find_entry(entries, key) == k,
    decreases entries.len(),
{
    if entries.len() == 0 {
    } else if entries[0].key == key {
        assert(k == 0) by {
            if k > 0 {
                assert(entries[0].key != key);
            }
        }
    } else {
        assert(k >= 1);
        let t = entries.skip(1);
        assert(forall|j: int| 0 <= j < k - 1 ==> (#[trigger] t[j]).key != key);
        assert(k - 1 < t.len() ==> t[k - 1].key == key);
        lemma_find_entry_found(t, key, k - 1);
    }
}

/// `find_entry` stays within the index range, entries below it never
/// hold `key`, and the entry at it (when there is one) does.
pub proof fn lemma_find_entry_char(entries: Seq<EntryV>, key: KeyV)
    ensures
        0 <= find_entry(entries, key) <= entries.len(),
        forall|j: int|
            0 <= j < find_entry(entries, key) ==> (#[trigger] entries[j]).key != key,
        find_entry(entries, key) < entries.len() ==> entries[find_entry(entries, key)].key == key,
    decreases entries.len(),
{
    if entries.len() > 0 && entries[0].key != key {
        let t = entries.skip(1);
        lemma_find_entry_char(t, key);
        let fe = find_entry(entries, key);
        assert(fe == 1 + find_entry(t, key));
        assert forall|j: int| 0 <= j < fe implies (#[trigger] entries[j]).key != key by {
            if j >= 1 {
                assert(t[j - 1] == entries[j]);
                assert(t[j - 1].key != key);
            }
        }
        if fe < entries.len() {
            assert(t[fe - 1] == entries[fe]);
        }
    }
}

/// Whether an entry stamped at `stamp` still serves at `now`: it was
/// inserted no later than `now` and fewer than `ttl` seconds before it.
pub open spec fn entry_live(stamp: u64, now: u64, ttl: u64) -> bool {
    stamp <= now && now - stamp < ttl
}

/// Whether a live entry for `key` exists: the lookup would serve without
/// consulting the store.
pub open spec fn has_live(c: CacheV, key: KeyV, now: u64) -> bool {
    let i = find_entry(c.entries, key);
    i < c.entries.len() && entry_live(c.entries[i].stamp, now, c.ttl)
}

/// The value the lookup for `key` would serve.
pub open spec fn value_at(c: CacheV, key: KeyV) -> ConnectionV {
    c.entries[find_entry(c.entries, key)].value
}

/// `entries` without its first entry for `key`, if any.
pub open spec fn remove_key(entries: Seq<EntryV>, key: KeyV) -> Seq<EntryV> {
    let i = find_entry(entries, key);
    if i < entries.len() {
        entries.remove(i)
    } else {
        entries
    }
}

/// The first index among the entries with the smallest stamp: the entry
/// the capacity bound evicts first.
pub open spec fn oldest_idx(entries: Seq<EntryV>) -> int
    decreases entries.len(),
{
    if entries.len() <= 1 {
        0
    } else {
        let t = 1 + oldest_idx(entries.skip(1));
        if entries[0].stamp <= entries[t].stamp {
            0
        } else {
            t
        }
    }
}

/// `oldest_idx` names the first entry with the smallest stamp.
pub proof fn lemma_oldest_idx_char(entries: Seq<EntryV>)
    requires
        entries.len() >= 1,
    ensures
        0 <= oldest_idx(entries) < entries.len(),
        forall|j: int|
            0 <= j < entries.len() ==> entries[oldest_idx(entries)].stamp <= (#[trigger] entries[j]).stamp,
        forall|j: int|
            0 <= j < oldest_idx(entries) ==> (#[trigger] entries[j]).stamp > entries[oldest_idx(
                entries,
            )].stamp,
    decreases entries.len(),
{
    if entries.len() > 1 {
        let t = entries.skip(1);
        lemma_oldest_idx_char(t);
        let mt = oldest_idx(t);
        let m = oldest_idx(entries);
        assert(t[mt] == entries[1 + mt]);
        assert forall|j: int|
            0 <= j < entries.len() implies entries[m].stamp <= (#[trigger] entries[j]).stamp by {
            if j >= 1 {
                assert(t[j - 1] == entries[j]);
                assert(t[mt].stamp <= t[j - 1].stamp);
            }
        }
        assert forall|j: int|
            0 <= j < m implies (#[trigger] entries[j]).stamp > entries[m].stamp by {
            if j >= 1 {
                assert(t[j - 1] == entries[j]);
                assert(t[j - 1].stamp > t[mt].stamp);
            }
        }
    }
}

/// Evicts oldest-first until at most `cap` entries remain.
pub open spec fn evict(entries: Seq<EntryV>, cap: int) -> Seq<EntryV>
    decreases entries.len(),
{
    if entries.len() <= cap || entries.len() == 0 {
        entries
    } else {
        let m = oldest_idx(entries);
        if 0 <= m < entries.len() {
            evict(entries.remove(m), cap)
        } else {
            entries
        }
    }
}

/// The cache after storing `value` under `key` at `now`: any entry for
/// the same key is replaced, the new entry is stamped `now`, and the
/// capacity bound is enforced oldest-first.
pub open spec fn store_spec(c: CacheV, key: KeyV, value: ConnectionV, now: u64) -> CacheV {
    let appended = remove_key(c.entries, key).push(EntryV { key, value, stamp: now });
    CacheV { entries: evict(appended, c.capacity as int), capacity: c.capacity, ttl: c.ttl }
}

impl QueryCache {
    /// An empty cache with the given capacity and TTL (in seconds), both
    /// fixed for its lifetime.
    pub fn new(capacity: usize, ttl: u64) -> (r: QueryCache)
        ensures
            r@.entries =~= Seq::<EntryV>::empty(),
            r@.capacity == capacity,
            r@.ttl == ttl,
    {
        QueryCache { entries: Vec::new(), capacity, ttl }
    }

    /// Serves the live entry for `key`, if one exists; never consults
    /// the store.
    pub fn lookup(&self, key: &QueryKey, now: u64) -> (r: Option<&SampleConnection>)
        ensures
            match r {
                Some(v) => has_live(self@, key@, now) && v@ == value_at(self@, key@),
                None => !has_live(self@, key@, now),
            },
    {
        let ghost es = self@.entries;
        let mut i: usize = 0;
        while i < self.entries.len()
            invariant
                0 <= i <= es.len(),
                es == self@.entries,
                es.len() == self.entries@.len(),
                forall|j: int| 0 <= j < i ==> (#[trigger] es[j]).key != key@,
            decreases es.len() - i,
        {
            let e = &self.entries[i];
            proof {
                assert(e@ == es[i as int]);
            }
            if key_eq(&e.key, key) {
                proof {
                    lemma_find_entry_found(es, key@, i as int);
                }
                if e.stamp <= now && now - e.stamp < self.ttl {
                    return Some(&e.value);
                } else {
                    return None;
                }
            }
            i = i + 1;
        }
        proof {
            lemma_find_entry_found(es, key@, es.len() as int);
        }
        None
    }

    /// Stores `value` under `key` at `now`, replacing any entry for the
    /// same key and evicting oldest-first past the capacity.
    pub fn store(&mut self, key: QueryKey, value: SampleConnection, now: u64)
        ensures
            final(self)@ == store_spec(old(self)@, key@, value@, now),
    {
        let ghost c0 = self@;
        // replace: drop the first entry holding the key, if any
        let mut i: usize = 0;
        let mut found: bool = false;
        while !found && i < self.entries.len()
            invariant
                0 <= i <= self@.entries.len(),
                self@ == c0,
                self.entries@.len() == c0.entries.len(),
                forall|j: int| 0 <= j < i ==> (#[trigger] c0.entries[j]).key != key@,
                found ==> i < c0.entries.len() && c0.entries[i as int].key == key@,
            decreases c0.entries.len() - i + (if found {
                0int
            } else {
                1int
            }),
        {
            proof {
                assert(self.entries[i as int]@ == c0.entries[i as int]);
            }
            if key_eq(&self.entries[i].key, &key) {
                found = true;
            } else {
                i = i + 1;
            }
        }
        proof {
            if found {
                lemma_find_entry_found(c0.entries, key@, i as int);
            } else {
                lemma_find_entry_found(c0.entries, key@, c0.entries.len() as int);
            }
        }
        if found {
            let _ = self.entries.remove(i);
            proof {
                assert(self.entries.deep_view() =~= remove_key(c0.entries, key@));
            }
        } else {
            proof {
                assert(self.entries.deep_view() =~= remove_key(c0.entries, key@));
            }
        }
        self.entries.push(CacheEntry { key, value, stamp: now });
        let ghost appended = self.entries.deep_view();
        proof {
            assert(appended =~= remove_key(c0.entries, key@).push(
                EntryV { key: key@, value: value@, stamp: now },
            ));
        }
        // enforce the capacity bound, oldest first
        while self.entries.len() > self.capacity
            invariant
                self.capacity == c0.capacity,
                self.ttl == c0.ttl,
                evict(self.entries.deep_view(), c0.capacity as int) == evict(
                    appended,
                    c0.capacity as int,
                ),
            decreases self.entries@.len(),
        {
            let ghost cur = self.entries.deep_view();
            let n = self.entries.len();
            let mut best: usize = 0;
            let mut j: usize = 1;
            while j < n
                invariant
                    0 <= best < j <= n,
                    n == cur.len(),
                    cur == self.entries.deep_view(),
                    n >= 1,
                    forall|t: int|
                        0 <= t < j ==> cur[best as int].stamp <= (#[trigger] cur[t]).stamp,
                    forall|t: int|
                        0 <= t < best ==> (#[trigger] cur[t]).stamp > cur[best as int].stamp,
                decreases n - j,
            {
                proof {
                    assert(self.entries[j as int]@ == cur[j as int]);
                    assert(self.entries[best as int]@ == cur[best as int]);
                }
                if self.entries[j].stamp < self.entries[best].stamp {
                    best = j;
                }
                j = j + 1;
            }
            proof {
                lemma_oldest_idx_char(cur);
                let m = oldest_idx(cur);
                assert(cur[m].stamp <= cur[best as int].stamp);
                assert(cur[best as int].stamp <= cur[m].stamp);
                if m < best {
                    assert(cur[m].stamp > cur[best as int].stamp);
                }
                if best < m {
                    assert(cur[best as int].stamp > cur[m].stamp);
                }
                assert(m == best);
            }
            let _ = self.entries.remove(best);
            proof {
                assert(self.entries.deep_view() =~= cur.remove(oldest_idx(cur)));
                assert(evict(cur, c0.capacity as int) == evict(
                    cur.remove(oldest_idx(cur)),
                    c0.capacity as int,
                ));
            }
        }
        proof {
            assert(evict(self.entries.deep_view(), c0.capacity as int) == self.entries.deep_view());
            assert(self@ =~= store_spec(c0, key@, value@, now));
        }
    }
}

// ---------------------------------------------------------------------------
// The staleness and refresh laws
// ---------------------------------------------------------------------------

/// Pairwise distinct keys: the shape every reachable cache state has,
/// since a store always replaces the entry of its own key.
pub open spec fn unique_entry_keys(entries: Seq<EntryV>) -> bool {
    forall|i: int, j: int|
        0 <= i < j < entries.len() ==> (#[trigger] entries[i]).key != (#[trigger] entries[j]).key
}

/// Whether `e` occurs in `entries`.
pub open spec fn among(e: EntryV, entries: Seq<EntryV>) -> bool {
    exists|i: int| 0 <= i < entries.len() && (#[trigger] entries[i]) == e
}

/// Under unique keys, removing the first entry for `key` leaves no
/// entry for it, keeps the keys unique, and keeps every other entry.
proof fn lemma_remove_key_clears(entries: Seq<EntryV>, key: KeyV)
    requires
        unique_entry_keys(entries),
    ensures
        forall|j: int|
            0 <= j < remove_key(entries, key).len() ==> (#[trigger] remove_key(entries, key)[j]).key
                != key,
        unique_entry_keys(remove_key(entries, key)),
        forall|j: int|
            0 <= j < remove_key(entries, key).len() ==> among(
                #[trigger] remove_key(entries, key)[j],
                entries,
            ),
{
    lemma_find_entry_char(entries, key);
    let fe = find_entry(entries, key);
    let rk = remove_key(entries, key);
    if fe < entries.len() {
        entries.remove_ensures(fe);
        assert forall|j: int| 0 <= j < rk.len() implies (#[trigger] rk[j]).key != key by {
            if j < fe {
                assert(rk[j] == entries[j]);
            } else {
                assert(rk[j] == entries[j + 1]);
            }
        }
        assert forall|j: int| 0 <= j < rk.len() implies among(#[trigger] rk[j], entries) by {
            if j < fe {
                assert(entries[j] == rk[j]);
            } else {
                assert(entries[j + 1] == rk[j]);
            }
        }
        assert forall|i: int, j: int|
            0 <= i < j < rk.len() implies (#[trigger] rk[i]).key != (#[trigger] rk[j]).key by {
            if i < fe {
                assert(rk[i] == entries[i]);
            } else {
                assert(rk[i] == entries[i + 1]);
            }
            if j < fe {
                assert(rk[j] == entries[j]);
            } else {
                assert(rk[j] == entries[j + 1]);
            }
        }
    } else {
        assert forall|j: int| 0 <= j < rk.len() implies (#[trigger] rk[j]).key != key by {
            assert(entries[j].key != key);
        }
        assert forall|j: int| 0 <= j < rk.len() implies among(#[trigger] rk[j], entries) by {
            assert(entries[j] == rk[j]);
        }
    }
}

/// Eviction removes older entries first, so the freshest entry — the
/// one just stored, stamped no earlier than every other — survives the
/// capacity bound whenever the capacity admits any entry at all, and no
/// other surviving entry carries its key.
proof fn lemma_evict_keeps_freshest(entries: Seq<EntryV>, cap: int)
    requires
        cap >= 1,
        entries.len() >= 1,
        forall|j: int|
            0 <= j < entries.len() ==> (#[trigger] entries[j]).stamp <= entries.last().stamp,
        forall|j: int|
            0 <= j < entries.len() - 1 ==> (#[trigger] entries[j]).key != entries.last().key,
    ensures
        ({
            let ev = evict(entries, cap);
            &&& ev.len() >= 1
            &&& ev.last() == entries.last()
            &&& forall|j: int|
                0 <= j < ev.len() - 1 ==> (#[trigger] ev[j]).key != entries.last().key
        }),
    decreases entries.len(),
{
    if entries.len() <= cap {
    } else {
        lemma_oldest_idx_char(entries);
        let m = oldest_idx(entries);
        let last = entries.len() - 1;
        assert(m < last) by {
            if m == last {
                assert(entries[0].stamp > entries[m].stamp);
                assert(entries[0].stamp <= entries.last().stamp);
            }
        }
        let rm = entries.remove(m);
        entries.remove_ensures(m);
        assert(rm.last() == entries[last]);
        assert forall|j: int|
            0 <= j < rm.len() implies (#[trigger] rm[j]).stamp <= rm.last().stamp by {
            if j < m {
                assert(rm[j] == entries[j]);
            } else {
                assert(rm[j] == entries[j + 1]);
            }
        }
        assert forall|j: int|
            0 <= j < rm.len() - 1 implies (#[trigger] rm[j]).key != rm.last().key by {
            if j < m {
                assert(rm[j] == entries[j]);
            } else {
                assert(rm[j] == entries[j + 1]);
            }
        }
        lemma_evict_keeps_freshest(rm, cap);
    }
}

/// Every entry that survives eviction was among the entries before it.
proof fn lemma_evict_from(entries: Seq<EntryV>, cap: int)
    ensures
        forall|j: int| 0 <= j < evict(entries, cap).len() ==> among(
            #[trigger] evict(entries, cap)[j],
            entries,
        ),
    decreases entries.len(),
{
    let ev = evict(entries, cap);
    if entries.len() <= cap || entries.len() == 0 {
        assert forall|j: int| 0 <= j < ev.len() implies among(#[trigger] ev[j], entries) by {
            assert(entries[j] == ev[j]);
        }
    } else {
        lemma_oldest_idx_char(entries);
        let m = oldest_idx(entries);
        let rm = entries.remove(m);
        entries.remove_ensures(m);
        lemma_evict_from(rm, cap);
        assert(ev == evict(rm, cap));
        assert forall|j: int| 0 <= j < ev.len() implies among(#[trigger] ev[j], entries) by {
            assert(among(evict(rm, cap)[j], rm));
            let t = choose|t: int| 0 <= t < rm.len() && (#[trigger] rm[t]) == ev[j];
            if t < m {
                assert(entries[t] == rm[t]);
            } else {
                assert(entries[t + 1] == rm[t]);
            }
        }
    }
}

/// Storing keeps the cache's keys unique.
pub proof fn lemma_store_spec_unique(c: CacheV, key: KeyV, value: ConnectionV, now: u64)
    requires
        unique_entry_keys(c.entries),
    ensures
        unique_entry_keys(store_spec(c, key, value, now).entries),
{
    lemma_remove_key_clears(c.entries, key);
    let cleaned = remove_key(c.entries, key);
    let fresh_entry = EntryV { key, value, stamp: now };
    let appended = cleaned.push(fresh_entry);
    assert(unique_entry_keys(appended)) by {
        assert forall|i: int, j: int|
            0 <= i < j < appended.len() implies (#[trigger] appended[i]).key != (
            #[trigger] appended[j]).key by {
            if j < appended.len() - 1 {
                assert(appended[i] == cleaned[i]);
                assert(appended[j] == cleaned[j]);
            } else {
                assert(appended[i] == cleaned[i]);
                assert(appended[j] == fresh_entry);
            }
        }
    }
    let ev = evict(appended, c.capacity as int);
    lemma_evict_unique(appended, c.capacity as int);
}

/// Eviction keeps keys unique.
proof fn lemma_evict_unique(entries: Seq<EntryV>, cap: int)
    requires
        unique_entry_keys(entries),
    ensures
        unique_entry_keys(evict(entries, cap)),
    decreases entries.len(),
{
    if entries.len() <= cap || entries.len() == 0 {
    } else {
        lemma_oldest_idx_char(entries);
        let m = oldest_idx(entries);
        let rm = entries.remove(m);
        entries.remove_ensures(m);
        assert forall|i: int, j: int|
            0 <= i < j < rm.len() implies (#[trigger] rm[i]).key != (#[trigger] rm[j]).key by {
            if i < m {
                assert(rm[i] == entries[i]);
            } else {
                assert(rm[i] == entries[i + 1]);
            }
            if j < m {
                assert(rm[j] == entries[j]);
            } else {
                assert(rm[j] == entries[j + 1]);
            }
        }
        lemma_evict_unique(rm, cap);
    }
}

/// The staleness law: store a value for a key at `t0`, on a cache whose
/// entries are no younger than `t0` and whose capacity admits an entry,
/// and every lookup of an equal key issued within `ttl` seconds of `t0`
/// serves exactly that value — whatever happened to the store's data in
/// between, since a lookup never consults the store and a mutation never
/// touches the cache.
pub proof fn lemma_cache_staleness(c: CacheV, key: KeyV, value: ConnectionV, t0: u64, t1: u64)
    requires
        unique_entry_keys(c.entries),
        forall|j: int| 0 <= j < c.entries.len() ==> (#[trigger] c.entries[j]).stamp <= t0,
        c.capacity >= 1,
        t0 <= t1,
        t1 - t0 < c.ttl,
    ensures
        has_live(store_spec(c, key, value, t0), key, t1),
        value_at(store_spec(c, key, value, t0), key) == value,
{
    lemma_remove_key_clears(c.entries, key);
    let cleaned = remove_key(c.entries, key);
    let fresh_entry = EntryV { key, value, stamp: t0 };
    let appended = cleaned.push(fresh_entry);
    assert(appended.last() == fresh_entry);
    assert forall|j: int|
        0 <= j < appended.len() implies (#[trigger] appended[j]).stamp <= appended.last().stamp by {
        if j < appended.len() - 1 {
            assert(appended[j] == cleaned[j]);
            assert(among(cleaned[j], c.entries));
            let i = choose|i: int| 0 <= i < c.entries.len() && (#[trigger] c.entries[i]) == cleaned[j];
            assert(c.entries[i].stamp <= t0);
        }
    }
    assert forall|j: int|
        0 <= j < appended.len() - 1 implies (#[trigger] appended[j]).key != appended.last().key by {
        assert(appended[j] == cleaned[j]);
    }
    lemma_evict_keeps_freshest(appended, c.capacity as int);
    let ev = evict(appended, c.capacity as int);
    assert(ev.last() == fresh_entry);
    lemma_find_entry_found(ev, key, ev.len() - 1);
    assert(entry_live(t0, t1, c.ttl));
}

/// The refresh law: once `ttl` seconds have passed since a value was
/// stored for a key, no lookup of an equal key serves it any more — the
/// next read recomputes against the store's current state.
pub proof fn lemma_cache_expiry(c: CacheV, key: KeyV, value: ConnectionV, t0: u64, t1: u64)
    requires
        unique_entry_keys(c.entries),
        t0 <= t1,
        t1 - t0 >= c.ttl,
    ensures
        !has_live(store_spec(c, key, value, t0), key, t1),
{
    lemma_remove_key_clears(c.entries, key);
    let cleaned = remove_key(c.entries, key);
    let fresh_entry = EntryV { key, value, stamp: t0 };
    let appended = cleaned.push(fresh_entry);
    let ev = evict(appended, c.capacity as int);
    lemma_evict_from(appended, c.capacity as int);
    lemma_find_entry_char(ev, key);
    let fe = find_entry(ev, key);
    if fe < ev.len() {
        assert(ev[fe].key == key);
        assert(among(ev[fe], appended));
        let i = choose|i: int| 0 <= i < appended.len() && (#[trigger] appended[i]) == ev[fe];
        if i < appended.len() - 1 {
            assert(appended[i] == cleaned[i]);
            assert(cleaned[i].key != key);
        }
        assert(ev[fe] == fresh_entry);
        assert(!entry_live(t0, t1, c.ttl));
    }
}

} // verus!
