//! The key registry and its manager: ordered, unique-keyed storage of key
//! records with lookup of the current key, throttled reload from a store,
//! and need-based rotation.

use vstd::prelude::*;

use crate::codec::{decimal_int, i128_to_decimal, i64_to_decimal};
use crate::commons::{
    all_valid, key_views, valid_record, KeyManagerConfig, KeyMaterial, KeyModel, KeyStore,
    KeyStoreError,
};
use crate::utils::{generate_secret, secret_charset, unix_now_nanos, unix_now_secs};

verus! {

// ---------------------------------------------------------------------------
// The registry as a mathematical object
// ---------------------------------------------------------------------------
/// Index of the first record with this identifier, or -1.
pub open spec fn find_kid(ks: Seq<KeyModel>, kid: Seq<char>) -> int
    decreases ks.len(),
{
    if ks.len() == 0 {
        -1
    } else if ks.first().kid == kid {
        0
    } else {
        let r = find_kid(ks.drop_first(), kid);
        if r == -1 {
            -1
        } else {
            r + 1
        }
    }
}

pub open spec fn has_kid(ks: Seq<KeyModel>, kid: Seq<char>) -> bool {
    find_kid(ks, kid) != -1
}

/// The registry without its record for `kid` (the first such record, if the
/// registry were ever to hold several).
pub open spec fn remove_kid(ks: Seq<KeyModel>, kid: Seq<char>) -> Seq<KeyModel> {
    if find_kid(ks, kid) == -1 {
        ks
    } else {
        ks.remove(find_kid(ks, kid))
    }
}

/// Inserting a record drops any record with the same identifier and appends
/// the new one at the end: the inserted record is always the current one.
pub open spec fn insert_key(ks: Seq<KeyModel>, k: KeyModel) -> Seq<KeyModel> {
    remove_kid(ks, k.kid).push(k)
}

/// The registry obtained by inserting the records of `ms` in order into an
/// empty registry.
pub open spec fn load_keys(ms: Seq<KeyModel>) -> Seq<KeyModel>
    decreases ms.len(),
{
    if ms.len() == 0 {
        Seq::empty()
    } else {
        insert_key(load_keys(ms.drop_last()), ms.last())
    }
}

pub open spec fn unique_kids(ks: Seq<KeyModel>) -> bool {
    forall|i: int, j: int| 0 <= i < j < ks.len() ==> ks[i].kid != ks[j].kid
}

/// `find_kid` finds the first matching record: everything before it has a
/// different identifier, and it lands on a match unless there is none.
pub proof fn lemma_find_kid(ks: Seq<KeyModel>, kid: Seq<char>)
    ensures
        find_kid(ks, kid) == -1 || 0 <= find_kid(ks, kid) < ks.len(),
        find_kid(ks, kid) != -1 ==> ks[find_kid(ks, kid)].kid == kid,
        forall|j: int| 0 <= j < find_kid(ks, kid) ==> ks[j].kid != kid,
        find_kid(ks, kid) == -1 ==> forall|j: int| 0 <= j < ks.len() ==> ks[j].kid != kid,
    decreases ks.len(),
{
    if ks.len() > 0 && ks.first().kid != kid {
        lemma_find_kid(ks.drop_first(), kid);
        let r = find_kid(ks.drop_first(), kid);
        assert forall|j: int| 0 <= j < find_kid(ks, kid) implies ks[j].kid != kid by {
            if j > 0 {
                assert(ks[j] == ks.drop_first()[j - 1]);
            }
        }
        if r == -1 {
            assert forall|j: int| 0 <= j < ks.len() implies ks[j].kid != kid by {
                if j > 0 {
                    assert(ks[j] == ks.drop_first()[j - 1]);
                }
            }
        }
    }
}

/// Inserting keeps identifiers unique and keeps every record valid, grows
/// the registry by one exactly when the identifier is new, and makes the
/// inserted record the last one.
pub proof fn lemma_insert_key(ks: Seq<KeyModel>, k: KeyModel)
    ensures
        unique_kids(ks) ==> unique_kids(insert_key(ks, k)),
        all_valid(ks) && valid_record(k) ==> all_valid(insert_key(ks, k)),
        !has_kid(ks, k.kid) ==> insert_key(ks, k).len() == ks.len() + 1,
        has_kid(ks, k.kid) ==> insert_key(ks, k).len() == ks.len(),
        insert_key(ks, k).last() == k,
        insert_key(ks, k).len() >= 1,
{
    lemma_find_kid(ks, k.kid);
    let f = find_kid(ks, k.kid);
    let r = remove_kid(ks, k.kid);
    if f != -1 {
        assert(forall|j: int|
            0 <= j < r.len() ==> r[j] == (if j < f {
                ks[j]
            } else {
                ks[j + 1]
            }));
    }
    let s = insert_key(ks, k);
    if unique_kids(ks) {
        assert forall|i: int, j: int| 0 <= i < j < s.len() implies s[i].kid != s[j].kid by {
            if j < s.len() - 1 {
            } else {
                // the new last record: everything left in `r` has another kid
                if f == -1 {
                } else {
                    if i < f {
                        assert(r[i] == ks[i]);
                    } else {
                        assert(r[i] == ks[i + 1]);
                    }
                }
            }
        }
    }
}


/// A record list whose identifiers are already unique loads as itself: a
/// registry saved through `save_keys` and read back by a reload is exactly
/// the registry that was saved.
pub proof fn lemma_load_keys_identity(ms: Seq<KeyModel>)
    requires
        unique_kids(ms),
    ensures
        load_keys(ms) == ms,
    decreases ms.len(),
{
    if ms.len() == 0 {
        assert(load_keys(ms) =~= ms);
    } else {
        let pre = ms.drop_last();
        let last = ms.last();
        assert(unique_kids(pre));
        lemma_load_keys_identity(pre);
        lemma_find_kid(pre, last.kid);
        if find_kid(pre, last.kid) != -1 {
            let f = find_kid(pre, last.kid);
            assert(pre[f] == ms[f]);
            assert(ms[f].kid == ms[ms.len() - 1].kid);
            assert(false);
        }
        assert(insert_key(pre, last) =~= ms);
    }
}

/// Loading from a record list always yields unique identifiers, and only
/// records from the list.
pub proof fn lemma_load_keys(ms: Seq<KeyModel>)
    ensures
        unique_kids(load_keys(ms)),
        all_valid(ms) ==> all_valid(load_keys(ms)),
        load_keys(ms).len() <= ms.len(),
    decreases ms.len(),
{
    if ms.len() > 0 {
        assert(all_valid(ms) ==> all_valid(ms.drop_last()));
        lemma_load_keys(ms.drop_last());
        lemma_insert_key(load_keys(ms.drop_last()), ms.last());
    }
}

// ---------------------------------------------------------------------------
// Executable registry operations
// ---------------------------------------------------------------------------
/// Inserts one record into the ordered registry vector.
fn vec_insert_key(keys: &mut Vec<KeyMaterial>, k: KeyMaterial)
    ensures
        key_views(final (keys)@) == insert_key(key_views(old(keys)@), k@),
{
    let ghost vs = key_views(old(keys)@);
    let n = keys.len();
    let mut i: usize = 0;
    while i < n && keys[i].kid != k.kid
        invariant
            i <= n,
            n == keys@.len(),
            keys@ == old(keys)@,
            vs == key_views(keys@),
            forall|j: int| 0 <= j < i ==> #[trigger] vs[j].kid != k.kid@,
        decreases n - i,
    {
        i = i + 1;
    }
    proof {
        lemma_find_kid(vs, k.kid@);
        if i < n {
            assert(vs[i as int].kid == k.kid@);
            if find_kid(vs, k.kid@) < i as int {
                assert(false);
            }
            if find_kid(vs, k.kid@) > i as int || find_kid(vs, k.kid@) == -1 {
                assert(vs[i as int].kid != k.kid@);
                assert(false);
            }
            assert(find_kid(vs, k.kid@) == i as int);
        } else {
            if find_kid(vs, k.kid@) != -1 {
                assert(vs[find_kid(vs, k.kid@)].kid == k.kid@);
                assert(false);
            }
        }
    }
    if i < n {
        keys.remove(i);
        proof {
            assert(key_views(keys@) =~= remove_kid(vs, k.kid@));
        }
    }
    keys.push(k);
    proof {
        assert(key_views(keys@) =~= insert_key(vs, k@));
    }
}

/// Builds the registry vector from store records, inserting them in order.
fn build_registry(list: Vec<KeyMaterial>) -> (v: Vec<KeyMaterial>)
    ensures
        key_views(v@) == load_keys(key_views(list@)),
{
    let ghost ms = key_views(list@);
    let mut v: Vec<KeyMaterial> = Vec::new();
    let mut i: usize = 0;
    let mut rest = list;
    // take records out from the front by index
    let n = rest.len();
    proof {
        assert(ms.take(0) =~= Seq::<KeyModel>::empty());
        assert(key_views(v@) =~= Seq::<KeyModel>::empty());
    }
    while i < n
        invariant
            i <= n,
            n == rest@.len(),
            ms == key_views(rest@),
            key_views(v@) == load_keys(ms.take(i as int)),
        decreases n - i,
    {
        let k = rest[i].clone();
        proof {
            assert(ms.take(i as int + 1).drop_last() =~= ms.take(i as int));
            assert(ms.take(i as int + 1).last() == ms[i as int]);
            assert(k@ == ms[i as int]);
        }
        vec_insert_key(&mut v, k);
        i = i + 1;
    }
    proof {
        assert(ms.take(n as int) =~= ms);
    }
    v
}

/// Copies the registry vector record by record.
fn clone_keys(keys: &Vec<KeyMaterial>) -> (v: Vec<KeyMaterial>)
    ensures
        v@ == keys@,
{
    let mut v: Vec<KeyMaterial> = Vec::new();
    let mut i: usize = 0;
    while i < keys.len()
        invariant
            i <= keys@.len(),
            v@ =~= keys@.take(i as int),
        decreases keys@.len() - i,
    {
        v.push(keys[i].clone());
        i = i + 1;
        proof {
            assert(v@ =~= keys@.take(i as int));
        }
    }
    proof {
        assert(keys@.take(keys@.len() as int) =~= keys@);
    }
    v
}

// ---------------------------------------------------------------------------
// The manager
// ---------------------------------------------------------------------------
/// Owns the ordered key registry, its configuration, the reload timestamp,
/// and the durable store.
pub struct KeyManager<S: KeyStore> {
    store: S,
    last_reload_at_millis: u64,
    config: KeyManagerConfig,
    keys: Vec<KeyMaterial>,
}

/// Assembles the configuration before building a manager from a store.
pub struct KeyManagerBuilder<S: KeyStore> {
    store: S,
    size: usize,
    count: usize,
    ttl_secs: u64,
    reload_interval_millis: u64,
}

/// An identifier minted by rotation: the fixed prefix and a signed decimal
/// stamp.
pub open spec fn rotated_kid(kid: Seq<char>) -> bool {
    exists|t: int| kid == "key-"@ + decimal_int(t)
}

/// An identifier minted for a temporary key.
pub open spec fn temp_kid(kid: Seq<char>) -> bool {
    exists|t: int| kid == "temp-"@ + decimal_int(t)
}

impl<S: KeyStore> KeyManagerBuilder<S> {
    pub closed spec fn spec_store(&self) -> S {
        self.store
    }

    pub closed spec fn spec_config(&self) -> KeyManagerConfig {
        KeyManagerConfig {
            size: self.size,
            count: self.count,
            ttl_secs: self.ttl_secs,
            reload_interval_millis: self.reload_interval_millis,
        }
    }

    fn new(store: S) -> (b: Self)
        ensures
            b.spec_store() == store,
            b.spec_config() == (KeyManagerConfig {
                size: 128,
                count: 1,
                ttl_secs: 86400,
                reload_interval_millis: 30000,
            }),
    {
        KeyManagerBuilder {
            store,
            size: 128,
            count: 1,
            ttl_secs: 86400,
            reload_interval_millis: 30000,
        }
    }

    pub fn size(self, size: usize) -> (b: Self)
        ensures
            b.spec_store() == self.spec_store(),
            b.spec_config() == (KeyManagerConfig { size, ..self.spec_config() }),
    {
        KeyManagerBuilder { size, ..self }
    }

    pub fn count(self, count: usize) -> (b: Self)
        ensures
            b.spec_store() == self.spec_store(),
            b.spec_config() == (KeyManagerConfig { count, ..self.spec_config() }),
    {
        KeyManagerBuilder { count, ..self }
    }

    pub fn ttl_secs(self, ttl_secs: u64) -> (b: Self)
        ensures
            b.spec_store() == self.spec_store(),
            b.spec_config() == (KeyManagerConfig { ttl_secs, ..self.spec_config() }),
    {
        KeyManagerBuilder { ttl_secs, ..self }
    }

    /// Sets the minimum time between store reloads, in milliseconds.
    pub fn reload_interval(self, millis: u64) -> (b: Self)
        ensures
            b.spec_store() == self.spec_store(),
            b.spec_config() == (KeyManagerConfig {
                reload_interval_millis: millis,
                ..self.spec_config()
            }),
    {
        KeyManagerBuilder { reload_interval_millis: millis, ..self }
    }

    /// Reads the store once and builds the manager around what it holds.
    /// `now_millis` is the caller's monotonic clock reading, the moment the
    /// initial load happened.
    pub fn build(self, now_millis: u64) -> (r: Result<KeyManager<S>, KeyStoreError>)
        ensures
            r matches Ok(m) ==> {
                &&& m.key_models() == load_keys(self.spec_store().contents())
                &&& m.wf()
                &&& all_valid(m.key_models())
                &&& m.last_reload_millis() == now_millis
                &&& m.spec_config() == self.spec_config()
            },
    {
        let list = match self.store.read_keys() {
            Ok(list) => list,
            Err(e) => {
                return Err(e);
            },
        };
        let keys = build_registry(list);
        proof {
            lemma_load_keys(key_views(list@));
        }
        Ok(
            KeyManager {
                store: self.store,
                last_reload_at_millis: now_millis,
                config: KeyManagerConfig {
                    size: self.size,
                    count: self.count,
                    ttl_secs: self.ttl_secs,
                    reload_interval_millis: self.reload_interval_millis,
                },
                keys,
            },
        )
    }
}

impl<S: KeyStore> KeyManager<S> {
    pub closed spec fn key_models(&self) -> Seq<KeyModel> {
        key_views(self.keys@)
    }

    pub closed spec fn spec_config(&self) -> KeyManagerConfig {
        self.config
    }

    pub closed spec fn last_reload_millis(&self) -> int {
        self.last_reload_at_millis as int
    }

    pub closed spec fn spec_store(&self) -> S {
        self.store
    }

    /// The registry never holds two records with one identifier.
    pub open spec fn wf(&self) -> bool {
        unique_kids(self.key_models())
    }

    /// The most recently inserted record, if any: the current key.
    pub open spec fn spec_current(&self) -> Option<KeyModel> {
        if self.key_models().len() == 0 {
            None
        } else {
            Some(self.key_models().last())
        }
    }

    /// A reload is due once the configured interval has elapsed.
    pub open spec fn reload_due(&self, now_millis: int) -> bool {
        now_millis - self.last_reload_millis() >= self.spec_config().reload_interval_millis
    }

    /// The registry as reload at `now_millis` would leave it.
    pub open spec fn spec_after_reload(&self, now_millis: int) -> Seq<KeyModel> {
        if self.reload_due(now_millis) {
            load_keys(self.spec_store().contents())
        } else {
            self.key_models()
        }
    }

    pub fn builder(store: S) -> (b: KeyManagerBuilder<S>)
        ensures
            b.spec_store() == store,
            b.spec_config() == (KeyManagerConfig {
                size: 128,
                count: 1,
                ttl_secs: 86400,
                reload_interval_millis: 30000,
            }),
    {
        KeyManagerBuilder::new(store)
    }

    /// The store the manager owns.
    pub fn store(&self) -> (s: &S)
        ensures
            *s == self.spec_store(),
    {
        &self.store
    }

    /// Point lookup by identifier.
    pub fn get_key(&self, kid: &str) -> (r: Option<KeyMaterial>)
        ensures
            match r {
                Some(k) => has_kid(self.key_models(), kid@) && k@ == self.key_models()[find_kid(
                    self.key_models(),
                    kid@,
                )],
                None => !has_kid(self.key_models(), kid@),
            },
    {
        let ghost vs = self.key_models();
        let wanted = kid.to_owned();
        let n = self.keys.len();
        let mut i: usize = 0;
        while i < n && self.keys[i].kid != wanted
            invariant
                i <= n,
                n == self.keys@.len(),
                wanted@ == kid@,
                vs == self.key_models(),
                forall|j: int| 0 <= j < i ==> #[trigger] vs[j].kid != kid@,
            decreases n - i,
        {
            i = i + 1;
        }
        proof {
            lemma_find_kid(vs, kid@);
            if i < n {
                assert(vs[i as int].kid == kid@);
                if find_kid(vs, kid@) < i as int {
                    assert(false);
                }
                if find_kid(vs, kid@) > i as int || find_kid(vs, kid@) == -1 {
                    assert(vs[i as int].kid != kid@);
                    assert(false);
                }
            } else {
                if find_kid(vs, kid@) != -1 {
                    assert(vs[find_kid(vs, kid@)].kid == kid@);
                    assert(false);
                }
            }
        }
        if i < n {
            Some(self.keys[i].clone())
        } else {
            None
        }
    }

    /// The current key: the last record in insertion order.
    pub fn get_current_key(&self) -> (r: Option<KeyMaterial>)
        ensures
            match r {
                Some(k) => self.spec_current() == Some(k@),
                None => self.spec_current() is None,
            },
    {
        let n = self.keys.len();
        if n == 0 {
            None
        } else {
            Some(self.keys[n - 1].clone())
        }
    }

    /// Whether enough time has passed since the last reload.
    pub fn can_reload(&self, now_millis: u64) -> (b: bool)
        ensures
            b == self.reload_due(now_millis as int),
    {
        now_millis >= self.last_reload_at_millis && now_millis - self.last_reload_at_millis
            >= self.config.reload_interval_millis
    }

    /// Refreshes the registry from the store, if a reload is due.
    ///
    /// When the interval has not yet elapsed, nothing happens at all: the
    /// store is not read. When it has, the store is read and the registry is
    /// replaced atomically: on a read failure the registry and the reload
    /// timestamp are exactly what they were before the call.
    pub fn reload(&mut self, now_millis: u64) -> (r: Result<(), KeyStoreError>)
        ensures
            final (self).spec_config() == old(self).spec_config(),
            final (self).spec_store() == old(self).spec_store(),
            final (self).last_reload_millis() >= old(self).last_reload_millis(),
            !old(self).reload_due(now_millis as int) ==> {
                &&& r is Ok
                &&& final (self).key_models() == old(self).key_models()
                &&& final (self).last_reload_millis() == old(self).last_reload_millis()
            },
            r is Err ==> {
                &&& final (self).key_models() == old(self).key_models()
                &&& final (self).last_reload_millis() == old(self).last_reload_millis()
            },
            old(self).reload_due(now_millis as int) && r is Ok ==> {
                &&& final (self).key_models() == load_keys(old(self).spec_store().contents())
                &&& all_valid(final (self).key_models())
                &&& final (self).wf()
                &&& final (self).last_reload_millis() == now_millis
            },
    {
        let due = self.can_reload(now_millis);
        if !due {
            return Ok(());
        }
        // The read touches only the store, never the registry.
        let list = match self.store.read_keys() {
            Ok(list) => list,
            Err(e) => {
                return Err(e);
            },
        };
        let keys = build_registry(list);
        proof {
            lemma_load_keys(key_views(list@));
        }
        self.keys = keys;
        self.last_reload_at_millis = now_millis;
        Ok(())
    }

    /// Persists a snapshot of the registry through the store.
    pub fn save_keys(&mut self) -> (r: Result<(), KeyStoreError>)
        ensures
            final (self).key_models() == old(self).key_models(),
            final (self).spec_config() == old(self).spec_config(),
            final (self).last_reload_millis() == old(self).last_reload_millis(),
            r is Ok && all_valid(old(self).key_models()) ==> final (self).spec_store().contents()
                == old(self).key_models(),
            r is Err ==> final (self).spec_store().contents()
                == old(self).spec_store().contents(),
    {
        let snapshot = clone_keys(&self.keys);
        self.store.write_keys(snapshot.as_slice())
    }

    /// Creates a key with this identifier: a fresh secret of the configured
    /// size, stamped with the clock's Unix time, inserted as the new current
    /// record. Any record already under the identifier is replaced. Nothing
    /// is persisted; `save_keys` does that.
    pub fn generate_key(&mut self, kid: String) -> (r: Result<KeyMaterial, KeyStoreError>)
        ensures
            r matches Ok(rec) && {
                &&& rec@.kid == kid@
                &&& rec@.secret.len() == old(self).spec_config().size
                &&& (forall|i: int|
                    0 <= i < rec@.secret.len() ==> secret_charset().contains(
                        #[trigger] rec@.secret[i],
                    ))
                &&& final (self).key_models() == insert_key(old(self).key_models(), rec@)
                &&& final (self).spec_current() == Some(rec@)
            },
            final (self).spec_config() == old(self).spec_config(),
            final (self).spec_store() == old(self).spec_store(),
            final (self).last_reload_millis() == old(self).last_reload_millis(),
            old(self).wf() ==> final (self).wf(),
    {
        let secret = generate_secret(self.config.size);
        let created_at_unix = unix_now_secs();
        let rec = KeyMaterial { kid: kid.clone(), secret, created_at_unix };
        let rec_out = rec.clone();
        proof {
            lemma_insert_key(self.key_models(), rec@);
        }
        vec_insert_key(&mut self.keys, rec);
        Ok(rec_out)
    }

    /// Rotates if the registry is short of the configured count: reloads
    /// first, then, on a deficit, mints one key under a clock-derived
    /// identifier and persists the whole registry. Returns whether a key was
    /// created.
    pub fn rotate_keys(&mut self, now_millis: u64) -> (r: Result<bool, KeyStoreError>)
        ensures
            final (self).spec_config() == old(self).spec_config(),
            !old(self).reload_due(now_millis as int) && old(self).key_models().len() >= old(
                self,
            ).spec_config().count ==> r matches Ok(false),
            r matches Ok(false) ==> {
                &&& final (self).key_models() == old(self).spec_after_reload(now_millis as int)
                &&& final (self).key_models().len() >= old(self).spec_config().count
                &&& final (self).spec_store() == old(self).spec_store()
            },
            r matches Ok(true) ==> {
                &&& old(self).spec_after_reload(now_millis as int).len() < old(
                    self,
                ).spec_config().count
                &&& final (self).key_models().len() >= 1
                &&& final (self).key_models() == insert_key(
                    old(self).spec_after_reload(now_millis as int),
                    final (self).key_models().last(),
                )
                &&& (!has_kid(
                    old(self).spec_after_reload(now_millis as int),
                    final (self).key_models().last().kid,
                ) ==> final (self).key_models().len() == old(self).spec_after_reload(
                    now_millis as int,
                ).len() + 1)
                &&& rotated_kid(final (self).key_models().last().kid)
                &&& final (self).key_models().last().secret.len() == old(self).spec_config().size
                &&& (all_valid(final (self).key_models()) ==> final (self).spec_store().contents()
                    == final (self).key_models())
            },
            r is Err ==> final (self).spec_store().contents()
                == old(self).spec_store().contents(),
            r is Err ==> {
                ||| {
                    &&& final (self).key_models() == old(self).key_models()
                    &&& final (self).last_reload_millis() == old(self).last_reload_millis()
                }
                ||| final (self).key_models() == insert_key(
                    old(self).spec_after_reload(now_millis as int),
                    final (self).key_models().last(),
                )
            },
            old(self).wf() ==> final (self).wf(),
    {
        match self.reload(now_millis) {
            Ok(()) => (),
            Err(e) => {
                return Err(e);
            },
        }
        if self.keys.len() < self.config.count {
            let kid = rotation_kid();
            let rec = match self.generate_key(kid) {
                Ok(rec) => rec,
                Err(e) => {
                    return Err(e);
                },
            };
            proof {
                lemma_insert_key(old(self).spec_after_reload(now_millis as int), rec@);
            }
            match self.save_keys() {
                Ok(()) => Ok(true),
                Err(e) => Err(e),
            }
        } else {
            Ok(false)
        }
    }

    /// The current key, as the command surface asks for it.
    pub fn current_key(&self) -> (r: Option<KeyMaterial>)
        ensures
            match r {
                Some(k) => self.spec_current() == Some(k@),
                None => self.spec_current() is None,
            },
    {
        self.get_current_key()
    }

    /// A full snapshot of the registry, in insertion order.
    pub fn list_keys(&self) -> (v: Vec<KeyMaterial>)
        ensures
            key_views(v@) == self.key_models(),
    {
        let v = clone_keys(&self.keys);
        proof {
            assert(key_views(v@) =~= self.key_models());
        }
        v
    }

    /// An ephemeral key under a clock-derived identifier with its own
    /// distinct prefix. No registry and no store is touched: this reads only
    /// the clock and the random source.
    pub fn generate_temp_key(size: usize) -> (rec: KeyMaterial)
        ensures
            rec@.secret.len() == size,
            forall|i: int|
                0 <= i < rec@.secret.len() ==> secret_charset().contains(#[trigger] rec@.secret[i]),
            rec@.kid == "temp-"@ + decimal_int(rec@.created_at),
            temp_kid(rec@.kid),
    {
        let secret = generate_secret(size);
        let created_at_unix = unix_now_secs();
        let stamp = i64_to_decimal(created_at_unix);
        let kid = String::from_str("temp-").concat(stamp.as_str());
        KeyMaterial { kid, secret, created_at_unix }
    }
}

/// A rotation identifier: the prefix and the nanosecond clock, printed
/// signed, exactly as the clock gave it.
fn rotation_kid() -> (s: String)
    ensures
        rotated_kid(s@),
{
    let nanos = unix_now_nanos();
    let stamp = i128_to_decimal(nanos);
    let s = String::from_str("key-").concat(stamp.as_str());
    proof {
        assert(s@ == "key-"@ + decimal_int(nanos as int));
    }
    s
}

// ---------------------------------------------------------------------------
// Laws of the registry
// ---------------------------------------------------------------------------
/// Generating under an identifier already present replaces its record: the
/// registry does not grow. Generating under a fresh identifier grows it by
/// exactly one.
pub proof fn lemma_generate_key_uniqueness(ks: Seq<KeyModel>, k1: KeyModel, k2: KeyModel)
    ensures
        k2.kid == k1.kid ==> insert_key(insert_key(ks, k1), k2).len() == insert_key(ks, k1).len(),
        k2.kid != k1.kid && !has_kid(ks, k2.kid) ==> insert_key(insert_key(ks, k1), k2).len()
            == insert_key(ks, k1).len() + 1,
{
    let s1 = insert_key(ks, k1);
    lemma_insert_key(ks, k1);
    lemma_insert_key(s1, k2);
    lemma_find_kid(ks, k1.kid);
    lemma_find_kid(ks, k2.kid);
    lemma_find_kid(s1, k2.kid);
    if k2.kid == k1.kid {
        // k1 sits at the end of s1, so the identifier is present
        if !has_kid(s1, k2.kid) {
            assert(s1[s1.len() - 1].kid == k2.kid);
            assert(false);
        }
    } else if !has_kid(ks, k2.kid) {
        if has_kid(s1, k2.kid) {
            let f = find_kid(s1, k2.kid);
            assert(s1[f].kid == k2.kid);
            let r = remove_kid(ks, k1.kid);
            if f == s1.len() - 1 {
                assert(s1[f] == k1);
                assert(false);
            } else {
                // a record of `r`, hence of `ks`
                let g = find_kid(ks, k1.kid);
                if g == -1 {
                    assert(s1[f] == ks[f]);
                } else {
                    if f < g {
                        assert(r[f] == ks[f]);
                    } else {
                        assert(r[f] == ks[f + 1]);
                    }
                }
                assert(false);
            }
        }
    }
}

/// Right after a reload at `now1`, no reload is due before the configured
/// interval has elapsed again: a second `reload` call within the interval
/// leaves the manager untouched and performs no store read.
pub proof fn lemma_reload_throttling<S: KeyStore>(m: KeyManager<S>, now1: int, now2: int)
    requires
        m.last_reload_millis() == now1,
        now2 - now1 < m.spec_config().reload_interval_millis,
    ensures
        !m.reload_due(now2),
{
}

/// A rotation that fires on a deficit adds exactly one record, and the new
/// record becomes the current key — provided the minted identifier is not
/// already taken, which only a clock collision could cause.
pub proof fn lemma_rotation_deficit(base: Seq<KeyModel>, count: int, rec: KeyModel)
    requires
        base.len() < count,
        !has_kid(base, rec.kid),
    ensures
        insert_key(base, rec).len() == base.len() + 1,
        insert_key(base, rec).len() <= count,
        insert_key(base, rec).last() == rec,
{
    lemma_insert_key(base, rec);
}

/// A temporary key's identifier can never collide with a rotated one: the
/// prefixes differ.
pub proof fn lemma_temp_kid_distinct(t: Seq<char>, k: Seq<char>)
    requires
        temp_kid(t),
        rotated_kid(k),
    ensures
        t != k,
{
    reveal_strlit("temp-");
    reveal_strlit("key-");
    if t == k {
        assert(t[0] == 't');
        assert(k[0] == 'k');
    }
}

} // verus!
