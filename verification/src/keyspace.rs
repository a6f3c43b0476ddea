//! The keyspace: a mapping from text keys to values with optional expiry,
//! with lazy expiration on read. Instants are plain milliseconds since the
//! Unix epoch; the caller supplies the current instant.

use crate::resp::RespData;
use crate::resp::RESPValue;
use vstd::prelude::*;

verus! {

/// The model of one stored entry: the value and its expiry instant, if any.
pub struct EntryModel {
    pub value: RespData,
    pub expires_at: Option<u64>,
}

/// One stored entry: a value and an optional expiry instant in milliseconds
/// since the Unix epoch.
#[derive(Debug)]
pub struct DBEntry {
    value: RESPValue,
    expires_at: Option<u64>,
}

impl View for DBEntry {
    type V = EntryModel;

    closed spec fn view(&self) -> EntryModel {
        EntryModel { value: self.value.deep_view(), expires_at: self.expires_at }
    }
}

/// An entry is logically expired when it has an expiry instant and the
/// current instant strictly exceeds it.
pub open spec fn spec_expired(e: EntryModel, now_ms: u64) -> bool {
    e.expires_at is Some && now_ms > e.expires_at->0
}

impl DBEntry {
    pub fn new(value: RESPValue, expires_at: Option<u64>) -> (r: Self)
        ensures
            r@ == (EntryModel { value: value.deep_view(), expires_at }),
    {
        DBEntry { value, expires_at }
    }

    /// Whether the entry is logically expired at the given instant.
    pub fn is_expired(&self, now_ms: u64) -> (r: bool)
        ensures
            r == spec_expired(self@, now_ms),
    {
        if let Some(expiry) = self.expires_at {
            now_ms > expiry
        } else {
            false
        }
    }

    pub fn value(&self) -> (r: &RESPValue)
        ensures
            r.deep_view() == self@.value,
    {
        &self.value
    }
}

impl Clone for DBEntry {
    /// Cloning preserves the modelled entry.
    fn clone(&self) -> (r: Self)
        ensures
            r@ == self@,
    {
        DBEntry { value: self.value.clone(), expires_at: self.expires_at }
    }
}

/// The mapping modelled by a list of bindings; a later binding for the same
/// key shadows an earlier one.
pub open spec fn kv_map(s: Seq<(String, DBEntry)>) -> Map<Seq<char>, EntryModel>
    decreases s.len(),
{
    if s.len() == 0 {
        Map::empty()
    } else {
        kv_map(s.drop_last()).insert(s.last().0@, s.last().1@)
    }
}

/// The key/value table: a list of bindings whose view is the mapping they
/// describe. Key equality is character-for-character.
pub struct Store {
    entries: Vec<(String, DBEntry)>,
}

impl View for Store {
    type V = Map<Seq<char>, EntryModel>;

    closed spec fn view(&self) -> Map<Seq<char>, EntryModel> {
        kv_map(self.entries@)
    }
}

/// Membership and value at `k` are decided by the last binding with key `k`,
/// looking only at the first `n` bindings.
proof fn lemma_kv_map_prefix(s: Seq<(String, DBEntry)>, n: int, k: Seq<char>)
    requires
        0 <= n <= s.len(),
        forall|j: int| n <= j < s.len() ==> (#[trigger] s[j].0@) != k,
    ensures
        kv_map(s).contains_key(k) == kv_map(s.subrange(0, n)).contains_key(k),
        kv_map(s).contains_key(k) ==> kv_map(s)[k] == kv_map(s.subrange(0, n))[k],
    decreases s.len() - n,
{
    if n == s.len() {
        assert(s.subrange(0, n) =~= s);
    } else {
        lemma_kv_map_prefix(s, n + 1, k);
        let t = s.subrange(0, n + 1);
        assert(t.drop_last() =~= s.subrange(0, n));
        assert(t.last() == s[n]);
    }
}

impl Store {
    pub fn new() -> (r: Self)
        ensures
            r@ == Map::<Seq<char>, EntryModel>::empty(),
    {
        Store { entries: Vec::new() }
    }

    /// Looks the key up; the last binding wins.
    pub fn get(&self, key: &String) -> (r: Option<&DBEntry>)
        ensures
            match r {
                Some(e) => self@.contains_key(key@) && e@ == self@[key@],
                None => !self@.contains_key(key@),
            },
    {
        let n = self.entries.len();
        let mut i: usize = n;
        while i > 0
            invariant
                i <= n,
                n == self.entries@.len(),
                forall|j: int| i <= j < n ==> (#[trigger] self.entries@[j].0@) != key@,
            decreases i,
        {
            i = i - 1;
            if self.entries[i].0 == *key {
                proof {
                    lemma_kv_map_prefix(self.entries@, i + 1, key@);
                    let t = self.entries@.subrange(0, i + 1);
                    assert(t.drop_last() =~= self.entries@.subrange(0, i as int));
                    assert(t.last() == self.entries@[i as int]);
                }
                return Some(&self.entries[i].1);
            }
        }
        proof {
            lemma_kv_map_prefix(self.entries@, 0, key@);
            assert(self.entries@.subrange(0, 0) =~= Seq::<(String, DBEntry)>::empty());
        }
        None
    }

    pub fn contains_key(&self, key: &String) -> (r: bool)
        ensures
            r == self@.contains_key(key@),
    {
        match self.get(key) {
            Some(_) => true,
            None => false,
        }
    }

    /// Binds the key to the entry, shadowing any earlier binding.
    pub fn insert(&mut self, key: String, entry: DBEntry)
        ensures
            final(self)@ == old(self)@.insert(key@, entry@),
    {
        let ghost old_entries = self.entries@;
        self.entries.push((key, entry));
        proof {
            assert(self.entries@.drop_last() =~= old_entries);
        }
    }

    /// Removes every binding for the key; reports whether one existed.
    pub fn remove(&mut self, key: &String) -> (r: bool)
        ensures
            final(self)@ == old(self)@.remove(key@),
            r == old(self)@.contains_key(key@),
    {
        let had = self.contains_key(key);
        let n = self.entries.len();
        let mut kept: Vec<(String, DBEntry)> = Vec::new();
        let mut i: usize = 0;
        proof {
            assert(self.entries@.subrange(0, 0) =~= Seq::<(String, DBEntry)>::empty());
            assert(kv_map(kept@) =~= kv_map(self.entries@.subrange(0, 0)).remove(key@));
        }
        while i < n
            invariant
                i <= n,
                n == self.entries@.len(),
                kv_map(kept@) == kv_map(self.entries@.subrange(0, i as int)).remove(key@),
            decreases n - i,
        {
            let keep = !(self.entries[i].0 == *key);
            proof {
                let t = self.entries@.subrange(0, i + 1);
                assert(t.drop_last() =~= self.entries@.subrange(0, i as int));
                assert(t.last() == self.entries@[i as int]);
            }
            if keep {
                let ghost old_kept = kept@;
                let pair = (self.entries[i].0.clone(), self.entries[i].1.clone());
                kept.push(pair);
                proof {
                    assert(kept@.drop_last() =~= old_kept);
                    assert(kv_map(kept@) =~= kv_map(
                        self.entries@.subrange(0, i + 1),
                    ).remove(key@));
                }
            } else {
                proof {
                    assert(kv_map(kept@) =~= kv_map(
                        self.entries@.subrange(0, i + 1),
                    ).remove(key@));
                }
            }
            i = i + 1;
        }
        proof {
            assert(self.entries@.subrange(0, n as int) =~= self.entries@);
        }
        self.entries = kept;
        had
    }
}

/// The mapping modelled by a list of text bindings; a later binding for the
/// same key shadows an earlier one.
pub open spec fn meta_map(s: Seq<(String, String)>) -> Map<Seq<char>, Seq<char>>
    decreases s.len(),
{
    if s.len() == 0 {
        Map::empty()
    } else {
        meta_map(s.drop_last()).insert(s.last().0@, s.last().1@)
    }
}

/// The model of a loaded snapshot and of the live keyspace built from it.
pub struct RdbModel {
    pub version: Seq<char>,
    pub metadata: Map<Seq<char>, Seq<char>>,
    pub db_hash_table_size: int,
    pub expiry_hash_table_size: int,
    pub selected_db: u32,
    pub data: Map<Seq<char>, EntryModel>,
    pub original_checksum: u64,
}

/// The keyspace together with the snapshot framing it was loaded from: the
/// data mapping drives `SET`/`GET`; the rest is retained for diagnostics.
pub struct Rdb {
    pub(crate) version: String,
    pub(crate) metadata: Vec<(String, String)>,
    pub(crate) db_hash_table_size: usize,
    pub(crate) expiry_hash_table_size: usize,
    pub(crate) selected_db: u32,
    pub(crate) data: Store,
    pub(crate) original_checksum: u64,
}

impl View for Rdb {
    type V = RdbModel;

    closed spec fn view(&self) -> RdbModel {
        RdbModel {
            version: self.version@,
            metadata: meta_map(self.metadata@),
            db_hash_table_size: self.db_hash_table_size as int,
            expiry_hash_table_size: self.expiry_hash_table_size as int,
            selected_db: self.selected_db,
            data: self.data@,
            original_checksum: self.original_checksum,
        }
    }
}

/// The model of an empty keyspace with empty framing.
pub open spec fn empty_rdb() -> RdbModel {
    RdbModel {
        version: Seq::empty(),
        metadata: Map::empty(),
        db_hash_table_size: 0,
        expiry_hash_table_size: 0,
        selected_db: 0,
        data: Map::empty(),
        original_checksum: 0,
    }
}

impl Default for Rdb {
    /// An empty keyspace with empty framing.
    fn default() -> (r: Self)
        ensures
            r@ == empty_rdb(),
    {
        let r = Rdb {
            version: String::new(),
            metadata: Vec::new(),
            db_hash_table_size: 0,
            expiry_hash_table_size: 0,
            selected_db: 0,
            data: Store::new(),
            original_checksum: 0,
        };
        proof {
            assert(r@.metadata =~= empty_rdb().metadata);
            assert(r@.data =~= empty_rdb().data);
            assert(r@.version =~= empty_rdb().version);
        }
        r
    }
}

/// What a `set` does to the mapping: the condition is consulted against the
/// key's presence, then the new value is bound, inheriting the prior expiry
/// when `keep_ttl` asks for it.
pub open spec fn spec_db_set(
    m: Map<Seq<char>, EntryModel>,
    key: Seq<char>,
    value: RespData,
    opts: crate::command::SetOptsModel,
) -> Map<Seq<char>, EntryModel> {
    let present = m.contains_key(key);
    if present && opts.condition == crate::command::SetCondition::IfNotExists {
        m
    } else if !present && opts.condition == crate::command::SetCondition::IfExists {
        m
    } else {
        let expires_at = if opts.keep_ttl && present {
            m[key].expires_at
        } else {
            opts.expires_at
        };
        m.insert(key, EntryModel { value, expires_at })
    }
}

/// What a `get` does: a live value is returned, an expired entry is removed
/// and reported missing, an absent key is missing.
pub open spec fn spec_db_get(m: Map<Seq<char>, EntryModel>, key: Seq<char>, now_ms: u64) -> (
    Option<RespData>,
    Map<Seq<char>, EntryModel>,
) {
    if m.contains_key(key) {
        if spec_expired(m[key], now_ms) {
            (None, m.remove(key))
        } else {
            (Some(m[key].value), m)
        }
    } else {
        (None, m)
    }
}

/// Membership and value at `k` in the metadata mapping are decided by the
/// last binding with key `k` among the first `n` bindings.
proof fn lemma_meta_map_prefix(s: Seq<(String, String)>, n: int, k: Seq<char>)
    requires
        0 <= n <= s.len(),
        forall|j: int| n <= j < s.len() ==> (#[trigger] s[j].0@) != k,
    ensures
        meta_map(s).contains_key(k) == meta_map(s.subrange(0, n)).contains_key(k),
        meta_map(s).contains_key(k) ==> meta_map(s)[k] == meta_map(s.subrange(0, n))[k],
    decreases s.len() - n,
{
    if n == s.len() {
        assert(s.subrange(0, n) =~= s);
    } else {
        lemma_meta_map_prefix(s, n + 1, k);
        let t = s.subrange(0, n + 1);
        assert(t.drop_last() =~= s.subrange(0, n));
        assert(t.last() == s[n]);
    }
}

impl Rdb {
    /// The snapshot format version.
    pub fn version(&self) -> (r: &String)
        ensures
            r@ == self@.version,
    {
        &self.version
    }

    /// The selected database index.
    pub fn selected_db(&self) -> (r: u32)
        ensures
            r == self@.selected_db,
    {
        self.selected_db
    }

    /// The checksum read from the snapshot.
    pub fn original_checksum(&self) -> (r: u64)
        ensures
            r == self@.original_checksum,
    {
        self.original_checksum
    }

    /// The declared size of the key/value hash table.
    pub fn db_hash_table_size(&self) -> (r: usize)
        ensures
            r as int == self@.db_hash_table_size,
    {
        self.db_hash_table_size
    }

    /// The declared size of the expiry hash table.
    pub fn expiry_hash_table_size(&self) -> (r: usize)
        ensures
            r as int == self@.expiry_hash_table_size,
    {
        self.expiry_hash_table_size
    }

    /// Looks a metadata attribute up; the last binding wins.
    pub fn metadata_get(&self, key: &String) -> (r: Option<&String>)
        ensures
            match r {
                Some(v) => self@.metadata.contains_key(key@) && v@ == self@.metadata[key@],
                None => !self@.metadata.contains_key(key@),
            },
    {
        let n = self.metadata.len();
        let mut i: usize = n;
        while i > 0
            invariant
                i <= n,
                n == self.metadata@.len(),
                forall|j: int| i <= j < n ==> (#[trigger] self.metadata@[j].0@) != key@,
            decreases i,
        {
            i = i - 1;
            if self.metadata[i].0 == *key {
                proof {
                    lemma_meta_map_prefix(self.metadata@, i + 1, key@);
                    let t = self.metadata@.subrange(0, i + 1);
                    assert(t.drop_last() =~= self.metadata@.subrange(0, i as int));
                    assert(t.last() == self.metadata@[i as int]);
                }
                return Some(&self.metadata[i].1);
            }
        }
        proof {
            lemma_meta_map_prefix(self.metadata@, 0, key@);
            assert(self.metadata@.subrange(0, 0) =~= Seq::<(String, String)>::empty());
        }
        None
    }

    /// Records the snapshot format version.
    pub(crate) fn set_version(&mut self, v: String)
        ensures
            final(self)@ == (RdbModel { version: v@, ..old(self)@ }),
    {
        self.version = v;
    }

    /// Records one metadata attribute.
    pub(crate) fn push_metadata(&mut self, key: String, value: String)
        ensures
            final(self)@ == (RdbModel {
                metadata: old(self)@.metadata.insert(key@, value@),
                ..old(self)@
            }),
    {
        let ghost old_meta = self.metadata@;
        self.metadata.push((key, value));
        proof {
            assert(self.metadata@.drop_last() =~= old_meta);
        }
    }

    /// Records the selected database index.
    pub(crate) fn set_selected_db(&mut self, db: u32)
        ensures
            final(self)@ == (RdbModel { selected_db: db, ..old(self)@ }),
    {
        self.selected_db = db;
    }

    /// Records the declared hash table sizes.
    pub(crate) fn set_table_sizes(&mut self, db_size: usize, expiry_size: usize)
        ensures
            final(self)@ == (RdbModel {
                db_hash_table_size: db_size as int,
                expiry_hash_table_size: expiry_size as int,
                ..old(self)@
            }),
    {
        self.db_hash_table_size = db_size;
        self.expiry_hash_table_size = expiry_size;
    }

    /// Records the checksum read from the end of the snapshot.
    pub(crate) fn set_checksum(&mut self, checksum: u64)
        ensures
            final(self)@ == (RdbModel { original_checksum: checksum, ..old(self)@ }),
    {
        self.original_checksum = checksum;
    }

    /// Binds a key to an entry in the keyspace.
    pub(crate) fn insert_entry(&mut self, key: String, entry: DBEntry)
        ensures
            final(self)@ == (RdbModel {
                data: old(self)@.data.insert(key@, entry@),
                ..old(self)@
            }),
    {
        self.data.insert(key, entry);
    }

    /// The key/value table of the keyspace.
    pub fn data_mut(&mut self) -> (r: &mut Store)
        ensures
            r@ == old(self)@.data,
            final(self)@ == (RdbModel { data: final(r)@, ..old(self)@ }),
    {
        &mut self.data
    }

    /// Stores a value under a key, honouring the set options.
    pub fn db_set(&mut self, key: String, value: RESPValue, opts: &crate::command::SetOpts)
        ensures
            final(self)@ == (RdbModel {
                data: spec_db_set(old(self)@.data, key@, value.deep_view(), opts@),
                ..old(self)@
            }),
    {
        let key_exists = self.data.contains_key(&key);
        let condition = opts.condition();
        if key_exists && *condition == crate::command::SetCondition::IfNotExists {
            return ;
        }
        if !key_exists && *condition == crate::command::SetCondition::IfExists {
            return ;
        }
        let expires_at: Option<u64> = if opts.keep_ttl() && key_exists {
            match self.data.get(&key) {
                Some(e) => e.expires_at(),
                None => opts.expires_at(),
            }
        } else {
            opts.expires_at()
        };
        let new_entry = DBEntry::new(value, expires_at);
        self.data.insert(key, new_entry);
    }

    /// Reads a value; an entry found expired is removed and reported
    /// missing.
    pub fn db_get(&mut self, key: &String, now_ms: u64) -> (r: Option<RESPValue>)
        ensures
            ({
                let (rv, m2) = spec_db_get(old(self)@.data, key@, now_ms);
                &&& final(self)@ == (RdbModel { data: m2, ..old(self)@ })
                &&& match r {
                    Some(v) => rv == Some(v.deep_view()),
                    None => rv is None,
                }
            }),
    {
        let entry = match self.data.get(key) {
            Some(e) => Some(e.clone()),
            None => None,
        };
        if let Some(entry) = entry {
            if entry.is_expired(now_ms) {
                self.data.remove(key);
                return None;
            }
            Some(entry.value().clone())
        } else {
            None
        }
    }

    /// Removes a key unconditionally; reports whether it was present.
    pub fn db_delete(&mut self, key: &String) -> (r: bool)
        ensures
            final(self)@ == (RdbModel { data: old(self)@.data.remove(key@), ..old(self)@ }),
            r == old(self)@.data.contains_key(key@),
    {
        self.data.remove(key)
    }
}

impl DBEntry {
    /// The raw expiry instant of the entry.
    pub fn expires_at(&self) -> (r: Option<u64>)
        ensures
            r == self@.expires_at,
    {
        self.expires_at
    }
}

/// After an unconditional `set` with no expiry, a `get` at any instant
/// returns the stored value and leaves the mapping unchanged.
pub proof fn lemma_set_then_get(
    m: Map<Seq<char>, EntryModel>,
    key: Seq<char>,
    value: RespData,
    opts: crate::command::SetOptsModel,
    now_ms: u64,
)
    requires
        opts.condition == crate::command::SetCondition::Always,
        !opts.keep_ttl,
        opts.expires_at is None,
    ensures
        ({
            let m2 = spec_db_set(m, key, value, opts);
            spec_db_get(m2, key, now_ms) == (Some(value), m2)
        }),
{
}

/// After an unconditional `set` with expiry instant `d`, a `get` before `d`
/// returns the value and a `get` after `d` reports the key missing and
/// removes it. (At `d` itself the entry is not yet expired: expiry is
/// strict.)
pub proof fn lemma_set_with_deadline(
    m: Map<Seq<char>, EntryModel>,
    key: Seq<char>,
    value: RespData,
    opts: crate::command::SetOptsModel,
    now_ms: u64,
    d: u64,
)
    requires
        opts.condition == crate::command::SetCondition::Always,
        !opts.keep_ttl,
        opts.expires_at == Some(d),
    ensures
        ({
            let m2 = spec_db_set(m, key, value, opts);
            &&& now_ms < d ==> spec_db_get(m2, key, now_ms) == (Some(value), m2)
            &&& now_ms > d ==> spec_db_get(m2, key, now_ms) == (
                None::<RespData>,
                m2.remove(key),
            )
        }),
{
}

/// A `set` with the if-not-exists condition on a present key changes
/// nothing.
pub proof fn lemma_set_nx_present(
    m: Map<Seq<char>, EntryModel>,
    key: Seq<char>,
    value: RespData,
    opts: crate::command::SetOptsModel,
)
    requires
        opts.condition == crate::command::SetCondition::IfNotExists,
        m.contains_key(key),
    ensures
        spec_db_set(m, key, value, opts) == m,
{
}

/// A `set` with the if-exists condition on an absent key changes nothing.
pub proof fn lemma_set_xx_absent(
    m: Map<Seq<char>, EntryModel>,
    key: Seq<char>,
    value: RespData,
    opts: crate::command::SetOptsModel,
)
    requires
        opts.condition == crate::command::SetCondition::IfExists,
        !m.contains_key(key),
    ensures
        spec_db_set(m, key, value, opts) == m,
{
}

} // verus!
