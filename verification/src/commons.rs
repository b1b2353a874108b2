//! Core data types of the key manager: key records, their mathematical
//! model, the error taxonomy, the manager configuration, and the contract of
//! a durable key store.

use vstd::prelude::*;

verus! {

/// One symmetric key record: a unique identifier, the opaque secret, and the
/// Unix timestamp (seconds) at which the record was created. Records are
/// immutable values; rotation and reload only insert, replace or remove whole
/// records.
#[derive(Debug)]
pub struct KeyMaterial {
    pub kid: String,
    pub secret: String,
    pub created_at_unix: i64,
}

/// The mathematical model of a key record: both strings as character
/// sequences and the timestamp as an unbounded integer.
#[verifier::ext_equal]
pub struct KeyModel {
    pub kid: Seq<char>,
    pub secret: Seq<char>,
    pub created_at: int,
}

impl View for KeyMaterial {
    type V = KeyModel;

    open spec fn view(&self) -> KeyModel {
        KeyModel { kid: self.kid@, secret: self.secret@, created_at: self.created_at_unix as int }
    }
}

impl Clone for KeyMaterial {
    fn clone(&self) -> (res: Self)
        ensures
            res == *self,
    {
        KeyMaterial {
            kid: self.kid.clone(),
            secret: self.secret.clone(),
            created_at_unix: self.created_at_unix,
        }
    }
}

/// A record that the persisted line format can carry faithfully: non-empty
/// identifier and secret, neither containing the `:` separator or a line
/// break, and a non-negative timestamp that fits in an `i64`.
pub open spec fn valid_record(k: KeyModel) -> bool {
    &&& k.kid.len() > 0
    &&& k.secret.len() > 0
    &&& forall|i: int| 0 <= i < k.kid.len() ==> #[trigger] k.kid[i] != ':' && k.kid[i] != '\n'
    &&& forall|i: int|
        0 <= i < k.secret.len() ==> #[trigger] k.secret[i] != ':' && k.secret[i] != '\n'
    &&& 0 <= k.created_at <= i64::MAX
}

/// The models of a sequence of key records, in the same order.
pub open spec fn key_views(ks: Seq<KeyMaterial>) -> Seq<KeyModel> {
    ks.map_values(|k: KeyMaterial| k@)
}

pub open spec fn all_valid(ks: Seq<KeyModel>) -> bool {
    forall|i: int| 0 <= i < ks.len() ==> #[trigger] valid_record(ks[i])
}

/// Why a key-store operation failed: the medium was unreadable or unwritable,
/// a persisted timestamp did not fit, the persisted content violated the
/// record grammar, or an uncategorized failure.
#[derive(Debug)]
pub enum KeyStoreError {
    Io(String),
    Parse(String),
    InvalidFormat(String),
    Other(String),
}

impl KeyStoreError {
    /// A human-readable description of the failure.
    pub fn message(&self) -> (msg: String)
        ensures
            match *self {
                KeyStoreError::Io(ref s) => msg@ == "IO error: "@ + s@,
                KeyStoreError::Parse(ref s) => msg@ == "Parse error: "@ + s@,
                KeyStoreError::InvalidFormat(ref s) => msg@ == "Format error: "@ + s@,
                KeyStoreError::Other(ref s) => msg@ == "Other error: "@ + s@,
            },
    {
        match self {
            KeyStoreError::Io(s) => String::from_str("IO error: ").concat(s.as_str()),
            KeyStoreError::Parse(s) => String::from_str("Parse error: ").concat(s.as_str()),
            KeyStoreError::InvalidFormat(s) => String::from_str("Format error: ").concat(
                s.as_str(),
            ),
            KeyStoreError::Other(s) => String::from_str("Other error: ").concat(s.as_str()),
        }
    }
}

/// Configuration of a key manager: the length of generated secrets, the
/// minimum number of live keys, the key lifetime in seconds (carried in the
/// configuration; rotation does not prune by age), and the minimum time in
/// milliseconds between reloads from the store.
#[derive(Debug, Clone, Copy)]
pub struct KeyManagerConfig {
    pub size: usize,
    pub count: usize,
    pub ttl_secs: u64,
    pub reload_interval_millis: u64,
}

/// A durable store for the full ordered key list.
///
/// `contents` is the model of what the store durably holds. A successful read
/// returns exactly that sequence, and only records the line format can carry.
/// A write replaces the whole contents or, on failure, leaves them untouched:
/// no partial write is ever observable.
pub trait KeyStore: Sized {
    spec fn contents(&self) -> Seq<KeyModel>;

    fn read_keys(&self) -> (r: Result<Vec<KeyMaterial>, KeyStoreError>)
        ensures
            r matches Ok(ks) ==> key_views(ks@) == self.contents() && all_valid(key_views(ks@)),
    ;

    fn write_keys(&mut self, keys: &[KeyMaterial]) -> (r: Result<(), KeyStoreError>)
        ensures
            r is Ok && all_valid(key_views(keys@)) ==> final (self).contents() == key_views(
                keys@,
            ),
            r is Err ==> final (self).contents() == old(self).contents(),
    ;
}

} // verus!
