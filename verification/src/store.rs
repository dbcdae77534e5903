//! The entity store: sole owner of the shared ordered key-value engine.
//!
//! The engine is modelled as a mapping from raw byte keys to stored bytes,
//! named by [`db_contents`]. The three operations — insert, point lookup,
//! prefix scan — are reached through trusted wrappers whose contracts say
//! over that mapping what the engine's own documentation promises: per-key
//! atomic writes, exact point lookups, and prefix scans in ascending key
//! order. Engine-level failures surface as [`StoreError::Io`]; no
//! operation here retries or panics.

use vstd::prelude::*;
use vstd::map::*;
use crate::keys::{spec_key, spec_collection_prefix, is_prefix, lex_lt, encode_key,
    encode_collection_prefix};
use crate::entity::pairs_view;
use crate::StoreError;

verus! {

/// Declares sled::Db, the engine's handle type; its values are opaque
/// here and only the wrappers below touch them.
#[verifier::external_type_specification]
#[verifier::external_body]
pub struct ExDb(sled::Db);

/// The mapping from raw keys to stored bytes that the engine holds.
pub uninterp spec fn db_contents(db: sled::Db) -> Map<Seq<u8>, Seq<u8>>;

/// Relies on sled::Tree::insert (reached through the Db handle): writes
/// one key to one value atomically; the prior value, if any, is replaced.
#[verifier::external_body]
fn db_insert(db: &mut sled::Db, key: &Vec<u8>, value: &Vec<u8>) -> (r: Result<(), StoreError>)
    ensures
        match r {
            Ok(u) => db_contents(*final(db)) == db_contents(*old(db)).insert(key@, value@),
            Err(e) => e == StoreError::Io,
        },
{
    match db.insert(key.as_slice(), value.as_slice()) {
        Ok(_) => Ok(()),
        Err(_) => Err(StoreError::Io),
    }
}

/// Relies on sled::Tree::get: returns the stored value of the key, or
/// nothing if the key is absent.
#[verifier::external_body]
fn db_get(db: &sled::Db, key: &Vec<u8>) -> (r: Result<Option<Vec<u8>>, StoreError>)
    ensures
        match r {
            Ok(Some(v)) => db_contents(*db).dom().contains(key@) && v@ == db_contents(*db)[key@],
            Ok(None) => !db_contents(*db).dom().contains(key@),
            Err(e) => e == StoreError::Io,
        },
{
    match db.get(key.as_slice()) {
        Ok(Some(v)) => Ok(Some(v.to_vec())),
        Ok(None) => Ok(None),
        Err(_) => Err(StoreError::Io),
    }
}

/// The entries are exactly the stored pairs whose key starts with the
/// prefix, in strictly ascending lexicographic key order.
pub open spec fn scan_matches(
    m: Map<Seq<u8>, Seq<u8>>,
    prefix: Seq<u8>,
    entries: Seq<(Seq<u8>, Seq<u8>)>,
) -> bool {
    &&& forall|j: int, k: int|
        0 <= j < k < entries.len() ==> lex_lt(#[trigger] entries[j].0, #[trigger] entries[k].0)
    &&& forall|j: int|
        0 <= j < entries.len() ==> is_prefix(prefix, (#[trigger] entries[j]).0)
            && m.dom().contains(entries[j].0) && entries[j].1 == m[entries[j].0]
    &&& forall|key: Seq<u8>|
        #[trigger] m.dom().contains(key) && is_prefix(prefix, key) ==> exists|j: int|
            0 <= j < entries.len() && (#[trigger] entries[j]).0 == key
}

/// Relies on sled::Tree::scan_prefix: iterates every stored pair whose key
/// starts with the prefix, in ascending key order; one failed step fails
/// the whole scan.
#[verifier::external_body]
fn db_scan_prefix(db: &sled::Db, prefix: &Vec<u8>) -> (r: Result<
    Vec<(Vec<u8>, Vec<u8>)>,
    StoreError,
>)
    ensures
        match r {
            Ok(entries) => scan_matches(db_contents(*db), prefix@, pairs_view(entries@)),
            Err(e) => e == StoreError::Io,
        },
{
    let mut out: Vec<(Vec<u8>, Vec<u8>)> = Vec::new();
    for item in db.scan_prefix(prefix.as_slice()) {
        match item {
            Ok((k, v)) => out.push((k.to_vec(), v.to_vec())),
            Err(_) => {
                return Err(StoreError::Io);
            },
        }
    }
    Ok(out)
}

/// The entity store. It owns the engine handle for the process lifetime;
/// every read and write of the shared store goes through it.
pub struct EntityStore {
    db: sled::Db,
}

impl EntityStore {
    /// The mapping from raw keys to stored bytes.
    pub closed spec fn contents(self) -> Map<Seq<u8>, Seq<u8>> {
        db_contents(self.db)
    }

    /// Takes sole ownership of the engine handle.
    pub fn new(db: sled::Db) -> (s: EntityStore)
        ensures
            s.contents() == db_contents(db),
    {
        EntityStore { db }
    }

    /// Writes the value under the key of `(collection, id)`, atomically
    /// for that single key; an existing value under the same key is
    /// replaced.
    pub fn insert(&mut self, collection: &Vec<u8>, id: &Vec<u8>, value: &Vec<u8>) -> (r: Result<
        (),
        StoreError,
    >)
        ensures
            r is Ok ==> final(self).contents() == old(self).contents().insert(
                spec_key(collection@, id@),
                value@,
            ),
            r is Err ==> r == Err::<(), StoreError>(StoreError::Io),
    {
        let key = encode_key(collection, id);
        db_insert(&mut self.db, &key, value)
    }

    /// Point lookup of `(collection, id)`. An absent key is a successful
    /// `None`, never an error.
    pub fn get(&self, collection: &Vec<u8>, id: &Vec<u8>) -> (r: Result<Option<Vec<u8>>, StoreError>)
        ensures
            match r {
                Ok(Some(v)) => self.contents().dom().contains(spec_key(collection@, id@)) && v@
                    == self.contents()[spec_key(collection@, id@)],
                Ok(None) => !self.contents().dom().contains(spec_key(collection@, id@)),
                Err(e) => e == StoreError::Io,
            },
    {
        let key = encode_key(collection, id);
        db_get(&self.db, &key)
    }

    /// Full ordered traversal of the collection: every stored pair whose
    /// key lies in the collection's namespace, in ascending key order.
    pub fn scan(&self, collection: &Vec<u8>) -> (r: Result<Vec<(Vec<u8>, Vec<u8>)>, StoreError>)
        ensures
            match r {
                Ok(entries) => scan_matches(
                    self.contents(),
                    spec_collection_prefix(collection@),
                    pairs_view(entries@),
                ),
                Err(e) => e == StoreError::Io,
            },
    {
        let prefix = encode_collection_prefix(collection);
        db_scan_prefix(&self.db, &prefix)
    }
}

} // verus!
