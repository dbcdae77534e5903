//! The typed accessor for the clusters collection.
//!
//! It binds the collection name, translates records through the key and
//! entity codecs, and assigns each new record a fresh time-ordered
//! identifier and its creation instant.

use vstd::prelude::*;
use vstd::map::*;
use crate::keys::{spec_key, spec_collection_prefix, is_prefix, lex_lt, KEY_SEP, encode_key,
    lemma_key_preserves_id_order, lemma_lex_lt_irreflexive, lemma_lex_lt_asymmetric};
use crate::entity::{Cluster, ClusterView, CreateClusterRequest, well_formed, pairs_view,
    entries_to_map, canonicalize_config, clone_bytes};
use crate::codec::{spec_encode, spec_decode, decode};
use crate::store::EntityStore;
use crate::StoreError;

verus! {

/// A byte the identifier alphabet allows: a lowercase hex digit or a
/// hyphen. The key separator is not among them, so identifiers can never
/// make two distinct keys collide.
pub open spec fn is_id_byte(b: u8) -> bool {
    (0x30 <= b <= 0x39) || (0x61 <= b <= 0x66) || b == 0x2d
}

/// Relies on uuid::Uuid::now_v7 and its hyphenated text form: a fresh
/// time-ordered identifier, 36 bytes, each a lowercase hex digit or a
/// hyphen.
#[verifier::external_body]
fn fresh_id() -> (r: Vec<u8>)
    ensures
        r@.len() == 36,
        forall|j: int| 0 <= j < r@.len() ==> is_id_byte(#[trigger] r@[j]),
{
    uuid::Uuid::now_v7().to_string().into_bytes()
}

/// Relies on chrono::Utc::now: the current instant in milliseconds since
/// the Unix epoch.
#[verifier::external_body]
fn now_millis() -> i64 {
    chrono::offset::Utc::now().timestamp_millis()
}

/// The name of the clusters collection.
pub open spec fn clusters_collection() -> Seq<u8> {
    seq![0x63u8, 0x6cu8, 0x75u8, 0x73u8, 0x74u8, 0x65u8, 0x72u8, 0x73u8]
}

/// The collection name as bytes (`clusters`); it contains no separator.
pub fn clusters_collection_bytes() -> (r: Vec<u8>)
    ensures
        r@ == clusters_collection(),
        !clusters_collection().contains(KEY_SEP),
{
    let mut r: Vec<u8> = Vec::new();
    r.push(0x63);
    r.push(0x6c);
    r.push(0x75);
    r.push(0x73);
    r.push(0x74);
    r.push(0x65);
    r.push(0x72);
    r.push(0x73);
    proof {
        assert(r@ =~= clusters_collection());
        assert(forall|j: int| 0 <= j < clusters_collection().len()
            ==> clusters_collection()[j] != KEY_SEP);
    }
    r
}

impl Cluster {
    /// The raw key this record is stored under in the clusters collection.
    pub fn get_key(&self) -> (key: Vec<u8>)
        ensures
            key@ == spec_key(clusters_collection(), self.id@),
    {
        let collection = clusters_collection_bytes();
        encode_key(&collection, &self.id)
    }
}

/// The outcome a point lookup of `id` is bound to have against store
/// contents `m`, engine failures aside: absence is a successful `None`, a
/// stored record that decodes is returned, one that does not is a
/// corruption failure of this one lookup.
pub open spec fn spec_lookup(m: Map<Seq<u8>, Seq<u8>>, id: Seq<u8>) -> Result<
    Option<ClusterView>,
    StoreError,
> {
    let key = spec_key(clusters_collection(), id);
    if m.dom().contains(key) {
        match spec_decode(m[key]) {
            Some(c) => Ok(Some(c)),
            None => Err(StoreError::Corruption),
        }
    } else {
        Ok(None)
    }
}

/// The executable lookup result agrees with the mathematical outcome.
pub open spec fn lookup_matches(
    r: Result<Option<Cluster>, StoreError>,
    s: Result<Option<ClusterView>, StoreError>,
) -> bool {
    match r {
        Ok(Some(c)) => s == Ok::<Option<ClusterView>, StoreError>(Some(c@)),
        Ok(None) => s == Ok::<Option<ClusterView>, StoreError>(None::<ClusterView>),
        Err(e) => s == Err::<Option<ClusterView>, StoreError>(e),
    }
}

/// The outcome of decoding one scanned record.
pub open spec fn item_matches(r: Result<Cluster, StoreError>, bytes: Seq<u8>) -> bool {
    match r {
        Ok(c) => spec_decode(bytes) == Some(c@),
        Err(e) => e == StoreError::Corruption && spec_decode(bytes) is None,
    }
}

/// What a listing of the collection is: item keys strictly ascending in
/// the store's key order, every item a stored record of the collection
/// decoded independently, and every stored record of the collection
/// present.
pub open spec fn listing_matches(
    m: Map<Seq<u8>, Seq<u8>>,
    items: Seq<(Vec<u8>, Result<Cluster, StoreError>)>,
) -> bool {
    let prefix = spec_collection_prefix(clusters_collection());
    &&& (forall|j: int, k: int|
        0 <= j < k < items.len() ==> lex_lt((#[trigger] items[j]).0@, (#[trigger] items[k]).0@))
    &&& (forall|j: int|
        0 <= j < items.len() ==> is_prefix(prefix, (#[trigger] items[j]).0@) && m.dom().contains(
            items[j].0@,
        ) && item_matches(items[j].1, m[items[j].0@]))
    &&& (forall|key: Seq<u8>|
        #[trigger] m.dom().contains(key) && is_prefix(prefix, key) ==> exists|j: int|
            0 <= j < items.len() && (#[trigger] items[j]).0@ == key)
}

/// The typed facade over the entity store for cluster records.
pub struct Clusters {
    store: EntityStore,
}

impl Clusters {
    /// The raw contents of the underlying store.
    pub closed spec fn contents(self) -> Map<Seq<u8>, Seq<u8>> {
        self.store.contents()
    }

    /// Wraps the store.
    pub fn new(store: EntityStore) -> (c: Clusters)
        ensures
            c.contents() == store.contents(),
    {
        Clusters { store }
    }

    /// Creates a record: assigns a fresh time-ordered identifier and one
    /// creation instant (so `created_at == modified_at`), brings the
    /// configuration into canonical form, encodes, and stores the record
    /// under its key. The stored entity is returned to the caller.
    pub fn create(&mut self, req: &CreateClusterRequest) -> (r: Result<Cluster, StoreError>)
        ensures
            match r {
                Ok(c) => {
                    &&& well_formed(c@)
                    &&& c@.name == req.name@
                    &&& c@.kind == req.kind
                    &&& entries_to_map(c@.config) == entries_to_map(pairs_view(req.config@))
                    &&& c@.created_at == c@.modified_at
                    &&& c@.id.len() == 36
                    &&& (forall|j: int| 0 <= j < c@.id.len() ==> is_id_byte(#[trigger] c@.id[j]))
                    &&& final(self).contents() == old(self).contents().insert(
                        spec_key(clusters_collection(), c@.id),
                        spec_encode(c@),
                    )
                },
                Err(e) => e == StoreError::Io,
            },
    {
        let id = fresh_id();
        let raw_now = now_millis();
        let now: i64 = if raw_now < 0 {
            0
        } else {
            raw_now
        };
        let name = clone_bytes(&req.name);
        let config = canonicalize_config(&req.config);
        let c = Cluster { id, kind: req.kind, name, config, created_at: now, modified_at: now };
        proof {
            assert(c@.name.len() == c.name.len());
            assert(c@.config.len() == c.config.len());
            assert forall|j: int|
                0 <= j < c@.config.len() implies (#[trigger] c@.config[j]).0.len() <= u64::MAX
                    && c@.config[j].1.len() <= u64::MAX by {
                assert(c@.config[j].0 == c.config@[j].0@);
                assert(c@.config[j].1 == c.config@[j].1@);
                assert(c.config@[j].0@.len() == c.config@[j].0.len());
                assert(c.config@[j].1@.len() == c.config@[j].1.len());
            }
            assert(well_formed(c@));
        }
        let value = c.encode();
        let collection = clusters_collection_bytes();
        match self.store.insert(&collection, &c.id, &value) {
            Ok(u) => Ok(c),
            Err(e) => Err(StoreError::Io),
        }
    }

    /// Point lookup by identifier. Absence is a successful `None`, never
    /// an error; a stored record that does not decode is a corruption
    /// failure of this one lookup. Engine failures aside, the result is a
    /// function of the store contents and the identifier alone.
    pub fn get(&self, id: &Vec<u8>) -> (r: Result<Option<Cluster>, StoreError>)
        ensures
            r == Err::<Option<Cluster>, StoreError>(StoreError::Io) || lookup_matches(
                r,
                spec_lookup(self.contents(), id@),
            ),
    {
        let collection = clusters_collection_bytes();
        match self.store.get(&collection, id) {
            Err(e) => Err(StoreError::Io),
            Ok(None) => Ok(None),
            Ok(Some(bytes)) => match decode(&bytes) {
                Ok(c) => Ok(Some(c)),
                Err(e) => Err(StoreError::Corruption),
            },
        }
    }

    /// Lists the collection in the store's key order — approximately
    /// creation order, by the time-ordered identifier scheme; no other
    /// sort is applied. Each item carries its raw key and decodes
    /// independently: a corrupted record yields a corruption failure for
    /// that one key, and every other record of the collection still
    /// appears exactly once.
    pub fn list(&self) -> (r: Result<Vec<(Vec<u8>, Result<Cluster, StoreError>)>, StoreError>)
        ensures
            match r {
                Ok(items) => listing_matches(self.contents(), items@),
                Err(e) => e == StoreError::Io,
            },
    {
        let collection = clusters_collection_bytes();
        let entries = match self.store.scan(&collection) {
            Ok(entries) => entries,
            Err(e) => {
                return Err(StoreError::Io);
            },
        };
        let ghost es = pairs_view(entries@);
        let mut items: Vec<(Vec<u8>, Result<Cluster, StoreError>)> = Vec::new();
        let mut j: usize = 0;
        while j < entries.len()
            invariant
                j <= entries@.len(),
                items@.len() == j,
                es == pairs_view(entries@),
                es.len() == entries@.len(),
                forall|n: int| 0 <= n < j ==> (#[trigger] items@[n]).0@ == es[n].0,
                forall|n: int|
                    0 <= n < j ==> item_matches((#[trigger] items@[n]).1, es[n].1),
            decreases entries@.len() - j,
        {
            let key = clone_bytes(&entries[j].0);
            let outcome = decode(&entries[j].1);
            items.push((key, outcome));
            j = j + 1;
        }
        proof {
            let m = self.contents();
            let prefix = spec_collection_prefix(clusters_collection());
            assert forall|a: int, b: int| 0 <= a < b < items@.len() implies lex_lt(
                (#[trigger] items@[a]).0@,
                (#[trigger] items@[b]).0@,
            ) by {
                assert(lex_lt(es[a].0, es[b].0));
            }
            assert forall|a: int| 0 <= a < items@.len() implies is_prefix(
                prefix,
                (#[trigger] items@[a]).0@,
            ) && m.dom().contains(items@[a].0@) && item_matches(items@[a].1, m[items@[a].0@]) by {
                assert(is_prefix(prefix, es[a].0));
                assert(es[a].1 == m[es[a].0]);
            }
            assert forall|key: Seq<u8>|
                #[trigger] m.dom().contains(key) && is_prefix(prefix, key) implies exists|n: int|
                0 <= n < items@.len() && (#[trigger] items@[n]).0@ == key by {
                let n = choose|n: int| 0 <= n < es.len() && (#[trigger] es[n]).0 == key;
                assert(items@[n].0@ == key);
            }
            assert(listing_matches(m, items@));
        }
        Ok(items)
    }
}

/// Point lookups are idempotent: two lookups of one identifier against one
/// store state that both reach the store agree on everything but an
/// engine-level failure; two that succeed return the same record.
pub proof fn lemma_get_idempotent(
    m: Map<Seq<u8>, Seq<u8>>,
    id: Seq<u8>,
    r1: Result<Option<Cluster>, StoreError>,
    r2: Result<Option<Cluster>, StoreError>,
)
    requires
        lookup_matches(r1, spec_lookup(m, id)),
        lookup_matches(r2, spec_lookup(m, id)),
    ensures
        match (r1, r2) {
            (Ok(Some(c1)), Ok(Some(c2))) => c1@ == c2@,
            (Ok(None), Ok(None)) => true,
            (Ok(o1), Ok(o2)) => false,
            (Err(e1), Err(e2)) => e1 == e2,
            (o1, o2) => false,
        },
{
}

/// Absence is not failure: an identifier with no record in the store
/// looks up as a successful `None`.
pub proof fn lemma_absent_is_not_failure(m: Map<Seq<u8>, Seq<u8>>, id: Seq<u8>)
    requires
        !m.dom().contains(spec_key(clusters_collection(), id)),
    ensures
        spec_lookup(m, id) == Ok::<Option<ClusterView>, StoreError>(None::<ClusterView>),
{
}

/// A record just written under its key is retrievable: against the store
/// contents that a successful creation leaves behind, looking its
/// identifier up is bound to return exactly the created record.
pub proof fn lemma_created_record_is_retrievable(m: Map<Seq<u8>, Seq<u8>>, c: ClusterView)
    requires
        well_formed(c),
    ensures
        spec_lookup(
            m.insert(spec_key(clusters_collection(), c.id), spec_encode(c)),
            c.id,
        ) == Ok::<Option<ClusterView>, StoreError>(Some(c)),
{
    crate::codec::lemma_round_trip(c);
}

/// Listing keeps creation order: in any key-sorted listing, a record
/// whose identifier precedes another's lexicographically — as earlier
/// time-ordered identifiers precede later ones — stands before it.
pub proof fn lemma_listing_keeps_id_order(
    ks: Seq<Seq<u8>>,
    collection: Seq<u8>,
    id1: Seq<u8>,
    id2: Seq<u8>,
    j: int,
    k: int,
)
    requires
        forall|a: int, b: int| 0 <= a < b < ks.len() ==> lex_lt(#[trigger] ks[a], #[trigger] ks[b]),
        0 <= j < ks.len(),
        0 <= k < ks.len(),
        ks[j] == spec_key(collection, id1),
        ks[k] == spec_key(collection, id2),
        lex_lt(id1, id2),
    ensures
        j < k,
{
    lemma_key_preserves_id_order(collection, id1, id2);
    if j == k {
        lemma_lex_lt_irreflexive(ks[j]);
    } else if j > k {
        lemma_lex_lt_asymmetric(ks[k], ks[j]);
    }
}

} // verus!
