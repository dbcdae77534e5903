//! The key codec: an order-preserving, injective mapping from a
//! `(collection, id)` pair to the raw byte key under which the entity is
//! stored.
//!
//! A key is the collection name, one separator byte, then the identifier.
//! As long as collection names never contain the separator, distinct pairs
//! give distinct keys, and all keys of one collection are contiguous in the
//! store's lexicographic key order: they are exactly the keys that start
//! with the collection's prefix.

use vstd::prelude::*;
use crate::bytes_util::append_bytes;

verus! {

/// The byte (`/`) separating the collection name from the identifier.
pub const KEY_SEP: u8 = 0x2f;

/// The bytes that start every key of the collection.
pub open spec fn spec_collection_prefix(collection: Seq<u8>) -> Seq<u8> {
    collection + seq![KEY_SEP]
}

/// The raw key of an entity: collection name, separator, identifier.
pub open spec fn spec_key(collection: Seq<u8>, id: Seq<u8>) -> Seq<u8> {
    spec_collection_prefix(collection) + id
}

/// `p` is an initial segment of `s`.
pub open spec fn is_prefix(p: Seq<u8>, s: Seq<u8>) -> bool {
    p.len() <= s.len() && s.take(p.len() as int) == p
}

/// Strict lexicographic order on byte strings, the order the store keeps
/// its keys in.
pub open spec fn lex_lt(a: Seq<u8>, b: Seq<u8>) -> bool
    decreases a.len(),
{
    if b.len() == 0 {
        false
    } else if a.len() == 0 {
        true
    } else if a[0] < b[0] {
        true
    } else if a[0] > b[0] {
        false
    } else {
        lex_lt(a.skip(1), b.skip(1))
    }
}

/// Builds the raw key for `(collection, id)`.
pub fn encode_key(collection: &Vec<u8>, id: &Vec<u8>) -> (key: Vec<u8>)
    ensures
        key@ == spec_key(collection@, id@),
{
    let mut key: Vec<u8> = Vec::new();
    append_bytes(&mut key, collection);
    key.push(KEY_SEP);
    append_bytes(&mut key, id);
    proof {
        assert(key@ =~= spec_key(collection@, id@));
    }
    key
}

/// Builds the prefix shared by every key of `collection`.
pub fn encode_collection_prefix(collection: &Vec<u8>) -> (p: Vec<u8>)
    ensures
        p@ == spec_collection_prefix(collection@),
{
    let mut p: Vec<u8> = Vec::new();
    append_bytes(&mut p, collection);
    p.push(KEY_SEP);
    proof {
        assert(p@ =~= spec_collection_prefix(collection@));
    }
    p
}

/// Every key of a collection starts with that collection's prefix.
pub proof fn lemma_key_has_collection_prefix(collection: Seq<u8>, id: Seq<u8>)
    ensures
        is_prefix(spec_collection_prefix(collection), spec_key(collection, id)),
{
    let p = spec_collection_prefix(collection);
    assert(spec_key(collection, id).take(p.len() as int) =~= p);
}

/// Key uniqueness: distinct `(collection, id)` pairs give distinct keys,
/// provided collection names never contain the separator byte.
pub proof fn lemma_encode_key_injective(c1: Seq<u8>, i1: Seq<u8>, c2: Seq<u8>, i2: Seq<u8>)
    requires
        !c1.contains(KEY_SEP),
        !c2.contains(KEY_SEP),
        c1 != c2 || i1 != i2,
    ensures
        spec_key(c1, i1) != spec_key(c2, i2),
{
    let k1 = spec_key(c1, i1);
    let k2 = spec_key(c2, i2);
    if k1 == k2 {
        assert(k1.len() == k2.len());
        if c1.len() < c2.len() {
            assert(k1[c1.len() as int] == KEY_SEP);
            assert(k2[c1.len() as int] == c2[c1.len() as int]);
            assert(c2.contains(KEY_SEP));
        } else if c2.len() < c1.len() {
            assert(k2[c2.len() as int] == KEY_SEP);
            assert(k1[c2.len() as int] == c1[c2.len() as int]);
            assert(c1.contains(KEY_SEP));
        } else {
            assert forall|j: int| 0 <= j < c1.len() implies c1[j] == c2[j] by {
                assert(k1[j] == c1[j]);
                assert(k2[j] == c2[j]);
            }
            assert(c1 =~= c2);
            assert(i1.len() == i2.len());
            assert forall|j: int| 0 <= j < i1.len() implies i1[j] == i2[j] by {
                assert(k1[c1.len() + 1 + j] == i1[j]);
                assert(k2[c2.len() + 1 + j] == i2[j]);
            }
            assert(i1 =~= i2);
        }
        assert(false);
    }
}

/// No byte string is lexicographically below itself.
pub proof fn lemma_lex_lt_irreflexive(a: Seq<u8>)
    ensures
        !lex_lt(a, a),
    decreases a.len(),
{
    if a.len() > 0 {
        lemma_lex_lt_irreflexive(a.skip(1));
    }
}

/// At most one of `lex_lt(a, b)` and `lex_lt(b, a)` holds.
pub proof fn lemma_lex_lt_asymmetric(a: Seq<u8>, b: Seq<u8>)
    requires
        lex_lt(a, b),
    ensures
        !lex_lt(b, a),
    decreases a.len(),
{
    if a.len() > 0 && b.len() > 0 && a[0] == b[0] {
        lemma_lex_lt_asymmetric(a.skip(1), b.skip(1));
    }
}

/// Prepending one common prefix to two byte strings keeps their order.
pub proof fn lemma_lex_lt_common_prefix(p: Seq<u8>, a: Seq<u8>, b: Seq<u8>)
    ensures
        lex_lt(p + a, p + b) == lex_lt(a, b),
    decreases p.len(),
{
    if p.len() == 0 {
        assert(p + a =~= a);
        assert(p + b =~= b);
    } else {
        assert((p + a).len() > 0);
        assert((p + b).len() > 0);
        assert((p + a)[0] == p[0]);
        assert((p + b)[0] == p[0]);
        assert((p + a).skip(1) =~= p.skip(1) + a);
        assert((p + b).skip(1) =~= p.skip(1) + b);
        lemma_lex_lt_common_prefix(p.skip(1), a, b);
    }
}

/// The key codec preserves identifier order within one collection: keys of
/// the same collection sort exactly as their identifiers do.
pub proof fn lemma_key_preserves_id_order(collection: Seq<u8>, i1: Seq<u8>, i2: Seq<u8>)
    ensures
        lex_lt(spec_key(collection, i1), spec_key(collection, i2)) == lex_lt(i1, i2),
{
    lemma_lex_lt_common_prefix(spec_collection_prefix(collection), i1, i2);
}

/// Two byte strings are ordered one way, the other, or equal.
pub proof fn lemma_lex_lt_trichotomy(a: Seq<u8>, b: Seq<u8>)
    ensures
        lex_lt(a, b) || lex_lt(b, a) || a == b,
    decreases a.len(),
{
    if a.len() == 0 && b.len() == 0 {
        assert(a =~= b);
    } else if a.len() > 0 && b.len() > 0 && a[0] == b[0] {
        lemma_lex_lt_trichotomy(a.skip(1), b.skip(1));
        if a.skip(1) == b.skip(1) {
            assert(a =~= seq![a[0]] + a.skip(1));
            assert(b =~= seq![b[0]] + b.skip(1));
        }
    }
}

/// Lexicographic order is transitive.
pub proof fn lemma_lex_lt_transitive(a: Seq<u8>, b: Seq<u8>, c: Seq<u8>)
    requires
        lex_lt(a, b),
        lex_lt(b, c),
    ensures
        lex_lt(a, c),
    decreases a.len(),
{
    if a.len() > 0 && b.len() > 0 && c.len() > 0 && a[0] == b[0] && b[0] == c[0] {
        lemma_lex_lt_transitive(a.skip(1), b.skip(1), c.skip(1));
    }
}

/// Compares two byte vectors in lexicographic order.
pub fn lex_less(a: &Vec<u8>, b: &Vec<u8>) -> (r: bool)
    ensures
        r == lex_lt(a@, b@),
{
    let mut j: usize = 0;
    proof {
        assert(a@.skip(0) =~= a@);
        assert(b@.skip(0) =~= b@);
    }
    while j < a.len() && j < b.len()
        invariant
            j <= a.len(),
            j <= b.len(),
            lex_lt(a@, b@) == lex_lt(a@.skip(j as int), b@.skip(j as int)),
        decreases a.len() - j,
    {
        let x = a[j];
        let y = b[j];
        proof {
            assert(a@.skip(j as int).len() > 0);
            assert(b@.skip(j as int).len() > 0);
            assert(a@.skip(j as int)[0] == a@[j as int]);
            assert(b@.skip(j as int)[0] == b@[j as int]);
        }
        if x < y {
            return true;
        }
        if x > y {
            return false;
        }
        proof {
            assert(a@.skip(j as int).skip(1) =~= a@.skip(j + 1));
            assert(b@.skip(j as int).skip(1) =~= b@.skip(j + 1));
        }
        j = j + 1;
    }
    proof {
        if j == a@.len() {
            assert(a@.skip(j as int).len() == 0);
        } else {
            assert(b@.skip(j as int).len() == 0);
        }
    }
    j < b.len()
}

/// Tests two byte vectors for equality.
pub fn bytes_eq(a: &Vec<u8>, b: &Vec<u8>) -> (r: bool)
    ensures
        r == (a@ == b@),
{
    if a.len() != b.len() {
        return false;
    }
    let mut j: usize = 0;
    while j < a.len()
        invariant
            j <= a.len(),
            a@.len() == b@.len(),
            forall|m: int| 0 <= m < j ==> a@[m] == b@[m],
        decreases a.len() - j,
    {
        if a[j] != b[j] {
            return false;
        }
        j = j + 1;
    }
    proof {
        assert(a@ =~= b@);
    }
    true
}

} // verus!
