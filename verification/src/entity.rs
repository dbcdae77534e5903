//! The domain entity: a cluster record with its identifier, kind, name,
//! free-form configuration map and timestamps.
//!
//! The configuration is held in canonical form: entries sorted strictly by
//! key. Two logically equal configurations therefore have one in-memory
//! form and one encoding, whatever order their entries arrived in.

use vstd::prelude::*;
use vstd::map::*;
use crate::keys::{lex_lt, lex_less, bytes_eq, lemma_lex_lt_irreflexive, lemma_lex_lt_trichotomy,
    lemma_lex_lt_transitive, lemma_lex_lt_asymmetric};
use crate::bytes_util::read_bytes;
use crate::StoreError;

verus! {

/// The mathematical shape of a cluster record.
pub struct ClusterView {
    pub id: Seq<u8>,
    pub kind: u32,
    pub name: Seq<u8>,
    pub config: Seq<(Seq<u8>, Seq<u8>)>,
    pub created_at: i64,
    pub modified_at: i64,
}

/// A cluster record.
///
/// `id` is assigned once at creation and never changes; `created_at` is the
/// creation instant in milliseconds and `modified_at` never precedes it.
/// Text-valued fields are carried as their UTF-8 bytes.
#[derive(Debug, Clone, PartialEq, Eq)]
pub struct Cluster {
    pub id: Vec<u8>,
    pub kind: u32,
    pub name: Vec<u8>,
    pub config: Vec<(Vec<u8>, Vec<u8>)>,
    pub created_at: i64,
    pub modified_at: i64,
}

/// The views of a sequence of byte-vector pairs.
pub open spec fn pairs_view(s: Seq<(Vec<u8>, Vec<u8>)>) -> Seq<(Seq<u8>, Seq<u8>)> {
    s.map_values(|p: (Vec<u8>, Vec<u8>)| (p.0@, p.1@))
}

impl View for Cluster {
    type V = ClusterView;

    open spec fn view(&self) -> ClusterView {
        ClusterView {
            id: self.id@,
            kind: self.kind,
            name: self.name@,
            config: pairs_view(self.config@),
            created_at: self.created_at,
            modified_at: self.modified_at,
        }
    }
}

/// Entry keys strictly ascend in lexicographic order; in particular no key
/// occurs twice.
pub open spec fn sorted_unique(entries: Seq<(Seq<u8>, Seq<u8>)>) -> bool {
    forall|j: int, k: int|
        0 <= j < k < entries.len() ==> lex_lt(#[trigger] entries[j].0, #[trigger] entries[k].0)
}

/// The mapping a sequence of entries denotes; a later entry for the same
/// key wins.
pub open spec fn entries_to_map(entries: Seq<(Seq<u8>, Seq<u8>)>) -> Map<Seq<u8>, Seq<u8>>
    decreases entries.len(),
{
    if entries.len() == 0 {
        Map::empty()
    } else {
        entries_to_map(entries.drop_last()).insert(entries.last().0, entries.last().1)
    }
}

/// A valid cluster record: the creation instant is no later than the last
/// modification, neither precedes the epoch, the configuration is in
/// canonical form, and every field fits the length prefixes of the entity
/// codec.
pub open spec fn well_formed(c: ClusterView) -> bool {
    &&& 0 <= c.created_at
    &&& c.created_at <= c.modified_at
    &&& sorted_unique(c.config)
    &&& c.id.len() <= u64::MAX
    &&& c.name.len() <= u64::MAX
    &&& c.config.len() <= u64::MAX
    &&& forall|j: int|
        0 <= j < c.config.len() ==> (#[trigger] c.config[j]).0.len() <= u64::MAX
            && c.config[j].1.len() <= u64::MAX
}

/// What a caller submits to create a cluster: everything but the
/// identifier and the timestamps, which are assigned at creation.
#[derive(Debug, Clone, PartialEq, Eq)]
pub struct CreateClusterRequest {
    pub name: Vec<u8>,
    pub kind: u32,
    pub config: Vec<(Vec<u8>, Vec<u8>)>,
}

impl CreateClusterRequest {
    /// Checks the request; every request is currently acceptable.
    pub fn validate(&self) -> (r: Result<(), StoreError>)
        ensures
            r is Ok,
    {
        Ok(())
    }
}

/// Copies a byte vector.
pub fn clone_bytes(src: &Vec<u8>) -> (r: Vec<u8>)
    ensures
        r@ == src@,
{
    let r = read_bytes(src, 0, src.len());
    proof {
        assert(src@.subrange(0, src@.len() as int) =~= src@);
    }
    r
}

/// Inserting an entry with a fresh key anywhere in a sequence adds that
/// key to the denoted mapping.
proof fn lemma_etm_insert(s: Seq<(Seq<u8>, Seq<u8>)>, p: int, k: Seq<u8>, v: Seq<u8>)
    requires
        0 <= p <= s.len(),
        forall|m: int| 0 <= m < s.len() ==> (#[trigger] s[m]).0 != k,
    ensures
        entries_to_map(s.insert(p, (k, v))) == entries_to_map(s).insert(k, v),
    decreases s.len(),
{
    let s2 = s.insert(p, (k, v));
    if p == s.len() {
        assert(s2.drop_last() =~= s);
        assert(s2.last() == (k, v));
    } else {
        assert(s2.last() == s.last());
        assert(s2.drop_last() =~= s.drop_last().insert(p, (k, v)));
        lemma_etm_insert(s.drop_last(), p, k, v);
        assert(s.last().0 != k);
        assert(entries_to_map(s.drop_last()).insert(k, v).insert(s.last().0, s.last().1) =~= entries_to_map(
            s.drop_last(),
        ).insert(s.last().0, s.last().1).insert(k, v));
    }
}

/// Removing the only entry for a key removes that key from the denoted
/// mapping.
proof fn lemma_etm_remove(s: Seq<(Seq<u8>, Seq<u8>)>, p: int)
    requires
        0 <= p < s.len(),
        forall|m: int| 0 <= m < s.len() && m != p ==> (#[trigger] s[m]).0 != s[p].0,
    ensures
        entries_to_map(s.remove(p)) == entries_to_map(s).remove(s[p].0),
    decreases s.len(),
{
    if p == s.len() - 1 {
        assert(s.remove(p) =~= s.drop_last());
        lemma_etm_no_key(s.drop_last(), s[p].0);
        assert(entries_to_map(s.drop_last()) =~= entries_to_map(s.drop_last()).insert(
            s.last().0,
            s.last().1,
        ).remove(s[p].0));
    } else {
        assert(s.remove(p).last() == s.last());
        assert(s.remove(p).drop_last() =~= s.drop_last().remove(p));
        lemma_etm_remove(s.drop_last(), p);
        assert(s.last().0 != s[p].0);
        assert(entries_to_map(s.drop_last()).remove(s[p].0).insert(s.last().0, s.last().1) =~= entries_to_map(
            s.drop_last(),
        ).insert(s.last().0, s.last().1).remove(s[p].0));
    }
}

/// A key no entry carries is absent from the denoted mapping.
proof fn lemma_etm_no_key(s: Seq<(Seq<u8>, Seq<u8>)>, k: Seq<u8>)
    requires
        forall|m: int| 0 <= m < s.len() ==> (#[trigger] s[m]).0 != k,
    ensures
        !entries_to_map(s).dom().contains(k),
    decreases s.len(),
{
    if s.len() > 0 {
        lemma_etm_no_key(s.drop_last(), k);
    }
}

/// Inserts `(k, v)` into a canonical entry sequence, replacing the entry
/// for `k` if one is there; the denoted mapping gains exactly `k -> v`.
fn insert_entry(out: &mut Vec<(Vec<u8>, Vec<u8>)>, k: Vec<u8>, v: Vec<u8>)
    requires
        sorted_unique(pairs_view(old(out)@)),
    ensures
        sorted_unique(pairs_view(final(out)@)),
        entries_to_map(pairs_view(final(out)@)) == entries_to_map(pairs_view(old(out)@)).insert(
            k@,
            v@,
        ),
{
    let ghost s0 = pairs_view(out@);
    let mut p: usize = 0;
    while p < out.len() && lex_less(&out[p].0, &k)
        invariant
            p <= out.len(),
            sorted_unique(pairs_view(out@)),
            pairs_view(out@) == s0,
            forall|m: int| 0 <= m < p ==> lex_lt((#[trigger] s0[m]).0, k@),
        decreases out.len() - p,
    {
        p = p + 1;
    }
    if p < out.len() && bytes_eq(&out[p].0, &k) {
        proof {
            assert forall|m: int| 0 <= m < s0.len() && m != p implies (#[trigger] s0[m]).0
                != s0[p as int].0 by {
                if m < p {
                    lemma_lex_lt_irreflexive(s0[m].0);
                } else {
                    lemma_lex_lt_irreflexive(s0[p as int].0);
                }
            }
            lemma_etm_remove(s0, p as int);
        }
        out.remove(p);
        let ghost s1 = pairs_view(out@);
        proof {
            assert(s1 =~= s0.remove(p as int));
            assert forall|m: int| 0 <= m < s1.len() implies (#[trigger] s1[m]).0 != k@ by {
                if m < p {
                    lemma_lex_lt_irreflexive(s1[m].0);
                } else {
                    lemma_lex_lt_irreflexive(k@);
                    lemma_lex_lt_asymmetric(k@, s0[m + 1].0);
                }
            }
            lemma_etm_insert(s1, p as int, k@, v@);
        }
        out.insert(p, (k, v));
        proof {
            let s2 = pairs_view(out@);
            assert(s2 =~= s1.insert(p as int, (k@, v@)));
            assert(entries_to_map(s2) =~= entries_to_map(s0).insert(k@, v@));
            assert forall|j: int, m: int| 0 <= j < m < s2.len() implies lex_lt(
                (#[trigger] s2[j]).0,
                (#[trigger] s2[m]).0,
            ) by {
                assert(forall|i: int| 0 <= i < s2.len() && i != p ==> s2[i] == s0[i]);
                if j == p {
                    assert(lex_lt(s0[j].0, s0[m].0));
                } else if m == p {
                    assert(lex_lt(s0[j].0, k@));
                } else {
                    assert(lex_lt(s0[j].0, s0[m].0));
                }
            }
        }
    } else {
        proof {
            if p < out.len() {
                lemma_lex_lt_trichotomy(s0[p as int].0, k@);
                assert(lex_lt(k@, s0[p as int].0));
            }
            assert forall|m: int| 0 <= m < s0.len() implies (#[trigger] s0[m]).0 != k@ by {
                if m < p {
                    lemma_lex_lt_irreflexive(k@);
                } else {
                    if m > p {
                        lemma_lex_lt_transitive(k@, s0[p as int].0, s0[m].0);
                    }
                    lemma_lex_lt_irreflexive(k@);
                }
            }
            lemma_etm_insert(s0, p as int, k@, v@);
        }
        out.insert(p, (k, v));
        proof {
            let s2 = pairs_view(out@);
            assert(s2 =~= s0.insert(p as int, (k@, v@)));
            assert(entries_to_map(s2) =~= entries_to_map(s0).insert(k@, v@));
            assert forall|j: int, m: int| 0 <= j < m < s2.len() implies lex_lt(
                (#[trigger] s2[j]).0,
                (#[trigger] s2[m]).0,
            ) by {
                if m > p {
                    assert(s2[m] == s0[m - 1]);
                    if m - 1 > p {
                        lemma_lex_lt_transitive(k@, s0[p as int].0, s0[m - 1].0);
                    }
                    assert(lex_lt(k@, s0[m - 1].0));
                    if j < p {
                        assert(s2[j] == s0[j]);
                        lemma_lex_lt_transitive(s0[j].0, k@, s0[m - 1].0);
                    }
                }
            }
        }
    }
}

/// In a sequence whose adjacent keys ascend, any earlier key is below any
/// later one.
proof fn lemma_sorted_chain(s: Seq<(Seq<u8>, Seq<u8>)>, j: int, k: int)
    requires
        forall|m: int| 0 < m < s.len() ==> lex_lt((#[trigger] s[m - 1]).0, s[m].0),
        0 <= j < k < s.len(),
    ensures
        lex_lt(s[j].0, s[k].0),
    decreases k - j,
{
    if k == j + 1 {
        assert(s[j] == s[k - 1]);
        assert(lex_lt(s[k - 1].0, s[k].0));
    } else {
        lemma_sorted_chain(s, j, k - 1);
        assert(lex_lt(s[k - 1].0, s[k].0));
        lemma_lex_lt_transitive(s[j].0, s[k - 1].0, s[k].0);
    }
}

/// Decides whether the entry keys ascend strictly, comparing neighbours.
pub fn check_sorted_unique(entries: &Vec<(Vec<u8>, Vec<u8>)>) -> (r: bool)
    ensures
        r == sorted_unique(pairs_view(entries@)),
{
    let ghost s = pairs_view(entries@);
    if entries.len() <= 1 {
        return true;
    }
    let mut j: usize = 1;
    while j < entries.len()
        invariant
            1 <= j <= entries.len(),
            s == pairs_view(entries@),
            s.len() == entries@.len(),
            forall|m: int| 0 < m < j ==> lex_lt((#[trigger] s[m - 1]).0, s[m].0),
        decreases entries.len() - j,
    {
        if !lex_less(&entries[j - 1].0, &entries[j].0) {
            proof {
                assert(!lex_lt(s[j - 1].0, s[j as int].0));
            }
            return false;
        }
        j = j + 1;
    }
    proof {
        assert forall|a: int, b: int| 0 <= a < b < s.len() implies lex_lt(
            (#[trigger] s[a]).0,
            (#[trigger] s[b]).0,
        ) by {
            lemma_sorted_chain(s, a, b);
        }
    }
    true
}

/// Brings a sequence of configuration entries into canonical form: keys
/// strictly sorted, one entry per key, the latest value for each key kept;
/// the denoted mapping is unchanged.
pub fn canonicalize_config(entries: &Vec<(Vec<u8>, Vec<u8>)>) -> (r: Vec<(Vec<u8>, Vec<u8>)>)
    ensures
        sorted_unique(pairs_view(r@)),
        entries_to_map(pairs_view(r@)) == entries_to_map(pairs_view(entries@)),
{
    let mut out: Vec<(Vec<u8>, Vec<u8>)> = Vec::new();
    let mut j: usize = 0;
    proof {
        assert(pairs_view(entries@.take(0)) =~= Seq::<(Seq<u8>, Seq<u8>)>::empty());
        assert(pairs_view(out@) =~= Seq::<(Seq<u8>, Seq<u8>)>::empty());
    }
    while j < entries.len()
        invariant
            j <= entries.len(),
            sorted_unique(pairs_view(out@)),
            entries_to_map(pairs_view(out@)) == entries_to_map(pairs_view(entries@.take(j as int))),
        decreases entries.len() - j,
    {
        let k = clone_bytes(&entries[j].0);
        let v = clone_bytes(&entries[j].1);
        proof {
            let t0 = pairs_view(entries@.take(j as int));
            let t1 = pairs_view(entries@.take(j + 1));
            assert(t1 =~= t0.push((entries@[j as int].0@, entries@[j as int].1@)));
            assert(t1.drop_last() =~= t0);
        }
        insert_entry(&mut out, k, v);
        j = j + 1;
    }
    proof {
        assert(entries@.take(entries@.len() as int) =~= entries@);
    }
    out
}

} // verus!
