//! The entity codec: a deterministic binary layout for cluster records
//! with exact round-trip fidelity.
//!
//! Every variable-length field carries an eight-byte little-endian length
//! prefix; the kind is four little-endian bytes; the timestamps are eight
//! little-endian bytes each. Configuration entries are written in their
//! canonical (key-sorted) order, so the layout never depends on the
//! iteration order of any in-memory map.

use vstd::prelude::*;
use vstd::bytes::{spec_u64_to_le_bytes, spec_u32_to_le_bytes, spec_u64_from_le_bytes,
    spec_u32_from_le_bytes, lemma_auto_spec_u64_to_from_le_bytes,
    lemma_auto_spec_u32_to_from_le_bytes};
use crate::bytes_util::{append_bytes, append_u64_le, append_u32_le, read_bytes, read_u64_le,
    read_u32_le};
use crate::entity::{Cluster, ClusterView, well_formed, sorted_unique, pairs_view,
    check_sorted_unique};
use crate::StoreError;

verus! {

/// The bytes of a sequence of configuration entries: for each entry the
/// length-prefixed key, then the length-prefixed value.
pub open spec fn spec_encode_entries(entries: Seq<(Seq<u8>, Seq<u8>)>) -> Seq<u8>
    decreases entries.len(),
{
    if entries.len() == 0 {
        Seq::empty()
    } else {
        spec_u64_to_le_bytes(entries[0].0.len() as u64) + (entries[0].0 + (spec_u64_to_le_bytes(
            entries[0].1.len() as u64,
        ) + (entries[0].1 + spec_encode_entries(entries.skip(1)))))
    }
}

/// The bytes of a whole record: identifier, kind, name, the two
/// timestamps, the entry count, then the entries.
pub open spec fn spec_encode(c: ClusterView) -> Seq<u8> {
    spec_u64_to_le_bytes(c.id.len() as u64) + (c.id + (spec_u32_to_le_bytes(c.kind) + (
    spec_u64_to_le_bytes(c.name.len() as u64) + (c.name + (spec_u64_to_le_bytes(
        c.created_at as u64,
    ) + (spec_u64_to_le_bytes(c.modified_at as u64) + (spec_u64_to_le_bytes(c.config.len() as u64)
        + spec_encode_entries(c.config))))))))
}

impl Cluster {
    /// Serializes the record into its binary layout.
    pub fn encode(&self) -> (r: Vec<u8>)
        requires
            well_formed(self@),
        ensures
            r@ == spec_encode(self@),
    {
        let ghost entries = pairs_view(self.config@);
        let mut out: Vec<u8> = Vec::new();
        append_u64_le(&mut out, self.id.len() as u64);
        append_bytes(&mut out, &self.id);
        append_u32_le(&mut out, self.kind);
        append_u64_le(&mut out, self.name.len() as u64);
        append_bytes(&mut out, &self.name);
        append_u64_le(&mut out, self.created_at as u64);
        append_u64_le(&mut out, self.modified_at as u64);
        append_u64_le(&mut out, self.config.len() as u64);
        proof {
            assert(entries.skip(0) =~= entries);
            assert(out@ + spec_encode_entries(entries.skip(0)) =~= spec_encode(self@));
        }
        let mut j: usize = 0;
        while j < self.config.len()
            invariant
                j <= self.config.len(),
                entries == pairs_view(self.config@),
                entries.len() == self.config@.len(),
                out@ + spec_encode_entries(entries.skip(j as int)) == spec_encode(self@),
            decreases self.config.len() - j,
        {
            let ghost before = out@;
            append_u64_le(&mut out, self.config[j].0.len() as u64);
            append_bytes(&mut out, &self.config[j].0);
            append_u64_le(&mut out, self.config[j].1.len() as u64);
            append_bytes(&mut out, &self.config[j].1);
            proof {
                let tail = entries.skip(j as int);
                assert(tail[0] == entries[j as int]);
                assert(tail.skip(1) =~= entries.skip(j + 1));
                assert(out@ + spec_encode_entries(entries.skip(j + 1)) =~= before
                    + spec_encode_entries(tail));
            }
            j = j + 1;
        }
        proof {
            assert(spec_encode_entries(entries.skip(entries.len() as int))
                == Seq::<u8>::empty());
            assert(out@ + Seq::<u8>::empty() =~= out@);
        }
        out
    }
}

/// Reads an eight-byte little-endian integer off the front of `s`.
pub open spec fn take_u64(s: Seq<u8>) -> Option<(u64, Seq<u8>)> {
    if s.len() >= 8 {
        Some((spec_u64_from_le_bytes(s.take(8)), s.skip(8)))
    } else {
        None
    }
}

/// Reads a four-byte little-endian integer off the front of `s`.
pub open spec fn take_u32(s: Seq<u8>) -> Option<(u32, Seq<u8>)> {
    if s.len() >= 4 {
        Some((spec_u32_from_le_bytes(s.take(4)), s.skip(4)))
    } else {
        None
    }
}

/// Reads `n` raw bytes off the front of `s`.
pub open spec fn take_chunk(s: Seq<u8>, n: u64) -> Option<(Seq<u8>, Seq<u8>)> {
    if n <= s.len() {
        Some((s.take(n as int), s.skip(n as int)))
    } else {
        None
    }
}

/// Parses exactly `n` length-prefixed key/value entries off the front of
/// `s`.
pub open spec fn parse_entries(s: Seq<u8>, n: u64) -> Option<(Seq<(Seq<u8>, Seq<u8>)>, Seq<u8>)>
    decreases n,
{
    if n == 0 {
        Some((Seq::empty(), s))
    } else {
        match take_u64(s) {
            None => None,
            Some((klen, s1)) => match take_chunk(s1, klen) {
                None => None,
                Some((k, s2)) => match take_u64(s2) {
                    None => None,
                    Some((vlen, s3)) => match take_chunk(s3, vlen) {
                        None => None,
                        Some((v, s4)) => match parse_entries(s4, (n - 1) as u64) {
                            None => None,
                            Some((rest, s5)) => Some((seq![(k, v)] + rest, s5)),
                        },
                    },
                },
            },
        }
    }
}

/// What a byte string means under the entity codec: the record it is the
/// encoding of, or nothing if it is not an encoding. Decoding accepts only
/// well-formed records: ordered timestamps within range, configuration
/// entries in canonical order, and no bytes left over.
pub open spec fn spec_decode(s: Seq<u8>) -> Option<ClusterView> {
    match take_u64(s) {
        None => None,
        Some((id_len, s1)) => match take_chunk(s1, id_len) {
            None => None,
            Some((id, s2)) => match take_u32(s2) {
                None => None,
                Some((kind, s3)) => match take_u64(s3) {
                    None => None,
                    Some((name_len, s4)) => match take_chunk(s4, name_len) {
                        None => None,
                        Some((name, s5)) => match take_u64(s5) {
                            None => None,
                            Some((created, s6)) => match take_u64(s6) {
                                None => None,
                                Some((modified, s7)) => match take_u64(s7) {
                                    None => None,
                                    Some((count, s8)) => match parse_entries(s8, count) {
                                        None => None,
                                        Some((entries, s9)) => if s9.len() == 0 && created
                                            <= i64::MAX as u64 && modified <= i64::MAX as u64
                                            && created <= modified && sorted_unique(entries) {
                                            Some(
                                                ClusterView {
                                                    id,
                                                    kind,
                                                    name,
                                                    config: entries,
                                                    created_at: created as i64,
                                                    modified_at: modified as i64,
                                                },
                                            )
                                        } else {
                                            None
                                        },
                                    },
                                },
                            },
                        },
                    },
                },
            },
        },
    }
}

proof fn lemma_take_u64_prepend(x: u64, rest: Seq<u8>)
    ensures
        take_u64(spec_u64_to_le_bytes(x) + rest) == Some((x, rest)),
{
    lemma_auto_spec_u64_to_from_le_bytes();
    let s = spec_u64_to_le_bytes(x) + rest;
    assert(s.take(8) =~= spec_u64_to_le_bytes(x));
    assert(s.skip(8) =~= rest);
}

proof fn lemma_take_u32_prepend(x: u32, rest: Seq<u8>)
    ensures
        take_u32(spec_u32_to_le_bytes(x) + rest) == Some((x, rest)),
{
    lemma_auto_spec_u32_to_from_le_bytes();
    let s = spec_u32_to_le_bytes(x) + rest;
    assert(s.take(4) =~= spec_u32_to_le_bytes(x));
    assert(s.skip(4) =~= rest);
}

proof fn lemma_take_chunk_prepend(b: Seq<u8>, rest: Seq<u8>)
    requires
        b.len() <= u64::MAX,
    ensures
        take_chunk(b + rest, b.len() as u64) == Some((b, rest)),
{
    let s = b + rest;
    assert(s.take(b.len() as int) =~= b);
    assert(s.skip(b.len() as int) =~= rest);
}

proof fn lemma_parse_entries_round_trip(entries: Seq<(Seq<u8>, Seq<u8>)>, rest: Seq<u8>)
    requires
        entries.len() <= u64::MAX,
        forall|j: int|
            0 <= j < entries.len() ==> (#[trigger] entries[j]).0.len() <= u64::MAX
                && entries[j].1.len() <= u64::MAX,
    ensures
        parse_entries(spec_encode_entries(entries) + rest, entries.len() as u64) == Some(
            (entries, rest),
        ),
    decreases entries.len(),
{
    if entries.len() == 0 {
        assert(spec_encode_entries(entries) + rest =~= rest);
    } else {
        let k = entries[0].0;
        let v = entries[0].1;
        let tail = entries.skip(1);
        let klen_b = spec_u64_to_le_bytes(k.len() as u64);
        let vlen_b = spec_u64_to_le_bytes(v.len() as u64);
        let enc_tail = spec_encode_entries(tail);
        let x1 = k + (vlen_b + (v + (enc_tail + rest)));
        let x2 = vlen_b + (v + (enc_tail + rest));
        let x3 = v + (enc_tail + rest);
        let x4 = enc_tail + rest;
        assert(spec_encode_entries(entries) + rest =~= klen_b + x1);
        lemma_take_u64_prepend(k.len() as u64, x1);
        lemma_take_chunk_prepend(k, x2);
        lemma_take_u64_prepend(v.len() as u64, x3);
        lemma_take_chunk_prepend(v, x4);
        assert(forall|j: int|
            0 <= j < tail.len() ==> (#[trigger] tail[j]) == entries[j + 1]);
        lemma_parse_entries_round_trip(tail, rest);
        assert(seq![(k, v)] + tail =~= entries);
    }
}

/// Round trip: decoding the encoding of any well-formed record gives back
/// exactly that record.
pub proof fn lemma_round_trip(c: ClusterView)
    requires
        well_formed(c),
    ensures
        spec_decode(spec_encode(c)) == Some(c),
{
    let idlen_b = spec_u64_to_le_bytes(c.id.len() as u64);
    let kind_b = spec_u32_to_le_bytes(c.kind);
    let namelen_b = spec_u64_to_le_bytes(c.name.len() as u64);
    let created_b = spec_u64_to_le_bytes(c.created_at as u64);
    let modified_b = spec_u64_to_le_bytes(c.modified_at as u64);
    let count_b = spec_u64_to_le_bytes(c.config.len() as u64);
    let enc_entries = spec_encode_entries(c.config);
    let x1 = c.id + (kind_b + (namelen_b + (c.name + (created_b + (modified_b + (count_b
        + enc_entries))))));
    let x2 = kind_b + (namelen_b + (c.name + (created_b + (modified_b + (count_b + enc_entries)))));
    let x3 = namelen_b + (c.name + (created_b + (modified_b + (count_b + enc_entries))));
    let x4 = c.name + (created_b + (modified_b + (count_b + enc_entries)));
    let x5 = created_b + (modified_b + (count_b + enc_entries));
    let x6 = modified_b + (count_b + enc_entries);
    let x7 = count_b + enc_entries;
    assert(spec_encode(c) =~= idlen_b + x1);
    lemma_take_u64_prepend(c.id.len() as u64, x1);
    lemma_take_chunk_prepend(c.id, x2);
    lemma_take_u32_prepend(c.kind, x3);
    lemma_take_u64_prepend(c.name.len() as u64, x4);
    lemma_take_chunk_prepend(c.name, x5);
    lemma_take_u64_prepend(c.created_at as u64, x6);
    lemma_take_u64_prepend(c.modified_at as u64, x7);
    assert(enc_entries =~= enc_entries + Seq::<u8>::empty());
    lemma_take_u64_prepend(c.config.len() as u64, enc_entries + Seq::<u8>::empty());
    lemma_parse_entries_round_trip(c.config, Seq::<u8>::empty());
}

/// A successful entry parse yields exactly `n` entries, each of whose keys
/// and values fits its length prefix.
proof fn lemma_parse_entries_lens(s: Seq<u8>, n: u64)
    requires
        parse_entries(s, n) is Some,
    ensures
        ({
            let (es, t) = parse_entries(s, n)->Some_0;
            es.len() == n && forall|j: int|
                0 <= j < es.len() ==> (#[trigger] es[j]).0.len() <= u64::MAX && es[j].1.len()
                    <= u64::MAX
        }),
    decreases n,
{
    if n != 0 {
        let (klen, s1) = take_u64(s)->Some_0;
        let (k, s2) = take_chunk(s1, klen)->Some_0;
        let (vlen, s3) = take_u64(s2)->Some_0;
        let (v, s4) = take_chunk(s3, vlen)->Some_0;
        lemma_parse_entries_lens(s4, (n - 1) as u64);
        let (rest, s5) = parse_entries(s4, (n - 1) as u64)->Some_0;
        let es = parse_entries(s, n)->Some_0.0;
        assert(es == seq![(k, v)] + rest);
        assert(k.len() == klen);
        assert(v.len() == vlen);
        assert forall|j: int| 0 <= j < es.len() implies (#[trigger] es[j]).0.len() <= u64::MAX
            && es[j].1.len() <= u64::MAX by {
            if j > 0 {
                assert(es[j] == rest[j - 1]);
            }
        }
    }
}

/// Prepends already-parsed entries to the outcome of parsing the rest.
pub open spec fn extend_parse(
    prefix: Seq<(Seq<u8>, Seq<u8>)>,
    r: Option<(Seq<(Seq<u8>, Seq<u8>)>, Seq<u8>)>,
) -> Option<(Seq<(Seq<u8>, Seq<u8>)>, Seq<u8>)> {
    match r {
        None => None,
        Some((rest, tail)) => Some((prefix + rest, tail)),
    }
}

/// Reads `count` length-prefixed key/value entries from `data` starting at
/// `start`; returns them with the position just past them.
fn decode_entries(data: &Vec<u8>, start: usize, count: u64) -> (r: Result<
    (Vec<(Vec<u8>, Vec<u8>)>, usize),
    StoreError,
>)
    requires
        start <= data@.len(),
    ensures
        match r {
            Ok((entries, end)) => start <= end <= data@.len() && parse_entries(
                data@.skip(start as int),
                count,
            ) == Some((pairs_view(entries@), data@.skip(end as int))),
            Err(e) => e == StoreError::Corruption && parse_entries(
                data@.skip(start as int),
                count,
            ) is None,
        },
{
    proof {
        lemma_auto_spec_u64_to_from_le_bytes();
    }
    let mut acc: Vec<(Vec<u8>, Vec<u8>)> = Vec::new();
    let mut pos: usize = start;
    let mut i: u64 = 0;
    proof {
        assert(pairs_view(acc@) =~= Seq::<(Seq<u8>, Seq<u8>)>::empty());
        if parse_entries(data@.skip(start as int), count) is Some {
            let (rest, tail) = parse_entries(data@.skip(start as int), count)->Some_0;
            assert(Seq::<(Seq<u8>, Seq<u8>)>::empty() + rest =~= rest);
        }
    }
    while i < count
        invariant
            start <= pos <= data@.len(),
            i <= count,
            parse_entries(data@.skip(start as int), count) == extend_parse(
                pairs_view(acc@),
                parse_entries(data@.skip(pos as int), (count - i) as u64),
            ),
        decreases count - i,
    {
        let ghost m = (count - i) as u64;
        let ghost s_cur = data@.skip(pos as int);
        proof {
            lemma_auto_spec_u64_to_from_le_bytes();
            assert(s_cur.len() == data@.len() - pos);
        }
        if data.len() - pos < 8 {
            return Err(StoreError::Corruption);
        }
        let klen = read_u64_le(data, pos);
        proof {
            assert(s_cur.take(8) =~= data@.subrange(pos as int, pos + 8));
            assert(s_cur.skip(8) =~= data@.skip(pos + 8));
            assert(take_u64(s_cur) == Some((klen, data@.skip(pos + 8))));
        }
        let pos1 = pos + 8;
        let ghost s1 = data@.skip(pos1 as int);
        if klen > (data.len() - pos1) as u64 {
            proof {
                assert(s1.len() == data@.len() - pos1);
                assert(take_chunk(s1, klen) is None);
            }
            return Err(StoreError::Corruption);
        }
        let kl = klen as usize;
        let k = read_bytes(data, pos1, kl);
        let pos2 = pos1 + kl;
        proof {
            assert(s1.take(klen as int) =~= data@.subrange(pos1 as int, pos1 + klen));
            assert(s1.skip(klen as int) =~= data@.skip(pos2 as int));
            assert(take_chunk(s1, klen) == Some((k@, data@.skip(pos2 as int))));
        }
        let ghost s2 = data@.skip(pos2 as int);
        proof {
            assert(s2.len() == data@.len() - pos2);
        }
        if data.len() - pos2 < 8 {
            return Err(StoreError::Corruption);
        }
        let vlen = read_u64_le(data, pos2);
        proof {
            assert(s2.take(8) =~= data@.subrange(pos2 as int, pos2 + 8));
            assert(s2.skip(8) =~= data@.skip(pos2 + 8));
            assert(take_u64(s2) == Some((vlen, data@.skip(pos2 + 8))));
        }
        let pos3 = pos2 + 8;
        let ghost s3 = data@.skip(pos3 as int);
        if vlen > (data.len() - pos3) as u64 {
            proof {
                assert(s3.len() == data@.len() - pos3);
                assert(take_chunk(s3, vlen) is None);
            }
            return Err(StoreError::Corruption);
        }
        let vl = vlen as usize;
        let v = read_bytes(data, pos3, vl);
        let pos4 = pos3 + vl;
        proof {
            assert(s3.take(vlen as int) =~= data@.subrange(pos3 as int, pos3 + vlen));
            assert(s3.skip(vlen as int) =~= data@.skip(pos4 as int));
            assert(take_chunk(s3, vlen) == Some((v@, data@.skip(pos4 as int))));
        }
        let ghost acc_old = pairs_view(acc@);
        acc.push((k, v));
        proof {
            let s4 = data@.skip(pos4 as int);
            assert(pairs_view(acc@) =~= acc_old.push((k@, v@)));
            match parse_entries(s4, (m - 1) as u64) {
                None => {
                    assert(parse_entries(s_cur, m) is None);
                }
                Some((rest, tail)) => {
                    assert(parse_entries(s_cur, m) == Some((seq![(k@, v@)] + rest, tail)));
                    assert(acc_old + (seq![(k@, v@)] + rest) =~= acc_old.push((k@, v@)) + rest);
                }
            }
        }
        pos = pos4;
        i = i + 1;
    }
    proof {
        assert(parse_entries(data@.skip(pos as int), 0) == Some(
            (Seq::<(Seq<u8>, Seq<u8>)>::empty(), data@.skip(pos as int)),
        ));
        assert(pairs_view(acc@) + Seq::<(Seq<u8>, Seq<u8>)>::empty() =~= pairs_view(acc@));
    }
    Ok((acc, pos))
}

/// Deserializes a record from its binary layout.
///
/// Succeeds exactly on the byte strings that [`spec_decode`] accepts;
/// anything else is reported as corruption, never a panic.
#[verifier::rlimit(100)]
pub fn decode(data: &Vec<u8>) -> (r: Result<Cluster, StoreError>)
    ensures
        match r {
            Ok(c) => spec_decode(data@) == Some(c@) && well_formed(c@),
            Err(e) => e == StoreError::Corruption && spec_decode(data@) is None,
        },
{
    proof {
        lemma_auto_spec_u64_to_from_le_bytes();
        lemma_auto_spec_u32_to_from_le_bytes();
        assert(data@.skip(0) =~= data@);
    }
    if data.len() < 8 {
        return Err(StoreError::Corruption);
    }
    let id_len = read_u64_le(data, 0);
    proof {
        assert(data@.take(8) =~= data@.subrange(0, 8));
        assert(take_u64(data@) == Some((id_len, data@.skip(8))));
    }
    let ghost s1 = data@.skip(8);
    proof {
        assert(s1.len() == data@.len() - 8);
    }
    if id_len > (data.len() - 8) as u64 {
        return Err(StoreError::Corruption);
    }
    let id = read_bytes(data, 8, id_len as usize);
    let pos1 = 8 + id_len as usize;
    proof {
        assert(s1.take(id_len as int) =~= data@.subrange(8, 8 + id_len));
        assert(s1.skip(id_len as int) =~= data@.skip(pos1 as int));
        assert(take_chunk(s1, id_len) == Some((id@, data@.skip(pos1 as int))));
    }
    let ghost s2 = data@.skip(pos1 as int);
    proof {
        assert(s2.len() == data@.len() - pos1);
    }
    if data.len() - pos1 < 4 {
        return Err(StoreError::Corruption);
    }
    let kind = read_u32_le(data, pos1);
    let pos2 = pos1 + 4;
    proof {
        assert(s2.take(4) =~= data@.subrange(pos1 as int, pos1 + 4));
        assert(s2.skip(4) =~= data@.skip(pos2 as int));
        assert(take_u32(s2) == Some((kind, data@.skip(pos2 as int))));
    }
    let ghost s3 = data@.skip(pos2 as int);
    proof {
        assert(s3.len() == data@.len() - pos2);
    }
    if data.len() - pos2 < 8 {
        return Err(StoreError::Corruption);
    }
    let name_len = read_u64_le(data, pos2);
    let pos3 = pos2 + 8;
    proof {
        assert(s3.take(8) =~= data@.subrange(pos2 as int, pos2 + 8));
        assert(s3.skip(8) =~= data@.skip(pos3 as int));
        assert(take_u64(s3) == Some((name_len, data@.skip(pos3 as int))));
    }
    let ghost s4 = data@.skip(pos3 as int);
    proof {
        assert(s4.len() == data@.len() - pos3);
    }
    if name_len > (data.len() - pos3) as u64 {
        return Err(StoreError::Corruption);
    }
    let name = read_bytes(data, pos3, name_len as usize);
    let pos4 = pos3 + name_len as usize;
    proof {
        assert(s4.take(name_len as int) =~= data@.subrange(pos3 as int, pos3 + name_len));
        assert(s4.skip(name_len as int) =~= data@.skip(pos4 as int));
        assert(take_chunk(s4, name_len) == Some((name@, data@.skip(pos4 as int))));
    }
    let ghost s5 = data@.skip(pos4 as int);
    proof {
        assert(s5.len() == data@.len() - pos4);
    }
    if data.len() - pos4 < 8 {
        return Err(StoreError::Corruption);
    }
    let created = read_u64_le(data, pos4);
    let pos5 = pos4 + 8;
    proof {
        assert(s5.take(8) =~= data@.subrange(pos4 as int, pos4 + 8));
        assert(s5.skip(8) =~= data@.skip(pos5 as int));
        assert(take_u64(s5) == Some((created, data@.skip(pos5 as int))));
    }
    let ghost s6 = data@.skip(pos5 as int);
    proof {
        assert(s6.len() == data@.len() - pos5);
    }
    if data.len() - pos5 < 8 {
        return Err(StoreError::Corruption);
    }
    let modified = read_u64_le(data, pos5);
    let pos6 = pos5 + 8;
    proof {
        assert(s6.take(8) =~= data@.subrange(pos5 as int, pos5 + 8));
        assert(s6.skip(8) =~= data@.skip(pos6 as int));
        assert(take_u64(s6) == Some((modified, data@.skip(pos6 as int))));
    }
    let ghost s7 = data@.skip(pos6 as int);
    proof {
        assert(s7.len() == data@.len() - pos6);
    }
    if data.len() - pos6 < 8 {
        return Err(StoreError::Corruption);
    }
    let count = read_u64_le(data, pos6);
    let pos7 = pos6 + 8;
    proof {
        assert(s7.take(8) =~= data@.subrange(pos6 as int, pos6 + 8));
        assert(s7.skip(8) =~= data@.skip(pos7 as int));
        assert(take_u64(s7) == Some((count, data@.skip(pos7 as int))));
    }
    let entries_parsed = decode_entries(data, pos7, count);
    let (config, end) = match entries_parsed {
        Ok(p) => p,
        Err(e) => {
            return Err(StoreError::Corruption);
        },
    };
    if end != data.len() {
        proof {
            assert(data@.skip(end as int).len() != 0);
        }
        return Err(StoreError::Corruption);
    }
    if created > i64::MAX as u64 || modified > i64::MAX as u64 || created > modified {
        return Err(StoreError::Corruption);
    }
    if !check_sorted_unique(&config) {
        return Err(StoreError::Corruption);
    }
    proof {
        assert(data@.skip(end as int).len() == 0);
    }
    let c = Cluster {
        id,
        kind,
        name,
        config,
        created_at: created as i64,
        modified_at: modified as i64,
    };
    proof {
        lemma_parse_entries_lens(data@.skip(pos7 as int), count);
        assert(c@.id == id@);
        assert(c@.config == pairs_view(c.config@));
        assert(spec_decode(data@) == Some(c@));
        assert(well_formed(c@));
    }
    Ok(c)
}

} // verus!
