//! The config fingerprint that provenance carries: a BLAKE3 digest over the
//! canonical bytes of the effective config, the loaded pack ids in
//! ascending order (each followed by a zero byte), and the synthesizer
//! version.

use vstd::prelude::*;
use vstd::multiset::Multiset;
use vstd::relations::{sorted_by, total_ordering};
use vstd::seq_lib::lemma_sorted_unique;
use vstd::utf8::encode_utf8;

use crate::digest::{blake3_hash, hash32};
use crate::macros::{
    bytes_le, lemma_bytes_le_antisymmetric, lemma_bytes_le_reflexive, lemma_bytes_le_total, lemma_bytes_le_transitive,
    sort_strings,
};
use vstd::string::StringSliceAdditionalSpecFns;

verus! {

/// Ids ordered by their UTF-8 bytes.
pub open spec fn id_order() -> spec_fn(Seq<char>, Seq<char>) -> bool {
    |a: Seq<char>, b: Seq<char>| bytes_le(encode_utf8(a), encode_utf8(b))
}

pub open spec fn id_views(ids: Seq<String>) -> Seq<Seq<char>> {
    ids.map_values(|s: String| s@)
}

/// The ids of a multiset in ascending byte order.
pub open spec fn ascending_ids(ids: Multiset<Seq<char>>) -> Seq<Seq<char>> {
    choose|s: Seq<Seq<char>>| s.to_multiset() == ids && sorted_by(s, id_order())
}

/// Each id's bytes followed by a zero byte, in order.
pub open spec fn joined_ids(ids: Seq<Seq<char>>) -> Seq<u8>
    decreases ids.len(),
{
    if ids.len() == 0 {
        Seq::empty()
    } else {
        joined_ids(ids.drop_last()) + encode_utf8(ids.last()) + seq![0u8]
    }
}

/// The bytes the fingerprint digests: the config's bytes, the ids (given in
/// any order) in ascending order each closed by a zero byte, the version.
pub open spec fn fingerprint_input(encoded_config: Seq<u8>, ids: Seq<Seq<char>>, version: Seq<u8>) -> Seq<u8> {
    encoded_config + joined_ids(ascending_ids(ids.to_multiset())) + version
}

proof fn lemma_id_order_total()
    ensures
        total_ordering(id_order()),
{
    let r = id_order();
    assert forall|x: Seq<char>| #[trigger] r(x, x) by {
        lemma_bytes_le_reflexive(encode_utf8(x));
    }
    assert forall|x: Seq<char>, y: Seq<char>| #[trigger] r(x, y) && #[trigger] r(y, x) implies x == y by {
        lemma_bytes_le_antisymmetric(encode_utf8(x), encode_utf8(y));
        vstd::utf8::encode_utf8_decode_utf8(x);
        vstd::utf8::encode_utf8_decode_utf8(y);
    }
    assert forall|x: Seq<char>, y: Seq<char>, z: Seq<char>| #[trigger] r(x, y) && #[trigger] r(y, z) implies r(
        x,
        z,
    ) by {
        lemma_bytes_le_transitive(encode_utf8(x), encode_utf8(y), encode_utf8(z));
    }
    assert forall|x: Seq<char>, y: Seq<char>| #[trigger] r(x, y) || #[trigger] r(y, x) by {
        lemma_bytes_le_total(encode_utf8(x), encode_utf8(y));
    }
}

/// Sequences with the same strings have the same ids.
proof fn lemma_views_multiset(s1: Seq<String>, s2: Seq<String>)
    requires
        s1.to_multiset() == s2.to_multiset(),
    ensures
        id_views(s1).to_multiset() == id_views(s2).to_multiset(),
    decreases s1.len(),
{
    broadcast use vstd::seq_lib::group_to_multiset_ensures;
    broadcast use vstd::multiset::group_multiset_axioms;

    if s1.len() == 0 {
        vstd::seq_lib::to_multiset_len(s1);
        vstd::seq_lib::to_multiset_len(s2);
        assert(s2.len() == 0);
        assert(id_views(s1).len() == 0 && id_views(s2).len() == 0);
        assert(id_views(s1) =~= id_views(s2));
    } else {
        let x = s1.last();
        let a = s1.drop_last();
        assert(s1 =~= a.push(x));
        assert(s1.to_multiset().count(x) > 0);
        assert(s2.contains(x));
        let i = choose|i: int| 0 <= i < s2.len() && s2[i] == x;
        let b = s2.remove(i);
        assert(a.to_multiset() =~= b.to_multiset());
        lemma_views_multiset(a, b);
        assert(id_views(s1) =~= id_views(a).push(x@));
        assert(id_views(b) =~= id_views(s2).remove(i));
        assert(id_views(s2)[i] == x@);
        assert(id_views(s2).to_multiset() =~= id_views(b).to_multiset().insert(x@));
    }
}

/// Whatever order the pack ids come in, the fingerprint digests the same
/// bytes: it depends on the ids only as a multiset.
pub proof fn law_fingerprint_ignores_id_order(
    encoded_config: Seq<u8>,
    a: Seq<Seq<char>>,
    b: Seq<Seq<char>>,
    version: Seq<u8>,
)
    requires
        a.to_multiset() == b.to_multiset(),
    ensures
        fingerprint_input(encoded_config, a, version) == fingerprint_input(encoded_config, b, version),
{
}

/// Fingerprint of an effective config (given by its canonical bytes), the
/// loaded pack ids (in any order) and the synthesizer version.
pub fn fingerprint(encoded_config: &[u8], pack_ids: &[String], synth_version: &str) -> (h: [u8; 32])
    ensures
        h@ == blake3_hash(fingerprint_input(encoded_config@, id_views(pack_ids@), synth_version.spec_bytes())),
{
    let mut ids: Vec<String> = Vec::new();
    let mut i: usize = 0;
    while i < pack_ids.len()
        invariant
            i <= pack_ids@.len(),
            ids@ == pack_ids@.take(i as int),
        decreases pack_ids@.len() - i,
    {
        ids.push(pack_ids[i].clone());
        proof {
            assert(pack_ids@.take(i as int + 1) =~= pack_ids@.take(i as int).push(pack_ids@[i as int]));
        }
        i = i + 1;
    }
    proof {
        assert(pack_ids@.take(i as int) =~= pack_ids@);
    }
    sort_strings(&mut ids);
    let ghost sorted = id_views(ids@);
    proof {
        lemma_views_multiset(ids@, pack_ids@);
        assert(sorted_by(sorted, id_order())) by {
            assert forall|a: int, b: int| 0 <= a < b < sorted.len() implies #[trigger] (id_order())(
                sorted[a],
                sorted[b],
            ) by {
                assert(bytes_le(encode_utf8(ids@[a]@), encode_utf8(ids@[b]@)));
            }
        }
        let chosen = ascending_ids(id_views(pack_ids@).to_multiset());
        lemma_id_order_total();
        lemma_sorted_unique(sorted, chosen, id_order());
    }
    let mut input: Vec<u8> = Vec::new();
    let mut k: usize = 0;
    while k < encoded_config.len()
        invariant
            k <= encoded_config@.len(),
            input@ == encoded_config@.take(k as int),
        decreases encoded_config@.len() - k,
    {
        input.push(encoded_config[k]);
        proof {
            assert(encoded_config@.take(k as int + 1) =~= encoded_config@.take(k as int).push(encoded_config@[k as int]));
        }
        k = k + 1;
    }
    proof {
        assert(encoded_config@.take(k as int) =~= encoded_config@);
    }
    let mut j: usize = 0;
    while j < ids.len()
        invariant
            j <= ids@.len(),
            sorted == id_views(ids@),
            input@ == encoded_config@ + joined_ids(sorted.take(j as int)),
        decreases ids@.len() - j,
    {
        let bytes = ids[j].as_str().as_bytes();
        let ghost before = input@;
        let mut q: usize = 0;
        while q < bytes.len()
            invariant
                q <= bytes@.len(),
                input@ == before + bytes@.take(q as int),
            decreases bytes@.len() - q,
        {
            input.push(bytes[q]);
            proof {
                assert(bytes@.take(q as int + 1) =~= bytes@.take(q as int).push(bytes@[q as int]));
            }
            q = q + 1;
        }
        input.push(0u8);
        proof {
            assert(bytes@.take(q as int) =~= bytes@);
            assert(sorted.take(j as int + 1).drop_last() =~= sorted.take(j as int));
            assert(sorted.take(j as int + 1).last() == ids@[j as int]@);
            assert(input@ =~= encoded_config@ + joined_ids(sorted.take(j as int + 1)));
        }
        j = j + 1;
    }
    proof {
        assert(sorted.take(j as int) =~= sorted);
    }
    let vbytes = synth_version.as_bytes();
    let ghost before_version = input@;
    let mut q: usize = 0;
    while q < vbytes.len()
        invariant
            q <= vbytes@.len(),
            input@ == before_version + vbytes@.take(q as int),
        decreases vbytes@.len() - q,
    {
        input.push(vbytes[q]);
        proof {
            assert(vbytes@.take(q as int + 1) =~= vbytes@.take(q as int).push(vbytes@[q as int]));
        }
        q = q + 1;
    }
    proof {
        assert(vbytes@.take(q as int) =~= vbytes@);
        assert(input@ =~= fingerprint_input(encoded_config@, id_views(pack_ids@), synth_version.spec_bytes()));
    }
    hash32(input.as_slice())
}

} // verus!
