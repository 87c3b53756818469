use vstd::prelude::*;
use vstd::seq_lib::lemma_sorted_unique;

use crate::bytes::le32_at;
use crate::data::{CodecError, KeyModel, FORMAT_VERSION, RGB};
use crate::decode::{count_matching, spec_decode, with_alts, RawRecord};
use crate::encode::spec_to_binary;
use crate::order::{canonical_sort, entry_le_fn, lemma_entry_le_total_ordering};

verus! {

/// A well-formed input with the expected version and zero entries decodes
/// to the empty table, whatever else the buffer holds.
pub proof fn lemma_decode_zero_entries(b: Seq<u8>)
    requires
        b.len() >= 16,
        le32_at(b, 0) == FORMAT_VERSION,
        le32_at(b, 4) == 0,
    ensures
        spec_decode(b) == Ok::<Seq<(KeyModel, RGB)>, CodecError>(Seq::empty()),
{
    assert(with_alts(Seq::empty()) =~= Seq::<(KeyModel, RGB)>::empty());
}

/// Any version field other than the single supported version fails the
/// decode with `UnsupportedVersion`, whatever the other fields hold.
pub proof fn lemma_decode_unsupported_version(b: Seq<u8>)
    requires
        b.len() >= 4,
        le32_at(b, 0) != FORMAT_VERSION,
    ensures
        spec_decode(b) == Err::<Seq<(KeyModel, RGB)>, CodecError>(CodecError::UnsupportedVersion),
{
}

proof fn lemma_count_constant_range(rs: Seq<RawRecord>, id: Seq<char>, costume: u8, from: int, to: int)
    requires
        0 <= from <= to <= rs.len(),
        forall|k: int|
            from <= k < to ==> !((#[trigger] rs[k]).character_id == id && rs[k].costume_index
                == costume),
    ensures
        count_matching(rs, id, costume, to) == count_matching(rs, id, costume, from),
    decreases to - from,
{
    if from < to {
        lemma_count_constant_range(rs, id, costume, from, to - 1);
    }
}

/// When exactly two records share a `(character_id, costume_index)` pair,
/// the earlier one gets alt index 0 and the later one gets alt index 1,
/// by encounter order alone.
pub proof fn lemma_alt_indices_for_pair(rs: Seq<RawRecord>, i: int, j: int)
    requires
        0 <= i < j < rs.len(),
        rs[i].character_id == rs[j].character_id,
        rs[i].costume_index == rs[j].costume_index,
        forall|k: int|
            0 <= k < rs.len() && k != i && k != j ==> !((#[trigger] rs[k]).character_id
                == rs[i].character_id && rs[k].costume_index == rs[i].costume_index),
    ensures
        with_alts(rs)[i].0.alt_index == 0,
        with_alts(rs)[j].0.alt_index == 1,
{
    let id = rs[i].character_id;
    let costume = rs[i].costume_index;
    lemma_count_constant_range(rs, id, costume, 0, i);
    lemma_count_constant_range(rs, id, costume, i + 1, j);
}

/// Encoding is deterministic: two tables that hold the same entries, in
/// whatever order, encode to identical bytes.
pub proof fn lemma_encode_deterministic(s1: Seq<(KeyModel, RGB)>, s2: Seq<(KeyModel, RGB)>)
    requires
        s1.to_multiset() == s2.to_multiset(),
    ensures
        spec_to_binary(s1) == spec_to_binary(s2),
{
    broadcast use vstd::seq_lib::group_to_multiset_ensures;

    lemma_entry_le_total_ordering();
    s1.lemma_sort_by_ensures(entry_le_fn());
    s2.lemma_sort_by_ensures(entry_le_fn());
    lemma_sorted_unique(canonical_sort(s1), canonical_sort(s2), entry_le_fn());
    assert(canonical_sort(s1) =~= canonical_sort(s2));
    assert(s1.to_multiset().len() == s1.len());
    assert(s2.to_multiset().len() == s2.len());
}

} // verus!
