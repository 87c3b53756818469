use vstd::prelude::*;
use vstd::utf8::{
    encode_utf8, encode_utf8_decode_utf8, encode_utf8_valid_utf8, is_ascii_chars,
    is_ascii_chars_encode_utf8,
};

use crate::bytes::{
    le32_at, le64_at, lemma_u32_le_roundtrip, lemma_u64_le_roundtrip, u32_le_bytes, u64_le_bytes,
};
use crate::data::{KeyModel, RGB};
use vstd::relations::sorted_by;

use crate::decode::{
    count_matching, entry_err, rec_of, spec_decode, spec_raw_entries, table_fold, with_alts,
    RawRecord,
};
use crate::encode::spec_to_binary;
use crate::order::{canonical_sort, entry_le_fn};
use crate::table::{has_key, spec_insert, unique_keys};
use crate::encode::{
    entry_record, entry_region_to, header_bytes, string_offset, string_record, string_region_to,
};
use crate::strings::{find_nul, lemma_find_nul_at};

verus! {

/// A character id the fixed-width string layout can carry faithfully:
/// exactly six characters, each a non-zero ASCII character.
pub open spec fn nonzero_ascii(c: char) -> bool {
    '\0' < c <= '\u{7f}'
}

pub open spec fn ascii_id(id: Seq<char>) -> bool {
    id.len() == 6 && forall|i: int| 0 <= i < 6 ==> nonzero_ascii(#[trigger] id[i])
}

proof fn lemma_ascii_id_chars(id: Seq<char>)
    requires
        ascii_id(id),
    ensures
        is_ascii_chars(id),
{
    assert forall|i: int| 0 <= i < id.len() implies '\0' <= #[trigger] id[i] <= '\u{7f}' by {
        assert(nonzero_ascii(id[i]));
    }
}

/// The raw records that correspond to a table's entries.
pub open spec fn raws_of(t: Seq<(KeyModel, RGB)>) -> Seq<RawRecord> {
    Seq::new(
        t.len(),
        |i: int|
            RawRecord {
                character_id: t[i].0.character_id,
                costume_index: t[i].0.costume_index,
                color: t[i].1,
            },
    )
}

proof fn lemma_entry_region_len(t: Seq<(KeyModel, RGB)>, n: int, k: int)
    requires
        0 <= k,
    ensures
        entry_region_to(t, n, k).len() == 24 * k,
    decreases k,
{
    if k > 0 {
        lemma_entry_region_len(t, n, k - 1);
    }
}

proof fn lemma_string_region_len(t: Seq<(KeyModel, RGB)>, k: int)
    requires
        0 <= k <= t.len(),
        forall|j: int| 0 <= j < t.len() ==> ascii_id((#[trigger] t[j]).0.character_id),
    ensures
        string_region_to(t, k).len() == 8 * k,
    decreases k,
{
    if k > 0 {
        lemma_string_region_len(t, k - 1);
        lemma_ascii_id_chars(t[k - 1].0.character_id);
        is_ascii_chars_encode_utf8(t[k - 1].0.character_id);
    }
}

proof fn lemma_entry_region_prefix(t: Seq<(KeyModel, RGB)>, n: int, k1: int, k2: int)
    requires
        0 <= k1 <= k2,
    ensures
        entry_region_to(t, n, k2).subrange(0, 24 * k1) == entry_region_to(t, n, k1),
    decreases k2 - k1,
{
    lemma_entry_region_len(t, n, k1);
    lemma_entry_region_len(t, n, k2);
    if k1 < k2 {
        lemma_entry_region_prefix(t, n, k1, k2 - 1);
        lemma_entry_region_len(t, n, k2 - 1);
        assert(entry_region_to(t, n, k2).subrange(0, 24 * k1) =~= entry_region_to(
            t,
            n,
            k2 - 1,
        ).subrange(0, 24 * k1));
    } else {
        assert(entry_region_to(t, n, k2).subrange(0, 24 * k1) =~= entry_region_to(t, n, k1));
    }
}

proof fn lemma_entry_region_at(t: Seq<(KeyModel, RGB)>, n: int, k: int, i: int)
    requires
        0 <= i < k,
    ensures
        entry_region_to(t, n, k).subrange(24 * i, 24 * i + 24) == entry_record(t[i], n, i),
{
    lemma_entry_region_prefix(t, n, i + 1, k);
    lemma_entry_region_len(t, n, i);
    lemma_entry_region_len(t, n, i + 1);
    lemma_entry_region_len(t, n, k);
    assert(entry_region_to(t, n, i + 1).subrange(24 * i, 24 * i + 24) =~= entry_record(t[i], n, i));
    assert(entry_region_to(t, n, k).subrange(24 * i, 24 * i + 24) =~= entry_region_to(
        t,
        n,
        i + 1,
    ).subrange(24 * i, 24 * i + 24));
}

proof fn lemma_string_region_prefix(t: Seq<(KeyModel, RGB)>, k1: int, k2: int)
    requires
        0 <= k1 <= k2 <= t.len(),
        forall|j: int| 0 <= j < t.len() ==> ascii_id((#[trigger] t[j]).0.character_id),
    ensures
        string_region_to(t, k2).subrange(0, 8 * k1) == string_region_to(t, k1),
    decreases k2 - k1,
{
    lemma_string_region_len(t, k1);
    lemma_string_region_len(t, k2);
    if k1 < k2 {
        lemma_string_region_prefix(t, k1, k2 - 1);
        lemma_string_region_len(t, k2 - 1);
        assert(string_region_to(t, k2).subrange(0, 8 * k1) =~= string_region_to(t, k2 - 1).subrange(
            0,
            8 * k1,
        ));
    } else {
        assert(string_region_to(t, k2).subrange(0, 8 * k1) =~= string_region_to(t, k1));
    }
}

proof fn lemma_string_region_at(t: Seq<(KeyModel, RGB)>, k: int, i: int)
    requires
        0 <= i < k <= t.len(),
        forall|j: int| 0 <= j < t.len() ==> ascii_id((#[trigger] t[j]).0.character_id),
    ensures
        string_region_to(t, k).subrange(8 * i, 8 * i + 8) == string_record(t[i]),
{
    lemma_string_region_prefix(t, i + 1, k);
    lemma_string_region_len(t, i);
    lemma_string_region_len(t, i + 1);
    lemma_string_region_len(t, k);
    lemma_ascii_id_chars(t[i].0.character_id);
    is_ascii_chars_encode_utf8(t[i].0.character_id);
    assert(string_region_to(t, i + 1).subrange(8 * i, 8 * i + 8) =~= string_record(t[i]));
    assert(string_region_to(t, k).subrange(8 * i, 8 * i + 8) =~= string_region_to(
        t,
        i + 1,
    ).subrange(8 * i, 8 * i + 8));
}

/// The bytes of the canonical layout of a table whose ids all fit the
/// fixed-width string slot.
#[verifier::opaque]
pub open spec fn layout_of(t: Seq<(KeyModel, RGB)>) -> Seq<u8> {
    let n = t.len() as int;
    header_bytes(t.len() as u32) + entry_region_to(t, n, n) + string_region_to(t, n)
}

/// Every id fits the fixed-width slot.
pub open spec fn all_ascii_ids(t: Seq<(KeyModel, RGB)>) -> bool {
    forall|j: int| 0 <= j < t.len() ==> ascii_id((#[trigger] t[j]).0.character_id)
}

proof fn lemma_layout_len(t: Seq<(KeyModel, RGB)>)
    requires
        all_ascii_ids(t),
    ensures
        layout_of(t).len() == 16 + 32 * t.len(),
{
    reveal(layout_of);
    let n = t.len() as int;
    lemma_entry_region_len(t, n, n);
    lemma_string_region_len(t, n);
}

/// The entry record at index `i` can be read back from the layout: its
/// pointer resolves to the `i`-th string slot, the slot holds the id's six
/// non-zero bytes and a terminator, and the four integer fields hold the
/// widened costume index and color channels.
#[verifier::spinoff_prover]
proof fn lemma_entry_record_bytes(t: Seq<(KeyModel, RGB)>, b: Seq<u8>, i: int)
    requires
        all_ascii_ids(t),
        b == layout_of(t),
        0 <= i < t.len(),
    ensures
        b.len() == 16 + 32 * t.len(),
        forall|m: int|
            0 <= m < 24 ==> b[16 + 24 * i + m] == #[trigger] entry_record(
                t[i],
                t.len() as int,
                i,
            )[m],
{
    reveal(layout_of);
    let n = t.len() as int;
    let er = entry_region_to(t, n, n);
    let rec = entry_record(t[i], n, i);
    lemma_layout_len(t);
    lemma_entry_region_len(t, n, n);
    lemma_string_region_len(t, n);
    lemma_entry_region_at(t, n, n, i);
    assert forall|m: int| 0 <= m < 24 implies b[16 + 24 * i + m] == #[trigger] entry_record(
        t[i],
        t.len() as int,
        i,
    )[m] by {
        assert(er[24 * i + m] == er.subrange(24 * i, 24 * i + 24)[m]);
    }
}

#[verifier::spinoff_prover]
proof fn lemma_string_record_bytes(t: Seq<(KeyModel, RGB)>, b: Seq<u8>, i: int)
    requires
        all_ascii_ids(t),
        b == layout_of(t),
        0 <= i < t.len(),
    ensures
        forall|m: int|
            0 <= m < 8 ==> b[16 + 24 * t.len() + 8 * i + m] == #[trigger] string_record(t[i])[m],
{
    reveal(layout_of);
    let n = t.len() as int;
    let sr = string_region_to(t, n);
    lemma_layout_len(t);
    lemma_entry_region_len(t, n, n);
    lemma_string_region_len(t, n);
    lemma_string_region_at(t, n, i);
    assert forall|m: int| 0 <= m < 8 implies b[16 + 24 * n + 8 * i + m] == #[trigger] string_record(
        t[i],
    )[m] by {
        assert(sr[8 * i + m] == sr.subrange(8 * i, 8 * i + 8)[m]);
    }
}

#[verifier::spinoff_prover]
proof fn lemma_entry_pointer(t: Seq<(KeyModel, RGB)>, b: Seq<u8>, i: int)
    requires
        t.len() <= 0xFFFFFFFF,
        all_ascii_ids(t),
        b == layout_of(t),
        0 <= i < t.len(),
    ensures
        b.len() == 16 + 32 * t.len(),
        le64_at(b, 16 + 24 * i) == string_offset(t.len() as int, i),
{
    let n = t.len() as int;
    let pos = 16 + 24 * i;
    let off = string_offset(n, i);
    lemma_entry_record_bytes(t, b, i);
    assert(0 <= off <= 24 * n);
    lemma_u64_le_roundtrip(off as u64);
    assert forall|m: int| 0 <= m < 8 implies b[pos + m] == #[trigger] u64_le_bytes(
        off as u64,
    )[m] by {
        assert(entry_record(t[i], n, i)[m] == u64_le_bytes(off as u64)[m]);
    }
    assert(le64_at(b, pos) == le64_at(u64_le_bytes(off as u64), 0));
}

#[verifier::spinoff_prover]
proof fn lemma_entry_string(t: Seq<(KeyModel, RGB)>, b: Seq<u8>, i: int)
    requires
        all_ascii_ids(t),
        b == layout_of(t),
        0 <= i < t.len(),
    ensures
        find_nul(b, 16 + 24 * t.len() + 8 * i) == 16 + 24 * t.len() + 8 * i + 6,
        b.subrange(16 + 24 * t.len() + 8 * i, 16 + 24 * t.len() + 8 * i + 6) == encode_utf8(
            t[i].0.character_id,
        ),
{
    let n = t.len() as int;
    let id = t[i].0.character_id;
    let target = 16 + 24 * n + 8 * i;
    lemma_layout_len(t);
    lemma_string_record_bytes(t, b, i);
    lemma_ascii_id_chars(id);
    is_ascii_chars_encode_utf8(id);
    assert forall|k: int| target <= k < target + 8 implies b[k] == string_record(t[i])[k
        - target] by {
        let m = k - target;
        assert(b[16 + 24 * t.len() + 8 * i + m] == string_record(t[i])[m]);
    }
    assert forall|k: int| target <= k < target + 6 implies b[k] != 0 && b[k] == encode_utf8(id)[k
        - target] by {
        let m = k - target;
        assert(string_record(t[i])[m] == encode_utf8(id)[m]);
        assert(encode_utf8(id)[m] == id[m] as u8);
        assert(nonzero_ascii(id[m]));
    }
    assert(b[target + 6] == 0) by {
        assert(string_record(t[i])[6] == 0);
    }
    lemma_find_nul_at(b, target, target + 6);
    assert forall|m: int| 0 <= m < 6 implies b.subrange(target, target + 6)[m] == encode_utf8(
        id,
    )[m] by {
        assert(b[target + m] == encode_utf8(id)[m]);
    }
    assert(b.subrange(target, target + 6) =~= encode_utf8(id));
}

#[verifier::spinoff_prover]
proof fn lemma_entry_ints(t: Seq<(KeyModel, RGB)>, b: Seq<u8>, i: int)
    requires
        all_ascii_ids(t),
        b == layout_of(t),
        0 <= i < t.len(),
    ensures
        le32_at(b, 16 + 24 * i + 8) == t[i].0.costume_index as u32,
        le32_at(b, 16 + 24 * i + 12) == t[i].1.red as u32,
        le32_at(b, 16 + 24 * i + 16) == t[i].1.blue as u32,
        le32_at(b, 16 + 24 * i + 20) == t[i].1.green as u32,
{
    let n = t.len() as int;
    let pos = 16 + 24 * i;
    lemma_entry_record_bytes(t, b, i);
    lemma_u32_le_roundtrip(t[i].0.costume_index as u32);
    lemma_u32_le_roundtrip(t[i].1.red as u32);
    lemma_u32_le_roundtrip(t[i].1.blue as u32);
    lemma_u32_le_roundtrip(t[i].1.green as u32);
    assert forall|m: int| 0 <= m < 4 implies b[pos + 8 + m] == #[trigger] u32_le_bytes(
        t[i].0.costume_index as u32,
    )[m] && b[pos + 12 + m] == u32_le_bytes(t[i].1.red as u32)[m] && b[pos + 16 + m]
        == u32_le_bytes(t[i].1.blue as u32)[m] && b[pos + 20 + m] == u32_le_bytes(
        t[i].1.green as u32,
    )[m] by {
        assert(entry_record(t[i], n, i)[8 + m] == u32_le_bytes(t[i].0.costume_index as u32)[m]);
        assert(entry_record(t[i], n, i)[12 + m] == u32_le_bytes(t[i].1.red as u32)[m]);
        assert(entry_record(t[i], n, i)[16 + m] == u32_le_bytes(t[i].1.blue as u32)[m]);
        assert(entry_record(t[i], n, i)[20 + m] == u32_le_bytes(t[i].1.green as u32)[m]);
    }
    assert(le32_at(b, pos + 8) == le32_at(u32_le_bytes(t[i].0.costume_index as u32), 0));
    assert(le32_at(b, pos + 12) == le32_at(u32_le_bytes(t[i].1.red as u32), 0));
    assert(le32_at(b, pos + 16) == le32_at(u32_le_bytes(t[i].1.blue as u32), 0));
    assert(le32_at(b, pos + 20) == le32_at(u32_le_bytes(t[i].1.green as u32), 0));
}

#[verifier::spinoff_prover]
proof fn lemma_entry_at(t: Seq<(KeyModel, RGB)>, b: Seq<u8>, i: int)
    requires
        t.len() <= 0xFFFFFFFF,
        all_ascii_ids(t),
        b == layout_of(t),
        0 <= i < t.len(),
    ensures
        entry_err(b, 16 + 24 * i) is None,
        rec_of(b, 16 + 24 * i) == raws_of(t)[i],
{
    let n = t.len() as int;
    let pos = 16 + 24 * i;
    let id = t[i].0.character_id;
    lemma_layout_len(t);
    lemma_entry_pointer(t, b, i);
    lemma_entry_string(t, b, i);
    lemma_entry_ints(t, b, i);
    let target = pos + le64_at(b, pos);
    assert(target == 16 + 24 * n + 8 * i);
    assert(find_nul(b, target) == target + 6);
    let sb = b.subrange(target, target + 6);
    assert(sb == encode_utf8(id));
    encode_utf8_valid_utf8(id);
    encode_utf8_decode_utf8(id);
    assert(rec_of(b, pos).character_id == id);
}

/// The sixteen-byte header of the layout reads back as the version, the
/// entry count, and the fixed data offset.
#[verifier::spinoff_prover]
proof fn lemma_header_fields(t: Seq<(KeyModel, RGB)>, b: Seq<u8>)
    requires
        t.len() <= 0xFFFFFFFF,
        all_ascii_ids(t),
        b == layout_of(t),
    ensures
        b.len() == 16 + 32 * t.len(),
        le32_at(b, 0) == crate::data::FORMAT_VERSION,
        le32_at(b, 4) == t.len(),
        le64_at(b, 8) == 8,
{
    reveal(layout_of);
    let n = t.len() as int;
    let h = header_bytes(t.len() as u32);
    lemma_layout_len(t);
    assert forall|m: int| 0 <= m < 16 implies b[m] == h[m] by {}
    lemma_u32_le_roundtrip(crate::data::FORMAT_VERSION);
    lemma_u32_le_roundtrip(t.len() as u32);
    lemma_u64_le_roundtrip(8);
    assert forall|m: int| 0 <= m < 4 implies h[m] == #[trigger] u32_le_bytes(
        crate::data::FORMAT_VERSION,
    )[m] && h[4 + m] == u32_le_bytes(t.len() as u32)[m] by {}
    assert forall|m: int| 0 <= m < 8 implies h[8 + m] == #[trigger] u64_le_bytes(8)[m] by {}
    assert(le32_at(b, 0) == le32_at(u32_le_bytes(crate::data::FORMAT_VERSION), 0));
    assert(le32_at(b, 4) == le32_at(u32_le_bytes(t.len() as u32), 0));
    assert(le64_at(b, 8) == le64_at(u64_le_bytes(8), 0));
}

/// The entry region of the layout parses back into the raw records of the
/// table's entries, from any entry onward.
proof fn lemma_parse_entries(t: Seq<(KeyModel, RGB)>, b: Seq<u8>, i: int)
    requires
        t.len() <= 0xFFFFFFFF,
        all_ascii_ids(t),
        b == layout_of(t),
        0 <= i <= t.len(),
    ensures
        spec_raw_entries(b, 16 + 24 * i, (t.len() - i) as nat) == Ok::<Seq<RawRecord>, crate::data::CodecError>(
            raws_of(t).skip(i),
        ),
    decreases t.len() - i,
{
    if i == t.len() {
        assert(raws_of(t).skip(i) =~= Seq::<RawRecord>::empty());
    } else {
        lemma_entry_at(t, b, i);
        lemma_parse_entries(t, b, i + 1);
        assert(seq![raws_of(t)[i]] + raws_of(t).skip(i + 1) =~= raws_of(t).skip(i));
    }
}

/// Two keys that color the same character and costume.
pub open spec fn same_group(a: KeyModel, b: KeyModel) -> bool {
    a.character_id == b.character_id && a.costume_index == b.costume_index
}

/// Some entry of `s` colors the group of `k` with alt index `a`.
pub open spec fn has_group_alt(s: Seq<(KeyModel, RGB)>, k: KeyModel, a: u8) -> bool {
    exists|j: int| 0 <= j < s.len() && same_group((#[trigger] s[j]).0, k) && s[j].0.alt_index == a
}

/// Within each group, the alt indices reach down to zero without gaps:
/// below every alt index in use, every smaller alt index is in use too.
pub open spec fn alts_downward_closed(s: Seq<(KeyModel, RGB)>) -> bool {
    forall|i: int, a: u8|
        0 <= i < s.len() && a < s[i].0.alt_index ==> #[trigger] has_group_alt(s, s[i].0, a)
}

/// The latest record before `i` that carries this character id and
/// costume index, or `-1` when there is none.
spec fn prev_match(rs: Seq<RawRecord>, id: Seq<char>, c: u8, i: int) -> int
    decreases i,
{
    if i <= 0 {
        -1
    } else if rs[i - 1].character_id == id && rs[i - 1].costume_index == c {
        i - 1
    } else {
        prev_match(rs, id, c, i - 1)
    }
}

proof fn lemma_prev_match(rs: Seq<RawRecord>, id: Seq<char>, c: u8, i: int)
    requires
        0 <= i <= rs.len(),
    ensures
        -1 <= prev_match(rs, id, c, i) < i,
        prev_match(rs, id, c, i) == -1 ==> count_matching(rs, id, c, i) == 0,
        prev_match(rs, id, c, i) == -1 ==> forall|j: int|
            0 <= j < i ==> !((#[trigger] rs[j]).character_id == id && rs[j].costume_index == c),
        prev_match(rs, id, c, i) >= 0 ==> ({
            let p = prev_match(rs, id, c, i);
            &&& p < i
            &&& rs[p].character_id == id
            &&& rs[p].costume_index == c
            &&& count_matching(rs, id, c, i) == count_matching(rs, id, c, p) + 1
            &&& forall|j: int|
                p < j < i ==> !((#[trigger] rs[j]).character_id == id && rs[j].costume_index == c)
        }),
    decreases i,
{
    if i > 0 {
        if !(rs[i - 1].character_id == id && rs[i - 1].costume_index == c) {
            lemma_prev_match(rs, id, c, i - 1);
        }
    }
}

/// In a sorted table with unique keys, entries of one group stand in the
/// order of their alt indices.
proof fn lemma_sorted_group_alt(t: Seq<(KeyModel, RGB)>, i: int, j: int)
    requires
        sorted_by(t, entry_le_fn()),
        unique_keys(t),
        0 <= i < j < t.len(),
        same_group(t[i].0, t[j].0),
    ensures
        t[i].0.alt_index < t[j].0.alt_index,
{
    assert(entry_le_fn()(t[i], t[j]));
    assert(t[i].0 != t[j].0);
    crate::order::lemma_chars_lt_asymmetric(t[i].0.character_id, t[j].0.character_id);
}

/// How many earlier records of a sorted table share an entry's group:
/// exactly the entry's alt index, when the alt indices of each group are
/// downward closed.
proof fn lemma_count_eq_alt(t: Seq<(KeyModel, RGB)>, i: int)
    requires
        sorted_by(t, entry_le_fn()),
        unique_keys(t),
        alts_downward_closed(t),
        0 <= i < t.len(),
    ensures
        count_matching(raws_of(t), t[i].0.character_id, t[i].0.costume_index, i)
            == t[i].0.alt_index,
    decreases i,
{
    let rs = raws_of(t);
    let id = t[i].0.character_id;
    let c = t[i].0.costume_index;
    lemma_prev_match(rs, id, c, i);
    let p = prev_match(rs, id, c, i);
    if p == -1 {
        if t[i].0.alt_index > 0 {
            assert(has_group_alt(t, t[i].0, 0));
            let j = choose|j: int|
                0 <= j < t.len() && same_group(t[j].0, t[i].0) && t[j].0.alt_index == 0;
            assert(j != i);
            if j < i {
                assert(rs[j].character_id == id && rs[j].costume_index == c);
                assert(false);
            } else {
                lemma_sorted_group_alt(t, i, j);
                assert(false);
            }
        }
    } else {
        assert(0 <= p < i);
        assert(rs[p].character_id == id && rs[p].costume_index == c);
        assert(rs[p].character_id == t[p].0.character_id && rs[p].costume_index
            == t[p].0.costume_index);
        assert(same_group(t[p].0, t[i].0));
        lemma_sorted_group_alt(t, p, i);
        lemma_count_eq_alt(t, p);
        let ap = t[p].0.alt_index;
        let ai = t[i].0.alt_index;
        if ai > ap + 1 {
            let a = (ap + 1) as u8;
            assert(has_group_alt(t, t[i].0, a));
            let j = choose|j: int|
                0 <= j < t.len() && same_group(t[j].0, t[i].0) && t[j].0.alt_index == a;
            if j < p {
                lemma_sorted_group_alt(t, j, p);
                assert(false);
            } else if j == p || j == i {
                assert(false);
            } else if j > i {
                lemma_sorted_group_alt(t, i, j);
                assert(false);
            } else {
                assert(rs[j].character_id == id && rs[j].costume_index == c);
                assert(false);
            }
        }
        assert(count_matching(rs, id, c, p) == ap) by {
            assert(t[p].0.character_id == id && t[p].0.costume_index == c);
        }
    }
}

/// Reassigning alt indices by encounter order over the sorted entries
/// gives each entry its own alt index back.
proof fn lemma_with_alts_id(t: Seq<(KeyModel, RGB)>)
    requires
        sorted_by(t, entry_le_fn()),
        unique_keys(t),
        alts_downward_closed(t),
    ensures
        with_alts(raws_of(t)) == t,
{
    assert forall|i: int| 0 <= i < t.len() implies with_alts(raws_of(t))[i] == t[i] by {
        lemma_count_eq_alt(t, i);
    }
    assert(with_alts(raws_of(t)) =~= t);
}

/// Inserting entries with pairwise distinct keys in order rebuilds the
/// same sequence.
proof fn lemma_table_fold_unique(es: Seq<(KeyModel, RGB)>)
    requires
        unique_keys(es),
    ensures
        table_fold(es) == es,
    decreases es.len(),
{
    if es.len() > 0 {
        let pre = es.drop_last();
        let x = es.last();
        assert(unique_keys(pre)) by {
            assert forall|i: int, j: int| 0 <= i < j < pre.len() implies pre[i].0 != pre[j].0 by {
                assert(es[i].0 != es[j].0);
            }
        }
        lemma_table_fold_unique(pre);
        assert(!has_key(pre, x.0)) by {
            if has_key(pre, x.0) {
                let j = choose|j: int| 0 <= j < pre.len() && pre[j].0 == x.0;
                assert(es[j].0 == es[es.len() - 1].0);
                assert(false);
            }
        }
        assert(spec_insert(pre, x.0, x.1) == pre.push((x.0, x.1)));
        assert(pre.push((x.0, x.1)) =~= es);
    }
}

/// Sorting keeps key uniqueness, the ids, and the downward-closed alt
/// indices, since it only permutes the entries.
proof fn lemma_sort_keeps_table_shape(s: Seq<(KeyModel, RGB)>)
    requires
        unique_keys(s),
        all_ascii_ids(s),
        alts_downward_closed(s),
    ensures
        canonical_sort(s).to_multiset() == s.to_multiset(),
        canonical_sort(s).len() == s.len(),
        unique_keys(canonical_sort(s)),
        all_ascii_ids(canonical_sort(s)),
        alts_downward_closed(canonical_sort(s)),
        sorted_by(canonical_sort(s), entry_le_fn()),
{
    broadcast use vstd::seq_lib::group_to_multiset_ensures;
    broadcast use vstd::multiset::group_multiset_axioms;

    let t = canonical_sort(s);
    crate::order::lemma_entry_le_total_ordering();
    s.lemma_sort_by_ensures(entry_le_fn());
    assert(t.to_multiset() =~= s.to_multiset());
    assert(s.to_multiset().len() == s.len());
    assert(t.to_multiset().len() == t.len());
    assert(s.no_duplicates()) by {
        assert forall|i: int, j: int|
            0 <= i < s.len() && 0 <= j < s.len() && i != j implies s[i] != s[j] by {
            if i < j {
                assert(s[i].0 != s[j].0);
            } else {
                assert(s[j].0 != s[i].0);
            }
        }
    }
    s.lemma_multiset_has_no_duplicates();
    t.lemma_multiset_has_no_duplicates_conv();
    assert forall|k: int| 0 <= k < t.len() implies exists|m: int|
        0 <= m < s.len() && s[m] == #[trigger] t[k] by {
        assert(t.to_multiset().contains(t[k]));
        assert(s.to_multiset().contains(t[k]));
        assert(s.contains(t[k]));
    }
    assert forall|i: int, j: int| 0 <= i < j < t.len() implies t[i].0 != t[j].0 by {
        if t[i].0 == t[j].0 {
            assert(t[i] != t[j]);
            let mi = choose|m: int| 0 <= m < s.len() && s[m] == t[i];
            let mj = choose|m: int| 0 <= m < s.len() && s[m] == t[j];
            assert(mi != mj);
            if mi < mj {
                assert(s[mi].0 != s[mj].0);
            } else {
                assert(s[mj].0 != s[mi].0);
            }
            assert(false);
        }
    }
    assert forall|k: int| 0 <= k < t.len() implies ascii_id((#[trigger] t[k]).0.character_id) by {
        let m = choose|m: int| 0 <= m < s.len() && s[m] == t[k];
        assert(ascii_id(s[m].0.character_id));
    }
    assert forall|i: int, a: u8|
        0 <= i < t.len() && a < t[i].0.alt_index implies #[trigger] has_group_alt(
        t,
        t[i].0,
        a,
    ) by {
        let m = choose|m: int| 0 <= m < s.len() && s[m] == t[i];
        assert(has_group_alt(s, s[m].0, a));
        let j = choose|j: int|
            0 <= j < s.len() && same_group(s[j].0, s[m].0) && s[j].0.alt_index == a;
        assert(s.to_multiset().contains(s[j]));
        assert(t.to_multiset().contains(s[j]));
        assert(t.contains(s[j]));
        let k = choose|k: int| 0 <= k < t.len() && t[k] == s[j];
        assert(same_group(t[k].0, t[i].0) && t[k].0.alt_index == a);
    }
}

/// Round trip: encoding a well-formed table and decoding the bytes yields
/// the table's entries in the canonical sorted order, and so, as an
/// unordered mapping, exactly the input table. Well-formed here means:
/// unique keys, six-character non-zero-ASCII ids (the fixed-width string
/// slot's assumption), downward-closed alt indices per group, and a count
/// that fits the four-byte count field.
pub proof fn lemma_round_trip(s: Seq<(KeyModel, RGB)>)
    requires
        unique_keys(s),
        all_ascii_ids(s),
        alts_downward_closed(s),
        s.len() <= 0xFFFFFFFF,
    ensures
        spec_decode(spec_to_binary(s)) == Ok::<Seq<(KeyModel, RGB)>, crate::data::CodecError>(
            canonical_sort(s),
        ),
        canonical_sort(s).to_multiset() == s.to_multiset(),
{
    let t = canonical_sort(s);
    let b = spec_to_binary(s);
    lemma_sort_keeps_table_shape(s);
    assert(b == layout_of(t)) by {
        reveal(layout_of);
    }
    lemma_header_fields(t, b);
    lemma_parse_entries(t, b, 0);
    assert(raws_of(t).skip(0) =~= raws_of(t));
    lemma_with_alts_id(t);
    lemma_table_fold_unique(t);
    assert(spec_raw_entries(b, 8 + le64_at(b, 8), le32_at(b, 4) as nat) == Ok::<
        Seq<RawRecord>,
        crate::data::CodecError,
    >(raws_of(t)));
    assert(spec_decode(b) == Ok::<Seq<(KeyModel, RGB)>, crate::data::CodecError>(t));
}

} // verus!
