use vstd::prelude::*;
use vstd::relations::total_ordering;
use vstd::utf8::encode_utf8;

use crate::bytes::{u32_le_bytes, u64_le_bytes, write_u32_le, write_u64_le};
use crate::data::{KeyModel, FORMAT_VERSION, RGB};
use crate::order::{canonical_sort, entry_le_fn, lemma_entry_le_total_ordering, sort_canonical};
use crate::table::{entries_model, PlayerColorParam};

verus! {

/// The sixteen-byte header: version, entry count, and a data-offset field
/// that always holds the pointer field's own width, so the entry table
/// begins immediately after the header.
pub open spec fn header_bytes(count: u32) -> Seq<u8> {
    u32_le_bytes(FORMAT_VERSION) + u32_le_bytes(count) + u64_le_bytes(8)
}

/// The value of entry `i`'s string-pointer field in a table of `n`
/// entries: the distance from the byte after the pointer field to the
/// `i`-th slot of the string region, plus the pointer field's own width.
pub open spec fn string_offset(n: int, i: int) -> int {
    24 * (n - i) + 8 * i
}

/// The 24-byte record of entry `e` at sorted index `i` out of `n`: the
/// string pointer, the costume index, and the color channels in the
/// on-disk field order red, blue, green, each widened to four bytes.
pub open spec fn entry_record(e: (KeyModel, RGB), n: int, i: int) -> Seq<u8> {
    u64_le_bytes(string_offset(n, i) as u64) + u32_le_bytes(e.0.costume_index as u32)
        + u32_le_bytes(e.1.red as u32) + u32_le_bytes(e.1.blue as u32) + u32_le_bytes(
        e.1.green as u32,
    )
}

/// The string record of entry `e`: its character id in UTF-8, followed by
/// two zero bytes (a six-byte id padded to an eight-byte slot).
pub open spec fn string_record(e: (KeyModel, RGB)) -> Seq<u8> {
    encode_utf8(e.0.character_id) + seq![0u8, 0u8]
}

/// The first `k` records of the entry region of a table `t` of `n`
/// entries.
pub open spec fn entry_region_to(t: Seq<(KeyModel, RGB)>, n: int, k: int) -> Seq<u8>
    decreases k,
{
    if k <= 0 {
        Seq::empty()
    } else {
        entry_region_to(t, n, k - 1) + entry_record(t[k - 1], n, k - 1)
    }
}

/// The first `k` records of the string region of a table `t`.
pub open spec fn string_region_to(t: Seq<(KeyModel, RGB)>, k: int) -> Seq<u8>
    decreases k,
{
    if k <= 0 {
        Seq::empty()
    } else {
        string_region_to(t, k - 1) + string_record(t[k - 1])
    }
}

/// The encoding of a table: header, entry region, then string region, the
/// entries taken in the canonical sorted order.
pub open spec fn spec_to_binary(s: Seq<(KeyModel, RGB)>) -> Seq<u8> {
    let t = canonical_sort(s);
    let n = s.len() as int;
    header_bytes(s.len() as u32) + entry_region_to(t, n, n) + string_region_to(t, n)
}

/// Sorting keeps the number of entries.
pub proof fn lemma_canonical_sort_len(s: Seq<(KeyModel, RGB)>)
    ensures
        canonical_sort(s).len() == s.len(),
{
    broadcast use vstd::seq_lib::group_to_multiset_ensures;

    lemma_entry_le_total_ordering();
    s.lemma_sort_by_ensures(entry_le_fn());
    assert(s.to_multiset() =~= canonical_sort(s).to_multiset());
    assert(s.to_multiset().len() == s.len());
    assert(canonical_sort(s).to_multiset().len() == canonical_sort(s).len());
}

/// Encode a table into the fixed binary layout. The entries are written in
/// the canonical sorted order, so equal tables encode to identical bytes
/// whatever order their entries were inserted in.
pub fn to_binary_data(param: &PlayerColorParam) -> (r: Vec<u8>)
    requires
        param@.len() <= 0xFFFFFFFF,
    ensures
        r@ == spec_to_binary(param@),
{
    let entries = param.entries();
    let entries = sort_canonical(entries);
    let ghost t = canonical_sort(param@);
    proof {
        lemma_canonical_sort_len(param@);
    }
    let n = entries.len();
    let mut buf: Vec<u8> = Vec::new();
    write_u32_le(&mut buf, FORMAT_VERSION);
    write_u32_le(&mut buf, n as u32);
    write_u64_le(&mut buf, 8);
    proof {
        assert(buf@ =~= header_bytes(n as u32));
    }
    let mut i: usize = 0;
    while i < n
        invariant
            n == t.len(),
            n <= 0xFFFFFFFF,
            i <= n,
            entries_model(entries@) == t,
            entries@.len() == n,
            buf@ == header_bytes(n as u32) + entry_region_to(t, n as int, i as int),
        decreases n - i,
    {
        let ghost buf_pre = buf@;
        let off: u64 = 24 * ((n - i) as u64) + 8 * (i as u64);
        write_u64_le(&mut buf, off);
        write_u32_le(&mut buf, entries[i].0.costume_index as u32);
        write_u32_le(&mut buf, entries[i].1.red as u32);
        write_u32_le(&mut buf, entries[i].1.blue as u32);
        write_u32_le(&mut buf, entries[i].1.green as u32);
        proof {
            assert(t[i as int] == entries_model(entries@)[i as int]);
            assert(buf@ =~= buf_pre + entry_record(t[i as int], n as int, i as int));
            assert(buf@ =~= header_bytes(n as u32) + entry_region_to(t, n as int, i + 1));
        }
        i = i + 1;
    }
    let ghost er = entry_region_to(t, n as int, n as int);
    let mut i: usize = 0;
    while i < n
        invariant
            n == t.len(),
            i <= n,
            entries_model(entries@) == t,
            entries@.len() == n,
            er == entry_region_to(t, n as int, n as int),
            buf@ == header_bytes(n as u32) + er + string_region_to(t, i as int),
        decreases n - i,
    {
        let ghost buf_pre = buf@;
        let sb = entries[i].0.character_id.as_str().as_bytes_vec();
        let m = sb.len();
        let mut k: usize = 0;
        while k < m
            invariant
                k <= m,
                m == sb@.len(),
                buf@ == buf_pre + sb@.subrange(0, k as int),
            decreases m - k,
        {
            buf.push(sb[k]);
            proof {
                assert(buf@ =~= buf_pre + sb@.subrange(0, k + 1));
            }
            k = k + 1;
        }
        buf.push(0);
        buf.push(0);
        proof {
            assert(t[i as int] == entries_model(entries@)[i as int]);
            assert(sb@.subrange(0, m as int) =~= sb@);
            assert(sb@ == encode_utf8(t[i as int].0.character_id));
            assert(buf@ =~= buf_pre + string_record(t[i as int]));
            assert(buf@ =~= header_bytes(n as u32) + er + string_region_to(t, i + 1));
        }
        i = i + 1;
    }
    proof {
        assert(param@.len() == n);
        assert(buf@ =~= spec_to_binary(param@));
    }
    buf
}

} // verus!
