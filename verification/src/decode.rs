use vstd::prelude::*;
use vstd::utf8::{decode_utf8, valid_utf8};

use crate::bytes::{le32_at, le64_at, read_u32_le, read_u64_le};
use crate::data::{CodecError, EntryKey, KeyModel, FORMAT_VERSION, RGB};
use crate::strings::{find_nul, read_cstring};
use crate::table::{spec_insert, PlayerColorParam};

verus! {

/// One entry as it stands in the file, before deduplication: the resolved
/// character id, the narrowed costume index, and the narrowed color.
pub struct RawRecord {
    pub character_id: Seq<char>,
    pub costume_index: u8,
    pub color: RGB,
}

/// Why the 24-byte entry record at `pos` cannot be read, if it cannot: its
/// string pointer is resolved relative to the byte after the pointer field
/// and must reach a zero-terminated, valid UTF-8 byte sequence, and the
/// record's four 32-bit fields must lie within the buffer.
pub open spec fn entry_err(b: Seq<u8>, pos: int) -> Option<CodecError> {
    if pos + 8 > b.len() {
        Some(CodecError::OutOfBounds)
    } else {
        let target = pos + le64_at(b, pos);
        let e = find_nul(b, target);
        if e < 0 {
            Some(CodecError::OutOfBounds)
        } else if !valid_utf8(b.subrange(target, e)) {
            Some(CodecError::InvalidStringEncoding)
        } else if pos + 24 > b.len() {
            Some(CodecError::OutOfBounds)
        } else {
            None
        }
    }
}

/// The entry record at `pos`, when [`entry_err`] lets it be read: the
/// decoded character id and the low bytes of the costume index and of the
/// color channels, which sit in the on-disk order red, blue, green.
pub open spec fn rec_of(b: Seq<u8>, pos: int) -> RawRecord {
    let target = pos + le64_at(b, pos);
    let e = find_nul(b, target);
    RawRecord {
        character_id: decode_utf8(b.subrange(target, e)),
        costume_index: (le32_at(b, pos + 8) % 256) as u8,
        color: RGB {
            red: (le32_at(b, pos + 12) % 256) as u8,
            green: (le32_at(b, pos + 20) % 256) as u8,
            blue: (le32_at(b, pos + 16) % 256) as u8,
        },
    }
}

/// Parse `n` raw entry records from `b`, the first at `pos`, the rest at
/// 24-byte steps after it.
pub open spec fn spec_raw_entries(b: Seq<u8>, pos: int, n: nat) -> Result<
    Seq<RawRecord>,
    CodecError,
>
    decreases n,
{
    if n == 0 {
        Ok(Seq::empty())
    } else {
        match entry_err(b, pos) {
            Some(e) => Err(e),
            None => match spec_raw_entries(b, pos + 24, (n - 1) as nat) {
                Ok(rest) => Ok(seq![rec_of(b, pos)] + rest),
                Err(er) => Err(er),
            },
        }
    }
}

/// How many of the first `end` records of `rs` carry this character id and
/// costume index.
pub open spec fn count_matching(rs: Seq<RawRecord>, id: Seq<char>, costume: u8, end: int) -> int
    decreases end,
{
    if end <= 0 {
        0
    } else {
        count_matching(rs, id, costume, end - 1) + if rs[end - 1].character_id == id && rs[end
            - 1].costume_index == costume {
            1int
        } else {
            0int
        }
    }
}

/// Assign each raw record its alt index: the number of earlier records
/// that share its `(character_id, costume_index)` pair, reduced to a byte.
pub open spec fn with_alts(rs: Seq<RawRecord>) -> Seq<(KeyModel, RGB)> {
    Seq::new(
        rs.len(),
        |i: int|
            (
                KeyModel {
                    character_id: rs[i].character_id,
                    costume_index: rs[i].costume_index,
                    alt_index: (count_matching(rs, rs[i].character_id, rs[i].costume_index, i)
                        % 256) as u8,
                },
                rs[i].color,
            ),
    )
}

/// The table that results from inserting the entries in order.
pub open spec fn table_fold(es: Seq<(KeyModel, RGB)>) -> Seq<(KeyModel, RGB)>
    decreases es.len(),
{
    if es.len() == 0 {
        Seq::empty()
    } else {
        spec_insert(table_fold(es.drop_last()), es.last().0, es.last().1)
    }
}

/// What decoding `b` yields: the version is checked first, then the entry
/// table is located through the header's relative data offset, and the
/// parsed records are deduplicated into a table.
pub open spec fn spec_decode(b: Seq<u8>) -> Result<Seq<(KeyModel, RGB)>, CodecError> {
    if b.len() < 4 {
        Err(CodecError::OutOfBounds)
    } else if le32_at(b, 0) != FORMAT_VERSION {
        Err(CodecError::UnsupportedVersion)
    } else if b.len() < 16 {
        Err(CodecError::OutOfBounds)
    } else {
        match spec_raw_entries(b, 8 + le64_at(b, 8), le32_at(b, 4) as nat) {
            Ok(rs) => Ok(table_fold(with_alts(rs))),
            Err(e) => Err(e),
        }
    }
}

/// Whether parsing the whole entry table agrees with parsing the remaining
/// `rem` records at `pos` after the records of `pre` have been read.
pub open spec fn raw_suffix_ok(
    b: Seq<u8>,
    n: nat,
    start: int,
    pre: Seq<RawRecord>,
    pos: int,
    rem: nat,
) -> bool {
    match spec_raw_entries(b, pos, rem) {
        Ok(rest) => spec_raw_entries(b, start, n) == Ok::<Seq<RawRecord>, CodecError>(pre + rest),
        Err(e) => spec_raw_entries(b, start, n) == Err::<Seq<RawRecord>, CodecError>(e),
    }
}

proof fn lemma_raw_suffix_step(b: Seq<u8>, n: nat, start: int, pre: Seq<RawRecord>, pos: int, rem: nat)
    requires
        raw_suffix_ok(b, n, start, pre, pos, rem),
        rem > 0,
        entry_err(b, pos) is None,
    ensures
        raw_suffix_ok(b, n, start, pre.push(rec_of(b, pos)), pos + 24, (rem - 1) as nat),
{
    let rec = rec_of(b, pos);
    let tail = spec_raw_entries(b, pos + 24, (rem - 1) as nat);
    assert(spec_raw_entries(b, pos, rem) == (match tail {
        Ok(rest) => Ok::<Seq<RawRecord>, CodecError>(seq![rec] + rest),
        Err(er) => Err::<Seq<RawRecord>, CodecError>(er),
    }));
    if tail is Ok {
        let rest = tail->Ok_0;
        assert(pre + (seq![rec] + rest) =~= pre.push(rec) + rest);
    }
}

proof fn lemma_raw_suffix_err(b: Seq<u8>, n: nat, start: int, pre: Seq<RawRecord>, pos: int, rem: nat, e: CodecError)
    requires
        raw_suffix_ok(b, n, start, pre, pos, rem),
        rem > 0,
        entry_err(b, pos) == Some(e),
    ensures
        spec_raw_entries(b, start, n) == Err::<Seq<RawRecord>, CodecError>(e),
{
    assert(spec_raw_entries(b, pos, rem) == Err::<Seq<RawRecord>, CodecError>(e));
}

proof fn lemma_table_fold_push(es: Seq<(KeyModel, RGB)>, x: (KeyModel, RGB))
    ensures
        table_fold(es.push(x)) == spec_insert(table_fold(es), x.0, x.1),
{
    assert(es.push(x).drop_last() =~= es);
    assert(es.push(x).last() == x);
}

/// A record's alt count only looks at the records before `end`.
proof fn lemma_count_matching_prefix(
    rs1: Seq<RawRecord>,
    rs2: Seq<RawRecord>,
    id: Seq<char>,
    costume: u8,
    end: int,
)
    requires
        end <= rs1.len(),
        end <= rs2.len(),
        forall|j: int| 0 <= j < end ==> rs1[j] == rs2[j],
    ensures
        count_matching(rs1, id, costume, end) == count_matching(rs2, id, costume, end),
    decreases end,
{
    if end > 0 {
        lemma_count_matching_prefix(rs1, rs2, id, costume, end - 1);
    }
}

/// Appending a record extends the alt-assigned sequence by one pair whose
/// alt index counts the matching records already present.
proof fn lemma_with_alts_push(rs: Seq<RawRecord>, rec: RawRecord)
    ensures
        with_alts(rs.push(rec)) == with_alts(rs).push(
            (
                KeyModel {
                    character_id: rec.character_id,
                    costume_index: rec.costume_index,
                    alt_index: (count_matching(
                        rs,
                        rec.character_id,
                        rec.costume_index,
                        rs.len() as int,
                    ) % 256) as u8,
                },
                rec.color,
            ),
        ),
{
    let a = with_alts(rs.push(rec));
    let b = with_alts(rs).push(
        (
            KeyModel {
                character_id: rec.character_id,
                costume_index: rec.costume_index,
                alt_index: (count_matching(
                    rs,
                    rec.character_id,
                    rec.costume_index,
                    rs.len() as int,
                ) % 256) as u8,
            },
            rec.color,
        ),
    );
    assert forall|i: int| 0 <= i < a.len() implies a[i] == b[i] by {
        lemma_count_matching_prefix(
            rs.push(rec),
            rs,
            rs.push(rec)[i].character_id,
            rs.push(rec)[i].costume_index,
            if i < rs.len() {
                i
            } else {
                rs.len() as int
            },
        );
    }
    assert(a =~= b);
}

/// Read the entry record at `pos`: resolve its string pointer, read and
/// decode the character id, then the four 32-bit fields, keeping only the
/// low byte of each.
fn read_record(data: &Vec<u8>, pos: usize) -> (r: Result<(String, u8, RGB), CodecError>)
    ensures
        (r matches Ok(p) ==> entry_err(data@, pos as int) is None && p.0@ == rec_of(
            data@,
            pos as int,
        ).character_id && p.1 == rec_of(data@, pos as int).costume_index && p.2 == rec_of(
            data@,
            pos as int,
        ).color),
        (r matches Err(e) ==> entry_err(data@, pos as int) == Some(e)),
{
    let len = data.len();
    if len < 8 || pos > len - 8 {
        return Err(CodecError::OutOfBounds);
    }
    let str_off = read_u64_le(data, pos);
    if str_off > (usize::MAX - pos) as u64 {
        proof {
            assert(find_nul(data@, pos as int + le64_at(data@, pos as int)) == -1);
        }
        return Err(CodecError::OutOfBounds);
    }
    let target = pos + (str_off as usize);
    let id = match read_cstring(data, target) {
        Ok(s) => s,
        Err(e) => {
            return Err(e);
        },
    };
    if len < 24 || pos > len - 24 {
        return Err(CodecError::OutOfBounds);
    }
    let costume = (read_u32_le(data, pos + 8) % 256) as u8;
    let red = (read_u32_le(data, pos + 12) % 256) as u8;
    let blue = (read_u32_le(data, pos + 16) % 256) as u8;
    let green = (read_u32_le(data, pos + 20) % 256) as u8;
    Ok((id, costume, RGB { red, green, blue }))
}

/// How many entries already read carry this character id and costume
/// index; `rs` is the model of `seen`.
fn count_seen(
    seen: &Vec<(String, u8)>,
    id: &String,
    costume: u8,
    Ghost(rs): Ghost<Seq<RawRecord>>,
) -> (cnt: usize)
    requires
        seen@.len() == rs.len(),
        forall|j: int|
            0 <= j < rs.len() ==> (#[trigger] seen@[j]).0@ == rs[j].character_id && seen@[j].1
                == rs[j].costume_index,
    ensures
        cnt == count_matching(rs, id@, costume, rs.len() as int),
{
    let sn = seen.len();
    let mut cnt: usize = 0;
    let mut k: usize = 0;
    while k < sn
        invariant
            k <= sn,
            sn == seen@.len(),
            sn == rs.len(),
            forall|j: int|
                0 <= j < rs.len() ==> (#[trigger] seen@[j]).0@ == rs[j].character_id && seen@[j].1
                    == rs[j].costume_index,
            cnt <= k,
            cnt == count_matching(rs, id@, costume, k as int),
        decreases sn - k,
    {
        if seen[k].0 == *id && seen[k].1 == costume {
            cnt = cnt + 1;
        }
        k = k + 1;
    }
    cnt
}

/// Decode a binary color-table file. On success the returned table holds
/// exactly what [`spec_decode`] assigns to the bytes; on failure the error
/// is exactly the one [`spec_decode`] assigns.
#[verifier::rlimit(60)]
pub fn from_binary_data(data: &Vec<u8>) -> (r: Result<PlayerColorParam, CodecError>)
    ensures
        (r matches Ok(t) ==> spec_decode(data@) == Ok::<Seq<(KeyModel, RGB)>, CodecError>(t@)
            && t.wf()),
        (r matches Err(e) ==> spec_decode(data@) == Err::<Seq<(KeyModel, RGB)>, CodecError>(e)),
{
    let len = data.len();
    if len < 4 {
        return Err(CodecError::OutOfBounds);
    }
    let version = read_u32_le(data, 0);
    if version != FORMAT_VERSION {
        return Err(CodecError::UnsupportedVersion);
    }
    if len < 16 {
        return Err(CodecError::OutOfBounds);
    }
    let n = read_u32_le(data, 4);
    let data_off = read_u64_le(data, 8);
    let mut table = PlayerColorParam::new();
    let ghost nn = n as nat;
    let ghost start = 8 + le64_at(data@, 8);
    if n == 0 {
        proof {
            assert(with_alts(Seq::empty()) =~= Seq::<(KeyModel, RGB)>::empty());
            assert(spec_decode(data@) == Ok::<Seq<(KeyModel, RGB)>, CodecError>(table@));
        }
        return Ok(table);
    }
    if data_off > (usize::MAX - 8) as u64 {
        proof {
            assert(entry_err(data@, start) == Some(CodecError::OutOfBounds));
            assert(spec_raw_entries(data@, start, nn) == Err::<Seq<RawRecord>, CodecError>(
                CodecError::OutOfBounds,
            ));
        }
        return Err(CodecError::OutOfBounds);
    }
    let mut pos: usize = 8 + (data_off as usize);
    let mut seen: Vec<(String, u8)> = Vec::new();
    let ghost mut rs_pre: Seq<RawRecord> = Seq::empty();
    let mut i: u32 = 0;
    while i < n
        invariant
            i <= n,
            n > 0,
            len == data@.len(),
            16 <= len,
            le32_at(data@, 0) == FORMAT_VERSION,
            le32_at(data@, 4) == n,
            nn == n as nat,
            start == 8 + le64_at(data@, 8),
            rs_pre.len() == i,
            seen@.len() == i,
            forall|j: int|
                0 <= j < i ==> (#[trigger] seen@[j]).0@ == rs_pre[j].character_id && seen@[j].1
                    == rs_pre[j].costume_index,
            table@ == table_fold(with_alts(rs_pre)),
            table.wf(),
            raw_suffix_ok(data@, nn, start, rs_pre, pos as int, (n - i) as nat),
        decreases n - i,
    {
        let ghost rem = (n - i) as nat;
        let (id, costume, color) = match read_record(data, pos) {
            Ok(p) => p,
            Err(e) => {
                proof {
                    lemma_raw_suffix_err(data@, nn, start, rs_pre, pos as int, rem, e);
                    assert(spec_raw_entries(data@, start, nn) == Err::<Seq<RawRecord>, CodecError>(
                        e,
                    ));
                    assert(le32_at(data@, 4) as nat == nn);
                    assert(spec_decode(data@) == Err::<Seq<(KeyModel, RGB)>, CodecError>(e));
                }
                return Err(e);
            },
        };
        let ghost rec = rec_of(data@, pos as int);
        let cnt = count_seen(&seen, &id, costume, Ghost(rs_pre));
        let alt = (cnt % 256) as u8;
        seen.push((id.clone(), costume));
        let key = EntryKey { character_id: id, costume_index: costume, alt_index: alt };
        proof {
            lemma_raw_suffix_step(data@, nn, start, rs_pre, pos as int, rem);
            lemma_with_alts_push(rs_pre, rec);
            assert(with_alts(rs_pre.push(rec)).drop_last() =~= with_alts(rs_pre));
            lemma_table_fold_push(with_alts(rs_pre), (key@, color));
            assert(with_alts(rs_pre.push(rec)) == with_alts(rs_pre).push((key@, color)));
        }
        table.insert(key, color);
        proof {
            rs_pre = rs_pre.push(rec);
        }
        if pos > usize::MAX - 24 {
            proof {
                assert(entry_err(data@, pos as int + 24) == Some(CodecError::OutOfBounds));
            }
            if i + 1 < n {
                proof {
                    lemma_raw_suffix_err(
                        data@,
                        nn,
                        start,
                        rs_pre,
                        pos as int + 24,
                        (rem - 1) as nat,
                        CodecError::OutOfBounds,
                    );
                }
                return Err(CodecError::OutOfBounds);
            } else {
                proof {
                    assert(spec_raw_entries(data@, pos as int + 24, 0)
                        == Ok::<Seq<RawRecord>, CodecError>(Seq::empty()));
                    assert(rs_pre + Seq::<RawRecord>::empty() =~= rs_pre);
                    assert(spec_decode(data@) == Ok::<Seq<(KeyModel, RGB)>, CodecError>(table@));
                }
                return Ok(table);
            }
        }
        pos = pos + 24;
        i = i + 1;
    }
    proof {
        assert(spec_raw_entries(data@, pos as int, 0) == Ok::<Seq<RawRecord>, CodecError>(
            Seq::empty(),
        ));
        assert(rs_pre + Seq::<RawRecord>::empty() =~= rs_pre);
        assert(spec_decode(data@) == Ok::<Seq<(KeyModel, RGB)>, CodecError>(table@));
    }
    Ok(table)
}

} // verus!
