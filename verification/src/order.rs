use vstd::prelude::*;
use vstd::relations::{sorted_by, total_ordering};
use vstd::seq_lib::{lemma_multiset_commutative, lemma_sorted_unique};

use crate::data::{EntryKey, KeyModel, RGB};
use crate::table::entries_model;

verus! {

/// Lexicographic order on character sequences, by character value.
pub open spec fn chars_lt(a: Seq<char>, b: Seq<char>) -> bool
    decreases a.len(),
{
    if b.len() == 0 {
        false
    } else if a.len() == 0 {
        true
    } else if a[0] != b[0] {
        a[0] < b[0]
    } else {
        chars_lt(a.drop_first(), b.drop_first())
    }
}

/// The canonical order on keys: character id first, then costume index,
/// then alt index.
pub open spec fn key_lt(a: KeyModel, b: KeyModel) -> bool {
    ||| chars_lt(a.character_id, b.character_id)
    ||| (a.character_id == b.character_id && (a.costume_index < b.costume_index || (
    a.costume_index == b.costume_index && a.alt_index < b.alt_index)))
}

/// A total tie-break on color values (red, then green, then blue); it only
/// matters for tables that hold the same key twice, which a well-formed
/// table never does.
pub open spec fn rgb_le(a: RGB, b: RGB) -> bool {
    ||| a.red < b.red
    ||| (a.red == b.red && (a.green < b.green || (a.green == b.green && a.blue <= b.blue)))
}

/// The canonical (non-strict) order on table entries.
pub open spec fn entry_le(a: (KeyModel, RGB), b: (KeyModel, RGB)) -> bool {
    key_lt(a.0, b.0) || (a.0 == b.0 && rgb_le(a.1, b.1))
}

/// [`entry_le`] as a relation value.
pub open spec fn entry_le_fn() -> spec_fn((KeyModel, RGB), (KeyModel, RGB)) -> bool {
    |a: (KeyModel, RGB), b: (KeyModel, RGB)| entry_le(a, b)
}

/// The canonical ordering of a table's entries: the unique permutation
/// sorted by [`entry_le`].
pub open spec fn canonical_sort(s: Seq<(KeyModel, RGB)>) -> Seq<(KeyModel, RGB)> {
    s.sort_by(entry_le_fn())
}

pub proof fn lemma_chars_lt_asymmetric(a: Seq<char>, b: Seq<char>)
    ensures
        chars_lt(a, b) ==> !chars_lt(b, a),
    decreases a.len(),
{
    if a.len() > 0 && b.len() > 0 && a[0] == b[0] {
        lemma_chars_lt_asymmetric(a.drop_first(), b.drop_first());
    }
}

pub proof fn lemma_chars_lt_connected(a: Seq<char>, b: Seq<char>)
    ensures
        !chars_lt(a, b) && !chars_lt(b, a) ==> a == b,
    decreases a.len(),
{
    if !chars_lt(a, b) && !chars_lt(b, a) {
        if a.len() > 0 && b.len() > 0 && a[0] == b[0] {
            lemma_chars_lt_connected(a.drop_first(), b.drop_first());
            assert(a =~= seq![a[0]] + a.drop_first());
            assert(b =~= seq![b[0]] + b.drop_first());
        }
    }
}

pub proof fn lemma_chars_lt_transitive(a: Seq<char>, b: Seq<char>, c: Seq<char>)
    ensures
        chars_lt(a, b) && chars_lt(b, c) ==> chars_lt(a, c),
    decreases a.len(),
{
    if chars_lt(a, b) && chars_lt(b, c) {
        if a.len() > 0 && b.len() > 0 && c.len() > 0 && a[0] == b[0] && b[0] == c[0] {
            lemma_chars_lt_transitive(a.drop_first(), b.drop_first(), c.drop_first());
        }
    }
}

/// [`entry_le`] is a total order, so a sorted arrangement of any multiset
/// of entries is unique.
pub proof fn lemma_entry_le_total_ordering()
    ensures
        total_ordering(entry_le_fn()),
{
    let leq = entry_le_fn();
    assert forall|x: (KeyModel, RGB), y: (KeyModel, RGB)| #[trigger] leq(x, y) && #[trigger] leq(
        y,
        x,
    ) implies x == y by {
        lemma_chars_lt_asymmetric(x.0.character_id, y.0.character_id);
    }
    assert forall|x: (KeyModel, RGB), y: (KeyModel, RGB)| #[trigger] leq(x, y) || #[trigger] leq(
        y,
        x,
    ) by {
        lemma_chars_lt_connected(x.0.character_id, y.0.character_id);
    }
    assert forall|x: (KeyModel, RGB), y: (KeyModel, RGB), z: (KeyModel, RGB)|
        #[trigger] leq(x, y) && #[trigger] leq(y, z) implies leq(x, z) by {
        lemma_chars_lt_transitive(x.0.character_id, y.0.character_id, z.0.character_id);
        lemma_chars_lt_asymmetric(x.0.character_id, y.0.character_id);
    }
}

/// Whether `a` comes (not necessarily strictly) before `b` in the
/// canonical order.
fn entry_le_exec(a: &(EntryKey, RGB), b: &(EntryKey, RGB)) -> (r: bool)
    ensures
        r == entry_le((a.0@, a.1), (b.0@, b.1)),
{
    if str_lt(a.0.character_id.as_str(), b.0.character_id.as_str()) {
        return true;
    }
    if !(a.0.character_id == b.0.character_id) {
        return false;
    }
    if a.0.costume_index != b.0.costume_index {
        return a.0.costume_index < b.0.costume_index;
    }
    if a.0.alt_index != b.0.alt_index {
        return a.0.alt_index < b.0.alt_index;
    }
    if a.1.red != b.1.red {
        return a.1.red < b.1.red;
    }
    if a.1.green != b.1.green {
        return a.1.green < b.1.green;
    }
    a.1.blue <= b.1.blue
}

/// Whether `a` comes strictly before `b` in lexicographic character order.
fn str_lt(a: &str, b: &str) -> (r: bool)
    ensures
        r == chars_lt(a@, b@),
{
    let an = a.unicode_len();
    let bn = b.unicode_len();
    let mut i: usize = 0;
    proof {
        assert(a@.subrange(0, an as int) =~= a@);
        assert(b@.subrange(0, bn as int) =~= b@);
    }
    loop
        invariant
            i <= an,
            i <= bn,
            an == a@.len(),
            bn == b@.len(),
            chars_lt(a@, b@) == chars_lt(
                a@.subrange(i as int, an as int),
                b@.subrange(i as int, bn as int),
            ),
        decreases an - i,
    {
        if i == bn {
            return false;
        }
        if i == an {
            return true;
        }
        let ca = a.get_char(i);
        let cb = b.get_char(i);
        if ca != cb {
            return ca < cb;
        }
        i = i + 1;
        proof {
            assert(a@.subrange(i - 1, an as int).drop_first() =~= a@.subrange(i as int, an as int));
            assert(b@.subrange(i - 1, bn as int).drop_first() =~= b@.subrange(i as int, bn as int));
        }
    }
}

/// The index at which `x` belongs in the sorted `out`: the first position
/// whose entry does not come before `x`.
fn find_insert_pos(out: &Vec<(EntryKey, RGB)>, x: &(EntryKey, RGB)) -> (j: usize)
    ensures
        j <= out@.len(),
        forall|k: int| 0 <= k < j ==> entry_le(#[trigger] entries_model(out@)[k], (x.0@, x.1)),
        j < out@.len() ==> !entry_le(entries_model(out@)[j as int], (x.0@, x.1)),
{
    let n = out.len();
    let mut j: usize = 0;
    loop
        invariant
            j <= n,
            n == out@.len(),
            forall|k: int| 0 <= k < j ==> entry_le(#[trigger] entries_model(out@)[k], (x.0@, x.1)),
        decreases n - j,
    {
        if j == n {
            return j;
        }
        if !entry_le_exec(&out[j], x) {
            return j;
        }
        j = j + 1;
    }
}

proof fn lemma_insert_to_multiset(s: Seq<(KeyModel, RGB)>, j: int, x: (KeyModel, RGB))
    requires
        0 <= j <= s.len(),
    ensures
        s.insert(j, x).to_multiset() =~= s.to_multiset().insert(x),
{
    broadcast use vstd::seq_lib::group_to_multiset_ensures;

    let pre = s.subrange(0, j);
    let post = s.subrange(j, s.len() as int);
    assert(s =~= pre + post);
    lemma_multiset_commutative(pre, post);
    lemma_multiset_commutative(pre.push(x), post);
    assert(pre.push(x).to_multiset() =~= pre.to_multiset().insert(x));
}

/// Sort a table's entries into the canonical order.
pub fn sort_canonical(v: Vec<(EntryKey, RGB)>) -> (r: Vec<(EntryKey, RGB)>)
    ensures
        entries_model(r@) == canonical_sort(entries_model(v@)),
{
    let ghost orig = entries_model(v@);
    let mut src = v;
    let mut out: Vec<(EntryKey, RGB)> = Vec::new();
    proof {
        lemma_entry_le_total_ordering();
        broadcast use vstd::seq_lib::group_to_multiset_ensures;

    }
    while src.len() > 0
        invariant
            total_ordering(entry_le_fn()),
            sorted_by(entries_model(out@), entry_le_fn()),
            entries_model(out@).to_multiset().add(entries_model(src@).to_multiset())
                =~= orig.to_multiset(),
        decreases src@.len(),
    {
        broadcast use vstd::seq_lib::group_to_multiset_ensures;

        let ghost src_pre = entries_model(src@);
        let ghost out_pre = entries_model(out@);
        let x = src.pop().unwrap();
        let ghost xm = (x.0@, x.1);
        proof {
            assert(src_pre =~= entries_model(src@).push(xm));
        }
        let j = find_insert_pos(&out, &x);
        let ghost jj = j as int;
        out.insert(j, x);
        proof {
            assert(entries_model(out@) =~= out_pre.insert(jj, xm));
            out_pre.insert_ensures(jj, xm);
            lemma_insert_to_multiset(out_pre, jj, xm);
            let leq = entry_le_fn();
            let cur = entries_model(out@);
            assert forall|p: int, q: int| 0 <= p < q < cur.len() implies #[trigger] leq(
                cur[p],
                cur[q],
            ) by {
                if p < jj && q == jj {
                    assert(leq(out_pre[p], xm));
                } else if p == jj && q > jj {
                    assert(!leq(out_pre[jj], xm));
                    assert(leq(xm, out_pre[jj]));
                    if q - 1 > jj {
                        assert(leq(out_pre[jj], out_pre[q - 1]));
                    }
                } else if p < jj && q > jj {
                    assert(leq(out_pre[p], out_pre[q - 1]));
                } else if p > jj && q > jj {
                    assert(leq(out_pre[p - 1], out_pre[q - 1]));
                }
            }
        }
    }
    proof {
        broadcast use vstd::seq_lib::group_to_multiset_ensures;
        broadcast use vstd::multiset::group_multiset_axioms;

        assert(entries_model(src@) =~= Seq::<(KeyModel, RGB)>::empty());
        assert(entries_model(out@).to_multiset() =~= orig.to_multiset());
        orig.lemma_sort_by_ensures(entry_le_fn());
        lemma_sorted_unique(entries_model(out@), canonical_sort(orig), entry_le_fn());
        assert(entries_model(out@) == canonical_sort(orig));
    }
    out
}

} // verus!
