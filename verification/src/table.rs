use vstd::prelude::*;

use crate::data::{EntryKey, KeyModel, RGB};

verus! {

#[verifier::external_type_specification]
#[verifier::external_body]
#[verifier::reject_recursive_types(K)]
#[verifier::reject_recursive_types(V)]
#[verifier::reject_recursive_types(S)]
pub struct ExIndexMap<K, V, S>(indexmap::IndexMap<K, V, S>);

/// The contents of an [`indexmap::IndexMap`] holding the color table: its
/// key/value pairs as models, in the map's iteration order (insertion order).
pub uninterp spec fn map_entries(m: indexmap::IndexMap<EntryKey, RGB>) -> Seq<(KeyModel, RGB)>;

/// True when some pair of `s` carries the key `k`.
pub open spec fn has_key(s: Seq<(KeyModel, RGB)>, k: KeyModel) -> bool {
    exists|i: int| 0 <= i < s.len() && s[i].0 == k
}

/// An index of `s` whose pair carries the key `k` (the unique one, when the
/// keys of `s` are distinct).
pub open spec fn key_index(s: Seq<(KeyModel, RGB)>, k: KeyModel) -> int {
    choose|i: int| 0 <= i < s.len() && s[i].0 == k
}

/// What inserting `(k, v)` does to an ordered table: an existing entry for
/// `k` keeps its place and takes the new value; a new key goes last.
pub open spec fn spec_insert(s: Seq<(KeyModel, RGB)>, k: KeyModel, v: RGB) -> Seq<(KeyModel, RGB)> {
    if has_key(s, k) {
        s.update(key_index(s, k), (k, v))
    } else {
        s.push((k, v))
    }
}

/// True when no two pairs of `s` share a key.
pub open spec fn unique_keys(s: Seq<(KeyModel, RGB)>) -> bool {
    forall|i: int, j: int| 0 <= i < j < s.len() ==> s[i].0 != s[j].0
}

/// The models of a sequence of owned key/value pairs.
pub open spec fn entries_model(v: Seq<(EntryKey, RGB)>) -> Seq<(KeyModel, RGB)> {
    v.map_values(|p: (EntryKey, RGB)| (p.0@, p.1))
}

/// Relies on `indexmap::IndexMap::new`: a new map is empty.
#[verifier::external_body]
fn imap_new() -> (m: indexmap::IndexMap<EntryKey, RGB>)
    ensures
        map_entries(m) == Seq::<(KeyModel, RGB)>::empty(),
{
    indexmap::IndexMap::new()
}

/// Relies on `indexmap::IndexMap::insert`: an equivalent key retains its
/// place in the order and only its value is updated (the old value is
/// returned); a new key goes last and `None` is returned. Key equivalence
/// here is the derived equality of [`EntryKey`], which is equality of the
/// key models.
#[verifier::external_body]
fn imap_insert(
    m: &mut indexmap::IndexMap<EntryKey, RGB>,
    key: EntryKey,
    value: RGB,
) -> (old_value: Option<RGB>)
    ensures
        map_entries(*final(m)) == spec_insert(map_entries(*old(m)), key@, value),
        old_value is Some <==> has_key(map_entries(*old(m)), key@),
        (old_value matches Some(v) ==> exists|i: int|
            0 <= i < map_entries(*old(m)).len() && map_entries(*old(m))[i].0 == key@
                && map_entries(*old(m))[i].1 == v),
{
    m.insert(key, value)
}

/// Relies on `indexmap::IndexMap::len`: the number of entries in the map.
#[verifier::external_body]
fn imap_len(m: &indexmap::IndexMap<EntryKey, RGB>) -> (n: usize)
    ensures
        n == map_entries(*m).len(),
{
    m.len()
}

/// Relies on `indexmap::IndexMap::get`: the stored value for an equivalent
/// key, if one is present.
#[verifier::external_body]
fn imap_get(m: &indexmap::IndexMap<EntryKey, RGB>, key: &EntryKey) -> (r: Option<RGB>)
    ensures
        r is Some <==> has_key(map_entries(*m), key@),
        (r matches Some(v) ==> exists|i: int|
            0 <= i < map_entries(*m).len() && map_entries(*m)[i].0 == key@
                && map_entries(*m)[i].1 == v),
{
    m.get(key).copied()
}

/// Relies on `indexmap::IndexMap::iter`: the entries come out in order.
#[verifier::external_body]
fn imap_entries(m: &indexmap::IndexMap<EntryKey, RGB>) -> (r: Vec<(EntryKey, RGB)>)
    ensures
        entries_model(r@) == map_entries(*m),
{
    m.iter().map(|(k, v)| (k.clone(), *v)).collect()
}

/// The in-memory color table: an ordered mapping from [`EntryKey`] to
/// [`RGB`]. Decode builds one in encounter order; encode consumes one,
/// re-sorting its entries into the canonical order first.
#[derive(Debug)]
pub struct PlayerColorParam {
    entries: indexmap::IndexMap<EntryKey, RGB>,
}

impl View for PlayerColorParam {
    type V = Seq<(KeyModel, RGB)>;

    closed spec fn view(&self) -> Seq<(KeyModel, RGB)> {
        map_entries(self.entries)
    }
}

impl PlayerColorParam {
    /// Every key of the table is unique.
    pub open spec fn wf(&self) -> bool {
        unique_keys(self@)
    }

    /// An empty table.
    pub fn new() -> (r: Self)
        ensures
            r@ == Seq::<(KeyModel, RGB)>::empty(),
            r.wf(),
    {
        let r = PlayerColorParam { entries: imap_new() };
        r
    }

    /// Insert an entry. An existing entry with the same key keeps its place
    /// and takes the new value; a new key goes last in the order.
    pub fn insert(&mut self, key: EntryKey, value: RGB) -> (old_value: Option<RGB>)
        ensures
            final(self)@ == spec_insert(old(self)@, key@, value),
            old(self).wf() ==> final(self).wf(),
            old_value is Some <==> has_key(old(self)@, key@),
            (old_value matches Some(v) ==> exists|i: int|
                0 <= i < old(self)@.len() && old(self)@[i].0 == key@ && old(self)@[i].1 == v),
    {
        let r = imap_insert(&mut self.entries, key, value);
        proof {
            if old(self).wf() {
                lemma_spec_insert_unique(old(self)@, key@, value);
            }
        }
        r
    }

    /// The number of entries.
    pub fn len(&self) -> (n: usize)
        ensures
            n == self@.len(),
    {
        imap_len(&self.entries)
    }

    /// The stored value for `key`, if it is present.
    pub fn get(&self, key: &EntryKey) -> (r: Option<RGB>)
        ensures
            r is Some <==> has_key(self@, key@),
            (r matches Some(v) ==> exists|i: int|
                0 <= i < self@.len() && self@[i].0 == key@ && self@[i].1 == v),
            (self.wf() && has_key(self@, key@) ==> r == Some(self@[key_index(self@, key@)].1)),
    {
        let r = imap_get(&self.entries, key);
        proof {
            if self.wf() && has_key(self@, key@) {
                let j = key_index(self@, key@);
                if r is Some {
                    let i = choose|i: int|
                        0 <= i < self@.len() && self@[i].0 == key@ && self@[i].1 == r->Some_0;
                    assert(i == j);
                }
            }
        }
        r
    }

    /// The entries of the table, in its order.
    pub fn entries(&self) -> (r: Vec<(EntryKey, RGB)>)
        ensures
            entries_model(r@) == self@,
    {
        imap_entries(&self.entries)
    }
}

/// Inserting preserves key uniqueness.
proof fn lemma_spec_insert_unique(s: Seq<(KeyModel, RGB)>, k: KeyModel, v: RGB)
    requires
        unique_keys(s),
    ensures
        unique_keys(spec_insert(s, k, v)),
{
    if has_key(s, k) {
        let j = key_index(s, k);
        let t = s.update(j, (k, v));
        assert forall|x: int, y: int| 0 <= x < y < t.len() implies t[x].0 != t[y].0 by {
            assert(s[x].0 != s[y].0);
        }
    } else {
        let t = s.push((k, v));
        assert forall|x: int, y: int| 0 <= x < y < t.len() implies t[x].0 != t[y].0 by {
            if y == s.len() {
                assert(t[x].0 == s[x].0);
            } else {
                assert(s[x].0 != s[y].0);
            }
        }
    }
}

} // verus!
