//! The MapLibre sprite index: entries kept in the order of their ids.

use crate::order::{bytes_equal, bytes_less, bytes_lt, lemma_bytes_lt_irreflexive, lemma_bytes_lt_total, lemma_bytes_lt_transitive};
use vstd::prelude::*;

verus! {

broadcast use vstd::utf8::encode_utf8_decode_utf8;

/// A MapLibre sprite index entry.
#[derive(Clone, Copy, PartialEq, Eq, Debug, Structural)]
pub struct SpriteIndexEntry {
    /// The icon's left coordinate in the sprite sheet.
    pub x: u32,
    /// The icon's top coordinate in the sprite sheet.
    pub y: u32,
    /// The icon's pixel width, excluding its packing margin.
    pub width: u32,
    /// The icon's pixel height, excluding its packing margin.
    pub height: u32,
    /// The pixel ratio represented by this sheet.
    pub pixel_ratio: u8,
}

/// The UTF-8 bytes of an id; ids are ordered as these bytes are.
pub open spec fn id_bytes(id: Seq<char>) -> Seq<u8> {
    vstd::utf8::encode_utf8(id)
}

/// The ids of `entries` increase strictly in byte order.
pub open spec fn ids_increasing(entries: Seq<(Seq<char>, SpriteIndexEntry)>) -> bool {
    forall|a: int, b: int|
        0 <= a < b < entries.len() ==> bytes_lt(id_bytes(#[trigger] entries[a].0), id_bytes(#[trigger] entries[b].0))
}

/// A position of `entries` that holds `id`, if there is one.
pub open spec fn position_of(entries: Seq<(Seq<char>, SpriteIndexEntry)>, id: Seq<char>) -> int {
    choose|k: int| 0 <= k < entries.len() && #[trigger] entries[k].0 == id
}

/// The entry stored under `id`, if any.
pub open spec fn index_get(entries: Seq<(Seq<char>, SpriteIndexEntry)>, id: Seq<char>) -> Option<SpriteIndexEntry> {
    if exists|k: int| 0 <= k < entries.len() && #[trigger] entries[k].0 == id {
        Some(entries[position_of(entries, id)].1)
    } else {
        None
    }
}

/// The entries after `entry` is stored under `id`: it replaces the entry
/// with that id, or goes in at the place of `id` in the order.
pub open spec fn index_insert(
    entries: Seq<(Seq<char>, SpriteIndexEntry)>,
    id: Seq<char>,
    entry: SpriteIndexEntry,
) -> Seq<(Seq<char>, SpriteIndexEntry)> {
    let p = first_not_before(entries, id_bytes(id), 0);
    if p < entries.len() && entries[p].0 == id {
        entries.update(p, (id, entry))
    } else {
        entries.insert(p, (id, entry))
    }
}

/// The first position from `k` on whose id does not sort before `key`.
pub open spec fn first_not_before(entries: Seq<(Seq<char>, SpriteIndexEntry)>, key: Seq<u8>, k: int) -> int
    decreases entries.len() - k,
{
    if k < 0 || k >= entries.len() {
        entries.len() as int
    } else if bytes_lt(id_bytes(entries[k].0), key) {
        first_not_before(entries, key, k + 1)
    } else {
        k
    }
}

/// Storing `entry` under `id` keeps the ids strictly increasing; `id`
/// then reads back `entry`, and every other id reads what it read before.
pub proof fn lemma_insert_then_get(
    entries: Seq<(Seq<char>, SpriteIndexEntry)>,
    id: Seq<char>,
    entry: SpriteIndexEntry,
    other: Seq<char>,
)
    requires
        ids_increasing(entries),
    ensures
        ids_increasing(index_insert(entries, id, entry)),
        index_get(index_insert(entries, id, entry), id) == Some(entry),
        other != id ==> index_get(index_insert(entries, id, entry), other) == index_get(entries, other),
{
    let key = id_bytes(id);
    lemma_first_not_before(entries, key, 0);
    let p = first_not_before(entries, key, 0);
    let found = p < entries.len() && entries[p].0 == id;
    let w = index_insert(entries, id, entry);
    if !found {
        assert forall|k: int| 0 <= k < entries.len() implies #[trigger] entries[k].0 != id by {
            lemma_bytes_lt_irreflexive(key);
            if k > p && entries[k].0 == id {
                assert(bytes_lt(id_bytes(entries[p].0), id_bytes(entries[k].0)));
            }
        }
    }
    assert forall|a: int, b: int| 0 <= a < b < w.len() implies bytes_lt(
        id_bytes(#[trigger] w[a].0),
        id_bytes(#[trigger] w[b].0),
    ) by {
        if !found {
            if a < p && b == p {
                assert(w[a] == entries[a]);
            } else if a == p && b > p {
                assert(w[b] == entries[b - 1]);
                assert(!bytes_lt(id_bytes(entries[b - 1].0), key));
                assert(entries[b - 1].0 != id);
                if id_bytes(entries[b - 1].0) == key {
                    assert(vstd::utf8::decode_utf8(id_bytes(entries[b - 1].0)) == vstd::utf8::decode_utf8(key));
                }
                lemma_bytes_lt_total(id_bytes(entries[b - 1].0), key);
            } else if a < p && b > p {
                assert(w[a] == entries[a]);
                assert(w[b] == entries[b - 1]);
            } else if a > p {
                assert(w[a] == entries[a - 1]);
                assert(w[b] == entries[b - 1]);
            } else {
                assert(w[a] == entries[a]);
                assert(w[b] == entries[b]);
            }
        } else {
            if a == p {
                assert(w[b] == entries[b]);
            } else if b == p {
                assert(w[a] == entries[a]);
            } else {
                assert(w[a] == entries[a]);
                assert(w[b] == entries[b]);
            }
        }
    }
    assert(w[p] == (id, entry));
    lemma_index_get(w, p);
    if other != id {
        if exists|k: int| 0 <= k < entries.len() && #[trigger] entries[k].0 == other {
            let k = position_of(entries, other);
            lemma_index_get(entries, k);
            let j = if found || k < p {
                k
            } else {
                k + 1
            };
            assert(w[j] == entries[k]);
            lemma_index_get(w, j);
        } else {
            assert forall|j: int| 0 <= j < w.len() implies #[trigger] w[j].0 != other by {
                if j != p {
                    if found || j < p {
                        assert(w[j] == entries[j]);
                    } else {
                        assert(w[j] == entries[j - 1]);
                    }
                }
            }
        }
    }
}

/// Sprite entries ordered by icon identifier, each identifier once.
#[derive(PartialEq, Eq, Debug)]
pub struct SpriteIndex {
    entries: Vec<(String, SpriteIndexEntry)>,
}

impl View for SpriteIndex {
    type V = Seq<(Seq<char>, SpriteIndexEntry)>;

    closed spec fn view(&self) -> Seq<(Seq<char>, SpriteIndexEntry)> {
        self.entries@.map_values(|e: (String, SpriteIndexEntry)| (e.0@, e.1))
    }
}

proof fn lemma_first_not_before(entries: Seq<(Seq<char>, SpriteIndexEntry)>, key: Seq<u8>, k: int)
    requires
        0 <= k <= entries.len(),
        ids_increasing(entries),
    ensures
        k <= first_not_before(entries, key, k) <= entries.len(),
        forall|j: int| k <= j < first_not_before(entries, key, k) ==> bytes_lt(id_bytes(#[trigger] entries[j].0), key),
        forall|j: int|
            first_not_before(entries, key, k) <= j < entries.len() ==> !bytes_lt(id_bytes(#[trigger] entries[j].0), key),
    decreases entries.len() - k,
{
    let p = first_not_before(entries, key, k);
    if k < entries.len() && bytes_lt(id_bytes(entries[k].0), key) {
        lemma_first_not_before(entries, key, k + 1);
    } else if k < entries.len() {
        assert forall|j: int| k <= j < entries.len() implies !bytes_lt(id_bytes(#[trigger] entries[j].0), key) by {
            if j > k && bytes_lt(id_bytes(entries[j].0), key) {
                lemma_bytes_lt_transitive(id_bytes(entries[k].0), id_bytes(entries[j].0), key);
            }
        }
    }
}

/// Under strictly increasing ids, an id is stored at most once, so
/// `index_get` reads the entry at any position that holds the id.
pub proof fn lemma_index_get(entries: Seq<(Seq<char>, SpriteIndexEntry)>, k: int)
    requires
        ids_increasing(entries),
        0 <= k < entries.len(),
    ensures
        index_get(entries, entries[k].0) == Some(entries[k].1),
{
    let id = entries[k].0;
    assert(0 <= k < entries.len() && entries[k].0 == id);
    let j = position_of(entries, id);
    if j < k {
        lemma_bytes_lt_irreflexive(id_bytes(id));
        assert(bytes_lt(id_bytes(entries[j].0), id_bytes(entries[k].0)));
    } else if k < j {
        lemma_bytes_lt_irreflexive(id_bytes(id));
        assert(bytes_lt(id_bytes(entries[k].0), id_bytes(entries[j].0)));
    }
}

impl SpriteIndex {
    #[verifier::type_invariant]
    spec fn well_formed(self) -> bool {
        ids_increasing(self@)
    }

    /// An empty index.
    pub fn new() -> (index: Self)
        ensures
            index@ == Seq::<(Seq<char>, SpriteIndexEntry)>::empty(),
    {
        let index = SpriteIndex { entries: Vec::new() };
        assert(index@ =~= Seq::<(Seq<char>, SpriteIndexEntry)>::empty());
        index
    }

    /// An index holding `entries`, whose ids must increase strictly.
    pub(crate) fn from_sorted(entries: Vec<(String, SpriteIndexEntry)>) -> (index: Self)
        requires
            ids_increasing(entries@.map_values(|e: (String, SpriteIndexEntry)| (e.0@, e.1))),
        ensures
            index@ == entries@.map_values(|e: (String, SpriteIndexEntry)| (e.0@, e.1)),
    {
        SpriteIndex { entries }
    }

    /// The number of entries.
    pub fn len(&self) -> (n: usize)
        ensures
            n == self@.len(),
    {
        self.entries.len()
    }

    /// Whether the index has no entries.
    pub fn is_empty(&self) -> (r: bool)
        ensures
            r == (self@.len() == 0),
    {
        self.entries.len() == 0
    }

    /// The id of the `i`-th entry in id order.
    pub fn id_at(&self, i: usize) -> (id: &str)
        requires
            i < self@.len(),
        ensures
            id@ == self@[i as int].0,
    {
        self.entries[i].0.as_str()
    }

    /// The `i`-th entry in id order.
    pub fn entry_at(&self, i: usize) -> (entry: SpriteIndexEntry)
        requires
            i < self@.len(),
        ensures
            entry == self@[i as int].1,
    {
        self.entries[i].1
    }

    /// The position of the first entry whose id does not sort before `key`.
    fn search(&self, key: &[u8]) -> (p: usize)
        ensures
            p == first_not_before(self@, key@, 0),
    {
        proof {
            use_type_invariant(self);
        }
        let ghost v = self@;
        let mut k: usize = 0;
        while k < self.entries.len() && bytes_less(self.entries[k].0.as_str().as_bytes(), key)
            invariant
                k <= self.entries.len(),
                v == self@,
                v.len() == self.entries.len(),
                first_not_before(v, key@, k as int) == first_not_before(v, key@, 0),
            decreases self.entries.len() - k,
        {
            k += 1;
        }
        k
    }

    /// The entry stored under `id`, if any.
    pub fn get(&self, id: &str) -> (r: Option<SpriteIndexEntry>)
        ensures
            r == index_get(self@, id@),
    {
        proof {
            use_type_invariant(self);
            lemma_first_not_before(self@, id_bytes(id@), 0);
        }
        let key = id.as_bytes();
        let p = self.search(key);
        if p < self.entries.len() && bytes_equal(self.entries[p].0.as_str().as_bytes(), key) {
            proof {
                assert(self@[p as int] == (self.entries@[p as int].0@, self.entries@[p as int].1));
                assert(vstd::utf8::decode_utf8(id_bytes(self@[p as int].0)) == vstd::utf8::decode_utf8(id_bytes(id@)));
                lemma_index_get(self@, p as int);
            }
            Some(self.entries[p].1)
        } else {
            proof {
                assert forall|k: int| 0 <= k < self@.len() implies #[trigger] self@[k].0 != id@ by {
                    lemma_bytes_lt_irreflexive(id_bytes(id@));
                    if k > p && self@[k].0 == id@ {
                        assert(bytes_lt(id_bytes(self@[p as int].0), id_bytes(self@[k].0)));
                    }
                }
            }
            None
        }
    }

    /// Stores `entry` under `id`, as `BTreeMap::insert` does: it replaces the
    /// entry with that id and returns it, or goes in at its place in the
    /// order.
    pub fn insert(&mut self, id: String, entry: SpriteIndexEntry) -> (previous: Option<SpriteIndexEntry>)
        ensures
            final(self)@ == index_insert(old(self)@, id@, entry),
            previous == index_get(old(self)@, id@),
    {
        proof {
            use_type_invariant(&*self);
            lemma_first_not_before(self@, id_bytes(id@), 0);
        }
        let ghost before = self@;
        let p = self.search(id.as_str().as_bytes());
        let found = p < self.entries.len() && bytes_equal(self.entries[p].0.as_str().as_bytes(), id.as_str().as_bytes());
        proof {
            if p < before.len() {
                assert(before[p as int] == (self.entries@[p as int].0@, self.entries@[p as int].1));
                if found {
                    assert(vstd::utf8::decode_utf8(id_bytes(before[p as int].0)) == vstd::utf8::decode_utf8(id_bytes(id@)));
                }
            }
        }
        let previous = if found {
            Some(self.entries[p].1)
        } else {
            None
        };
        proof {
            if found {
                lemma_index_get(before, p as int);
            } else {
                assert forall|k: int| 0 <= k < before.len() implies #[trigger] before[k].0 != id@ by {
                    lemma_bytes_lt_irreflexive(id_bytes(id@));
                    if k > p && before[k].0 == id@ {
                        assert(bytes_lt(id_bytes(before[p as int].0), id_bytes(before[k].0)));
                    }
                }
            }
        }
        let mut entries = Vec::new();
        std::mem::swap(&mut entries, &mut self.entries);
        if found {
            entries.set(p, (id, entry));
        } else {
            entries.insert(p, (id, entry));
        }
        proof {
            let w = entries@.map_values(|e: (String, SpriteIndexEntry)| (e.0@, e.1));
            if found {
                assert(w =~= before.update(p as int, (id@, entry)));
            } else {
                assert(w =~= before.insert(p as int, (id@, entry)));
            }
            assert(w == index_insert(before, id@, entry));
            lemma_insert_then_get(before, id@, entry, id@);
        }
        self.entries = entries;
        previous
    }
}

} // verus!
