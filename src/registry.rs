//! The asset registry: which block backs each named asset.
use vstd::prelude::*;
use crate::handle::MemoryHandle;
use crate::tier::Tier;

verus! {

#[derive(Clone, Copy, PartialEq, Eq, Debug, Structural)]
pub enum AssetType {
    Image,
    Json,
    Binary,
}

impl AssetType {
    /// The asset type of a numeric tag: 0 an image, 1 JSON, anything else binary.
    pub fn from_tag(tag: u8) -> (r: AssetType)
        ensures
            tag == 0 ==> r == AssetType::Image,
            tag == 1 ==> r == AssetType::Json,
            tag > 1 ==> r == AssetType::Binary,
    {
        match tag {
            0 => AssetType::Image,
            1 => AssetType::Json,
            _ => AssetType::Binary,
        }
    }
}

/// Where a named asset lives.
#[derive(Clone, Copy, PartialEq, Eq, Debug, Structural)]
pub struct AssetMetadata {
    pub asset_type: AssetType,
    pub size: usize,
    pub offset: usize,
    pub tier: Tier,
    pub handle: MemoryHandle,
}

/// Name to metadata. The registry records where assets are; it owns no memory.
///
/// The entries are kept in a vector whose names are unique, viewed as a map. vstd
/// specifies `HashMap` only for keys that obey its hash-table key model, which it
/// grants to primitive types; for `String` keys that would have to be assumed, so
/// a map keyed by names would leave every lookup unproved.
pub struct SimpleAssetRegistry {
    entries: Vec<(String, AssetMetadata)>,
}

impl View for SimpleAssetRegistry {
    type V = Map<Seq<char>, AssetMetadata>;

    closed spec fn view(&self) -> Map<Seq<char>, AssetMetadata> {
        Map::new(
            |k: Seq<char>| exists|i: int| 0 <= i < self.entries@.len() && (#[trigger] self.entries@[i]).0@ == k,
            |k: Seq<char>|
                self.entries@[choose|i: int| 0 <= i < self.entries@.len() && (#[trigger] self.entries@[i]).0@ == k].1,
        )
    }
}

/// The names and metadata of the assets of `tier` in `m`.
pub open spec fn tier_assets(m: Map<Seq<char>, AssetMetadata>, tier: Tier) -> Map<Seq<char>, AssetMetadata> {
    m.restrict(m.dom().filter(|k: Seq<char>| m[k].tier == tier))
}

/// `r` lists the entries of `m`, each name once.
pub open spec fn lists_exactly(r: Seq<(String, AssetMetadata)>, m: Map<Seq<char>, AssetMetadata>) -> bool {
    &&& forall|i: int| 0 <= i < r.len() ==> #[trigger] m.contains_key(r[i].0@) && m[r[i].0@] == r[i].1
    &&& forall|k: Seq<char>| #[trigger] m.contains_key(k) ==> exists|i: int| 0 <= i < r.len() && (#[trigger] r[i]).0@ == k
    &&& forall|i: int, j: int| 0 <= i < r.len() && 0 <= j < r.len() && i != j ==> (#[trigger] r[i]).0@ != (#[trigger] r[j]).0@
}

/// The registry after removing `keys` one after the other, and how many of them
/// were there when their turn came.
pub open spec fn after_remove_all(m: Map<Seq<char>, AssetMetadata>, keys: Seq<Seq<char>>) -> (Map<Seq<char>, AssetMetadata>, int)
    decreases keys.len(),
{
    if keys.len() == 0 {
        (m, 0)
    } else {
        let (p, c) = after_remove_all(m, keys.drop_last());
        if p.contains_key(keys.last()) {
            (p.remove(keys.last()), c + 1)
        } else {
            (p, c)
        }
    }
}

pub open spec fn names_of(keys: Seq<String>) -> Seq<Seq<char>> {
    keys.map_values(|k: String| k@)
}

impl SimpleAssetRegistry {
    pub closed spec fn wf(&self) -> bool {
        forall|i: int, j: int|
            0 <= i < self.entries@.len() && 0 <= j < self.entries@.len() && i != j
                ==> (#[trigger] self.entries@[i]).0@ != (#[trigger] self.entries@[j]).0@
    }

    proof fn lemma_view_at(&self, i: int)
        requires
            self.wf(),
            0 <= i < self.entries@.len(),
        ensures
            self@.contains_key(self.entries@[i].0@),
            self@[self.entries@[i].0@] == self.entries@[i].1,
    {
        let k = self.entries@[i].0@;
        assert(self@.contains_key(k));
        let j = choose|j: int| 0 <= j < self.entries@.len() && (#[trigger] self.entries@[j]).0@ == k;
        assert(i == j);
    }

    pub fn new() -> (r: SimpleAssetRegistry)
        ensures
            r.wf(),
            r@ == Map::<Seq<char>, AssetMetadata>::empty(),
    {
        let r = SimpleAssetRegistry { entries: Vec::new() };
        assert(r@ =~= Map::<Seq<char>, AssetMetadata>::empty());
        r
    }

    /// Position of the entry named `key`, if there is one.
    fn find(&self, key: &String) -> (r: Option<usize>)
        requires
            self.wf(),
        ensures
            r is None <==> !self@.contains_key(key@),
            r matches Some(i) ==> i < self.entries@.len() && self.entries@[i as int].0@ == key@,
    {
        let mut i: usize = 0;
        while i < self.entries.len()
            invariant
                i <= self.entries@.len(),
                forall|j: int| 0 <= j < i ==> (#[trigger] self.entries@[j]).0@ != key@,
            decreases self.entries@.len() - i,
        {
            if self.entries[i].0 == *key {
                return Some(i);
            }
            i = i + 1;
        }
        None
    }

    /// Records `metadata` under `key`, replacing what was there. True when the name
    /// was new.
    pub fn insert(&mut self, key: String, metadata: AssetMetadata) -> (r: bool)
        requires
            old(self).wf(),
        ensures
            final(self).wf(),
            r == !old(self)@.contains_key(key@),
            final(self)@ == old(self)@.insert(key@, metadata),
    {
        let ghost o = self.entries@;
        let ghost k = key@;
        match self.find(&key) {
            Some(i) => {
                self.entries.set(i, (key, metadata));
                proof {
                    assert forall|a: int, b: int|
                        0 <= a < self.entries@.len() && 0 <= b < self.entries@.len() && a != b
                        implies (#[trigger] self.entries@[a]).0@ != (#[trigger] self.entries@[b]).0@ by {
                        assert(o[a].0@ != o[b].0@);
                    }
                    assert forall|kk: Seq<char>| #[trigger] self@.contains_key(kk) == old(self)@.insert(k, metadata).contains_key(kk) by {
                        if kk != k && self@.contains_key(kk) {
                            let a = choose|a: int| 0 <= a < self.entries@.len() && (#[trigger] self.entries@[a]).0@ == kk;
                            assert(o[a].0@ == kk);
                        }
                        if kk != k && old(self)@.contains_key(kk) {
                            let a = choose|a: int| 0 <= a < o.len() && (#[trigger] o[a]).0@ == kk;
                            assert(self.entries@[a].0@ == kk);
                        }
                        if kk == k {
                            assert(self.entries@[i as int].0@ == kk);
                        }
                    }
                    assert forall|kk: Seq<char>| #[trigger] self@.contains_key(kk) implies self@[kk] == old(self)@.insert(k, metadata)[kk] by {
                        let a = choose|a: int| 0 <= a < self.entries@.len() && (#[trigger] self.entries@[a]).0@ == kk;
                        self.lemma_view_at(a);
                        if kk != k {
                            old(self).lemma_view_at(a);
                        }
                    }
                    assert(self@ =~= old(self)@.insert(k, metadata));
                }
                false
            },
            None => {
                self.entries.push((key, metadata));
                proof {
                    let n = o.len() as int;
                    assert forall|a: int, b: int|
                        0 <= a < self.entries@.len() && 0 <= b < self.entries@.len() && a != b
                        implies (#[trigger] self.entries@[a]).0@ != (#[trigger] self.entries@[b]).0@ by {
                        if a < n && b < n {
                            assert(o[a].0@ != o[b].0@);
                        } else if a < n {
                            assert(o[a] == self.entries@[a]);
                        } else {
                            assert(o[b] == self.entries@[b]);
                        }
                    }
                    assert forall|kk: Seq<char>| #[trigger] self@.contains_key(kk) == old(self)@.insert(k, metadata).contains_key(kk) by {
                        if kk != k && self@.contains_key(kk) {
                            let a = choose|a: int| 0 <= a < self.entries@.len() && (#[trigger] self.entries@[a]).0@ == kk;
                            assert(a < n);
                            assert(o[a].0@ == kk);
                        }
                        if kk != k && old(self)@.contains_key(kk) {
                            let a = choose|a: int| 0 <= a < o.len() && (#[trigger] o[a]).0@ == kk;
                            assert(self.entries@[a].0@ == kk);
                        }
                        if kk == k {
                            assert(self.entries@[n].0@ == kk);
                        }
                    }
                    assert forall|kk: Seq<char>| #[trigger] self@.contains_key(kk) implies self@[kk] == old(self)@.insert(k, metadata)[kk] by {
                        let a = choose|a: int| 0 <= a < self.entries@.len() && (#[trigger] self.entries@[a]).0@ == kk;
                        self.lemma_view_at(a);
                        if kk != k {
                            assert(a < n);
                            old(self).lemma_view_at(a);
                        }
                    }
                    assert(self@ =~= old(self)@.insert(k, metadata));
                }
                true
            },
        }
    }

    /// The metadata recorded under `key`.
    pub fn get(&self, key: &str) -> (r: Option<AssetMetadata>)
        requires
            self.wf(),
        ensures
            r == (if self@.contains_key(key@) { Some(self@[key@]) } else { None::<AssetMetadata> }),
    {
        let k = key.to_owned();
        match self.find(&k) {
            Some(i) => {
                proof {
                    self.lemma_view_at(i as int);
                }
                Some(self.entries[i].1)
            },
            None => None,
        }
    }

    /// Drops the entry named `key`. True when there was one.
    pub fn remove(&mut self, key: &str) -> (r: bool)
        requires
            old(self).wf(),
        ensures
            final(self).wf(),
            r == old(self)@.contains_key(key@),
            final(self)@ == old(self)@.remove(key@),
    {
        let k = key.to_owned();
        self.remove_key(&k)
    }

    fn remove_key(&mut self, key: &String) -> (r: bool)
        requires
            old(self).wf(),
        ensures
            final(self).wf(),
            r == old(self)@.contains_key(key@),
            final(self)@ == old(self)@.remove(key@),
    {
        let ghost o = self.entries@;
        let ghost k = key@;
        match self.find(key) {
            None => {
                assert(self@ =~= old(self)@.remove(k));
                false
            },
            Some(i) => {
                self.entries.remove(i);
                proof {
                    let ii = i as int;
                    assert forall|a: int, b: int|
                        0 <= a < self.entries@.len() && 0 <= b < self.entries@.len() && a != b
                        implies (#[trigger] self.entries@[a]).0@ != (#[trigger] self.entries@[b]).0@ by {
                        let aa = if a < ii { a } else { a + 1 };
                        let bb = if b < ii { b } else { b + 1 };
                        assert(self.entries@[a] == o[aa] && self.entries@[b] == o[bb]);
                    }
                    assert forall|kk: Seq<char>| #[trigger] self@.contains_key(kk) == old(self)@.remove(k).contains_key(kk) by {
                        if self@.contains_key(kk) {
                            let a = choose|a: int| 0 <= a < self.entries@.len() && (#[trigger] self.entries@[a]).0@ == kk;
                            let aa = if a < ii { a } else { a + 1 };
                            assert(o[aa].0@ == kk);
                            assert(aa != ii);
                        }
                        if kk != k && old(self)@.contains_key(kk) {
                            let a = choose|a: int| 0 <= a < o.len() && (#[trigger] o[a]).0@ == kk;
                            assert(a != ii);
                            let b = if a < ii { a } else { a - 1 };
                            assert(self.entries@[b].0@ == kk);
                        }
                    }
                    assert forall|kk: Seq<char>| #[trigger] self@.contains_key(kk) implies self@[kk] == old(self)@.remove(k)[kk] by {
                        let a = choose|a: int| 0 <= a < self.entries@.len() && (#[trigger] self.entries@[a]).0@ == kk;
                        self.lemma_view_at(a);
                        let aa = if a < ii { a } else { a + 1 };
                        assert(self.entries@[a] == o[aa]);
                        old(self).lemma_view_at(aa);
                    }
                    assert(self@ =~= old(self)@.remove(k));
                }
                true
            },
        }
    }

    /// Removes each of `keys` in turn, and counts those that were there.
    pub fn remove_batch(&mut self, keys: &[String]) -> (r: usize)
        requires
            old(self).wf(),
        ensures
            final(self).wf(),
            (final(self)@, r as int) == after_remove_all(old(self)@, names_of(keys@)),
    {
        let ghost start = self@;
        let mut count: usize = 0;
        let mut i: usize = 0;
        while i < keys.len()
            invariant
                self.wf(),
                i <= keys@.len(),
                count <= i,
                (self@, count as int) == after_remove_all(start, names_of(keys@).subrange(0, i as int)),
            decreases keys@.len() - i,
        {
            proof {
                assert(names_of(keys@).subrange(0, i + 1).drop_last() =~= names_of(keys@).subrange(0, i as int));
                assert(names_of(keys@).subrange(0, i + 1).last() == keys@[i as int]@);
            }
            if self.remove_key(&keys[i]) {
                count = count + 1;
            }
            i = i + 1;
        }
        proof {
            assert(names_of(keys@).subrange(0, keys@.len() as int) =~= names_of(keys@));
        }
        count
    }

    pub fn clear(&mut self)
        ensures
            final(self).wf(),
            final(self)@ == Map::<Seq<char>, AssetMetadata>::empty(),
    {
        self.entries = Vec::new();
        assert(self@ =~= Map::<Seq<char>, AssetMetadata>::empty());
    }

    proof fn lemma_len(&self)
        requires
            self.wf(),
        ensures
            self@.dom().finite(),
            self@.dom().len() == self.entries@.len(),
    {
        let names = self.entries@.map_values(|e: (String, AssetMetadata)| e.0@);
        assert forall|k: Seq<char>| #[trigger] self@.dom().contains(k) == names.to_set().contains(k) by {
            if self@.dom().contains(k) {
                let a = choose|a: int| 0 <= a < self.entries@.len() && (#[trigger] self.entries@[a]).0@ == k;
                assert(names[a] == k);
            }
            if names.to_set().contains(k) {
                let a = choose|a: int| 0 <= a < names.len() && names[a] == k;
                assert(self.entries@[a].0@ == k);
            }
        }
        assert(self@.dom() =~= names.to_set());
        assert(names.no_duplicates());
        names.unique_seq_to_set();
    }

    /// Number of names recorded.
    pub fn len(&self) -> (r: usize)
        requires
            self.wf(),
        ensures
            r == self@.dom().len(),
    {
        proof {
            self.lemma_len();
        }
        self.entries.len()
    }

    pub fn is_empty(&self) -> (r: bool)
        requires
            self.wf(),
        ensures
            r == (self@.dom().len() == 0),
    {
        proof {
            self.lemma_len();
        }
        self.entries.len() == 0
    }

    /// The names and metadata of the assets of `tier`, each name once.
    pub fn get_assets_by_tier(&self, tier: Tier) -> (r: Vec<(String, AssetMetadata)>)
        requires
            self.wf(),
        ensures
            lists_exactly(r@, tier_assets(self@, tier)),
    {
        let ghost m = tier_assets(self@, tier);
        let mut r: Vec<(String, AssetMetadata)> = Vec::new();
        let mut i: usize = 0;
        while i < self.entries.len()
            invariant
                self.wf(),
                m == tier_assets(self@, tier),
                i <= self.entries@.len(),
                forall|j: int| 0 <= j < r@.len() ==> #[trigger] m.contains_key(r@[j].0@) && m[r@[j].0@] == r@[j].1,
                forall|j: int| 0 <= j < r@.len() ==> exists|a: int| 0 <= a < i && self.entries@[a].0@ == (#[trigger] r@[j]).0@,
                forall|a: int| 0 <= a < i && (#[trigger] self.entries@[a]).1.tier == tier
                    ==> exists|j: int| 0 <= j < r@.len() && (#[trigger] r@[j]).0@ == self.entries@[a].0@,
                forall|j: int, l: int| 0 <= j < r@.len() && 0 <= l < r@.len() && j != l ==> (#[trigger] r@[j]).0@ != (#[trigger] r@[l]).0@,
            decreases self.entries@.len() - i,
        {
            proof {
                self.lemma_view_at(i as int);
            }
            if self.entries[i].1.tier == tier {
                let name = self.entries[i].0.clone();
                let ghost before = r@;
                r.push((name, self.entries[i].1));
                proof {
                    let n = before.len() as int;
                    assert(r@[n].0@ == self.entries@[i as int].0@);
                    assert forall|j: int| 0 <= j < r@.len() implies exists|a: int| 0 <= a < i + 1 && self.entries@[a].0@ == (#[trigger] r@[j]).0@ by {
                        if j < n {
                            assert(r@[j] == before[j]);
                            let a = choose|a: int| 0 <= a < i && self.entries@[a].0@ == (#[trigger] before[j]).0@;
                            assert(self.entries@[a].0@ == r@[j].0@);
                        } else {
                            assert(self.entries@[i as int].0@ == r@[j].0@);
                        }
                    }
                    assert forall|a: int| 0 <= a < i + 1 && (#[trigger] self.entries@[a]).1.tier == tier
                        implies exists|j: int| 0 <= j < r@.len() && (#[trigger] r@[j]).0@ == self.entries@[a].0@ by {
                        if a < i {
                            let j = choose|j: int| 0 <= j < before.len() && (#[trigger] before[j]).0@ == self.entries@[a].0@;
                            assert(r@[j] == before[j]);
                        } else {
                            assert(r@[n].0@ == self.entries@[a].0@);
                        }
                    }
                    assert forall|j: int, l: int| 0 <= j < r@.len() && 0 <= l < r@.len() && j != l
                        implies (#[trigger] r@[j]).0@ != (#[trigger] r@[l]).0@ by {
                        if j < n && l < n {
                            assert(r@[j] == before[j] && r@[l] == before[l]);
                        } else if j < n {
                            assert(r@[j] == before[j]);
                            let a = choose|a: int| 0 <= a < i && self.entries@[a].0@ == (#[trigger] before[j]).0@;
                            assert(self.entries@[a].0@ != self.entries@[i as int].0@);
                        } else if l < n {
                            assert(r@[l] == before[l]);
                            let a = choose|a: int| 0 <= a < i && self.entries@[a].0@ == (#[trigger] before[l]).0@;
                            assert(self.entries@[a].0@ != self.entries@[i as int].0@);
                        }
                    }
                    assert forall|j: int| 0 <= j < r@.len() implies #[trigger] m.contains_key(r@[j].0@) && m[r@[j].0@] == r@[j].1 by {
                        if j < n {
                            assert(r@[j] == before[j]);
                        }
                    }
                }
            }
            i = i + 1;
        }
        proof {
            assert forall|k: Seq<char>| #[trigger] m.contains_key(k) implies exists|j: int| 0 <= j < r@.len() && (#[trigger] r@[j]).0@ == k by {
                let a = choose|a: int| 0 <= a < self.entries@.len() && (#[trigger] self.entries@[a]).0@ == k;
                self.lemma_view_at(a);
                assert(self.entries@[a].1.tier == tier);
            }
        }
        r
    }
}

} // verus!
