//! An ordered map from block heights to values, backed by a vector of
//! entries sorted by strictly increasing height. It plays the role an
//! ordered tree map would play in unverified code: lookups, ordered
//! insertion and removal, and in-order traversal by index.

use vstd::prelude::*;

verus! {

/// Keys strictly increase along an entry sequence.
pub open spec fn entries_sorted<T>(s: Seq<(u32, T)>) -> bool {
    forall|i: int, j: int| 0 <= i < j < s.len() ==> s[i].0 < s[j].0
}

/// Some entry of `s` has key `h`.
pub open spec fn entries_contain_key<T>(s: Seq<(u32, T)>, h: u32) -> bool {
    exists|i: int| 0 <= i < s.len() && s[i].0 == h
}

/// The value of an entry of `s` with key `h` (unique when `s` is sorted).
pub open spec fn entries_value<T>(s: Seq<(u32, T)>, h: u32) -> T {
    s[choose|i: int| 0 <= i < s.len() && s[i].0 == h].1
}

/// The map described by a sequence of key-value entries.
pub open spec fn entries_map<T>(s: Seq<(u32, T)>) -> Map<u32, T> {
    Map::new(|h: u32| entries_contain_key(s, h), |h: u32| entries_value(s, h))
}

/// The restriction of `m` to keys strictly below `cut`.
pub open spec fn map_below<T>(m: Map<u32, T>, cut: u32) -> Map<u32, T> {
    Map::new(|h: u32| m.contains_key(h) && h < cut, |h: u32| m[h])
}

/// The restriction of `m` to keys at or above `cut`.
pub open spec fn map_from<T>(m: Map<u32, T>, cut: u32) -> Map<u32, T> {
    Map::new(|h: u32| m.contains_key(h) && h >= cut, |h: u32| m[h])
}

/// In a sorted entry sequence, the entry at index `i` is the one `entries_value`
/// describes for its key.
pub proof fn lemma_entries_value<T>(s: Seq<(u32, T)>, i: int)
    requires
        entries_sorted(s),
        0 <= i < s.len(),
    ensures
        entries_contain_key(s, s[i].0),
        entries_value(s, s[i].0) == s[i].1,
        entries_map(s).contains_key(s[i].0),
        entries_map(s)[s[i].0] == s[i].1,
{
    let h = s[i].0;
    assert(entries_contain_key(s, h));
    let j = choose|j: int| 0 <= j < s.len() && s[j].0 == h;
    if i < j {
        assert(s[i].0 < s[j].0);
    } else if j < i {
        assert(s[j].0 < s[i].0);
    }
}

/// In a sorted entry sequence, every key is at least the first entry's key.
pub proof fn lemma_first_key_min<T>(s: Seq<(u32, T)>)
    requires
        entries_sorted(s),
        s.len() > 0,
    ensures
        forall|h: u32| entries_map(s).contains_key(h) ==> s[0].0 <= h,
{
    assert forall|h: u32| entries_map(s).contains_key(h) implies s[0].0 <= h by {
        let i = choose|i: int| 0 <= i < s.len() && s[i].0 == h;
        if i > 0 {
            assert(s[0].0 < s[i].0);
        }
    }
}

/// An ordered height-to-value map. The entries are kept sorted by strictly
/// increasing height; its abstract value is the map [`Self::as_map`], and
/// positional access follows the height order.
#[derive(Debug, PartialEq)]
pub struct BlockMap<T> {
    entries: Vec<(u32, T)>,
}

impl<T> View for BlockMap<T> {
    type V = Seq<(u32, T)>;

    closed spec fn view(&self) -> Seq<(u32, T)> {
        self.entries@
    }
}

impl<T> BlockMap<T> {
    /// The entries are sorted by strictly increasing height; this holds of
    /// every reachable value.
    #[verifier::type_invariant]
    pub open spec fn wf(self) -> bool {
        entries_sorted(self@)
    }

    /// The map this container holds.
    pub open spec fn as_map(self) -> Map<u32, T> {
        entries_map(self@)
    }

    /// An empty map.
    pub fn new() -> (r: Self)
        ensures
            r@ == Seq::<(u32, T)>::empty(),
            r.as_map() == Map::<u32, T>::empty(),
    {
        let r = BlockMap { entries: Vec::new() };
        proof {
            assert(r.as_map() =~= Map::<u32, T>::empty());
        }
        r
    }

    /// The number of entries.
    pub fn len(&self) -> (r: usize)
        ensures
            r == self@.len(),
    {
        self.entries.len()
    }

    /// Whether the map holds no entry.
    pub fn is_empty(&self) -> (r: bool)
        ensures
            r == (self@.len() == 0),
    {
        self.entries.len() == 0
    }

    /// The height of the `i`th entry in height order.
    pub fn key_at(&self, i: usize) -> (r: u32)
        requires
            i < self@.len(),
        ensures
            r == self@[i as int].0,
    {
        self.entries[i].0
    }

    /// The lowest height in the map, if any.
    pub fn first_key(&self) -> (r: Option<u32>)
        ensures
            match r {
                None => self@.len() == 0,
                Some(k) => self@.len() > 0 && k == self@[0].0,
            },
    {
        if self.entries.len() == 0 {
            None
        } else {
            Some(self.entries[0].0)
        }
    }

    /// Inserts `value` at `height`, replacing any existing entry there.
    pub fn insert(&mut self, height: u32, value: T)
        ensures
            final(self).as_map() == old(self).as_map().insert(height, value),
            final(self)@.len() <= old(self)@.len() + 1,
            old(self)@.len() <= final(self)@.len(),
    {
        proof {
            use_type_invariant(&*self);
        }
        let mut es: Vec<(u32, T)> = Vec::new();
        std::mem::swap(&mut es, &mut self.entries);
        let ghost s0 = es@;
        let n = es.len();
        let mut pos: usize = 0;
        while pos < n && es[pos].0 < height
            invariant
                n == es@.len(),
                es@ == s0,
                pos <= n,
                entries_sorted(s0),
                forall|k: int| 0 <= k < pos ==> s0[k].0 < height,
            decreases n - pos,
        {
            pos += 1;
        }
        proof {
            assert forall|k: int| pos <= k < s0.len() && s0[k].0 != height implies s0[k].0
                > height by {
                if pos < s0.len() {
                    if k > pos {
                        assert(s0[pos as int].0 < s0[k].0);
                    }
                }
            }
        }
        if pos < n && es[pos].0 == height {
            es[pos] = (height, value);
            proof {
                lemma_sorted_update(s0, es@, pos as int, height, value);
            }
        } else {
            es.insert(pos, (height, value));
            proof {
                lemma_sorted_insert(s0, es@, pos as int, height, value);
            }
        }
        self.entries = es;
    }

    /// Removes the entry at `height`, if any.
    pub fn remove(&mut self, height: u32)
        ensures
            final(self).as_map() == old(self).as_map().remove(height),
            final(self)@.len() <= old(self)@.len(),
    {
        proof {
            use_type_invariant(&*self);
        }
        let mut es: Vec<(u32, T)> = Vec::new();
        std::mem::swap(&mut es, &mut self.entries);
        let ghost s0 = es@;
        let n = es.len();
        let mut pos: usize = 0;
        while pos < n && es[pos].0 < height
            invariant
                n == es@.len(),
                es@ == s0,
                pos <= n,
                entries_sorted(s0),
                forall|k: int| 0 <= k < pos ==> s0[k].0 < height,
            decreases n - pos,
        {
            pos += 1;
        }
        proof {
            assert forall|k: int| pos <= k < s0.len() && s0[k].0 != height implies s0[k].0
                > height by {
                if pos < s0.len() {
                    if k > pos {
                        assert(s0[pos as int].0 < s0[k].0);
                    }
                }
            }
        }
        if pos < n && es[pos].0 == height {
            es.remove(pos);
            proof {
                lemma_sorted_remove(s0, es@, pos as int, height);
            }
        } else {
            proof {
                assert(!entries_contain_key(s0, height));
                assert(entries_map(s0) =~= entries_map(s0).remove(height));
            }
        }
        self.entries = es;
    }

    /// Appends an entry whose height lies above every existing one.
    pub fn append(&mut self, height: u32, value: T)
        requires
            old(self)@.len() > 0 ==> old(self)@.last().0 < height,
        ensures
            final(self)@ == old(self)@.push((height, value)),
            final(self).as_map() == old(self).as_map().insert(height, value),
    {
        proof {
            use_type_invariant(&*self);
        }
        let mut es: Vec<(u32, T)> = Vec::new();
        std::mem::swap(&mut es, &mut self.entries);
        let ghost s0 = es@;
        es.push((height, value));
        proof {
            assert(es@ =~= s0.insert(s0.len() as int, (height, value)));
            assert forall|i: int, j: int| 0 <= i < j < es@.len() implies es@[i].0 < es@[j].0 by {
                if j == s0.len() {
                    if i < s0.len() - 1 {
                        assert(s0[i].0 < s0[s0.len() - 1].0);
                    }
                } else {
                    assert(s0[i].0 < s0[j].0);
                }
            }
            lemma_sorted_insert(s0, es@, s0.len() as int, height, value);
        }
        self.entries = es;
    }

}

impl<T: Copy> BlockMap<T> {
    /// A copy of the entries whose heights lie strictly below `cut`.
    pub fn below(&self, cut: u32) -> (r: Self)
        ensures
            r.as_map() == map_below(self.as_map(), cut),
            forall|i: int| 0 <= i < r@.len() ==> r@[i].0 < cut,
            r@.len() <= self@.len(),
    {
        proof {
            use_type_invariant(self);
        }
        let n = self.entries.len();
        let mut es: Vec<(u32, T)> = Vec::new();
        let mut i: usize = 0;
        while i < n && self.entries[i].0 < cut
            invariant
                n == self@.len(),
                i <= n,
                entries_sorted(self@),
                es@ == self@.take(i as int),
                forall|k: int| 0 <= k < i ==> self@[k].0 < cut,
            decreases n - i,
        {
            let e = self.entries[i];
            es.push(e);
            proof {
                assert(es@ =~= self@.take(i + 1));
            }
            i += 1;
        }
        proof {
            assert(forall|k: int| 0 <= k < i ==> self@[k].0 < cut);
            assert forall|k: int| (i as int) <= k < self@.len() implies self@[k].0 >= cut by {
                if k > i {
                    assert(self@[i as int].0 < self@[k].0);
                }
            }
        }
        let r = BlockMap { entries: es };
        proof {
            assert(r@ == self@.take(i as int));
            assert forall|h: u32|
                entries_map(r@).contains_key(h) <==> map_below(self.as_map(), cut).contains_key(
                h,
            ) by {
                if entries_contain_key(r@, h) {
                    let k = choose|k: int| 0 <= k < r@.len() && r@[k].0 == h;
                    assert(self@[k] == r@[k]);
                    assert(entries_contain_key(self@, h));
                }
                if entries_contain_key(self@, h) && h < cut {
                    let k = choose|k: int| 0 <= k < self@.len() && self@[k].0 == h;
                    assert(k < i);
                    assert(r@[k] == self@[k]);
                    assert(entries_contain_key(r@, h));
                }
            }
            assert forall|h: u32| entries_map(r@).contains_key(h) implies entries_map(r@)[h]
                == self.as_map()[h] by {
                let k = choose|k: int| 0 <= k < r@.len() && r@[k].0 == h;
                assert(self@[k] == r@[k]);
                lemma_entries_value(r@, k);
                lemma_entries_value(self@, k);
            }
            assert(r.as_map() =~= map_below(self.as_map(), cut));
        }
        r
    }
    /// The value of the `i`th entry in height order.
    pub fn val_at(&self, i: usize) -> (r: T)
        requires
            i < self@.len(),
        ensures
            r == self@[i as int].1,
    {
        self.entries[i].1
    }

    /// Looks the value at `height` up.
    pub fn get(&self, height: u32) -> (r: Option<T>)
        ensures
            r == (if self.as_map().contains_key(height) {
                Some(self.as_map()[height])
            } else {
                None::<T>
            }),
    {
        proof {
            use_type_invariant(self);
        }
        let n = self.entries.len();
        let mut i: usize = 0;
        while i < n
            invariant
                n == self@.len(),
                i <= n,
                entries_sorted(self@),
                forall|k: int| 0 <= k < i ==> self@[k].0 != height,
            decreases n - i,
        {
            if self.entries[i].0 == height {
                proof {
                    lemma_entries_value(self@, i as int);
                }
                return Some(self.entries[i].1);
            }
            i += 1;
        }
        proof {
            assert(!entries_contain_key(self@, height));
        }
        None
    }
}

impl<T: Copy> Clone for BlockMap<T> {
    /// A copy holding the same entries.
    fn clone(&self) -> (r: Self)
        ensures
            r@ == self@,
    {
        proof {
            use_type_invariant(self);
        }
        let n = self.entries.len();
        let mut es: Vec<(u32, T)> = Vec::new();
        let mut i: usize = 0;
        while i < n
            invariant
                n == self@.len(),
                i <= n,
                es@ == self@.take(i as int),
            decreases n - i,
        {
            es.push(self.entries[i]);
            proof {
                assert(es@ =~= self@.take(i + 1));
            }
            i += 1;
        }
        proof {
            assert(self@.take(n as int) =~= self@);
        }
        BlockMap { entries: es }
    }
}

impl<T: Copy> Default for BlockMap<T> {
    /// An empty map.
    fn default() -> (r: Self)
        ensures
            r@ == Seq::<(u32, T)>::empty(),
            r.as_map() == Map::<u32, T>::empty(),
    {
        BlockMap::new()
    }
}

/// Replacing the entry at index `pos` (whose key is already `h`) updates the
/// map at `h` and keeps the entries sorted.
proof fn lemma_sorted_update<T>(s0: Seq<(u32, T)>, s1: Seq<(u32, T)>, pos: int, h: u32, v: T)
    requires
        entries_sorted(s0),
        0 <= pos < s0.len(),
        s0[pos].0 == h,
        s1 == s0.update(pos, (h, v)),
    ensures
        entries_sorted(s1),
        entries_map(s1) == entries_map(s0).insert(h, v),
{
    assert(entries_sorted(s1));
    assert forall|k: u32|
        entries_contain_key(s1, k) <==> entries_map(s0).insert(h, v).contains_key(k) by {
        if entries_contain_key(s1, k) {
            let i = choose|i: int| 0 <= i < s1.len() && s1[i].0 == k;
            assert(s0[i].0 == k);
        }
        if entries_contain_key(s0, k) {
            let i = choose|i: int| 0 <= i < s0.len() && s0[i].0 == k;
            assert(s1[i].0 == k);
        }
        if k == h {
            assert(s1[pos].0 == k);
        }
    }
    assert forall|k: u32| entries_contain_key(s1, k) implies entries_value(s1, k) == (if k == h {
        v
    } else {
        entries_value(s0, k)
    }) by {
        let i = choose|i: int| 0 <= i < s1.len() && s1[i].0 == k;
        lemma_entries_value(s1, i);
        if k == h {
            lemma_entries_value(s1, pos);
        } else {
            assert(s0[i].0 == k && i != pos);
            lemma_entries_value(s0, i);
        }
    }
    assert(entries_map(s1) =~= entries_map(s0).insert(h, v));
}

/// Inserting an entry at the index where every earlier key is below `h` and
/// every later key is above `h` updates the map at `h` and keeps the entries
/// sorted.
pub proof fn lemma_sorted_insert<T>(s0: Seq<(u32, T)>, s1: Seq<(u32, T)>, pos: int, h: u32, v: T)
    requires
        entries_sorted(s0),
        0 <= pos <= s0.len(),
        forall|k: int| 0 <= k < pos ==> s0[k].0 < h,
        forall|k: int| pos <= k < s0.len() ==> s0[k].0 > h,
        s1 == s0.insert(pos, (h, v)),
    ensures
        entries_sorted(s1),
        entries_map(s1) == entries_map(s0).insert(h, v),
{
    assert forall|i: int, j: int| 0 <= i < j < s1.len() implies s1[i].0 < s1[j].0 by {
        assert(s1[i] == (if i < pos {
            s0[i]
        } else if i == pos {
            (h, v)
        } else {
            s0[i - 1]
        }));
        assert(s1[j] == (if j < pos {
            s0[j]
        } else if j == pos {
            (h, v)
        } else {
            s0[j - 1]
        }));
    }
    assert forall|k: u32|
        entries_contain_key(s1, k) <==> entries_map(s0).insert(h, v).contains_key(k) by {
        if entries_contain_key(s1, k) {
            let i = choose|i: int| 0 <= i < s1.len() && s1[i].0 == k;
            if i < pos {
                assert(s0[i].0 == k);
            } else if i > pos {
                assert(s0[i - 1].0 == k);
            }
        }
        if entries_contain_key(s0, k) {
            let i = choose|i: int| 0 <= i < s0.len() && s0[i].0 == k;
            if i < pos {
                assert(s1[i].0 == k);
            } else {
                assert(s1[i + 1].0 == k);
            }
        }
        if k == h {
            assert(s1[pos].0 == k);
        }
    }
    assert forall|k: u32| entries_contain_key(s1, k) implies entries_value(s1, k) == (if k == h {
        v
    } else {
        entries_value(s0, k)
    }) by {
        let i = choose|i: int| 0 <= i < s1.len() && s1[i].0 == k;
        lemma_entries_value(s1, i);
        if k == h {
            lemma_entries_value(s1, pos);
        } else if i < pos {
            assert(s0[i].0 == k);
            lemma_entries_value(s0, i);
        } else {
            assert(i > pos);
            assert(s0[i - 1].0 == k);
            lemma_entries_value(s0, i - 1);
        }
    }
    assert(entries_map(s1) =~= entries_map(s0).insert(h, v));
}

/// Removing the entry at index `pos` (whose key is `h`) removes `h` from the
/// map and keeps the entries sorted.
pub proof fn lemma_sorted_remove<T>(s0: Seq<(u32, T)>, s1: Seq<(u32, T)>, pos: int, h: u32)
    requires
        entries_sorted(s0),
        0 <= pos < s0.len(),
        s0[pos].0 == h,
        s1 == s0.remove(pos),
    ensures
        entries_sorted(s1),
        entries_map(s1) == entries_map(s0).remove(h),
{
    assert forall|i: int, j: int| 0 <= i < j < s1.len() implies s1[i].0 < s1[j].0 by {
        assert(s1[i] == (if i < pos {
            s0[i]
        } else {
            s0[i + 1]
        }));
        assert(s1[j] == (if j < pos {
            s0[j]
        } else {
            s0[j + 1]
        }));
    }
    assert forall|k: u32|
        entries_contain_key(s1, k) <==> (entries_contain_key(s0, k) && k != h) by {
        if entries_contain_key(s1, k) {
            let i = choose|i: int| 0 <= i < s1.len() && s1[i].0 == k;
            if i < pos {
                assert(s0[i].0 == k);
                if k == h {
                    assert(s0[i].0 < s0[pos].0);
                }
            } else {
                assert(s0[i + 1].0 == k);
                if k == h {
                    assert(s0[pos].0 < s0[i + 1].0);
                }
            }
        }
        if entries_contain_key(s0, k) && k != h {
            let i = choose|i: int| 0 <= i < s0.len() && s0[i].0 == k;
            if i < pos {
                assert(s1[i].0 == k);
            } else {
                assert(i > pos);
                assert(s1[i - 1].0 == k);
            }
        }
    }
    assert forall|k: u32| entries_contain_key(s1, k) implies entries_value(s1, k)
        == entries_value(s0, k) by {
        let i = choose|i: int| 0 <= i < s1.len() && s1[i].0 == k;
        lemma_entries_value(s1, i);
        if i < pos {
            assert(s0[i].0 == k);
            lemma_entries_value(s0, i);
        } else {
            assert(s0[i + 1].0 == k);
            lemma_entries_value(s0, i + 1);
        }
    }
    assert(entries_map(s1) =~= entries_map(s0).remove(h));
}

/// Keys are pairwise distinct along an entry sequence.
pub open spec fn entries_unique<T>(s: Seq<(u32, T)>) -> bool {
    forall|i: int, j: int| 0 <= i < j < s.len() ==> s[i].0 != s[j].0
}

/// In an entry sequence with distinct keys, the entry at index `i` is the one
/// `entries_value` describes for its key.
pub proof fn lemma_entries_value_unique<T>(s: Seq<(u32, T)>, i: int)
    requires
        entries_unique(s),
        0 <= i < s.len(),
    ensures
        entries_contain_key(s, s[i].0),
        entries_value(s, s[i].0) == s[i].1,
        entries_map(s).contains_key(s[i].0),
        entries_map(s)[s[i].0] == s[i].1,
{
    let h = s[i].0;
    assert(entries_contain_key(s, h));
    let j = choose|j: int| 0 <= j < s.len() && s[j].0 == h;
    if i < j {
        assert(s[i].0 != s[j].0);
    } else if j < i {
        assert(s[j].0 != s[i].0);
    }
}

/// Concatenating entry sequences with disjoint keys unions their maps.
pub proof fn lemma_entries_map_concat<T>(s1: Seq<(u32, T)>, s2: Seq<(u32, T)>)
    requires
        entries_unique(s1 + s2),
    ensures
        entries_map(s1 + s2) == entries_map(s1).union_prefer_right(entries_map(s2)),
{
    let c = s1 + s2;
    assert forall|h: u32|
        entries_contain_key(c, h) <==> (entries_contain_key(s1, h) || entries_contain_key(
            s2,
            h,
        )) by {
        if entries_contain_key(c, h) {
            let i = choose|i: int| 0 <= i < c.len() && c[i].0 == h;
            if i < s1.len() {
                assert(s1[i].0 == h);
            } else {
                assert(s2[i - s1.len()].0 == h);
            }
        }
        if entries_contain_key(s1, h) {
            let i = choose|i: int| 0 <= i < s1.len() && s1[i].0 == h;
            assert(c[i].0 == h);
        }
        if entries_contain_key(s2, h) {
            let i = choose|i: int| 0 <= i < s2.len() && s2[i].0 == h;
            assert(c[s1.len() + i].0 == h);
        }
    }
    assert forall|h: u32| entries_contain_key(c, h) implies entries_value(c, h) == (
    if entries_contain_key(s2, h) {
        entries_value(s2, h)
    } else {
        entries_value(s1, h)
    }) by {
        if entries_contain_key(s2, h) {
            let i = choose|i: int| 0 <= i < s2.len() && s2[i].0 == h;
            assert(c[s1.len() + i].0 == h);
            lemma_entries_value_unique(c, s1.len() + i);
            assert forall|a: int, b: int| 0 <= a < b < s2.len() implies s2[a].0 != s2[b].0 by {
                assert(c[s1.len() + a].0 != c[s1.len() + b].0);
            }
            lemma_entries_value_unique(s2, i);
        } else {
            let i = choose|i: int| 0 <= i < c.len() && c[i].0 == h;
            assert(i < s1.len()) by {
                if i >= s1.len() {
                    assert(s2[i - s1.len()].0 == h);
                }
            }
            assert(s1[i].0 == h);
            lemma_entries_value_unique(c, i);
            assert forall|a: int, b: int| 0 <= a < b < s1.len() implies s1[a].0 != s1[b].0 by {
                assert(c[a].0 != c[b].0);
            }
            lemma_entries_value_unique(s1, i);
        }
    }
    assert(entries_map(s1 + s2) =~= entries_map(s1).union_prefer_right(entries_map(s2)));
}

/// Reversing an entry sequence with distinct keys keeps its map.
pub proof fn lemma_entries_map_reverse<T>(s: Seq<(u32, T)>)
    requires
        entries_unique(s),
    ensures
        entries_unique(s.reverse()),
        entries_map(s.reverse()) == entries_map(s),
{
    let r = s.reverse();
    assert forall|a: int, b: int| 0 <= a < b < r.len() implies r[a].0 != r[b].0 by {
        assert(r[a] == s[s.len() - 1 - a]);
        assert(r[b] == s[s.len() - 1 - b]);
    }
    assert forall|h: u32| entries_contain_key(r, h) <==> entries_contain_key(s, h) by {
        if entries_contain_key(r, h) {
            let i = choose|i: int| 0 <= i < r.len() && r[i].0 == h;
            assert(s[s.len() - 1 - i].0 == h);
        }
        if entries_contain_key(s, h) {
            let i = choose|i: int| 0 <= i < s.len() && s[i].0 == h;
            assert(r[s.len() - 1 - i].0 == h);
        }
    }
    assert forall|h: u32| entries_contain_key(r, h) implies entries_value(r, h) == entries_value(
        s,
        h,
    ) by {
        let i = choose|i: int| 0 <= i < r.len() && r[i].0 == h;
        lemma_entries_value_unique(r, i);
        assert(s[s.len() - 1 - i].0 == h);
        lemma_entries_value_unique(s, s.len() - 1 - i);
    }
    assert(entries_map(r) =~= entries_map(s));
}

/// Appending an entry whose key lies above all existing ones inserts it into
/// the map and keeps the entries sorted.
pub proof fn lemma_entries_map_push<T>(s: Seq<(u32, T)>, h: u32, v: T)
    requires
        entries_sorted(s),
        s.len() > 0 ==> s.last().0 < h,
    ensures
        entries_sorted(s.push((h, v))),
        entries_map(s.push((h, v))) == entries_map(s).insert(h, v),
{
    assert forall|k: int| 0 <= k < s.len() implies s[k].0 < h by {
        if k < s.len() - 1 {
            assert(s[k].0 < s[s.len() - 1].0);
        }
    }
    assert(s.push((h, v)) =~= s.insert(s.len() as int, (h, v)));
    lemma_sorted_insert(s, s.push((h, v)), s.len() as int, h, v);
}

} // verus!
