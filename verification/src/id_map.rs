//! A map from identifiers to values that keeps its entries in identifier order.
use vstd::prelude::*;
use crate::lex::{
    codes, compare_ids, id_less, lemma_lex_irreflexive, lemma_lex_transitive, Comparison,
};

verus! {

/// Whether identifiers are in strictly ascending order.
pub open spec fn ids_ascending(ids: Seq<Seq<char>>) -> bool {
    forall|a: int, b: int| 0 <= a < b < ids.len() ==> id_less(#[trigger] ids[a], #[trigger] ids[b])
}

/// The map that sends each identifier to the value at the same position.
pub open spec fn zipped<V>(ids: Seq<Seq<char>>, values: Seq<V>) -> Map<Seq<char>, V> {
    Map::new(|id: Seq<char>| ids.contains(id), |id: Seq<char>| values[ids.index_of(id)])
}

/// Identifiers with values, in identifier order.
#[derive(Debug)]
pub struct IdMap<V> {
    entries: Vec<(String, V)>,
}

impl<V> IdMap<V> {
    /// The identifiers, in order.
    pub closed spec fn ids(&self) -> Seq<Seq<char>> {
        self.entries@.map_values(|e: (String, V)| e.0@)
    }

    /// The values, in the order of their identifiers.
    pub closed spec fn values(&self) -> Seq<V> {
        self.entries@.map_values(|e: (String, V)| e.1)
    }

    #[verifier::type_invariant]
    spec fn entries_ascending(&self) -> bool {
        ids_ascending(self.ids())
    }
}

impl<V> View for IdMap<V> {
    type V = Map<Seq<char>, V>;

    open spec fn view(&self) -> Map<Seq<char>, V> {
        zipped(self.ids(), self.values())
    }
}

/// What one more entry adds to a prefix.
pub proof fn lemma_take_one_more<T>(s: Seq<T>, i: int, x: T)
    requires
        0 <= i < s.len(),
    ensures
        s.take(i + 1).contains(x) <==> s.take(i).contains(x) || x == s[i],
{
    let a = s.take(i);
    let b = s.take(i + 1);
    if b.contains(x) {
        let j = choose|j: int| 0 <= j < b.len() && b[j] == x;
        if j < i {
            assert(a[j] == x);
        }
    }
    if a.contains(x) {
        let j = choose|j: int| 0 <= j < a.len() && a[j] == x;
        assert(b[j] == x);
    }
    assert(b[i] == s[i]);
}

/// Ascending identifiers are distinct.
pub proof fn lemma_ascending_ids_distinct(ids: Seq<Seq<char>>)
    requires
        ids_ascending(ids),
    ensures
        ids.no_duplicates(),
{
    assert forall|a: int, b: int| 0 <= a < ids.len() && 0 <= b < ids.len() && a != b implies ids[a]
        != ids[b] by {
        lemma_lex_irreflexive(codes(ids[a]));
        if a < b {
            assert(id_less(ids[a], ids[b]));
        } else {
            assert(id_less(ids[b], ids[a]));
        }
    }
}

proof fn lemma_ascending_ids_agree(a: Seq<Seq<char>>, b: Seq<Seq<char>>, p: int)
    requires
        ids_ascending(a),
        ids_ascending(b),
        forall|id: Seq<char>| #[trigger] a.contains(id) <==> b.contains(id),
        0 <= p < a.len(),
    ensures
        p < b.len(),
        a[p] == b[p],
    decreases p,
{
    assert forall|q: int| 0 <= q < p implies q < b.len() && a[q] == b[q] by {
        lemma_ascending_ids_agree(a, b, q);
    }
    if p > 0 {
        assert(a[p - 1] == b[p - 1]);
    }
    assert(a.contains(a[p]));
    assert(b.contains(a[p]));
    let q = choose|q: int| 0 <= q < b.len() && b[q] == a[p];
    lemma_lex_irreflexive(codes(a[p]));
    if q < p {
        assert(a[q] == b[q]);
        assert(id_less(a[q], a[p]));
    }
    if q > p {
        assert(b.contains(b[p]));
        assert(a.contains(b[p]));
        let r = choose|r: int| 0 <= r < a.len() && a[r] == b[p];
        lemma_lex_irreflexive(codes(b[p]));
        if r < p {
            assert(id_less(b[r], b[p]));
        } else if r > p {
            assert(id_less(b[p], b[q]));
            assert(id_less(a[p], a[r]));
            lemma_lex_transitive(codes(a[p]), codes(b[p]), codes(a[p]));
        }
    }
}

/// The same identifiers in ascending order are the same list.
pub proof fn lemma_ascending_ids_unique(a: Seq<Seq<char>>, b: Seq<Seq<char>>)
    requires
        ids_ascending(a),
        ids_ascending(b),
        forall|id: Seq<char>| #[trigger] a.contains(id) <==> b.contains(id),
    ensures
        a == b,
{
    assert forall|p: int| 0 <= p < a.len() implies p < b.len() && a[p] == b[p] by {
        lemma_ascending_ids_agree(a, b, p);
    }
    if a.len() < b.len() {
        lemma_ascending_ids_agree(b, a, a.len() as int);
    }
    if b.len() < a.len() {
        lemma_ascending_ids_agree(a, b, b.len() as int);
    }
    assert(a =~= b);
}

/// The map holds exactly the pairs that stand at the same position.
pub proof fn lemma_zipped<V>(ids: Seq<Seq<char>>, values: Seq<V>)
    requires
        ids_ascending(ids),
        ids.len() == values.len(),
    ensures
        forall|i: int|
            0 <= i < ids.len() ==> #[trigger] zipped(ids, values).contains_key(ids[i]) && zipped(
                ids,
                values,
            )[ids[i]] == values[i],
        forall|id: Seq<char>| #[trigger] zipped(ids, values).contains_key(id) <==> ids.contains(id),
{
    lemma_ascending_ids_distinct(ids);
    assert forall|i: int| 0 <= i < ids.len() implies #[trigger] zipped(ids, values).contains_key(
        ids[i],
    ) && zipped(ids, values)[ids[i]] == values[i] by {
        assert(ids.contains(ids[i]));
        let j = ids.index_of(ids[i]);
        assert(ids[j] == ids[i]);
    }
}

/// What one more entry does to a prefix of a map's entries.
pub proof fn lemma_zipped_one_more<V>(ids: Seq<Seq<char>>, values: Seq<V>, k: int)
    requires
        ids_ascending(ids),
        ids.len() == values.len(),
        0 <= k < ids.len(),
    ensures
        zipped(ids.take(k + 1), values.take(k + 1)) == zipped(ids.take(k), values.take(k)).insert(
            ids[k],
            values[k],
        ),
{
    let a = zipped(ids.take(k), values.take(k));
    let b = zipped(ids.take(k + 1), values.take(k + 1));
    lemma_zipped(ids.take(k), values.take(k));
    lemma_zipped(ids.take(k + 1), values.take(k + 1));
    assert forall|id: Seq<char>| b.contains_key(id) implies a.insert(ids[k], values[k]).contains_key(
        id,
    ) && b[id] == a.insert(ids[k], values[k])[id] by {
        let j = ids.take(k + 1).index_of(id);
        assert(ids.take(k + 1)[j] == id);
        if j < k {
            assert(ids.take(k)[j] == id);
            assert(id_less(ids[j], ids[k]));
            lemma_lex_irreflexive(codes(id));
        }
    }
    assert forall|id: Seq<char>| a.insert(ids[k], values[k]).contains_key(id) implies b.contains_key(
        id,
    ) by {
        if id == ids[k] {
            assert(ids.take(k + 1)[k] == id);
        } else {
            let j = ids.take(k).index_of(id);
            assert(ids.take(k)[j] == id);
            assert(ids.take(k + 1)[j] == id);
        }
    }
    assert(b =~= a.insert(ids[k], values[k]));
}

proof fn lemma_insert_ascending_id(ids: Seq<Seq<char>>, p: int, id: Seq<char>)
    requires
        ids_ascending(ids),
        0 <= p <= ids.len(),
        forall|a: int| 0 <= a < p ==> id_less(#[trigger] ids[a], id),
        p < ids.len() ==> id_less(id, ids[p]),
    ensures
        ids_ascending(ids.insert(p, id)),
        !ids.contains(id),
{
    let t = ids.insert(p, id);
    assert forall|a: int| p <= a < ids.len() implies id_less(id, #[trigger] ids[a]) by {
        if a > p {
            assert(id_less(ids[p], ids[a]));
            lemma_lex_transitive(codes(id), codes(ids[p]), codes(ids[a]));
        }
    }
    assert forall|a: int, b: int| 0 <= a < b < t.len() implies id_less(
        #[trigger] t[a],
        #[trigger] t[b],
    ) by {
        let a0 = if a < p {
            a
        } else {
            a - 1
        };
        let b0 = if b < p {
            b
        } else {
            b - 1
        };
        if a == p {
            assert(id_less(id, ids[b0]));
        } else if b == p {
            assert(id_less(ids[a0], id));
        } else {
            assert(id_less(ids[a0], ids[b0]));
        }
    }
    lemma_lex_irreflexive(codes(id));
}

impl<V> IdMap<V> {
    /// An empty map.
    pub fn new() -> (r: Self)
        ensures
            r@ == Map::<Seq<char>, V>::empty(),
            r.ids() == Seq::<Seq<char>>::empty(),
    {
        let r = IdMap { entries: Vec::new() };
        assert(r.ids() =~= Seq::empty());
        assert(r@ =~= Map::empty());
        r
    }

    /// The number of entries; their identifiers are in ascending order.
    pub fn len(&self) -> (n: usize)
        ensures
            n == self.ids().len(),
            n == self.values().len(),
            ids_ascending(self.ids()),
            forall|id: Seq<char>| #[trigger] self@.contains_key(id) <==> self.ids().contains(id),
            forall|i: int|
                0 <= i < n ==> self@.contains_key(#[trigger] self.ids()[i])
                    && self@[self.ids()[i]] == self.values()[i],
    {
        proof {
            use_type_invariant(self);
            lemma_zipped(self.ids(), self.values());
        }
        self.entries.len()
    }

    /// The identifier at position `i`.
    pub fn id_at(&self, i: usize) -> (r: &String)
        requires
            i < self.ids().len(),
        ensures
            r@ == self.ids()[i as int],
    {
        &self.entries[i].0
    }

    /// The value at position `i`.
    pub fn value_at(&self, i: usize) -> (r: &V)
        requires
            i < self.ids().len(),
        ensures
            *r == self.values()[i as int],
    {
        &self.entries[i].1
    }

    /// The first position whose identifier is not before `id`, and whether it holds `id`.
    fn locate(entries: &Vec<(String, V)>, id: &str) -> (r: (usize, bool))
        requires
            ids_ascending(entries@.map_values(|e: (String, V)| e.0@)),
        ensures
            r.0 <= entries.len(),
            forall|a: int| 0 <= a < r.0 ==> id_less((#[trigger] entries@[a]).0@, id@),
            r.1 ==> r.0 < entries.len() && entries@[r.0 as int].0@ == id@,
            !r.1 && r.0 < entries.len() ==> id_less(id@, entries@[r.0 as int].0@),
    {
        let mut i: usize = 0;
        while i < entries.len()
            invariant
                i <= entries.len(),
                forall|a: int| 0 <= a < i ==> id_less((#[trigger] entries@[a]).0@, id@),
            decreases entries.len() - i,
        {
            match compare_ids(entries[i].0.as_str(), id) {
                Comparison::Before => {
                    i = i + 1;
                },
                Comparison::Same => {
                    return (i, true);
                },
                Comparison::After => {
                    return (i, false);
                },
            }
        }
        (i, false)
    }

    /// The value of `id`, if it has one.
    pub fn get(&self, id: &str) -> (r: Option<&V>)
        ensures
            match r {
                Some(v) => self@.contains_key(id@) && *v == self@[id@],
                None => !self@.contains_key(id@),
            },
    {
        proof {
            use_type_invariant(self);
            lemma_zipped(self.ids(), self.values());
        }
        let (i, found) = Self::locate(&self.entries, id);
        if found {
            assert(self.ids()[i as int] == id@);
            Some(&self.entries[i].1)
        } else {
            proof {
                assert forall|a: int| 0 <= a < i implies id_less(#[trigger] self.ids()[a], id@) by {
                    assert(id_less(self.entries@[a].0@, id@));
                }
                lemma_insert_ascending_id(self.ids(), i as int, id@);
            }
            None
        }
    }

    /// Whether `id` has a value.
    pub fn contains_key(&self, id: &str) -> (b: bool)
        ensures
            b == self@.contains_key(id@),
    {
        match self.get(id) {
            Some(_) => true,
            None => false,
        }
    }

    /// Gives `id` the value `value`, in place of any earlier one.
    pub fn insert(&mut self, id: String, value: V)
        ensures
            final(self)@ == old(self)@.insert(id@, value),
    {
        proof {
            use_type_invariant(&*self);
        }
        let ghost before = *self;
        let mut entries: Vec<(String, V)> = Vec::new();
        std::mem::swap(&mut entries, &mut self.entries);
        let (i, found) = Self::locate(&entries, id.as_str());
        let ghost ids = before.ids();
        let ghost values = before.values();
        proof {
            lemma_zipped(ids, values);
            assert forall|a: int| 0 <= a < i implies id_less(#[trigger] ids[a], id@) by {
                assert(id_less(entries@[a].0@, id@));
            }
        }
        if found {
            proof {
                assert(ids[i as int] == id@);
            }
            entries.set(i, (id, value));
            proof {
                let after = IdMap { entries };
                assert(after.ids() =~= ids);
                assert(after.values() =~= values.update(i as int, value));
                lemma_zipped(after.ids(), after.values());
                assert forall|key: Seq<char>|
                    #![trigger after@[key]]
                    before@.insert(id@, value).contains_key(key) implies after@[key]
                    == before@.insert(id@, value)[key] by {
                    let j = ids.index_of(key);
                    assert(ids[j] == key);
                    assert(after@.contains_key(after.ids()[j]));
                    assert(before@.contains_key(ids[j]));
                }
                assert(after@ =~= before@.insert(id@, value));
            }
        } else {
            proof {
                lemma_insert_ascending_id(ids, i as int, id@);
            }
            let ghost new_id = id@;
            entries.insert(i, (id, value));
            proof {
                let after = IdMap { entries };
                assert(after.ids() =~= ids.insert(i as int, new_id));
                assert(after.values() =~= values.insert(i as int, value));
                lemma_zipped(after.ids(), after.values());
                assert(after.ids()[i as int] == new_id);
                assert forall|key: Seq<char>| after@.contains_key(key) <==> before@.insert(
                    new_id,
                    value,
                ).contains_key(key) by {
                    if ids.contains(key) {
                        let j = ids.index_of(key);
                        if j < i {
                            assert(after.ids()[j] == key);
                        } else {
                            assert(after.ids()[j + 1] == key);
                        }
                    }
                    if after.ids().contains(key) {
                        let j = after.ids().index_of(key);
                        if j < i {
                            assert(ids[j] == key);
                        } else if j > i {
                            assert(ids[j - 1] == key);
                        }
                    }
                }
                assert forall|key: Seq<char>|
                    #![trigger after@[key]]
                    before@.insert(new_id, value).contains_key(key) implies after@[key]
                    == before@.insert(new_id, value)[key] by {
                    if key != new_id {
                        let j = ids.index_of(key);
                        assert(ids[j] == key);
                        assert(before@.contains_key(ids[j]));
                        if j < i {
                            assert(after@.contains_key(after.ids()[j]));
                        } else {
                            assert(after@.contains_key(after.ids()[j + 1]));
                        }
                    } else {
                        assert(after@.contains_key(after.ids()[i as int]));
                    }
                }
                assert(after@ =~= before@.insert(new_id, value));
            }
        }
        self.entries = entries;
    }
}

impl<V: Copy> Clone for IdMap<V> {
    fn clone(&self) -> (r: Self)
        ensures
            r@ == self@,
            r.ids() == self.ids(),
            r.values() == self.values(),
    {
        proof {
            use_type_invariant(self);
        }
        let mut entries: Vec<(String, V)> = Vec::new();
        let mut i: usize = 0;
        while i < self.entries.len()
            invariant
                i <= self.entries.len(),
                entries@ == self.entries@.take(i as int),
            decreases self.entries.len() - i,
        {
            entries.push((self.entries[i].0.clone(), self.entries[i].1));
            i = i + 1;
            assert(entries@ =~= self.entries@.take(i as int));
        }
        assert(entries@ =~= self.entries@);
        IdMap { entries }
    }
}

/// The items listed under an identifier.
pub open spec fn listed<T>(m: Map<Seq<char>, Vec<T>>, id: Seq<char>) -> Seq<T> {
    if m.contains_key(id) {
        m[id]@
    } else {
        Seq::empty()
    }
}

impl<T> IdMap<Vec<T>> {
    /// Adds `item` at the end of the list of `id`, which starts out empty.
    pub fn push_item(&mut self, id: String, item: T)
        ensures
            final(self)@.dom() == old(self)@.dom().insert(id@),
            forall|key: Seq<char>|
                #[trigger] listed(final(self)@, key) == if key == id@ {
                    listed(old(self)@, key).push(item)
                } else {
                    listed(old(self)@, key)
                },
    {
        proof {
            use_type_invariant(&*self);
        }
        let ghost before = *self;
        let mut entries: Vec<(String, Vec<T>)> = Vec::new();
        std::mem::swap(&mut entries, &mut self.entries);
        let (i, found) = Self::locate(&entries, id.as_str());
        let ghost ids = before.ids();
        let ghost values = before.values();
        proof {
            lemma_zipped(ids, values);
            assert forall|a: int| 0 <= a < i implies id_less(#[trigger] ids[a], id@) by {
                assert(id_less(entries@[a].0@, id@));
            }
        }
        if found {
            proof {
                assert(ids[i as int] == id@);
            }
            entries[i].1.push(item);
            proof {
                let after = IdMap { entries };
                assert(after.ids() =~= ids);
                lemma_zipped(after.ids(), after.values());
                assert forall|key: Seq<char>|
                    #[trigger] listed(after@, key) == if key == id@ {
                        listed(before@, key).push(item)
                    } else {
                        listed(before@, key)
                    } by {
                    if ids.contains(key) {
                        let j = ids.index_of(key);
                        assert(ids[j] == key);
                        assert(after@.contains_key(after.ids()[j]));
                        assert(before@.contains_key(ids[j]));
                        lemma_ascending_ids_distinct(ids);
                    }
                }
                assert(after@.dom() =~= before@.dom().insert(id@));
            }
            self.entries = entries;
        } else {
            let mut list: Vec<T> = Vec::new();
            list.push(item);
            proof {
                lemma_insert_ascending_id(ids, i as int, id@);
                assert(entries@ =~= before.entries@);
            }
            self.entries = entries;
            assert(*self == before);
            self.insert(id, list);
        }
    }
}

/// Identifiers are in ascending order exactly where each comes before all that follow it.
pub proof fn lemma_ascending_means_each_before_the_next(ids: Seq<Seq<char>>)
    ensures
        ids_ascending(ids) <==> forall|a: int, b: int|
            0 <= a < b < ids.len() ==> id_less(#[trigger] ids[a], #[trigger] ids[b]),
{
}

/// The list under an identifier is the one in the map; without one it is empty.
pub proof fn lemma_listed<T>(m: Map<Seq<char>, Vec<T>>, id: Seq<char>)
    ensures
        m.contains_key(id) ==> listed(m, id) == m[id]@,
        !m.contains_key(id) ==> listed(m, id).len() == 0,
{
}

} // verus!
