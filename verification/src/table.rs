//! The ordered key-value table that every entity repository is built on.
//!
//! A table keeps its entries in strictly ascending key order. Reads hand out
//! what is stored; a change is made by writing a whole value back with
//! [`Table::insert`].

use vstd::prelude::*;

verus! {

/// A key type with a strict total order on its mathematical values.
pub trait TableKey: View + Sized {
    /// The strict order in which a table walks its keys.
    spec fn before(a: Self::V, b: Self::V) -> bool;

    proof fn lemma_before_irreflexive(a: Self::V)
        ensures
            !Self::before(a, a),
    ;

    proof fn lemma_before_transitive(a: Self::V, b: Self::V, c: Self::V)
        requires
            Self::before(a, b),
            Self::before(b, c),
        ensures
            Self::before(a, c),
    ;

    proof fn lemma_before_total(a: Self::V, b: Self::V)
        ensures
            a == b || Self::before(a, b) || Self::before(b, a),
    ;

    fn same_key(&self, other: &Self) -> (r: bool)
        ensures
            r == (self@ == other@),
    ;

    fn sorts_before(&self, other: &Self) -> (r: bool)
        ensures
            r == Self::before(self@, other@),
    ;

}

impl TableKey for u64 {
    open spec fn before(a: u64, b: u64) -> bool {
        a < b
    }

    proof fn lemma_before_irreflexive(a: u64) {
    }

    proof fn lemma_before_transitive(a: u64, b: u64, c: u64) {
    }

    proof fn lemma_before_total(a: u64, b: u64) {
    }

    fn same_key(&self, other: &u64) -> (r: bool) {
        *self == *other
    }

    fn sorts_before(&self, other: &u64) -> (r: bool) {
        *self < *other
    }

}

/// What a sequence holds after one more is put at its end.
pub proof fn lemma_pushed<A>(s: Seq<A>, last: A, x: A)
    ensures
        s.push(last).contains(x) <==> s.contains(x) || x == last,
{
    let p = s.push(last);
    if s.contains(x) {
        let i = s.index_of(x);
        assert(p[i] == x);
    }
    assert(p[s.len() as int] == last);
    if p.contains(x) {
        let i = p.index_of(x);
        if i < s.len() {
            assert(s[i] == x);
        }
    }
}

/// Whether `keys` is strictly ascending in the order of `K`.
pub open spec fn ascending<K: TableKey>(keys: Seq<K::V>) -> bool {
    forall|i: int, j: int| 0 <= i < j < keys.len() ==> K::before(#[trigger] keys[i], #[trigger] keys[j])
}

/// Whether `walk` lists exactly the members of `dom`, in ascending order.
pub open spec fn is_listing<K: TableKey>(walk: Seq<K::V>, dom: Set<K::V>) -> bool {
    &&& ascending::<K>(walk)
    &&& forall|k: K::V| walk.contains(k) <==> dom.contains(k)
}

/// The members of the finite set `dom` in ascending order.
pub open spec fn listing<K: TableKey>(dom: Set<K::V>) -> Seq<K::V> {
    choose|walk: Seq<K::V>| is_listing::<K>(walk, dom)
}

/// An ascending walk has no key twice.
pub proof fn lemma_ascending_distinct<K: TableKey>(walk: Seq<K::V>)
    requires
        ascending::<K>(walk),
    ensures
        walk.no_duplicates(),
{
    assert forall|i: int, j: int| 0 <= i < walk.len() && 0 <= j < walk.len() && i != j implies walk[i]
        != walk[j] by {
        if i < j {
            K::lemma_before_irreflexive(walk[i]);
        } else {
            K::lemma_before_irreflexive(walk[j]);
        }
    }
}

/// A set has at most one ascending listing.
pub proof fn lemma_listing_unique<K: TableKey>(a: Seq<K::V>, b: Seq<K::V>, dom: Set<K::V>)
    requires
        is_listing::<K>(a, dom),
        is_listing::<K>(b, dom),
    ensures
        a == b,
    decreases a.len(),
{
    lemma_ascending_distinct::<K>(a);
    lemma_ascending_distinct::<K>(b);
    if a.len() == 0 {
        if b.len() > 0 {
            assert(b.contains(b[0]));
            assert(a.contains(b[0]));
        }
        assert(a =~= b);
    } else if b.len() == 0 {
        assert(a.contains(a[0]));
        assert(b.contains(a[0]));
    } else {
        assert(a.contains(a[0]));
        assert(b.contains(b[0]));
        let j = b.index_of(a[0]);
        let i = a.index_of(b[0]);
        if a[0] != b[0] {
            assert(K::before(b[0], b[j]));
            assert(K::before(a[0], a[i]));
            K::lemma_before_transitive(a[0], b[0], a[0]);
            K::lemma_before_irreflexive(a[0]);
        }
        let ra = a.drop_first();
        let rb = b.drop_first();
        let rest = dom.remove(a[0]);
        assert forall|k: K::V| ra.contains(k) <==> rest.contains(k) by {
            if ra.contains(k) {
                let n = ra.index_of(k);
                assert(a[n + 1] == k);
                assert(a.contains(k));
            }
            if rest.contains(k) {
                assert(a.contains(k));
                let n = a.index_of(k);
                assert(ra[n - 1] == k);
            }
        }
        assert forall|k: K::V| rb.contains(k) <==> rest.contains(k) by {
            if rb.contains(k) {
                let n = rb.index_of(k);
                assert(b[n + 1] == k);
                assert(b.contains(k));
            }
            if rest.contains(k) {
                assert(b.contains(k));
                let n = b.index_of(k);
                assert(rb[n - 1] == k);
            }
        }
        assert(ascending::<K>(ra)) by {
            assert forall|x: int, y: int| 0 <= x < y < ra.len() implies K::before(
                #[trigger] ra[x],
                #[trigger] ra[y],
            ) by {
                assert(K::before(a[x + 1], a[y + 1]));
            }
        }
        assert(ascending::<K>(rb)) by {
            assert forall|x: int, y: int| 0 <= x < y < rb.len() implies K::before(
                #[trigger] rb[x],
                #[trigger] rb[y],
            ) by {
                assert(K::before(b[x + 1], b[y + 1]));
            }
        }
        lemma_listing_unique::<K>(ra, rb, rest);
        assert(a =~= seq![a[0]] + ra);
        assert(b =~= seq![b[0]] + rb);
    }
}

/// Every finite set has an ascending listing.
pub proof fn lemma_listing_exists<K: TableKey>(dom: Set<K::V>)
    requires
        dom.finite(),
    ensures
        is_listing::<K>(listing::<K>(dom), dom),
        listing::<K>(dom).len() == dom.len(),
    decreases dom.len(),
{
    if dom.len() == 0 {
        let empty = Seq::<K::V>::empty();
        assert(dom =~= Set::<K::V>::empty());
        assert(is_listing::<K>(empty, dom));
    } else {
        let x = dom.choose();
        let rest = dom.remove(x);
        lemma_listing_exists::<K>(rest);
        let walk = listing::<K>(rest);
        let place = first_not_before::<K>(walk, x, 0);
        lemma_first_not_before::<K>(walk, x, 0);
        let grown = walk.insert(place, x);
        assert(!walk.contains(x));
        assert forall|i: int| place <= i < walk.len() implies K::before(x, #[trigger] walk[i]) by {
            assert(walk.contains(walk[i]));
            K::lemma_before_total(walk[place], x);
            if place < i {
                K::lemma_before_transitive(x, walk[place], walk[i]);
            }
        }
        assert(ascending::<K>(grown)) by {
            assert forall|i: int, j: int| 0 <= i < j < grown.len() implies K::before(
                #[trigger] grown[i],
                #[trigger] grown[j],
            ) by {
                if j < place {
                    assert(grown[i] == walk[i] && grown[j] == walk[j]);
                } else if j == place {
                    assert(grown[i] == walk[i]);
                } else if i < place {
                    assert(grown[i] == walk[i] && grown[j] == walk[j - 1]);
                } else if i == place {
                    assert(grown[j] == walk[j - 1]);
                } else {
                    assert(grown[i] == walk[i - 1] && grown[j] == walk[j - 1]);
                }
            }
        }
        assert forall|k: K::V| grown.contains(k) <==> dom.contains(k) by {
            assert(grown[place] == x);
            if grown.contains(k) {
                let i = grown.index_of(k);
                if i < place {
                    assert(walk[i] == k);
                    assert(walk.contains(k));
                } else if i > place {
                    assert(walk[i - 1] == k);
                    assert(walk.contains(k));
                }
            }
            if dom.contains(k) && k != x {
                assert(rest.contains(k));
                assert(walk.contains(k));
                let i = walk.index_of(k);
                if i < place {
                    assert(grown[i] == k);
                } else {
                    assert(grown[i + 1] == k);
                }
            }
        }
        assert(is_listing::<K>(grown, dom));
        lemma_listing_unique::<K>(grown, listing::<K>(dom), dom);
    }
    let all = listing::<K>(dom);
    lemma_ascending_distinct::<K>(all);
    all.unique_seq_to_set();
    assert(all.to_set() =~= dom);
}

/// The first place at or after `from` whose key does not come before `x`.
pub open spec fn first_not_before<K: TableKey>(walk: Seq<K::V>, x: K::V, from: int) -> int
    decreases walk.len() - from,
{
    if 0 <= from < walk.len() && K::before(walk[from], x) {
        first_not_before::<K>(walk, x, from + 1)
    } else {
        from
    }
}

proof fn lemma_first_not_before<K: TableKey>(walk: Seq<K::V>, x: K::V, from: int)
    requires
        0 <= from <= walk.len(),
        forall|i: int| 0 <= i < from ==> K::before(#[trigger] walk[i], x),
    ensures
        from <= first_not_before::<K>(walk, x, from) <= walk.len(),
        forall|i: int|
            0 <= i < first_not_before::<K>(walk, x, from) ==> K::before(#[trigger] walk[i], x),
        first_not_before::<K>(walk, x, from) < walk.len() ==> !K::before(
            walk[first_not_before::<K>(walk, x, from)],
            x,
        ),
    decreases walk.len() - from,
{
    if from < walk.len() && K::before(walk[from], x) {
        lemma_first_not_before::<K>(walk, x, from + 1);
    }
}

/// An ordered table from keys to values.
pub struct Table<K: TableKey, V: View> {
    keys: Vec<K>,
    values: Vec<V>,
}

impl<K: TableKey, V: View> View for Table<K, V> {
    type V = Map<K::V, V::V>;

    /// The table as a map from keys to the mathematical values stored.
    open spec fn view(&self) -> Map<K::V, V::V> {
        Map::new(|k: K::V| self.map().contains_key(k), |k: K::V| self.map()[k]@)
    }
}

impl<K: TableKey, V: View> Table<K, V> {
    /// The keys of the table in the order in which it is walked.
    pub closed spec fn keys(&self) -> Seq<K::V> {
        Seq::new(self.keys@.len(), |i: int| self.keys@[i]@)
    }

    /// The values of the table, each at the place of its key in [`Self::keys`].
    pub closed spec fn values(&self) -> Seq<V> {
        self.values@
    }

    /// The table is in order: one value per key, keys strictly ascending.
    pub closed spec fn wf(&self) -> bool {
        &&& self.keys@.len() == self.values@.len()
        &&& ascending::<K>(self.keys())
    }

    /// The table as a map from keys to stored values.
    pub open spec fn map(&self) -> Map<K::V, V> {
        Map::new(
            |k: K::V| self.keys().contains(k),
            |k: K::V| self.values()[self.keys().index_of(k)],
        )
    }

    /// What a well-formed table's walk and its map have to do with each other.
    pub proof fn lemma_walk(&self)
        requires
            self.wf(),
        ensures
            self.keys().len() == self.values().len(),
            ascending::<K>(self.keys()),
            self.keys().no_duplicates(),
            self.map().dom().finite(),
            self.map().dom().len() == self.keys().len(),
            self@.dom() == self.map().dom(),
            is_listing::<K>(self.keys(), self@.dom()),
            self.keys() == listing::<K>(self@.dom()),
            forall|i: int| 0 <= i < self.keys().len() ==> self.map().contains_key(#[trigger] self.keys()[i])
                    && self.map()[self.keys()[i]] == self.values()[i],
    {
        let keys = self.keys();
        assert forall|i: int, j: int| 0 <= i < keys.len() && 0 <= j < keys.len() && i != j implies keys[i] != keys[j] by {
            if i < j {
                K::lemma_before_irreflexive(keys[i]);
            } else {
                K::lemma_before_irreflexive(keys[j]);
            }
        }
        assert forall|i: int| 0 <= i < keys.len() implies self.map().contains_key(#[trigger] keys[i])
            && self.map()[keys[i]] == self.values()[i] by {
            assert(keys.contains(keys[i]));
            let j = keys.index_of(keys[i]);
            assert(j == i);
        }
        keys.unique_seq_to_set();
        assert(self.map().dom() =~= keys.to_set());
        assert(self@.dom() =~= self.map().dom());
        assert(is_listing::<K>(keys, self@.dom()));
        lemma_listing_unique::<K>(keys, listing::<K>(self@.dom()), self@.dom());
    }

    pub fn new() -> (r: Self)
        ensures
            r.wf(),
            r.keys() == Seq::<K::V>::empty(),
            r.map() == Map::<K::V, V>::empty(),
            r@ == Map::<K::V, V::V>::empty(),
    {
        let r = Table { keys: Vec::new(), values: Vec::new() };
        assert(r.keys() =~= Seq::<K::V>::empty());
        assert(r.map() =~= Map::<K::V, V>::empty());
        assert(r@ =~= Map::<K::V, V::V>::empty());
        r
    }

    /// The place of the first key that does not sort before `key`.
    fn lower_bound(&self, key: &K) -> (r: usize)
        requires
            self.wf(),
        ensures
            r <= self.keys().len(),
            forall|i: int| 0 <= i < r ==> K::before(#[trigger] self.keys()[i], key@),
            forall|i: int| r <= i < self.keys().len() ==> !K::before(#[trigger] self.keys()[i], key@),
    {
        let mut lo: usize = 0;
        let mut hi: usize = self.keys.len();
        while lo < hi
            invariant
                self.wf(),
                lo <= hi <= self.keys().len(),
                self.keys().len() == self.keys@.len(),
                forall|i: int| 0 <= i < lo ==> K::before(#[trigger] self.keys()[i], key@),
                forall|i: int| hi <= i < self.keys().len() ==> !K::before(#[trigger] self.keys()[i], key@),
            decreases hi - lo,
        {
            let mid = lo + (hi - lo) / 2;
            if self.keys[mid].sorts_before(key) {
                assert forall|i: int| 0 <= i < mid + 1 implies K::before(#[trigger] self.keys()[i], key@) by {
                    if i < mid {
                        K::lemma_before_transitive(self.keys()[i], self.keys()[mid as int], key@);
                    }
                }
                lo = mid + 1;
            } else {
                assert forall|i: int| mid <= i < self.keys().len() implies !K::before(
                    #[trigger] self.keys()[i],
                    key@,
                ) by {
                    if mid < i && K::before(self.keys()[i], key@) {
                        K::lemma_before_transitive(self.keys()[mid as int], self.keys()[i], key@);
                    }
                }
                hi = mid;
            }
        }
        lo
    }

    /// The place of `key` among the keys, if it is there.
    fn position(&self, key: &K) -> (r: Option<usize>)
        requires
            self.wf(),
        ensures
            match r {
                Some(i) => i < self.keys().len() && self.keys()[i as int] == key@,
                None => !self.keys().contains(key@),
            },
    {
        let pos = self.lower_bound(key);
        if pos < self.keys.len() && self.keys[pos].same_key(key) {
            Some(pos)
        } else {
            assert forall|i: int| 0 <= i < self.keys().len() implies self.keys()[i] != key@ by {
                if i < pos {
                    K::lemma_before_irreflexive(key@);
                } else if i > pos {
                    K::lemma_before_total(self.keys()[pos as int], key@);
                    K::lemma_before_transitive(key@, self.keys()[pos as int], self.keys()[i]);
                    K::lemma_before_irreflexive(key@);
                }
            }
            None
        }
    }

    /// Whether the table holds an entry for `key`.
    pub fn contains_key(&self, key: &K) -> (r: bool)
        requires
            self.wf(),
        ensures
            r == self@.contains_key(key@),
    {
        self.position(key).is_some()
    }

    /// The value stored for `key`.
    pub fn get(&self, key: &K) -> (r: Option<&V>)
        requires
            self.wf(),
        ensures
            match r {
                Some(v) => self@.contains_key(key@) && *v == self.map()[key@] && v@ == self@[key@],
                None => !self@.contains_key(key@),
            },
    {
        proof {
            self.lemma_walk();
        }
        match self.position(key) {
            Some(i) => Some(&self.values[i]),
            None => None,
        }
    }

    /// The key at place `i` of the walk.
    pub fn key_at(&self, i: usize) -> (r: &K)
        requires
            self.wf(),
            i < self.keys().len(),
        ensures
            r@ == self.keys()[i as int],
    {
        &self.keys[i]
    }

    /// The value at place `i` of the walk.
    pub fn value_at(&self, i: usize) -> (r: &V)
        requires
            self.wf(),
            i < self.keys().len(),
        ensures
            *r == self.values()[i as int],
            self@.contains_key(self.keys()[i as int]),
            r@ == self@[self.keys()[i as int]],
    {
        proof {
            self.lemma_walk();
        }
        &self.values[i]
    }

    /// Stores `value` under `key` and returns what was stored there before.
    pub fn insert(&mut self, key: K, value: V) -> (r: Option<V>)
        requires
            old(self).wf(),
        ensures
            final(self).wf(),
            final(self).map() == old(self).map().insert(key@, value),
            final(self)@ == old(self)@.insert(key@, value@),
            r == if old(self)@.contains_key(key@) {
                Some(old(self).map()[key@])
            } else {
                None
            },
    {
        proof {
            self.lemma_walk();
        }
        let ghost before = *self;
        let pos = self.lower_bound(&key);
        if pos < self.keys.len() && self.keys[pos].same_key(&key) {
            self.values.push(value);
            let previous = self.values.swap_remove(pos);
            proof {
                assert(self.keys() == before.keys());
                assert(self.values() == before.values().update(pos as int, value));
                self.lemma_walk();
                assert forall|k: K::V| self.map().contains_key(k) implies #[trigger] self.map()[k]
                    == before.map().insert(key@, value)[k] by {
                    let i = self.keys().index_of(k);
                    assert(0 <= i < self.keys().len() && self.keys()[i] == k);
                    assert(self.map()[self.keys()[i]] == self.values()[i]);
                    assert(before.map()[before.keys()[i]] == before.values()[i]);
                    assert(before.keys()[pos as int] == key@);
                    if i == pos {
                        assert(k == key@);
                        assert(self.values()[i] == value);
                    } else {
                        assert(k != key@);
                        assert(self.values()[i] == before.values()[i]);
                    }
                }
                assert(before.map().contains_key(before.keys()[pos as int]));
                assert(self.map() =~= before.map().insert(key@, value));
                assert(self@ =~= before@.insert(key@, value@));
            }
            Some(previous)
        } else {
            proof {
                if pos < self.keys().len() {
                    K::lemma_before_total(self.keys()[pos as int], key@);
                }
                assert forall|i: int| pos <= i < self.keys().len() implies K::before(
                    key@,
                    #[trigger] self.keys()[i],
                ) by {
                    if pos < i {
                        K::lemma_before_transitive(key@, self.keys()[pos as int], self.keys()[i]);
                    }
                }
                assert forall|i: int| 0 <= i < self.keys().len() implies self.keys()[i] != key@ by {
                    K::lemma_before_irreflexive(key@);
                }
            }
            self.keys.insert(pos, key);
            self.values.insert(pos, value);
            proof {
                assert(self.keys() =~= before.keys().insert(pos as int, key@));
                assert(self.values() == before.values().insert(pos as int, value));
                self.lemma_walk();
                assert forall|k: K::V| before.map().contains_key(k) implies self.map().contains_key(k)
                    && self.map()[k] == before.map()[k] by {
                    let i = before.keys().index_of(k);
                    assert(before.keys()[i] == k);
                    if i < pos {
                        assert(self.keys()[i] == k);
                    } else {
                        assert(self.keys()[i + 1] == k);
                    }
                }
                assert(self.keys()[pos as int] == key@);
                assert forall|k: K::V| self.map().contains_key(k) implies k == key@
                    || before.map().contains_key(k) by {
                    let i = self.keys().index_of(k);
                    assert(self.keys()[i] == k);
                    if i < pos {
                        assert(before.keys()[i] == k);
                    } else if i > pos {
                        assert(before.keys()[i - 1] == k);
                    }
                }
                assert(self.map() =~= before.map().insert(key@, value));
                assert(self@ =~= before@.insert(key@, value@));
            }
            None
        }
    }

    /// Changes the value stored under `key`: `change` is handed what is
    /// stored, and what it hands back is stored in its place. Returns whether
    /// there was a value to change. A change made in this way cannot be lost
    /// for want of writing it back.
    pub fn update<F: FnOnce(&V) -> V>(&mut self, key: &K, change: F) -> (r: bool)
        requires
            old(self).wf(),
            old(self)@.contains_key(key@) ==> change.requires((&old(self).map()[key@],)),
        ensures
            final(self).wf(),
            r == old(self)@.contains_key(key@),
            !r ==> final(self).map() == old(self).map() && final(self)@ == old(self)@,
            r ==> exists|v: V|
                change.ensures((&old(self).map()[key@],), v) && final(self).map() == old(
                    self,
                ).map().insert(key@, v) && final(self)@ == old(self)@.insert(key@, v@),
    {
        proof {
            self.lemma_walk();
        }
        match self.position(key) {
            Some(i) => {
                let changed = change(&self.values[i]);
                let ghost before = *self;
                let ghost v = changed;
                self.values.push(changed);
                let _ = self.values.swap_remove(i);
                proof {
                    assert(self.keys() == before.keys());
                    assert(self.values() == before.values().update(i as int, v));
                    self.lemma_walk();
                    assert forall|k: K::V| self.map().contains_key(k) implies #[trigger] self.map()[k]
                        == before.map().insert(key@, v)[k] by {
                        let j = self.keys().index_of(k);
                        assert(0 <= j < self.keys().len() && self.keys()[j] == k);
                        assert(self.map()[self.keys()[j]] == self.values()[j]);
                        assert(before.map()[before.keys()[j]] == before.values()[j]);
                        assert(before.keys()[i as int] == key@);
                        if j == i {
                            assert(k == key@);
                        } else {
                            assert(k != key@);
                        }
                    }
                    assert(before.map().contains_key(before.keys()[i as int]));
                    assert(self.map() =~= before.map().insert(key@, v));
                    assert(self@ =~= before@.insert(key@, v@));
                }
                true
            },
            None => false,
        }
    }

    /// Takes the entry for `key` out of the table and returns its value.
    pub fn remove(&mut self, key: &K) -> (r: Option<V>)
        requires
            old(self).wf(),
        ensures
            final(self).wf(),
            final(self).map() == old(self).map().remove(key@),
            final(self)@ == old(self)@.remove(key@),
            r == if old(self)@.contains_key(key@) {
                Some(old(self).map()[key@])
            } else {
                None
            },
    {
        proof {
            self.lemma_walk();
        }
        let ghost before = *self;
        match self.position(key) {
            Some(pos) => {
                let _ = self.keys.remove(pos);
                let previous = self.values.remove(pos);
                proof {
                    assert(self.keys() =~= before.keys().remove(pos as int));
                    assert(self.values() == before.values().remove(pos as int));
                    self.lemma_walk();
                    assert forall|k: K::V| before.map().contains_key(k) && k != key@ implies self.map().contains_key(
                        k,
                    ) && self.map()[k] == before.map()[k] by {
                        let i = before.keys().index_of(k);
                        assert(before.keys()[i] == k);
                        if i < pos {
                            assert(self.keys()[i] == k);
                        } else {
                            assert(self.keys()[i - 1] == k);
                        }
                    }
                    assert forall|k: K::V| self.map().contains_key(k) implies k != key@
                        && before.map().contains_key(k) by {
                        let i = self.keys().index_of(k);
                        assert(self.keys()[i] == k);
                        if i < pos {
                            assert(before.keys()[i] == k);
                        } else {
                            assert(before.keys()[i + 1] == k);
                        }
                    }
                    assert(self.map() =~= before.map().remove(key@));
                    assert(self@ =~= before@.remove(key@));
                }
                Some(previous)
            },
            None => {
                assert(self.map() =~= before.map().remove(key@));
                assert(self@ =~= before@.remove(key@));
                None
            },
        }
    }

    /// The number of entries.
    pub fn len(&self) -> (r: usize)
        requires
            self.wf(),
        ensures
            r == self.keys().len(),
            r == self@.dom().len(),
    {
        proof {
            self.lemma_walk();
        }
        self.keys.len()
    }
}

} // verus!
