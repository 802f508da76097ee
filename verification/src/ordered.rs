//! A map with string keys that keeps its entries in the order of their keys.

use crate::text::chars_of;
use vstd::prelude::*;

verus! {

// ---------------------------------------------------------------------------
// The order of strings
// ---------------------------------------------------------------------------

/// Whether `a` comes before `b` in the lexicographic order of their characters.
pub open spec fn precedes(a: Seq<char>, b: Seq<char>) -> bool
    decreases a.len(),
{
    if b.len() == 0 {
        false
    } else if a.len() == 0 {
        true
    } else if a[0] != b[0] {
        a[0] < b[0]
    } else {
        precedes(a.drop_first(), b.drop_first())
    }
}

/// No string comes before itself.
pub proof fn precedes_is_irreflexive(a: Seq<char>)
    ensures
        !precedes(a, a),
    decreases a.len(),
{
    if a.len() > 0 {
        precedes_is_irreflexive(a.drop_first());
    }
}

/// What comes before something comes before all that follows it.
pub proof fn precedes_is_transitive(a: Seq<char>, b: Seq<char>, c: Seq<char>)
    requires
        precedes(a, b),
        precedes(b, c),
    ensures
        precedes(a, c),
    decreases a.len(),
{
    if a.len() > 0 && a[0] == b[0] && b[0] == c[0] {
        precedes_is_transitive(a.drop_first(), b.drop_first(), c.drop_first());
    }
}

/// Of two different strings one comes before the other.
pub proof fn precedes_is_total(a: Seq<char>, b: Seq<char>)
    ensures
        a == b || precedes(a, b) || precedes(b, a),
    decreases a.len(),
{
    if a.len() == 0 || b.len() == 0 {
        if a.len() == b.len() {
            assert(a =~= b);
        }
    } else if a[0] == b[0] {
        precedes_is_total(a.drop_first(), b.drop_first());
        assert(a =~= seq![a[0]] + a.drop_first());
        assert(b =~= seq![b[0]] + b.drop_first());
    }
}

/// Two strings do not each come before the other.
pub proof fn precedes_is_asymmetric(a: Seq<char>, b: Seq<char>)
    requires
        precedes(a, b),
    ensures
        !precedes(b, a),
{
    if precedes(b, a) {
        precedes_is_transitive(a, b, a);
        precedes_is_irreflexive(a);
    }
}

/// Where one string stands in respect of another.
#[derive(Debug, Clone, Copy, PartialEq, Eq, Structural)]
pub enum Place {
    Before,
    Same,
    After,
}

/// Where `a` stands in respect of `b`.
pub fn place(a: &str, b: &str) -> (r: Place)
    ensures
        match r {
            Place::Before => precedes(a@, b@),
            Place::Same => a@ == b@,
            Place::After => precedes(b@, a@),
        },
{
    let x: Vec<char> = chars_of(a);
    let y: Vec<char> = chars_of(b);
    let mut i: usize = 0;
    assert(x@.skip(0) =~= x@ && y@.skip(0) =~= y@);
    while i < x.len() && i < y.len()
        invariant
            x@ == a@,
            y@ == b@,
            i <= x@.len(),
            i <= y@.len(),
            x@.take(i as int) =~= y@.take(i as int),
            precedes(x@, y@) == precedes(x@.skip(i as int), y@.skip(i as int)),
            precedes(y@, x@) == precedes(y@.skip(i as int), x@.skip(i as int)),
        decreases x@.len() - i,
    {
        let c: char = x[i];
        let d: char = y[i];
        if c < d {
            return Place::Before;
        }
        if d < c {
            return Place::After;
        }
        assert(x@.skip(i as int).drop_first() =~= x@.skip(i + 1));
        assert(y@.skip(i as int).drop_first() =~= y@.skip(i + 1));
        assert(x@.take(i + 1) =~= x@.take(i as int).push(c));
        assert(y@.take(i + 1) =~= y@.take(i as int).push(d));
        i = i + 1;
    }
    if i < y.len() {
        Place::Before
    } else if i < x.len() {
        Place::After
    } else {
        assert(x@ =~= x@.take(i as int));
        assert(y@ =~= y@.take(i as int));
        Place::Same
    }
}

// ---------------------------------------------------------------------------
// Entries in order
// ---------------------------------------------------------------------------

/// Whether the keys of `entries` ascend, so that none occurs twice.
pub open spec fn ascending<T>(entries: Seq<(Seq<char>, T)>) -> bool {
    forall|i: int, j: int|
        0 <= i < j < entries.len() ==> precedes(#[trigger] entries[i].0, #[trigger] entries[j].0)
}

/// The position of the entry with the key `key`, or -1 where there is none.
pub open spec fn position<T>(entries: Seq<(Seq<char>, T)>, key: Seq<char>) -> int
    decreases entries.len(),
{
    if entries.len() == 0 {
        -1
    } else if entries.last().0 == key {
        entries.len() - 1
    } else {
        position(entries.drop_last(), key)
    }
}

/// The map from keys to values that `entries` spell out.
pub open spec fn map_of<T>(entries: Seq<(Seq<char>, T)>) -> Map<Seq<char>, T> {
    Map::new(
        |key: Seq<char>| position(entries, key) >= 0,
        |key: Seq<char>| entries[position(entries, key)].1,
    )
}

proof fn lemma_map_of<T>(entries: Seq<(Seq<char>, T)>, key: Seq<char>)
    ensures
        map_of(entries).dom().contains(key) == (position(entries, key) >= 0),
        position(entries, key) >= 0 ==> map_of(entries)[key] == entries[position(entries, key)].1,
{
}

proof fn lemma_position<T>(entries: Seq<(Seq<char>, T)>, key: Seq<char>)
    ensures
        -1 <= position(entries, key) < entries.len(),
        position(entries, key) >= 0 ==> entries[position(entries, key)].0 == key,
        position(entries, key) < 0 ==> forall|i: int|
            0 <= i < entries.len() ==> #[trigger] entries[i].0 != key,
    decreases entries.len(),
{
    if entries.len() > 0 && entries.last().0 != key {
        lemma_position(entries.drop_last(), key);
        assert forall|i: int| position(entries, key) < 0 && 0 <= i < entries.len() implies
            #[trigger] entries[i].0 != key by {
            if i < entries.len() - 1 {
                assert(entries.drop_last()[i] == entries[i]);
            }
        }
    }
}

proof fn lemma_position_is<T>(entries: Seq<(Seq<char>, T)>, i: int)
    requires
        ascending(entries),
        0 <= i < entries.len(),
    ensures
        position(entries, entries[i].0) == i,
{
    let key = entries[i].0;
    lemma_position(entries, key);
    precedes_is_irreflexive(key);
    let k: int = position(entries, key);
    assert(entries[i].0 == key);
    assert(k >= 0);
    assert(entries[k].0 == key);
}

/// Entries in ascending order are exactly what their map holds: each key has the
/// value that stands beside it.
pub proof fn entries_are_the_map<T>(entries: Seq<(Seq<char>, T)>)
    requires
        ascending(entries),
    ensures
        forall|i: int|
            0 <= i < entries.len() ==> {
                &&& map_of(entries).dom().contains((#[trigger] entries[i]).0)
                &&& map_of(entries)[entries[i].0] == entries[i].1
            },
        forall|key: Seq<char>| #[trigger]
            map_of(entries).dom().contains(key) ==> exists|i: int|
                0 <= i < entries.len() && (#[trigger] entries[i]).0 == key,
{
    assert forall|i: int| 0 <= i < entries.len() implies {
        &&& map_of(entries).dom().contains((#[trigger] entries[i]).0)
        &&& map_of(entries)[entries[i].0] == entries[i].1
    } by {
        lemma_position_is(entries, i);
        lemma_map_of(entries, entries[i].0);
    }
    assert forall|key: Seq<char>| #[trigger] map_of(entries).dom().contains(key) implies exists|
        i: int,
    | 0 <= i < entries.len() && (#[trigger] entries[i]).0 == key by {
        lemma_position(entries, key);
        lemma_map_of(entries, key);
        assert(entries[position(entries, key)].0 == key);
    }
}

/// A map and the ascending order of its keys leave one way to list its entries.
pub proof fn order_is_determined<T>(a: Seq<(Seq<char>, T)>, b: Seq<(Seq<char>, T)>)
    requires
        ascending(a),
        ascending(b),
        map_of(a) == map_of(b),
    ensures
        a == b,
    decreases a.len(),
{
    if a.len() == 0 {
        if b.len() > 0 {
            lemma_position_is(b, b.len() - 1);
            assert(map_of(b).dom().contains(b.last().0));
            assert(map_of(a).dom().contains(b.last().0));
        }
        assert(a =~= b);
    } else {
        lemma_position_is(a, a.len() - 1);
        assert(map_of(a).dom().contains(a.last().0));
        assert(map_of(b).dom().contains(a.last().0));
        lemma_position(b, a.last().0);
        let k: int = position(b, a.last().0);
        assert(b.len() > 0);
        lemma_position_is(b, b.len() - 1);
        assert(map_of(b).dom().contains(b.last().0));
        assert(map_of(a).dom().contains(b.last().0));
        lemma_position(a, b.last().0);
        let m: int = position(a, b.last().0);
        if k < b.len() - 1 {
            assert(precedes(b[k].0, b.last().0));
            if m < a.len() - 1 {
                assert(precedes(a[m].0, a.last().0));
                precedes_is_transitive(a.last().0, b.last().0, a.last().0);
            }
            precedes_is_irreflexive(a.last().0);
        }
        assert(a.last().0 == b.last().0);
        assert(map_of(a)[a.last().0] == a.last().1);
        assert(map_of(b)[a.last().0] == b.last().1);
        let a0 = a.drop_last();
        let b0 = b.drop_last();
        assert forall|key: Seq<char>| #[trigger]
            map_of(a0).dom().contains(key) == map_of(b0).dom().contains(key) && (map_of(
                a0,
            ).dom().contains(key) ==> map_of(a0)[key] == map_of(b0)[key]) by {
            lemma_drop_last(a, key);
            lemma_drop_last(b, key);
            lemma_map_of(a, key);
            lemma_map_of(b, key);
            lemma_map_of(a0, key);
            lemma_map_of(b0, key);
            if map_of(a0).dom().contains(key) {
                assert(map_of(a0)[key] == map_of(a)[key]);
                assert(map_of(b0)[key] == map_of(b)[key]);
            }
        }
        assert(map_of(a0) =~= map_of(b0));
        order_is_determined(a0, b0);
        assert(a =~= a0.push(a.last()));
        assert(b =~= b0.push(b.last()));
    }
}

proof fn lemma_drop_last<T>(entries: Seq<(Seq<char>, T)>, key: Seq<char>)
    requires
        ascending(entries),
        entries.len() > 0,
    ensures
        ascending(entries.drop_last()),
        position(entries.drop_last(), key) >= 0 <==> position(entries, key) >= 0 && key
            != entries.last().0,
        position(entries.drop_last(), key) >= 0 ==> entries.drop_last()[position(
            entries.drop_last(),
            key,
        )] == entries[position(entries, key)],
{
    lemma_position(entries.drop_last(), key);
    lemma_position(entries, key);
    precedes_is_irreflexive(key);
    let k: int = position(entries.drop_last(), key);
    if k >= 0 {
        assert(entries[k] == entries.drop_last()[k]);
        assert(precedes(entries[k].0, entries.last().0));
    }
}

proof fn lemma_slot<T>(entries: Seq<(Seq<char>, T)>, key: Seq<char>, i: int)
    requires
        ascending(entries),
        0 <= i <= entries.len(),
        forall|j: int| 0 <= j < i ==> precedes(#[trigger] entries[j].0, key),
        i < entries.len() ==> !precedes(entries[i].0, key),
    ensures
        i < entries.len() && entries[i].0 == key ==> position(entries, key) == i,
        !(i < entries.len() && entries[i].0 == key) ==> position(entries, key) == -1,
        !(i < entries.len() && entries[i].0 == key) ==> forall|j: int|
            i <= j < entries.len() ==> precedes(key, #[trigger] entries[j].0),
{
    lemma_position(entries, key);
    precedes_is_irreflexive(key);
    if i < entries.len() && entries[i].0 == key {
        lemma_position_is(entries, i);
    } else {
        if i < entries.len() {
            precedes_is_total(entries[i].0, key);
        }
        assert forall|j: int| i <= j < entries.len() implies precedes(
            key,
            #[trigger] entries[j].0,
        ) by {
            if j > i {
                precedes_is_transitive(key, entries[i].0, entries[j].0);
            }
        }
        let k: int = position(entries, key);
        if k >= 0 {
            assert(entries[k].0 == key);
            assert(false);
        }
    }
}

proof fn lemma_update<T>(entries: Seq<(Seq<char>, T)>, i: int, v: T)
    requires
        ascending(entries),
        0 <= i < entries.len(),
    ensures
        ascending(entries.update(i, (entries[i].0, v))),
        map_of(entries.update(i, (entries[i].0, v))) == map_of(entries).insert(entries[i].0, v),
{
    let after = entries.update(i, (entries[i].0, v));
    assert(forall|j: int| 0 <= j < after.len() ==> #[trigger] after[j].0 == entries[j].0);
    assert forall|a: int, b: int| 0 <= a < b < after.len() implies precedes(
        #[trigger] after[a].0,
        #[trigger] after[b].0,
    ) by {
        assert(precedes(entries[a].0, entries[b].0));
    }
    assert forall|key: Seq<char>| position(after, key) == #[trigger] position(entries, key) by {
        lemma_position(after, key);
        lemma_position(entries, key);
        let a: int = position(after, key);
        let b: int = position(entries, key);
        if b >= 0 {
            assert(after[b].0 == key);
            lemma_position_is(after, b);
        } else if a >= 0 {
            assert(entries[a].0 == key);
        }
    }
    lemma_position_is(entries, i);
    assert forall|key: Seq<char>| key != entries[i].0 && position(entries, key) >= 0 implies after[
    #[trigger] position(entries, key)] == entries[position(entries, key)] by {
        lemma_position(entries, key);
    }
    assert(map_of(after) =~= map_of(entries).insert(entries[i].0, v));
}

proof fn lemma_insert<T>(entries: Seq<(Seq<char>, T)>, i: int, k: Seq<char>, v: T)
    requires
        ascending(entries),
        0 <= i <= entries.len(),
        forall|j: int| 0 <= j < i ==> precedes(#[trigger] entries[j].0, k),
        forall|j: int| i <= j < entries.len() ==> precedes(k, #[trigger] entries[j].0),
    ensures
        ascending(entries.insert(i, (k, v))),
        map_of(entries.insert(i, (k, v))) == map_of(entries).insert(k, v),
{
    let after = entries.insert(i, (k, v));
    assert forall|a: int, b: int| 0 <= a < b < after.len() implies precedes(
        #[trigger] after[a].0,
        #[trigger] after[b].0,
    ) by {
        let x: int = if a > i { a - 1 } else { a };
        let y: int = if b > i { b - 1 } else { b };
        if a != i {
            assert(after[a] == entries[x]);
        }
        if b != i {
            assert(after[b] == entries[y]);
        }
        if a != i && b != i {
            assert(precedes(entries[x].0, entries[y].0));
        }
    }
    assert(after[i] == (k, v));
    lemma_position_is(after, i);
    assert forall|key: Seq<char>| key != k implies ((#[trigger] position(after, key) >= 0) == (
    position(entries, key) >= 0) && (position(entries, key) >= 0 ==> after[position(after, key)]
        == entries[position(entries, key)])) by {
        lemma_position(after, key);
        lemma_position(entries, key);
        let a: int = position(after, key);
        let b: int = position(entries, key);
        if b >= 0 {
            let x: int = if b >= i { b + 1 } else { b };
            assert(after[x] == entries[b]);
            lemma_position_is(after, x);
        } else if a >= 0 {
            let x: int = if a > i { a - 1 } else { a };
            assert(after[a] == entries[x]);
        }
    }
    assert(map_of(after) =~= map_of(entries).insert(k, v));
}

// ---------------------------------------------------------------------------
// The map
// ---------------------------------------------------------------------------

/// A map from strings to `V`, with its entries in the ascending order of the keys.
#[derive(Debug)]
pub struct OrderedMap<V: DeepView> {
    list: Vec<(String, V)>,
}

impl<V: DeepView> DeepView for OrderedMap<V> {
    type V = Map<Seq<char>, V::V>;

    open spec fn deep_view(&self) -> Map<Seq<char>, V::V> {
        map_of(self.entries())
    }
}

/// What the pairs of `list` hold.
pub open spec fn pair_views<V: DeepView>(list: Seq<(String, V)>) -> Seq<(Seq<char>, V::V)> {
    list.map_values(|e: (String, V)| (e.0@, e.1.deep_view()))
}

impl<V: DeepView> OrderedMap<V> {
    /// The entries, in order.
    pub closed spec fn entries(&self) -> Seq<(Seq<char>, V::V)> {
        pair_views(self.list@)
    }

    /// The values, in the order of the keys.
    pub closed spec fn values(&self) -> Seq<V> {
        self.list@.map_values(|e: (String, V)| e.1)
    }

    #[verifier::type_invariant]
    spec fn in_order(self) -> bool {
        ascending(self.entries())
    }

    /// The empty map.
    pub fn new() -> (r: Self)
        ensures
            r.entries().len() == 0,
            r.deep_view() == Map::<Seq<char>, V::V>::empty(),
    {
        let r = OrderedMap { list: Vec::new() };
        assert(r.deep_view() =~= Map::<Seq<char>, V::V>::empty());
        r
    }

    /// How many entries there are.
    pub fn len(&self) -> (r: usize)
        ensures
            r == self.entries().len(),
            r == self.values().len(),
            ascending(self.entries()),
    {
        proof {
            use_type_invariant(self);
        }
        self.list.len()
    }

    /// The key of the entry at `i`.
    pub fn key(&self, i: usize) -> (r: &String)
        requires
            i < self.entries().len(),
        ensures
            r@ == self.entries()[i as int].0,
    {
        &self.list[i].0
    }

    /// The value of the entry at `i`.
    pub fn value(&self, i: usize) -> (r: &V)
        requires
            i < self.entries().len(),
        ensures
            *r == self.values()[i as int],
            r.deep_view() == self.entries()[i as int].1,
    {
        &self.list[i].1
    }

    /// The first position whose key does not come before `key`.
    fn slot(list: &Vec<(String, V)>, key: &str) -> (r: usize)
        requires
            ascending(pair_views(list@)),
        ensures
            r <= list@.len(),
            forall|i: int| 0 <= i < r ==> precedes(#[trigger] pair_views(list@)[i].0, key@),
            r < list@.len() ==> !precedes(pair_views(list@)[r as int].0, key@),
    {
        let mut r: usize = 0;
        while r < list.len()
            invariant
                r <= list@.len(),
                forall|i: int| 0 <= i < r ==> precedes(#[trigger] pair_views(list@)[i].0, key@),
            decreases list@.len() - r,
        {
            assert(pair_views(list@)[r as int].0 == list@[r as int].0@);
            match place(list[r].0.as_str(), key) {
                Place::Before => {
                    r = r + 1;
                },
                Place::Same => {
                    proof {
                        precedes_is_irreflexive(key@);
                    }
                    return r;
                },
                Place::After => {
                    proof {
                        precedes_is_asymmetric(key@, list@[r as int].0@);
                    }
                    return r;
                },
            }
        }
        r
    }

    /// The value at `key`.
    pub fn get(&self, key: &str) -> (r: Option<&V>)
        ensures
            match r {
                Some(v) => self.deep_view().dom().contains(key@) && self.deep_view()[key@]
                    == v.deep_view(),
                None => !self.deep_view().dom().contains(key@),
            },
    {
        proof {
            use_type_invariant(self);
        }
        let i: usize = OrderedMap::slot(&self.list, key);
        let ghost entries = self.entries();
        proof {
            lemma_slot(entries, key@, i as int);
        }
        if i < self.list.len() {
            match place(self.list[i].0.as_str(), key) {
                Place::Same => {
                    return Some(&self.list[i].1);
                },
                Place::Before => {},
                Place::After => {
                    proof {
                        precedes_is_irreflexive(key@);
                    }
                },
            }
        }
        None
    }

    /// Puts `value` at `key`, in place of what was there.
    pub fn insert(&mut self, key: String, value: V)
        ensures
            final(self).deep_view() == old(self).deep_view().insert(key@, value.deep_view()),
            ascending(final(self).entries()),
    {
        proof {
            use_type_invariant(&*self);
        }
        let ghost before = self.entries();
        let mut list: Vec<(String, V)> = Vec::new();
        std::mem::swap(&mut list, &mut self.list);
        let i: usize = OrderedMap::slot(&list, key.as_str());
        proof {
            lemma_slot(before, key@, i as int);
        }
        let mut found: bool = false;
        if i < list.len() {
            match place(list[i].0.as_str(), key.as_str()) {
                Place::Same => {
                    found = true;
                },
                Place::Before => {},
                Place::After => {
                    proof {
                        precedes_is_irreflexive(key@);
                    }
                },
            }
        }
        let ghost k = key@;
        let ghost v = value.deep_view();
        if found {
            list.set(i, (key, value));
            proof {
                let after = pair_views(list@);
                assert(after =~= before.update(i as int, (k, v)));
                lemma_update(before, i as int, v);
            }
        } else {
            list.insert(i, (key, value));
            proof {
                let after = pair_views(list@);
                assert(after =~= before.insert(i as int, (k, v)));
                lemma_insert(before, i as int, k, v);
            }
        }
        self.list = list;
    }
}

impl<V: DeepView + Clone> Clone for OrderedMap<V> {
    /// A map with the same keys, and with a clone of each value.
    fn clone(&self) -> (r: Self)
        ensures
            r.entries().len() == self.entries().len(),
            forall|i: int|
                0 <= i < r.entries().len() ==> #[trigger] r.entries()[i].0 == self.entries()[i].0,
            r.values().len() == self.values().len(),
            forall|i: int|
                0 <= i < r.values().len() ==> cloned::<V>(
                    self.values()[i],
                    #[trigger] r.values()[i],
                ),
    {
        proof {
            use_type_invariant(self);
        }
        let mut list: Vec<(String, V)> = Vec::new();
        let mut i: usize = 0;
        while i < self.list.len()
            invariant
                i == list@.len(),
                i <= self.list@.len(),
                forall|j: int| 0 <= j < i ==> #[trigger] list@[j].0@ == self.list@[j].0@,
                forall|j: int|
                    0 <= j < i ==> cloned::<V>(self.list@[j].1, #[trigger] list@[j].1),
            decreases self.list@.len() - i,
        {
            list.push((self.list[i].0.clone(), self.list[i].1.clone()));
            i = i + 1;
        }
        proof {
            let entries = pair_views(list@);
            assert forall|a: int, b: int| 0 <= a < b < entries.len() implies precedes(
                #[trigger] entries[a].0,
                #[trigger] entries[b].0,
            ) by {
                assert(entries[a].0 == self.entries()[a].0);
                assert(entries[b].0 == self.entries()[b].0);
            }
        }
        OrderedMap { list }
    }
}

/// One key comes before another where, at the first place at which they differ, it
/// has the smaller character, or ends there.
pub proof fn order_is_by_the_first_difference(a: Seq<char>, b: Seq<char>)
    ensures
        precedes(a, b) <==> exists|k: int| #[trigger] first_difference(a, b, k),
    decreases a.len(),
{
    if a.len() == 0 {
        if b.len() > 0 {
            assert(a.take(0) =~= b.take(0));
            assert(first_difference(a, b, 0));
        }
    } else if b.len() > 0 {
        if a[0] != b[0] {
            assert(a.take(0) =~= b.take(0));
            if precedes(a, b) {
                assert(first_difference(a, b, 0));
            }
            assert forall|k: int| #[trigger] first_difference(a, b, k) implies k == 0 by {
                if k > 0 {
                    assert(a.take(k)[0] == b.take(k)[0]);
                }
            }
        } else {
            let x = a.drop_first();
            let y = b.drop_first();
            order_is_by_the_first_difference(x, y);
            if precedes(x, y) {
                let k: int = choose|k: int| #[trigger] first_difference(x, y, k);
                assert(a.take(k + 1) =~= seq![a[0]] + x.take(k));
                assert(b.take(k + 1) =~= seq![b[0]] + y.take(k));
                assert(first_difference(a, b, k + 1));
            }
            if exists|k: int| #[trigger] first_difference(a, b, k) {
                let k: int = choose|k: int| #[trigger] first_difference(a, b, k);
                assert(x.take(k - 1) =~= a.take(k).drop_first());
                assert(y.take(k - 1) =~= b.take(k).drop_first());
                assert(first_difference(x, y, k - 1));
            }
        }
    }
}

/// Whether `a` and `b` agree on their first `k` characters, and `a` then ends, or
/// goes on with a smaller character than `b`.
pub open spec fn first_difference(a: Seq<char>, b: Seq<char>, k: int) -> bool {
    &&& 0 <= k <= a.len()
    &&& k < b.len()
    &&& a.take(k) == b.take(k)
    &&& k == a.len() || a[k] < b[k]
}

/// Entries ascend where every key comes before all the keys after it.
pub proof fn entries_ascend_by_their_keys<T>(entries: Seq<(Seq<char>, T)>)
    ensures
        ascending(entries) <==> forall|i: int, j: int|
            0 <= i < j < entries.len() ==> precedes(
                (#[trigger] entries[i]).0,
                (#[trigger] entries[j]).0,
            ),
{
}

} // verus!
