//! A map from text to values that is walked in ascending order of its keys.
use vstd::prelude::*;
use vstd::string::*;

use crate::text::{code_point, same_text, to_chars};

verus! {

/// The order of texts: by the first character in which they differ, a prefix first.
pub open spec fn text_less(a: Seq<char>, b: Seq<char>) -> bool
    decreases a.len(),
{
    if b.len() == 0 {
        false
    } else if a.len() == 0 {
        true
    } else if a.first() == b.first() {
        text_less(a.drop_first(), b.drop_first())
    } else {
        (a.first() as int) < (b.first() as int)
    }
}

/// The order of texts is total and strict.
pub proof fn text_less_is_total(a: Seq<char>, b: Seq<char>)
    ensures
        !text_less(a, a),
        !(text_less(a, b) && text_less(b, a)),
        a != b ==> text_less(a, b) || text_less(b, a),
    decreases a.len(),
{
    if a.len() > 0 {
        if b.len() > 0 {
            text_less_is_total(a.drop_first(), b.drop_first());
            assert(a.first() != b.first() ==> a.first() as int != b.first() as int);
            if a.first() == b.first() && a.drop_first() == b.drop_first() {
                assert(a == seq![a.first()] + a.drop_first());
                assert(b == seq![b.first()] + b.drop_first());
            }
        } else {
            text_less_is_total(a.drop_first(), b);
        }
    } else if b.len() == 0 {
        assert(a == b);
    }
}

/// The order of texts is transitive.
pub proof fn text_less_is_transitive(a: Seq<char>, b: Seq<char>, c: Seq<char>)
    requires
        text_less(a, b),
        text_less(b, c),
    ensures
        text_less(a, c),
    decreases a.len(),
{
    if a.len() > 0 && a.first() == b.first() && b.first() == c.first() {
        text_less_is_transitive(a.drop_first(), b.drop_first(), c.drop_first());
    }
}

/// Tells whether `a` comes before `b`.
pub fn comes_before(a: &str, b: &str) -> (r: bool)
    ensures
        r == text_less(a@, b@),
{
    let x = to_chars(a);
    let y = to_chars(b);
    let mut i: usize = 0;
    assert(a@.skip(0) == a@);
    assert(b@.skip(0) == b@);
    while i < x.len() && i < y.len() && x[i] == y[i]
        invariant
            x@ == a@,
            y@ == b@,
            i <= x.len(),
            i <= y.len(),
            text_less(a@, b@) == text_less(a@.skip(i as int), b@.skip(i as int)),
        decreases x.len() - i,
    {
        assert(a@.skip(i as int).drop_first() == a@.skip(i + 1));
        assert(b@.skip(i as int).drop_first() == b@.skip(i + 1));
        i = i + 1;
    }
    if i == y.len() {
        false
    } else if i == x.len() {
        true
    } else {
        code_point(x[i]) < code_point(y[i])
    }
}

/// Tells whether texts stand in strictly ascending order.
pub open spec fn ascending(keys: Seq<Seq<char>>) -> bool {
    forall|i: int, j: int| 0 <= i < j < keys.len() ==> text_less(#[trigger] keys[i], #[trigger] keys[j])
}

/// There is only one way to put a set of texts in ascending order.
pub proof fn ascending_order_is_unique(a: Seq<Seq<char>>, b: Seq<Seq<char>>)
    requires
        ascending(a),
        ascending(b),
        forall|x: Seq<char>|
            #![trigger a.contains(x)]
            #![trigger b.contains(x)]
            a.contains(x) <==> b.contains(x),
    ensures
        a == b,
    decreases a.len(),
{
    if a.len() == 0 {
        if b.len() > 0 {
            assert(b.contains(b[0]));
        }
        assert(a == b);
    } else if b.len() == 0 {
        assert(a.contains(a[0]));
    } else {
        assert(a.contains(a.last()) && b.contains(b.last()));
        let i = choose|i: int| 0 <= i < b.len() && b[i] == a.last();
        let j = choose|j: int| 0 <= j < a.len() && a[j] == b.last();
        text_less_is_total(a.last(), b.last());
        if a.last() != b.last() {
            assert(text_less(b[i], b.last()));
            assert(text_less(a[j], a.last()));
        }
        let x = a.drop_last();
        let y = b.drop_last();
        assert forall|t: Seq<char>|
            #![trigger x.contains(t)]
            #![trigger y.contains(t)]
            x.contains(t) <==> y.contains(t) by {
            if x.contains(t) {
                let k = choose|k: int| 0 <= k < x.len() && x[k] == t;
                assert(text_less(a[k], a.last()));
                assert(a.contains(a[k]));
                let m = choose|m: int| 0 <= m < b.len() && b[m] == t;
                text_less_is_total(t, t);
                assert(y[m] == t);
            }
            if y.contains(t) {
                let k = choose|k: int| 0 <= k < y.len() && y[k] == t;
                assert(text_less(b[k], b.last()));
                assert(b.contains(b[k]));
                let m = choose|m: int| 0 <= m < a.len() && a[m] == t;
                text_less_is_total(t, t);
                assert(x[m] == t);
            }
        }
        ascending_order_is_unique(x, y);
        assert(a == x.push(a.last()));
        assert(b == y.push(b.last()));
    }
}

/// The keys of a list of entries.
pub open spec fn entry_keys<T>(entries: Seq<(Seq<char>, T)>) -> Seq<Seq<char>> {
    entries.map_values(|e: (Seq<char>, T)| e.0)
}

/// The map that a list of entries with distinct keys stands for.
pub open spec fn map_of<T>(entries: Seq<(Seq<char>, T)>) -> Map<Seq<char>, T> {
    Map::new(
        |k: Seq<char>| entry_keys(entries).contains(k),
        |k: Seq<char>| entries[entry_keys(entries).index_of(k)].1,
    )
}

/// Entries in ascending order of their keys are found under those keys, and nothing else is.
pub proof fn lemma_map_of<T>(entries: Seq<(Seq<char>, T)>)
    requires
        ascending(entry_keys(entries)),
    ensures
        forall|i: int|
            0 <= i < entries.len() ==> map_of(entries).contains_key((#[trigger] entries[i]).0)
                && map_of(entries)[entries[i].0] == entries[i].1,
        forall|k: Seq<char>| #[trigger]
            map_of(entries).contains_key(k) ==> exists|i: int|
                0 <= i < entries.len() && (#[trigger] entries[i]).0 == k,
{
    let keys = entry_keys(entries);
    assert forall|i: int| 0 <= i < entries.len() implies map_of(entries).contains_key(
        (#[trigger] entries[i]).0,
    ) && map_of(entries)[entries[i].0] == entries[i].1 by {
        assert(keys[i] == entries[i].0);
        assert(keys.contains(entries[i].0));
        let j = keys.index_of(entries[i].0);
        text_less_is_total(keys[i], keys[j]);
    }
    assert forall|k: Seq<char>| #[trigger] map_of(entries).contains_key(k) implies exists|i: int|
        0 <= i < entries.len() && (#[trigger] entries[i]).0 == k by {
        let i = choose|i: int| 0 <= i < keys.len() && keys[i] == k;
        assert(entries[i].0 == k);
    }
}

/// A map from text to values, kept as entries in ascending order of their keys.
#[derive(Debug, PartialEq)]
pub struct StringMap<V: View> {
    entries: Vec<(String, V)>,
}

/// The views of stored entries.
pub open spec fn entry_views<V: View>(entries: Seq<(String, V)>) -> Seq<(Seq<char>, V::V)> {
    entries.map_values(|e: (String, V)| (e.0@, e.1@))
}

impl<V: View> View for StringMap<V> {
    type V = Map<Seq<char>, V::V>;

    closed spec fn view(&self) -> Map<Seq<char>, V::V> {
        map_of(self.in_order())
    }
}

impl<V: View> StringMap<V> {
    /// The entries in the order in which they are walked.
    pub closed spec fn in_order(&self) -> Seq<(Seq<char>, V::V)> {
        entry_views(self.entries@)
    }

    #[verifier::type_invariant]
    spec fn is_ordered(&self) -> bool {
        ascending(entry_keys(self.in_order()))
    }

    /// An empty map.
    pub fn new() -> (r: Self)
        ensures
            r@ == Map::<Seq<char>, V::V>::empty(),
            r.in_order() == Seq::<(Seq<char>, V::V)>::empty(),
    {
        let r = StringMap { entries: Vec::new() };
        assert(r.in_order() == Seq::<(Seq<char>, V::V)>::empty());
        assert(r@ == Map::<Seq<char>, V::V>::empty());
        r
    }

    /// The number of entries.
    pub fn len(&self) -> (r: usize)
        ensures
            r == self.in_order().len(),
            ascending(entry_keys(self.in_order())),
            self@ == map_of(self.in_order()),
    {
        proof {
            use_type_invariant(self);
        }
        self.entries.len()
    }

    /// The entry at position `i` of the walk.
    pub fn entry(&self, i: usize) -> (r: (&String, &V))
        requires
            i < self.in_order().len(),
        ensures
            (r.0@, r.1@) == self.in_order()[i as int],
    {
        let e = &self.entries[i];
        (&e.0, &e.1)
    }

    /// The position of `key`, or where it would be put.
    fn find(&self, key: &str) -> (r: Result<usize, usize>)
        ensures
            match r {
                Ok(i) => i < self.entries@.len() && self.entries@[i as int].0@ == key@,
                Err(i) => {
                    &&& i <= self.entries@.len()
                    &&& forall|k: int|
                        0 <= k < i ==> text_less((#[trigger] self.entries@[k]).0@, key@)
                    &&& forall|k: int|
                        i <= k < self.entries@.len() ==> text_less(
                            key@,
                            (#[trigger] self.entries@[k]).0@,
                        )
                },
            },
    {
        proof {
            use_type_invariant(self);
        }
        let ghost keys = entry_keys(self.in_order());
        let n: usize = self.entries.len();
        let mut i: usize = 0;
        while i < n && comes_before(self.entries[i].0.as_str(), key)
            invariant
                n == self.entries.len(),
                i <= n,
                forall|k: int| 0 <= k < i ==> text_less((#[trigger] self.entries@[k]).0@, key@),
            ensures
                i <= n,
                i < n ==> !text_less(self.entries@[i as int].0@, key@),
                forall|k: int| 0 <= k < i ==> text_less((#[trigger] self.entries@[k]).0@, key@),
            decreases n - i,
        {
            i = i + 1;
        }
        if i < n && same_text(self.entries[i].0.as_str(), key) {
            return Ok(i);
        }
        proof {
            assert forall|k: int| i <= k < self.entries@.len() implies text_less(
                key@,
                (#[trigger] self.entries@[k]).0@,
            ) by {
                let here = self.entries@[i as int].0@;
                text_less_is_total(here, key@);
                assert(keys[i as int] == here);
                assert(keys[k] == self.entries@[k].0@);
                if i < k {
                    text_less_is_transitive(key@, here, keys[k]);
                }
            }
        }
        Err(i)
    }

    /// The value under `key`.
    pub fn get(&self, key: &str) -> (r: Option<&V>)
        ensures
            match r {
                Some(v) => self@.contains_key(key@) && v@ == self@[key@],
                None => !self@.contains_key(key@),
            },
    {
        proof {
            use_type_invariant(self);
            lemma_map_of(self.in_order());
        }
        match self.find(key) {
            Ok(i) => {
                assert(self.in_order()[i as int] == (key@, self.entries@[i as int].1@));
                Some(&self.entries[i].1)
            },
            Err(i) => {
                proof {
                    self.lemma_absent(key@, i as int);
                }
                None
            },
        }
    }

    proof fn lemma_absent(&self, key: Seq<char>, i: int)
        requires
            ascending(entry_keys(self.in_order())),
            0 <= i <= self.entries@.len(),
            forall|k: int| 0 <= k < i ==> text_less((#[trigger] self.entries@[k]).0@, key),
            forall|k: int|
                i <= k < self.entries@.len() ==> text_less(key, (#[trigger] self.entries@[k]).0@),
        ensures
            !self@.contains_key(key),
    {
        lemma_map_of(self.in_order());
        if self@.contains_key(key) {
            let k = choose|k: int|
                0 <= k < self.in_order().len() && (#[trigger] self.in_order()[k]).0 == key;
            assert(self.in_order()[k].0 == self.entries@[k].0@);
            text_less_is_total(key, key);
        }
    }

    /// Tells whether there is a value under `key`.
    pub fn contains_key(&self, key: &str) -> (r: bool)
        ensures
            r == self@.contains_key(key@),
    {
        self.get(key).is_some()
    }

    /// Tells whether the map holds nothing.
    pub fn is_empty(&self) -> (r: bool)
        ensures
            r == (self@ == Map::<Seq<char>, V::V>::empty()),
    {
        proof {
            use_type_invariant(self);
            lemma_map_of(self.in_order());
        }
        let n: usize = self.entries.len();
        proof {
            if n == 0 {
                assert(self@ == Map::<Seq<char>, V::V>::empty());
            } else {
                assert(self@.contains_key(self.in_order()[0].0));
            }
        }
        n == 0
    }

    /// Puts `value` under `key`, in place of what was there.
    pub fn insert(&mut self, key: String, value: V)
        ensures
            final(self)@ == old(self)@.insert(key@, value@),
    {
        let at = self.find(key.as_str());
        let mut entries: Vec<(String, V)> = Vec::new();
        proof {
            use_type_invariant(&*self);
        }
        let ghost before = self.in_order();
        core::mem::swap(&mut self.entries, &mut entries);
        match at {
            Ok(i) => {
                entries.remove(i);
                entries.insert(i, (key, value));
                proof {
                    let after = entry_views(entries@);
                    assert(after == before.update(i as int, (key@, value@)));
                    lemma_replaced(before, i as int, value@);
                }
            },
            Err(i) => {
                entries.insert(i, (key, value));
                proof {
                    let after = entry_views(entries@);
                    assert(after == before.insert(i as int, (key@, value@)));
                    assert forall|k: int| 0 <= k < i implies text_less(
                        (#[trigger] before[k]).0,
                        key@,
                    ) by {
                        assert(before[k].0 == old(self).entries@[k].0@);
                    }
                    assert forall|k: int| i <= k < before.len() implies text_less(
                        key@,
                        (#[trigger] before[k]).0,
                    ) by {
                        assert(before[k].0 == old(self).entries@[k].0@);
                    }
                    lemma_inserted(before, i as int, key@, value@);
                }
            },
        }
        self.entries = entries;
    }

    /// Puts `value` under `key` unless there is a value already.
    pub fn or_insert(&mut self, key: String, value: V)
        ensures
            final(self)@ == (if old(self)@.contains_key(key@) {
                old(self)@
            } else {
                old(self)@.insert(key@, value@)
            }),
    {
        if !self.contains_key(key.as_str()) {
            self.insert(key, value);
        }
    }

    /// Takes the value under `key` out of the map.
    pub fn remove(&mut self, key: &str) -> (r: Option<V>)
        ensures
            final(self)@ == old(self)@.remove(key@),
            match r {
                Some(v) => old(self)@.contains_key(key@) && v@ == old(self)@[key@],
                None => !old(self)@.contains_key(key@),
            },
    {
        proof {
            use_type_invariant(&*self);
            lemma_map_of(self.in_order());
        }
        let ghost before = self.in_order();
        match self.find(key) {
            Ok(i) => {
                let mut entries: Vec<(String, V)> = Vec::new();
                core::mem::swap(&mut self.entries, &mut entries);
                let entry = entries.remove(i);
                proof {
                    assert(before[i as int] == (key@, entry.1@));
                    assert(entry_views(entries@) == before.remove(i as int));
                    lemma_removed(before, i as int);
                }
                self.entries = entries;
                Some(entry.1)
            },
            Err(i) => {
                proof {
                    self.lemma_absent(key@, i as int);
                    assert(self@ == self@.remove(key@));
                }
                None
            },
        }
    }

    /// The keys in ascending order.
    pub fn keys(&self) -> (r: Vec<String>)
        ensures
            strings(r@) == entry_keys(self.in_order()),
            ascending(strings(r@)),
            forall|k: Seq<char>| #[trigger]
                strings(r@).contains(k) <==> self@.contains_key(k),
    {
        proof {
            use_type_invariant(self);
            lemma_map_of(self.in_order());
        }
        let n: usize = self.entries.len();
        let mut out: Vec<String> = Vec::new();
        let mut i: usize = 0;
        while i < n
            invariant
                n == self.entries.len(),
                i <= n,
                out.len() == i,
                forall|k: int| 0 <= k < i ==> (#[trigger] out@[k])@ == self.entries@[k].0@,
            decreases n - i,
        {
            out.push(self.entries[i].0.clone());
            i = i + 1;
        }
        assert(strings(out@) == entry_keys(self.in_order()));
        out
    }
}

/// Tells whether the clones of values hold what the values hold.
pub open spec fn clones_hold_the_same<V: View + Clone>() -> bool {
    forall|a: V, b: V| #[trigger] cloned(a, b) ==> a@ == b@
}

impl<V: View + Clone> Clone for StringMap<V> {
    fn clone(&self) -> (r: Self)
        ensures
            entry_keys(r.in_order()) == entry_keys(self.in_order()),
            clones_hold_the_same::<V>() ==> r@ == self@ && r.in_order() == self.in_order(),
    {
        proof {
            use_type_invariant(self);
        }
        let n: usize = self.entries.len();
        let mut entries: Vec<(String, V)> = Vec::new();
        let mut i: usize = 0;
        while i < n
            invariant
                n == self.entries.len(),
                i <= n,
                entries.len() == i,
                forall|k: int|
                    0 <= k < i ==> (#[trigger] entries@[k]).0@ == self.entries@[k].0@ && cloned(
                        self.entries@[k].1,
                        entries@[k].1,
                    ),
            decreases n - i,
        {
            let entry = &self.entries[i];
            entries.push((entry.0.clone(), entry.1.clone()));
            i = i + 1;
        }
        proof {
            let views = entry_views(entries@);
            assert(entry_keys(views) == entry_keys(self.in_order()));
            if clones_hold_the_same::<V>() {
                assert forall|k: int| 0 <= k < views.len() implies views[k] == self.in_order()[k] by {
                    assert(cloned(self.entries@[k].1, entries@[k].1));
                }
                assert(views == self.in_order());
            }
        }
        StringMap { entries }
    }
}

/// The views of a list of owned texts.
pub open spec fn strings(list: Seq<String>) -> Seq<Seq<char>> {
    list.map_values(|s: String| s@)
}

proof fn lemma_replaced<T>(entries: Seq<(Seq<char>, T)>, i: int, value: T)
    requires
        ascending(entry_keys(entries)),
        0 <= i < entries.len(),
    ensures
        ascending(entry_keys(entries.update(i, (entries[i].0, value)))),
        map_of(entries.update(i, (entries[i].0, value))) == map_of(entries).insert(
            entries[i].0,
            value,
        ),
{
    let key = entries[i].0;
    let after = entries.update(i, (key, value));
    assert(entry_keys(after) == entry_keys(entries));
    lemma_map_of(entries);
    lemma_map_of(after);
    let m = map_of(entries).insert(key, value);
    assert forall|k: Seq<char>| m.contains_key(k) implies m[k] == #[trigger] map_of(after)[k] by {
        if k != key {
            let j = choose|j: int| 0 <= j < entries.len() && (#[trigger] entries[j]).0 == k;
            assert(after[j] == entries[j]);
        } else {
            assert(after[i] == (key, value));
        }
    }
    assert(entry_keys(entries)[i] == key);
    assert(entry_keys(entries).contains(key));
    assert(map_of(after) == m);
}

proof fn lemma_inserted<T>(entries: Seq<(Seq<char>, T)>, i: int, key: Seq<char>, value: T)
    requires
        ascending(entry_keys(entries)),
        0 <= i <= entries.len(),
        forall|k: int| 0 <= k < i ==> text_less((#[trigger] entries[k]).0, key),
        forall|k: int| i <= k < entries.len() ==> text_less(key, (#[trigger] entries[k]).0),
    ensures
        ascending(entry_keys(entries.insert(i, (key, value)))),
        map_of(entries.insert(i, (key, value))) == map_of(entries).insert(key, value),
{
    let after = entries.insert(i, (key, value));
    let keys = entry_keys(entries);
    let new_keys = entry_keys(after);
    assert(new_keys == keys.insert(i, key));
    assert forall|a: int, b: int| 0 <= a < b < new_keys.len() implies text_less(
        #[trigger] new_keys[a],
        #[trigger] new_keys[b],
    ) by {
        if a < i {
            assert(new_keys[a] == entries[a].0 && keys[a] == entries[a].0);
        } else if a > i {
            assert(new_keys[a] == entries[a - 1].0 && keys[a - 1] == entries[a - 1].0);
        }
        if b < i {
            assert(new_keys[b] == entries[b].0 && keys[b] == entries[b].0);
        } else if b > i {
            assert(new_keys[b] == entries[b - 1].0 && keys[b - 1] == entries[b - 1].0);
        }
    }
    lemma_map_of(entries);
    lemma_map_of(after);
    let m = map_of(entries).insert(key, value);
    assert(after[i] == (key, value));
    assert forall|k: Seq<char>| #[trigger] m.contains_key(k) implies map_of(after).contains_key(k)
        && m[k] == map_of(after)[k] by {
        if k != key {
            let j = choose|j: int| 0 <= j < entries.len() && (#[trigger] entries[j]).0 == k;
            if j < i {
                assert(after[j] == entries[j]);
            } else {
                assert(after[j + 1] == entries[j]);
            }
        }
    }
    assert forall|k: Seq<char>| #[trigger] map_of(after).contains_key(k) implies m.contains_key(
        k,
    ) by {
        let j = choose|j: int| 0 <= j < after.len() && (#[trigger] after[j]).0 == k;
        if j < i {
            assert(after[j] == entries[j]);
        } else if j > i {
            assert(after[j] == entries[j - 1]);
        }
    }
    assert(map_of(after) == m);
}

proof fn lemma_removed<T>(entries: Seq<(Seq<char>, T)>, i: int)
    requires
        ascending(entry_keys(entries)),
        0 <= i < entries.len(),
    ensures
        ascending(entry_keys(entries.remove(i))),
        map_of(entries.remove(i)) == map_of(entries).remove(entries[i].0),
{
    let key = entries[i].0;
    let after = entries.remove(i);
    let keys = entry_keys(entries);
    let new_keys = entry_keys(after);
    assert(new_keys == keys.remove(i));
    assert forall|a: int, b: int| 0 <= a < b < new_keys.len() implies text_less(
        #[trigger] new_keys[a],
        #[trigger] new_keys[b],
    ) by {
        let x = if a < i { a } else { a + 1 };
        let y = if b < i { b } else { b + 1 };
        assert(new_keys[a] == keys[x] && new_keys[b] == keys[y]);
    }
    lemma_map_of(entries);
    lemma_map_of(after);
    let m = map_of(entries).remove(key);
    assert forall|k: Seq<char>| #[trigger] m.contains_key(k) implies map_of(after).contains_key(k)
        && m[k] == map_of(after)[k] by {
        let j = choose|j: int| 0 <= j < entries.len() && (#[trigger] entries[j]).0 == k;
        if j < i {
            assert(after[j] == entries[j]);
        } else {
            assert(after[j - 1] == entries[j]);
        }
    }
    assert forall|k: Seq<char>| #[trigger] map_of(after).contains_key(k) implies m.contains_key(
        k,
    ) by {
        let j = choose|j: int| 0 <= j < after.len() && (#[trigger] after[j]).0 == k;
        let x = if j < i { j } else { j + 1 };
        assert(after[j] == entries[x]);
        assert(keys[x] == k && keys[i] == key);
        text_less_is_total(keys[x], keys[i]);
    }
    assert(map_of(after) == m);
}

/// Texts are ordered by the first place at which they differ, however far on it is; and where one is
/// the beginning of the other, it comes first.
pub proof fn first_difference_orders_texts(
    common: Seq<char>,
    x: char,
    a: Seq<char>,
    y: char,
    b: Seq<char>,
)
    ensures
        x != y ==> (text_less(common + seq![x] + a, common + seq![y] + b) <==> (x as int) < (
        y as int)),
        text_less(common, common + seq![x] + a),
        !text_less(common + seq![x] + a, common),
    decreases common.len(),
{
    let p = common + seq![x] + a;
    let q = common + seq![y] + b;
    if common.len() == 0 {
        assert(p.first() == x && q.first() == y);
    } else {
        let rest = common.drop_first();
        assert(p.first() == common.first() && q.first() == common.first());
        assert(p.drop_first() == rest + seq![x] + a);
        assert(q.drop_first() == rest + seq![y] + b);
        first_difference_orders_texts(rest, x, a, y, b);
    }
}

/// The views of lists are those of their members, one for one.
pub proof fn lists_of_texts_are_seen_whole<V: View>(
    list: Seq<String>,
    entries: Seq<(String, V)>,
)
    ensures
        strings(list).len() == list.len(),
        forall|i: int| 0 <= i < list.len() ==> #[trigger] strings(list)[i] == list[i]@,
        entry_views(entries).len() == entries.len(),
        forall|i: int|
            0 <= i < entries.len() ==> {
                &&& (#[trigger] entry_views(entries)[i]).0 == entries[i].0@
                &&& entry_views(entries)[i].1 == entries[i].1@
            },
        entry_keys(entry_views(entries)).len() == entries.len(),
        forall|i: int|
            0 <= i < entries.len() ==> #[trigger] entry_keys(entry_views(entries))[i]
                == entries[i].0@,
{
}

} // verus!
