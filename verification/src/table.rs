//! Tables with keys that have an order, kept in key order.

use vstd::prelude::*;

verus! {

/// A key with a strict order.
pub trait Ordered: Sized {
    /// Whether a key comes before another.
    spec fn before(self, other: Self) -> bool;

    /// Decides [`Ordered::before`].
    fn is_before(&self, other: &Self) -> (r: bool)
        ensures
            r == (*self).before(*other),
    ;

    /// Whether two keys are the same.
    fn is_same(&self, other: &Self) -> (r: bool)
        ensures
            r == (*self == *other),
    ;

    /// The order is strict.
    proof fn lemma_strict(a: Self)
        ensures
            !a.before(a),
    ;

    /// The order is transitive.
    proof fn lemma_chained(a: Self, b: Self, c: Self)
        requires
            a.before(b),
            b.before(c),
        ensures
            a.before(c),
    ;

    /// Of two different keys one comes before the other.
    proof fn lemma_total(a: Self, b: Self)
        ensures
            a == b || a.before(b) || b.before(a),
    ;
}

/// Whether the keys of a table are in strictly increasing order: no key occurs twice.
pub open spec fn in_order<K: Ordered, V>(s: Seq<(K, V)>) -> bool {
    forall|i: int, j: int| 0 <= i < j < s.len() ==> (#[trigger] s[i]).0.before((#[trigger] s[j]).0)
}

/// The value under a key: that of the first entry with it.
pub open spec fn get_at<K, V>(s: Seq<(K, V)>, key: K) -> Option<V>
    decreases s.len(),
{
    if s.len() == 0 {
        None
    } else if s[0].0 == key {
        Some(s[0].1)
    } else {
        get_at(s.drop_first(), key)
    }
}

/// The table with a key bound: its entry is replaced, or a new one goes in front of
/// the first greater key.
pub open spec fn put_at<K: Ordered, V>(s: Seq<(K, V)>, key: K, value: V) -> Seq<(K, V)>
    decreases s.len(),
{
    if s.len() == 0 {
        seq![(key, value)]
    } else if s[0].0 == key {
        seq![(key, value)] + s.drop_first()
    } else if key.before(s[0].0) {
        seq![(key, value)] + s
    } else {
        seq![s[0]] + put_at(s.drop_first(), key, value)
    }
}

/// The table without the entries under a key.
pub open spec fn drop_at<K, V>(s: Seq<(K, V)>, key: K) -> Seq<(K, V)>
    decreases s.len(),
{
    if s.len() == 0 {
        Seq::empty()
    } else if s[0].0 == key {
        drop_at(s.drop_first(), key)
    } else {
        seq![s[0]] + drop_at(s.drop_first(), key)
    }
}

/// The index of the first entry with a key, or the length without one.
pub open spec fn place_at<K, V>(s: Seq<(K, V)>, key: K) -> nat
    decreases s.len(),
{
    if s.len() == 0 || s[0].0 == key {
        0
    } else {
        1 + place_at(s.drop_first(), key)
    }
}

/// The table with the value under a key replaced, or put where there is none.
pub open spec fn set_at<K: Ordered, V>(s: Seq<(K, V)>, key: K, value: V) -> Seq<(K, V)> {
    if place_at(s, key) < s.len() {
        s.update(place_at(s, key) as int, (key, value))
    } else {
        put_at(s, key, value)
    }
}

/// The index of a key and its value agree.
pub proof fn lemma_place<K, V>(s: Seq<(K, V)>, key: K)
    ensures
        place_at(s, key) <= s.len(),
        place_at(s, key) < s.len() <==> get_at(s, key) is Some,
        place_at(s, key) < s.len() ==> s[place_at(s, key) as int].0 == key && get_at(s, key)
            == Some(s[place_at(s, key) as int].1),
    decreases s.len(),
{
    if s.len() > 0 && s[0].0 != key {
        lemma_place(s.drop_first(), key);
    }
}

/// A key that was put can be set in its place.
pub proof fn lemma_put_then_set<K: Ordered, V>(s: Seq<(K, V)>, key: K, first: V, value: V)
    requires
        place_at(s, key) >= s.len(),
    ensures
        set_at(put_at(s, key, first), key, value) == put_at(s, key, value),
    decreases s.len(),
{
    reveal_with_fuel(place_at, 2);
    let r = put_at(s, key, first);
    if s.len() == 0 {
        assert(r.update(0, (key, value)) =~= put_at(s, key, value));
    } else if key.before(s[0].0) {
        assert(r[0].0 == key);
        assert(r.update(0, (key, value)) =~= put_at(s, key, value));
    } else {
        let rest = s.drop_first();
        lemma_put_then_set(rest, key, first, value);
        lemma_place(put_at(rest, key, first), key);
        law_put_then_get(rest, key, first, key);
        assert(r.drop_first() =~= put_at(rest, key, first));
        assert(r.update(place_at(r, key) as int, (key, value)) =~= seq![s[0]] + put_at(
            rest,
            key,
            first,
        ).update(place_at(put_at(rest, key, first), key) as int, (key, value)));
    }
}

proof fn lemma_update_get<K, V>(s: Seq<(K, V)>, key: K, value: V, other: K)
    requires
        place_at(s, key) < s.len(),
    ensures
        get_at(s.update(place_at(s, key) as int, (key, value)), other) == (if other == key {
            Some(value)
        } else {
            get_at(s, other)
        }),
    decreases s.len(),
{
    let r = s.update(place_at(s, key) as int, (key, value));
    if s[0].0 == key {
        assert(r.drop_first() =~= s.drop_first());
    } else {
        assert(r.drop_first() =~= s.drop_first().update(
            place_at(s.drop_first(), key) as int,
            (key, value),
        ));
        lemma_update_get(s.drop_first(), key, value, other);
    }
}

/// A set value is read back, and every other key is left as it was.
pub proof fn law_set_then_get<K: Ordered, V>(s: Seq<(K, V)>, key: K, value: V, other: K)
    ensures
        get_at(set_at(s, key, value), other) == (if other == key {
            Some(value)
        } else {
            get_at(s, other)
        }),
{
    lemma_place(s, key);
    if place_at(s, key) < s.len() {
        lemma_update_get(s, key, value, other);
    } else {
        law_put_then_get(s, key, value, other);
    }
}

proof fn lemma_put_keys<K: Ordered, V>(s: Seq<(K, V)>, key: K, value: V)
    ensures
        forall|i: int|
            0 <= i < put_at(s, key, value).len() ==> (#[trigger] put_at(s, key, value)[i]).0 == key
                || exists|j: int|
                0 <= j < s.len() && (#[trigger] s[j]).0 == put_at(s, key, value)[i].0,
    decreases s.len(),
{
    if s.len() > 0 {
        let rest = s.drop_first();
        lemma_put_keys(rest, key, value);
        let r = put_at(s, key, value);
        let tail = put_at(rest, key, value);
        assert forall|i: int| 0 <= i < r.len() implies (#[trigger] r[i]).0 == key || exists|j: int|
            0 <= j < s.len() && (#[trigger] s[j]).0 == r[i].0 by {
            if s[0].0 == key || key.before(s[0].0) {
                if i > 0 {
                    let j = if s[0].0 == key {
                        i
                    } else {
                        i - 1
                    };
                    assert(s[j].0 == r[i].0);
                }
            } else if i == 0 {
                assert(s[0].0 == r[i].0);
            } else {
                assert(r[i] == tail[i - 1]);
                if tail[i - 1].0 != key {
                    let j = choose|j: int|
                        0 <= j < rest.len() && (#[trigger] rest[j]).0 == tail[i - 1].0;
                    assert(s[j + 1] == rest[j]);
                }
            }
        }
    }
}

/// Binding a key keeps a table in order.
pub proof fn law_put_keeps_order<K: Ordered, V>(s: Seq<(K, V)>, key: K, value: V)
    requires
        in_order(s),
    ensures
        in_order(put_at(s, key, value)),
    decreases s.len(),
{
    if s.len() > 0 {
        let rest = s.drop_first();
        let r = put_at(s, key, value);
        assert(in_order(rest)) by {
            assert forall|i: int, j: int| 0 <= i < j < rest.len() implies (
            #[trigger] rest[i]).0.before((#[trigger] rest[j]).0) by {
                assert(s[i + 1].0.before(s[j + 1].0));
            }
        }
        law_put_keeps_order(rest, key, value);
        lemma_put_keys(rest, key, value);
        let tail = put_at(rest, key, value);
        K::lemma_total(key, s[0].0);
        assert forall|i: int, j: int| 0 <= i < j < r.len() implies (#[trigger] r[i]).0.before(
            (#[trigger] r[j]).0,
        ) by {
            if s[0].0 == key {
                assert(s[i].0.before(s[j].0));
            } else if key.before(s[0].0) {
                if i > 0 {
                    assert(s[i - 1].0.before(s[j - 1].0));
                } else if j > 1 {
                    assert(s[0].0.before(s[j - 1].0));
                    K::lemma_chained(key, s[0].0, s[j - 1].0);
                }
            } else if i > 0 {
                assert(tail[i - 1].0.before(tail[j - 1].0));
            } else {
                assert(r[j] == tail[j - 1]);
                if tail[j - 1].0 != key {
                    let k = choose|k: int|
                        0 <= k < rest.len() && (#[trigger] rest[k]).0 == tail[j - 1].0;
                    assert(s[k + 1] == rest[k]);
                    assert(s[0].0.before(s[k + 1].0));
                }
            }
        }
    }
}

/// Setting a value keeps a table in order.
pub proof fn law_set_keeps_order<K: Ordered, V>(s: Seq<(K, V)>, key: K, value: V)
    requires
        in_order(s),
    ensures
        in_order(set_at(s, key, value)),
{
    lemma_place(s, key);
    if place_at(s, key) < s.len() {
        let r = set_at(s, key, value);
        assert forall|i: int, j: int| 0 <= i < j < r.len() implies (#[trigger] r[i]).0.before(
            (#[trigger] r[j]).0,
        ) by {
            assert(s[i].0.before(s[j].0));
        }
    } else {
        law_put_keeps_order(s, key, value);
    }
}

proof fn lemma_drop_keys<K, V>(s: Seq<(K, V)>, key: K)
    ensures
        forall|i: int|
            0 <= i < drop_at(s, key).len() ==> exists|j: int|
                0 <= j < s.len() && #[trigger] s[j] == (#[trigger] drop_at(s, key)[i]),
    decreases s.len(),
{
    if s.len() > 0 {
        let rest = s.drop_first();
        lemma_drop_keys(rest, key);
        let r = drop_at(s, key);
        let tail = drop_at(rest, key);
        assert forall|i: int| 0 <= i < r.len() implies exists|j: int|
            0 <= j < s.len() && #[trigger] s[j] == (#[trigger] r[i]) by {
            let at = if s[0].0 == key {
                i
            } else {
                i - 1
            };
            if at < 0 {
                assert(s[0] == r[i]);
            } else {
                assert(r[i] == tail[at]);
                let j = choose|j: int| 0 <= j < rest.len() && #[trigger] rest[j] == tail[at];
                assert(s[j + 1] == r[i]);
            }
        }
    }
}

/// Removing a key keeps a table in order.
pub proof fn law_drop_keeps_order<K: Ordered, V>(s: Seq<(K, V)>, key: K)
    requires
        in_order(s),
    ensures
        in_order(drop_at(s, key)),
    decreases s.len(),
{
    if s.len() > 0 {
        let rest = s.drop_first();
        assert(in_order(rest)) by {
            assert forall|i: int, j: int| 0 <= i < j < rest.len() implies (
            #[trigger] rest[i]).0.before((#[trigger] rest[j]).0) by {
                assert(s[i + 1].0.before(s[j + 1].0));
            }
        }
        law_drop_keeps_order(rest, key);
        lemma_drop_keys(rest, key);
        let r = drop_at(s, key);
        let tail = drop_at(rest, key);
        if s[0].0 != key {
            assert forall|i: int, j: int| 0 <= i < j < r.len() implies (#[trigger] r[i]).0.before(
                (#[trigger] r[j]).0,
            ) by {
                assert(r[j] == tail[j - 1]);
                if i > 0 {
                    assert(tail[i - 1].0.before(tail[j - 1].0));
                } else {
                    let k = choose|k: int| 0 <= k < rest.len() && #[trigger] rest[k] == tail[j - 1];
                    assert(s[k + 1] == rest[k]);
                    assert(s[0].0.before(s[k + 1].0));
                }
            }
        }
    }
}

/// Tables in order with the same bindings are the same table.
pub proof fn law_order_fixes_table<K: Ordered, V>(s: Seq<(K, V)>, t: Seq<(K, V)>)
    requires
        in_order(s),
        in_order(t),
        forall|key: K| #[trigger] get_at(s, key) == get_at(t, key),
    ensures
        s == t,
    decreases s.len(),
{
    if s.len() == 0 {
        if t.len() > 0 {
            assert(get_at(s, t[0].0) == get_at(t, t[0].0));
        }
    } else if t.len() == 0 {
        assert(get_at(s, s[0].0) == get_at(t, s[0].0));
    } else {
        let (a, b) = (s[0].0, t[0].0);
        assert(get_at(s, a) == get_at(t, a));
        assert(get_at(s, b) == get_at(t, b));
        lemma_least(s, b);
        lemma_least(t, a);
        if a != b {
            K::lemma_chained(a, b, a);
            K::lemma_strict(a);
        }
        let (x, y) = (s.drop_first(), t.drop_first());
        assert forall|i: int, j: int| 0 <= i < j < x.len() implies (#[trigger] x[i]).0.before(
            (#[trigger] x[j]).0,
        ) by {
            assert(s[i + 1].0.before(s[j + 1].0));
        }
        assert forall|i: int, j: int| 0 <= i < j < y.len() implies (#[trigger] y[i]).0.before(
            (#[trigger] y[j]).0,
        ) by {
            assert(t[i + 1].0.before(t[j + 1].0));
        }
        assert forall|key: K| #[trigger] get_at(x, key) == get_at(y, key) by {
            assert(get_at(s, key) == get_at(t, key));
            if key == a {
                lemma_gone(s);
                lemma_gone(t);
            }
        }
        law_order_fixes_table(x, y);
        assert(s =~= seq![s[0]] + x);
        assert(t =~= seq![t[0]] + y);
    }
}

proof fn lemma_least<K: Ordered, V>(s: Seq<(K, V)>, key: K)
    requires
        in_order(s),
        s.len() > 0,
        get_at(s, key) is Some,
    ensures
        s[0].0 == key || s[0].0.before(key),
{
    lemma_place(s, key);
    if place_at(s, key) > 0 {
        assert(s[0].0.before(s[place_at(s, key) as int].0));
    }
}

proof fn lemma_gone<K: Ordered, V>(s: Seq<(K, V)>)
    requires
        in_order(s),
        s.len() > 0,
    ensures
        get_at(s.drop_first(), s[0].0) is None,
{
    let rest = s.drop_first();
    lemma_place(rest, s[0].0);
    if get_at(rest, s[0].0) is Some {
        let i = place_at(rest, s[0].0) as int;
        assert(rest[i] == s[i + 1]);
        assert(s[0].0.before(s[i + 1].0));
        K::lemma_strict(s[0].0);
    }
}

/// A table in key order.
#[derive(Debug)]
pub struct Table<K, V> {
    pub entries: Vec<(K, V)>,
}

impl<K, V: View> View for Table<K, V> {
    type V = Seq<(K, V::V)>;

    open spec fn view(&self) -> Seq<(K, V::V)> {
        self.entries@.map_values(|e: (K, V)| (e.0, e.1@))
    }
}

impl<K: Ordered, V: View> Table<K, V> {
    /// The empty table.
    pub fn new() -> (t: Self)
        ensures
            t@ == Seq::<(K, V::V)>::empty(),
            t.entries@ == Seq::<(K, V)>::empty(),
            in_order(t@),
    {
        let t = Table { entries: Vec::new() };
        proof {
            assert(t@ =~= Seq::<(K, V::V)>::empty());
        }
        t
    }

    /// The value under a key.
    pub fn get(&self, key: &K) -> (r: Option<&V>)
        ensures
            get_at(self@, *key) == (match r {
                Some(v) => Some(v@),
                None => None,
            }),
    {
        let mut i: usize = 0;
        proof {
            assert(self@.skip(0) =~= self@);
        }
        while i < self.entries.len()
            invariant
                i <= self.entries.len(),
                self@.len() == self.entries.len(),
                get_at(self@, *key) == get_at(self@.skip(i as int), *key),
            decreases self.entries.len() - i,
        {
            proof {
                assert(self@.skip(i as int)[0] == self@[i as int]);
                assert(self@.skip(i as int).drop_first() =~= self@.skip(i + 1));
            }
            if self.entries[i].0.is_same(key) {
                return Some(&self.entries[i].1);
            }
            i = i + 1;
        }
        None
    }

    /// The index of a key.
    pub fn find(&self, key: &K) -> (r: Option<usize>)
        ensures
            match r {
                Some(i) => {
                    &&& i == place_at(self@, *key)
                    &&& i < self.entries@.len()
                    &&& self.entries@[i as int].0 == *key
                    &&& get_at(self@, *key) == Some(self.entries@[i as int].1@)
                },
                None => place_at(self@, *key) == self@.len() && get_at(self@, *key) is None,
            },
    {
        proof {
            lemma_place(self@, *key);
            assert(self@.skip(0) =~= self@);
        }
        let mut i: usize = 0;
        while i < self.entries.len()
            invariant
                i <= self.entries.len(),
                self@.len() == self.entries.len(),
                place_at(self@, *key) == i + place_at(self@.skip(i as int), *key),
                place_at(self@, *key) < self@.len() ==> get_at(self@, *key) == Some(
                    self@[place_at(self@, *key) as int].1,
                ),
                place_at(self@, *key) < self@.len() <==> get_at(self@, *key) is Some,
            decreases self.entries.len() - i,
        {
            proof {
                assert(self@.skip(i as int)[0].0 == self.entries@[i as int].0);
                assert(self@.skip(i as int).drop_first() =~= self@.skip(i + 1));
            }
            if self.entries[i].0.is_same(key) {
                return Some(i);
            }
            i = i + 1;
        }
        None
    }

    /// Whether a key is bound.
    pub fn has(&self, key: &K) -> (r: bool)
        ensures
            r == (get_at(self@, *key) is Some),
    {
        match self.get(key) {
            Some(_) => true,
            None => false,
        }
    }

    /// Binds a key.
    pub fn put(&mut self, key: K, value: V)
        ensures
            final(self)@ == put_at(old(self)@, key, value@),
            in_order(old(self)@) ==> in_order(final(self)@),
    {
        let ghost before = self@;
        proof {
            if in_order(before) {
                law_put_keeps_order(before, key, value@);
            }
        }
        let ghost goal = put_at(before, key, value@);
        let mut i: usize = 0;
        proof {
            assert(before.skip(0) =~= before);
            assert(before.take(0) + put_at(before.skip(0), key, value@) =~= put_at(
                before,
                key,
                value@,
            ));
        }
        while i < self.entries.len()
            invariant
                i <= self.entries.len(),
                before == self@,
                self@.len() == self.entries.len(),
                before.take(i as int) + put_at(before.skip(i as int), key, value@) == put_at(
                    before,
                    key,
                    value@,
                ),
                goal == put_at(before, key, value@),
                in_order(before) ==> in_order(goal),
                *self == *old(self),
            decreases self.entries.len() - i,
        {
            let ghost rest = before.skip(i as int);
            proof {
                assert(rest[0] == before[i as int]);
                assert(rest.drop_first() =~= before.skip(i + 1));
                assert(before[i as int].0 == self.entries@[i as int].0);
            }
            if self.entries[i].0.is_same(&key) {
                self.entries.set(i, (key, value));
                proof {
                    assert(self@ =~= before.take(i as int) + (seq![(key, value@)]
                        + rest.drop_first()));
                }
                return ;
            }
            if key.is_before(&self.entries[i].0) {
                self.entries.insert(i, (key, value));
                proof {
                    assert(self@ =~= before.take(i as int) + (seq![(key, value@)] + rest));
                    assert(self@ == goal);
                }
                return ;
            }
            proof {
                assert(before.take(i as int) + (seq![rest[0]] + put_at(
                    rest.drop_first(),
                    key,
                    value@,
                )) =~= before.take(i + 1) + put_at(rest.drop_first(), key, value@));
            }
            i = i + 1;
        }
        self.entries.push((key, value));
        proof {
            assert(before.skip(i as int) =~= Seq::<(K, V::V)>::empty());
            assert(self@ =~= before.take(i as int) + seq![(key, value@)]);
        }
    }

    /// Removes a key.
    pub fn remove(&mut self, key: &K)
        ensures
            final(self)@ == drop_at(old(self)@, *key),
            in_order(old(self)@) ==> in_order(final(self)@),
    {
        let ghost before = self@;
        proof {
            if in_order(before) {
                law_drop_keeps_order(before, *key);
            }
        }
        let mut i: usize = 0;
        proof {
            assert(before.skip(0) =~= before);
            assert(before.take(0) + drop_at(before.skip(0), *key) =~= drop_at(before, *key));
        }
        while i < self.entries.len()
            invariant
                i <= self.entries.len(),
                self@.len() == self.entries.len(),
                self@.take(i as int) + drop_at(self@.skip(i as int), *key) == drop_at(
                    before,
                    *key,
                ),
            decreases self.entries.len() - i,
        {
            let ghost now = self@;
            let ghost rest = now.skip(i as int);
            proof {
                assert(rest[0] == now[i as int]);
                assert(rest.drop_first() =~= now.skip(i + 1));
            }
            if self.entries[i].0.is_same(key) {
                let _ = self.entries.remove(i);
                proof {
                    assert(self@ =~= now.remove(i as int));
                    assert(self@.take(i as int) =~= now.take(i as int));
                    assert(self@.skip(i as int) =~= now.skip(i + 1));
                }
            } else {
                proof {
                    assert(now.take(i as int) + (seq![rest[0]] + drop_at(rest.drop_first(), *key))
                        =~= now.take(i + 1) + drop_at(now.skip(i + 1), *key));
                }
                i = i + 1;
            }
        }
        proof {
            assert(self@.skip(i as int) =~= Seq::<(K, V::V)>::empty());
            assert(self@.take(i as int) + Seq::<(K, V::V)>::empty() =~= self@);
        }
    }
}

/// A binding is read back, and leaves every other key as it was.
pub proof fn law_put_then_get<K: Ordered, V>(s: Seq<(K, V)>, key: K, value: V, other: K)
    ensures
        get_at(put_at(s, key, value), other) == (if other == key {
            Some(value)
        } else {
            get_at(s, other)
        }),
    decreases s.len(),
{
    reveal_with_fuel(get_at, 2);
    let r = put_at(s, key, value);
    if s.len() == 0 {
        assert(r.drop_first() =~= Seq::<(K, V)>::empty());
    } else if s[0].0 == key {
        assert(r.drop_first() =~= s.drop_first());
    } else if key.before(s[0].0) {
        assert(r.drop_first() =~= s);
    } else {
        assert(r.drop_first() =~= put_at(s.drop_first(), key, value));
        law_put_then_get(s.drop_first(), key, value, other);
    }
}

/// A removed key is not found, and every other key is left as it was.
pub proof fn law_drop_then_get<K, V>(s: Seq<(K, V)>, key: K, other: K)
    ensures
        get_at(drop_at(s, key), other) == (if other == key {
            None
        } else {
            get_at(s, other)
        }),
    decreases s.len(),
{
    if s.len() > 0 {
        law_drop_then_get(s.drop_first(), key, other);
        if s[0].0 != key {
            let r = drop_at(s, key);
            assert(r.drop_first() =~= drop_at(s.drop_first(), key));
        }
    }
}

} // verus!
