//! Association lists from names to values, kept in key order.

use vstd::prelude::*;

verus! {

/// Whether `a` comes strictly before `b` in the order by code points, a proper
/// prefix first.
pub open spec fn name_less(a: Seq<char>, b: Seq<char>) -> bool
    decreases b.len(),
{
    if b.len() == 0 {
        false
    } else if a.len() == 0 {
        true
    } else if a[0] != b[0] {
        a[0] < b[0]
    } else {
        name_less(a.drop_first(), b.drop_first())
    }
}

/// The characters of a string as a vector.
pub fn chars_of(text: &str) -> (r: Vec<char>)
    ensures
        r@ == text@,
{
    let mut r: Vec<char> = Vec::new();
    for c in it: text.chars()
        invariant
            r@ == it.seq().take(it.index()),
            it.seq() == text@,
    {
        r.push(c);
        proof {
            assert(it.seq().take(it.index() + 1) =~= it.seq().take(it.index()).push(c));
        }
    }
    proof {
        assert(text@.take(text@.len() as int) =~= text@);
    }
    r
}

/// Decides `name_less`.
pub fn less(a: &str, b: &str) -> (r: bool)
    ensures
        r == name_less(a@, b@),
{
    let x: Vec<char> = chars_of(a);
    let y: Vec<char> = chars_of(b);
    let mut i: usize = 0;
    proof {
        assert(x@.skip(0) =~= x@);
        assert(y@.skip(0) =~= y@);
    }
    while i < x.len() && i < y.len() && x[i] == y[i]
        invariant
            i <= x.len(),
            i <= y.len(),
            name_less(x@, y@) == name_less(x@.skip(i as int), y@.skip(i as int)),
        decreases x.len() - i,
    {
        proof {
            assert(x@.skip(i as int).drop_first() =~= x@.skip(i + 1));
            assert(y@.skip(i as int).drop_first() =~= y@.skip(i + 1));
        }
        i = i + 1;
    }
    if i >= y.len() {
        false
    } else if i >= x.len() {
        true
    } else {
        x[i] < y[i]
    }
}

/// Whether two strings hold the same characters.
pub fn same(a: &str, b: &str) -> (r: bool)
    ensures
        r == (a@ == b@),
{
    let x: String = a.to_owned();
    let y: String = b.to_owned();
    x == y
}

/// The value stored under `key` in an association list: that of the first entry
/// with that key.
pub open spec fn assoc_get<V>(s: Seq<(Seq<char>, V)>, key: Seq<char>) -> Option<V>
    decreases s.len(),
{
    if s.len() == 0 {
        None
    } else if s[0].0 == key {
        Some(s[0].1)
    } else {
        assoc_get(s.drop_first(), key)
    }
}

/// The list with `key` bound to `value`: the first entry with that key is
/// replaced; without one, the entry goes in front of the first greater key.
pub open spec fn assoc_insert<V>(s: Seq<(Seq<char>, V)>, key: Seq<char>, value: V) -> Seq<
    (Seq<char>, V),
>
    decreases s.len(),
{
    if s.len() == 0 {
        seq![(key, value)]
    } else if s[0].0 == key {
        seq![(key, value)] + s.drop_first()
    } else if name_less(key, s[0].0) {
        seq![(key, value)] + s
    } else {
        seq![s[0]] + assoc_insert(s.drop_first(), key, value)
    }
}

/// The index of the first entry with a key, or the length without one.
pub open spec fn assoc_place<V>(s: Seq<(Seq<char>, V)>, key: Seq<char>) -> nat
    decreases s.len(),
{
    if s.len() == 0 || s[0].0 == key {
        0
    } else {
        1 + assoc_place(s.drop_first(), key)
    }
}

/// The list with the value of a bound key replaced.
pub open spec fn assoc_set<V>(s: Seq<(Seq<char>, V)>, key: Seq<char>, value: V) -> Seq<
    (Seq<char>, V),
> {
    s.update(assoc_place(s, key) as int, (key, value))
}

/// The index of a key and its value agree.
pub proof fn lemma_assoc_place<V>(s: Seq<(Seq<char>, V)>, key: Seq<char>)
    ensures
        assoc_place(s, key) <= s.len(),
        assoc_place(s, key) < s.len() <==> assoc_get(s, key) is Some,
        assoc_place(s, key) < s.len() ==> s[assoc_place(s, key) as int].0 == key && assoc_get(
            s,
            key,
        ) == Some(s[assoc_place(s, key) as int].1),
    decreases s.len(),
{
    if s.len() > 0 && s[0].0 != key {
        lemma_assoc_place(s.drop_first(), key);
    }
}

/// A map from names to values, listed in key order.
#[derive(Debug)]
pub struct NameMap<V> {
    pub entries: Vec<(String, V)>,
}

impl<V> View for NameMap<V> {
    type V = Seq<(Seq<char>, V)>;

    open spec fn view(&self) -> Seq<(Seq<char>, V)> {
        self.entries@.map_values(|e: (String, V)| (e.0@, e.1))
    }
}

impl<V> NameMap<V> {
    /// The empty map.
    pub fn new() -> (m: Self)
        ensures
            m@ == Seq::<(Seq<char>, V)>::empty(),
    {
        let m = NameMap { entries: Vec::new() };
        proof {
            assert(m@ =~= Seq::<(Seq<char>, V)>::empty());
        }
        m
    }

    /// The value under a name.
    pub fn get(&self, key: &str) -> (r: Option<&V>)
        ensures
            assoc_get(self@, key@) == (match r {
                Some(v) => Some(*v),
                None => None,
            }),
    {
        let mut i: usize = 0;
        proof {
            assert(self@.skip(0) =~= self@);
        }
        while i < self.entries.len()
            invariant
                i <= self.entries.len(),
                self@.len() == self.entries.len(),
                assoc_get(self@, key@) == assoc_get(self@.skip(i as int), key@),
            decreases self.entries.len() - i,
        {
            proof {
                assert(self@.skip(i as int)[0] == self@[i as int]);
                assert(self@.skip(i as int).drop_first() =~= self@.skip(i + 1));
            }
            if same(&self.entries[i].0, key) {
                return Some(&self.entries[i].1);
            }
            i = i + 1;
        }
        None
    }

    /// Whether a name is bound.
    pub fn has(&self, key: &str) -> (r: bool)
        ensures
            r == (assoc_get(self@, key@) is Some),
    {
        match self.get(key) {
            Some(_) => true,
            None => false,
        }
    }

    /// Binds a name, replacing an earlier binding of it.
    pub fn insert(&mut self, key: String, value: V)
        ensures
            final(self)@ == assoc_insert(old(self)@, key@, value),
    {
        let ghost before = self@;
        let mut i: usize = 0;
        proof {
            assert(before.skip(0) =~= before);
            assert(before.take(0) + assoc_insert(before.skip(0), key@, value) =~= assoc_insert(
                before,
                key@,
                value,
            ));
        }
        while i < self.entries.len()
            invariant
                i <= self.entries.len(),
                before == self@,
                self@.len() == self.entries.len(),
                before.take(i as int) + assoc_insert(before.skip(i as int), key@, value)
                    == assoc_insert(before, key@, value),
                *self == *old(self),
            decreases self.entries.len() - i,
        {
            let ghost rest = before.skip(i as int);
            proof {
                assert(rest[0] == before[i as int]);
                assert(rest.drop_first() =~= before.skip(i + 1));
                assert(before[i as int].0 == self.entries@[i as int].0@);
            }
            if same(&self.entries[i].0, &key) {
                self.entries.set(i, (key, value));
                proof {
                    assert(self@ =~= before.take(i as int) + (seq![(key@, value)]
                        + rest.drop_first()));
                }
                return ;
            }
            if less(&key, &self.entries[i].0) {
                self.entries.insert(i, (key, value));
                proof {
                    assert(self@ =~= before.take(i as int) + (seq![(key@, value)] + rest));
                }
                return ;
            }
            proof {
                assert(before.take(i as int) + (seq![rest[0]] + assoc_insert(
                    rest.drop_first(),
                    key@,
                    value,
                )) =~= before.take(i + 1) + assoc_insert(rest.drop_first(), key@, value));
            }
            i = i + 1;
        }
        self.entries.push((key, value));
        proof {
            assert(before.skip(i as int) =~= Seq::<(Seq<char>, V)>::empty());
            assert(self@ =~= before.take(i as int) + seq![(key@, value)]);
        }
    }
}

impl<V: Copy> NameMap<V> {
    /// A copy of the map.
    pub fn duplicate(&self) -> (r: Self)
        ensures
            r@ == self@,
    {
        let mut entries: Vec<(String, V)> = Vec::new();
        let mut i: usize = 0;
        while i < self.entries.len()
            invariant
                i <= self.entries.len(),
                entries@ == self.entries@.take(i as int),
            decreases self.entries.len() - i,
        {
            let name: String = self.entries[i].0.clone();
            let value: V = self.entries[i].1;
            entries.push((name, value));
            proof {
                assert(entries@ =~= self.entries@.take(i + 1));
            }
            i = i + 1;
        }
        proof {
            assert(entries@ =~= self.entries@);
        }
        NameMap { entries }
    }
}

/// A map from names to values that are compared by their views, listed in key order.
#[derive(Debug)]
pub struct ViewMap<V: View> {
    pub entries: Vec<(String, V)>,
}

impl<V: View> View for ViewMap<V> {
    type V = Seq<(Seq<char>, V::V)>;

    open spec fn view(&self) -> Seq<(Seq<char>, V::V)> {
        self.entries@.map_values(|e: (String, V)| (e.0@, e.1@))
    }
}

impl<V: View> ViewMap<V> {
    /// The empty map.
    pub fn new() -> (m: Self)
        ensures
            m@ == Seq::<(Seq<char>, V::V)>::empty(),
    {
        let m = ViewMap { entries: Vec::new() };
        proof {
            assert(m@ =~= Seq::<(Seq<char>, V::V)>::empty());
        }
        m
    }

    /// The value under a name.
    pub fn get(&self, key: &str) -> (r: Option<&V>)
        ensures
            assoc_get(self@, key@) == (match r {
                Some(v) => Some(v@),
                None => None,
            }),
    {
        let mut i: usize = 0;
        proof {
            assert(self@.skip(0) =~= self@);
        }
        while i < self.entries.len()
            invariant
                i <= self.entries.len(),
                self@.len() == self.entries.len(),
                assoc_get(self@, key@) == assoc_get(self@.skip(i as int), key@),
            decreases self.entries.len() - i,
        {
            proof {
                assert(self@.skip(i as int)[0] == self@[i as int]);
                assert(self@.skip(i as int).drop_first() =~= self@.skip(i + 1));
            }
            if same(&self.entries[i].0, key) {
                return Some(&self.entries[i].1);
            }
            i = i + 1;
        }
        None
    }

    /// The index of a name.
    pub fn find(&self, key: &str) -> (r: Option<usize>)
        ensures
            match r {
                Some(i) => {
                    &&& i == assoc_place(self@, key@)
                    &&& i < self.entries@.len()
                    &&& self.entries@[i as int].0@ == key@
                    &&& assoc_get(self@, key@) == Some(self.entries@[i as int].1@)
                },
                None => assoc_get(self@, key@) is None,
            },
    {
        proof {
            lemma_assoc_place(self@, key@);
            assert(self@.skip(0) =~= self@);
        }
        let mut i: usize = 0;
        while i < self.entries.len()
            invariant
                i <= self.entries.len(),
                self@.len() == self.entries.len(),
                assoc_place(self@, key@) == i + assoc_place(self@.skip(i as int), key@),
                assoc_place(self@, key@) < self@.len() ==> assoc_get(self@, key@) == Some(
                    self@[assoc_place(self@, key@) as int].1,
                ),
                assoc_place(self@, key@) < self@.len() <==> assoc_get(self@, key@) is Some,
            decreases self.entries.len() - i,
        {
            proof {
                assert(self@.skip(i as int)[0].0 == self.entries@[i as int].0@);
                assert(self@.skip(i as int).drop_first() =~= self@.skip(i + 1));
            }
            if same(&self.entries[i].0, key) {
                return Some(i);
            }
            i = i + 1;
        }
        None
    }

    /// Whether a name is bound.
    pub fn has(&self, key: &str) -> (r: bool)
        ensures
            r == (assoc_get(self@, key@) is Some),
    {
        match self.get(key) {
            Some(_) => true,
            None => false,
        }
    }

    /// Binds a name, replacing an earlier binding of it.
    pub fn insert(&mut self, key: String, value: V)
        ensures
            final(self)@ == assoc_insert(old(self)@, key@, value@),
    {
        let ghost before = self@;
        let mut i: usize = 0;
        proof {
            assert(before.skip(0) =~= before);
            assert(before.take(0) + assoc_insert(before.skip(0), key@, value@) =~= assoc_insert(
                before,
                key@,
                value@,
            ));
        }
        while i < self.entries.len()
            invariant
                i <= self.entries.len(),
                before == self@,
                self@.len() == self.entries.len(),
                before.take(i as int) + assoc_insert(before.skip(i as int), key@, value@)
                    == assoc_insert(before, key@, value@),
                *self == *old(self),
            decreases self.entries.len() - i,
        {
            let ghost rest = before.skip(i as int);
            proof {
                assert(rest[0] == before[i as int]);
                assert(rest.drop_first() =~= before.skip(i + 1));
                assert(before[i as int].0 == self.entries@[i as int].0@);
            }
            if same(&self.entries[i].0, &key) {
                self.entries.set(i, (key, value));
                proof {
                    assert(self@ =~= before.take(i as int) + (seq![(key@, value@)]
                        + rest.drop_first()));
                }
                return ;
            }
            if less(&key, &self.entries[i].0) {
                self.entries.insert(i, (key, value));
                proof {
                    assert(self@ =~= before.take(i as int) + (seq![(key@, value@)] + rest));
                }
                return ;
            }
            proof {
                assert(before.take(i as int) + (seq![rest[0]] + assoc_insert(
                    rest.drop_first(),
                    key@,
                    value@,
                )) =~= before.take(i + 1) + assoc_insert(rest.drop_first(), key@, value@));
            }
            i = i + 1;
        }
        self.entries.push((key, value));
        proof {
            assert(before.skip(i as int) =~= Seq::<(Seq<char>, V::V)>::empty());
            assert(self@ =~= before.take(i as int) + seq![(key@, value@)]);
        }
    }
}

/// Whether the keys of an association list increase strictly.
pub open spec fn keys_sorted<V>(s: Seq<(Seq<char>, V)>) -> bool {
    forall|i: int, j: int| 0 <= i < j < s.len() ==> name_less(#[trigger] s[i].0, #[trigger] s[j].0)
}

/// A binding is read back, and leaves every other name as it was.
pub proof fn law_insert_then_get<V>(
    s: Seq<(Seq<char>, V)>,
    key: Seq<char>,
    value: V,
    other: Seq<char>,
)
    ensures
        assoc_get(assoc_insert(s, key, value), other) == (if other == key {
            Some(value)
        } else {
            assoc_get(s, other)
        }),
    decreases s.len(),
{
    reveal_with_fuel(assoc_get, 2);
    let r = assoc_insert(s, key, value);
    if s.len() == 0 {
        assert(r.drop_first() =~= Seq::<(Seq<char>, V)>::empty());
    } else if s[0].0 == key {
        assert(r.drop_first() =~= s.drop_first());
    } else if name_less(key, s[0].0) {
        assert(r.drop_first() =~= s);
    } else {
        assert(r.drop_first() =~= assoc_insert(s.drop_first(), key, value));
        law_insert_then_get(s.drop_first(), key, value, other);
    }
}

proof fn lemma_less_total(a: Seq<char>, b: Seq<char>)
    ensures
        a == b || name_less(a, b) || name_less(b, a),
        !(name_less(a, b) && name_less(b, a)),
        !name_less(a, a),
    decreases a.len(),
{
    if a.len() > 0 && b.len() > 0 && a[0] == b[0] {
        lemma_less_total(a.drop_first(), b.drop_first());
        if a.drop_first() == b.drop_first() {
            assert(a =~= seq![a[0]] + a.drop_first());
            assert(b =~= seq![b[0]] + b.drop_first());
        }
    } else if a.len() == 0 && b.len() == 0 {
        assert(a =~= b);
    }
    if a.len() > 0 {
        lemma_less_total(a.drop_first(), a.drop_first());
    }
}

proof fn lemma_less_transitive(a: Seq<char>, b: Seq<char>, c: Seq<char>)
    requires
        name_less(a, b),
        name_less(b, c),
    ensures
        name_less(a, c),
    decreases c.len(),
{
    if a.len() > 0 && b.len() > 0 && c.len() > 0 && a[0] == b[0] && b[0] == c[0] {
        lemma_less_transitive(a.drop_first(), b.drop_first(), c.drop_first());
    }
}

/// Binding a name keeps the keys in strictly increasing order.
pub proof fn law_insert_keeps_order<V>(s: Seq<(Seq<char>, V)>, key: Seq<char>, value: V)
    requires
        keys_sorted(s),
    ensures
        keys_sorted(assoc_insert(s, key, value)),
    decreases s.len(),
{
    let r = assoc_insert(s, key, value);
    if s.len() == 0 {
    } else if s[0].0 == key {
        assert forall|i: int, j: int| 0 <= i < j < r.len() implies name_less(
            #[trigger] r[i].0,
            #[trigger] r[j].0,
        ) by {
            assert(r[i].0 == s[i].0 && r[j].0 == s[j].0);
        }
    } else if name_less(key, s[0].0) {
        assert forall|i: int, j: int| 0 <= i < j < r.len() implies name_less(
            #[trigger] r[i].0,
            #[trigger] r[j].0,
        ) by {
            assert(r[j] == s[j - 1]);
            if i == 0 {
                if j > 1 {
                    assert(name_less(s[0].0, s[j - 1].0));
                    lemma_less_transitive(key, s[0].0, s[j - 1].0);
                }
            } else {
                assert(r[i] == s[i - 1]);
            }
        }
    } else {
        let rest = s.drop_first();
        assert(keys_sorted(rest)) by {
            assert forall|i: int, j: int| 0 <= i < j < rest.len() implies name_less(
                #[trigger] rest[i].0,
                #[trigger] rest[j].0,
            ) by {
                assert(rest[i] == s[i + 1] && rest[j] == s[j + 1]);
            }
        }
        law_insert_keeps_order(rest, key, value);
        lemma_less_total(key, s[0].0);
        let t = assoc_insert(rest, key, value);
        assert forall|j: int| 0 <= j < t.len() implies name_less(s[0].0, #[trigger] t[j].0) by {
            lemma_insert_keys(rest, key, value, j);
            if t[j].0 != key {
                let k = choose|k: int| 0 <= k < rest.len() && rest[k].0 == t[j].0;
                assert(rest[k] == s[k + 1]);
            }
        }
        assert forall|i: int, j: int| 0 <= i < j < r.len() implies name_less(
            #[trigger] r[i].0,
            #[trigger] r[j].0,
        ) by {
            assert(r[j] == t[j - 1]);
            if i > 0 {
                assert(r[i] == t[i - 1]);
            }
        }
    }
}

proof fn lemma_insert_keys<V>(s: Seq<(Seq<char>, V)>, key: Seq<char>, value: V, j: int)
    requires
        0 <= j < assoc_insert(s, key, value).len(),
    ensures
        assoc_insert(s, key, value)[j].0 == key || exists|k: int|
            0 <= k < s.len() && #[trigger] s[k].0 == assoc_insert(s, key, value)[j].0,
    decreases s.len(),
{
    let r = assoc_insert(s, key, value);
    if s.len() == 0 {
    } else if s[0].0 == key {
        assert(r[j].0 == s[j].0);
    } else if name_less(key, s[0].0) {
        if j > 0 {
            assert(r[j] == s[j - 1]);
        }
    } else {
        if j == 0 {
            assert(r[0] == s[0]);
        } else {
            let rest = s.drop_first();
            assert(r[j] == assoc_insert(rest, key, value)[j - 1]);
            lemma_insert_keys(rest, key, value, j - 1);
            if r[j].0 != key {
                let k = choose|k: int| 0 <= k < rest.len() && rest[k].0 == r[j].0;
                assert(s[k + 1] == rest[k]);
            }
        }
    }
}

} // verus!
