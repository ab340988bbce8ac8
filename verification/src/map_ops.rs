//! A key-unique mapping from strings to 32-bit integers.

use vstd::prelude::*;

verus! {

/// What a map holds after "insert `d` at `k` unless `k` is present".
pub open spec fn inserted_if_absent(m: Map<Seq<char>, i32>, k: Seq<char>, d: i32) -> Map<
    Seq<char>,
    i32,
> {
    if m.contains_key(k) {
        m
    } else {
        m.insert(k, d)
    }
}

/// What looking up `k` in `m` yields: the value of `k`, or nothing.
pub open spec fn lookup(m: Map<Seq<char>, i32>, k: Seq<char>) -> Option<i32> {
    if m.contains_key(k) {
        Some(m[k])
    } else {
        None
    }
}

/// Looking up a key directly after inserting a value at it yields that value.
pub proof fn lemma_insert_then_lookup(m: Map<Seq<char>, i32>, k: Seq<char>, v: i32)
    ensures
        lookup(m.insert(k, v), k) == Some(v),
{
}

/// Inserting the same default at the same key a second time changes nothing.
pub proof fn lemma_insert_if_absent_twice(m: Map<Seq<char>, i32>, k: Seq<char>, d: i32)
    ensures
        inserted_if_absent(inserted_if_absent(m, k, d), k, d) == inserted_if_absent(m, k, d),
{
}

/// The pairs of `m` that the predicate `p` accepts.
pub open spec fn kept_pairs(m: Map<Seq<char>, i32>, p: spec_fn(Seq<char>, i32) -> bool) -> Map<
    Seq<char>,
    i32,
> {
    Map::new(|k: Seq<char>| m.contains_key(k) && p(k, m[k]), |k: Seq<char>| m[k])
}

/// An executable predicate `f` on pairs decides the mathematical predicate
/// `p` when every answer that `f` can give for a key and a value is the value
/// of `p` at the key's characters and that value.
pub open spec fn decides_pair<F: Fn(&String, i32) -> bool>(
    f: F,
    p: spec_fn(Seq<char>, i32) -> bool,
) -> bool {
    forall|k: String, v: i32, b: bool| #[trigger] call_ensures(f, (&k, v), b) ==> b == p(k@, v)
}

/// The map that pairs the `i`-th key with the `i`-th value.
spec fn pairing(keys: Seq<Seq<char>>, values: Seq<i32>) -> Map<Seq<char>, i32> {
    Map::new(|k: Seq<char>| keys.contains(k), |k: Seq<char>| values[keys.index_of(k)])
}

/// With distinct keys, `pairing` holds exactly the keys of `keys`, each with
/// the value at its own index.
proof fn lemma_pairing(keys: Seq<Seq<char>>, values: Seq<i32>)
    requires
        keys.no_duplicates(),
        keys.len() == values.len(),
    ensures
        forall|k: Seq<char>| #[trigger] pairing(keys, values).contains_key(k) <==> keys.contains(k),
        forall|i: int|
            0 <= i < keys.len() ==> pairing(keys, values).contains_key(#[trigger] keys[i])
                && pairing(keys, values)[keys[i]] == values[i],
{
    assert forall|i: int| 0 <= i < keys.len() implies pairing(keys, values).contains_key(
        #[trigger] keys[i],
    ) && pairing(keys, values)[keys[i]] == values[i] by {
        assert(keys.contains(keys[i]));
        assert(keys.index_of(keys[i]) == i);
    }
}

/// A new key with its value, added at the end, is an insertion.
proof fn lemma_pairing_push(keys: Seq<Seq<char>>, values: Seq<i32>, k: Seq<char>, v: i32)
    requires
        keys.no_duplicates(),
        keys.len() == values.len(),
        !keys.contains(k),
    ensures
        keys.push(k).no_duplicates(),
        pairing(keys.push(k), values.push(v)) == pairing(keys, values).insert(k, v),
{
    let keys2 = keys.push(k);
    let values2 = values.push(v);
    assert(keys2.no_duplicates()) by {
        assert forall|i: int, j: int|
            0 <= i < keys2.len() && 0 <= j < keys2.len() && i != j implies keys2[i] != keys2[j] by {
            if i < keys.len() && j < keys.len() {
                assert(keys[i] != keys[j]);
            } else if i < keys.len() {
                assert(keys.contains(keys[i]));
            } else {
                assert(keys.contains(keys[j]));
            }
        }
    }
    lemma_pairing(keys, values);
    lemma_pairing(keys2, values2);
    assert forall|q: Seq<char>| #[trigger]
        pairing(keys2, values2).contains_key(q) <==> pairing(keys, values).insert(
            k,
            v,
        ).contains_key(q) by {
        if keys2.contains(q) {
            let i = keys2.index_of(q);
            if i < keys.len() {
                assert(keys[i] == q);
            }
        }
        if keys.contains(q) {
            let i = keys.index_of(q);
            assert(keys2[i] == q);
        }
        if q == k {
            assert(keys2[keys.len() as int] == q);
        }
    }
    assert forall|q: Seq<char>| #[trigger] pairing(keys2, values2).contains_key(q) implies pairing(
        keys2,
        values2,
    )[q] == pairing(keys, values).insert(k, v)[q] by {
        let i = keys2.index_of(q);
        assert(keys2[i] == q);
        if i < keys.len() {
            assert(keys[i] == q);
            assert(values2[i] == values[i]);
        }
    }
    assert(pairing(keys2, values2) =~= pairing(keys, values).insert(k, v));
}

/// A new value at the index of a key is an insertion at that key.
proof fn lemma_pairing_update(keys: Seq<Seq<char>>, values: Seq<i32>, i: int, v: i32)
    requires
        keys.no_duplicates(),
        keys.len() == values.len(),
        0 <= i < keys.len(),
    ensures
        pairing(keys, values.update(i, v)) == pairing(keys, values).insert(keys[i], v),
{
    let values2 = values.update(i, v);
    lemma_pairing(keys, values);
    lemma_pairing(keys, values2);
    assert(keys.contains(keys[i]));
    assert forall|q: Seq<char>| #[trigger] pairing(keys, values2).contains_key(q) implies pairing(
        keys,
        values2,
    )[q] == pairing(keys, values).insert(keys[i], v)[q] by {
        let j = keys.index_of(q);
        assert(keys[j] == q);
        if j != i {
            assert(values2[j] == values[j]);
        }
    }
    assert(pairing(keys, values2) =~= pairing(keys, values).insert(keys[i], v));
}

/// With distinct keys, `pairing` has as many pairs as there are keys.
proof fn lemma_pairing_len(keys: Seq<Seq<char>>, values: Seq<i32>)
    requires
        keys.no_duplicates(),
        keys.len() == values.len(),
    ensures
        pairing(keys, values).dom().finite(),
        pairing(keys, values).len() == keys.len(),
{
    lemma_pairing(keys, values);
    assert(pairing(keys, values).dom() =~= keys.to_set());
    keys.unique_seq_to_set();
    vstd::seq_lib::seq_to_set_is_finite(keys);
}

/// `picked` lists, in rising order, indices below `upto` into `keys`.
spec fn rising_below(picked: Seq<int>, upto: int) -> bool {
    &&& forall|j: int| 0 <= j < picked.len() ==> 0 <= #[trigger] picked[j] < upto
    &&& forall|a: int, b: int| 0 <= a < b < picked.len() ==> picked[a] < picked[b]
}

/// `new_keys` and `new_values` hold the pairs at the indices `picked`.
spec fn copied_from(
    keys: Seq<Seq<char>>,
    values: Seq<i32>,
    picked: Seq<int>,
    new_keys: Seq<Seq<char>>,
    new_values: Seq<i32>,
) -> bool {
    &&& new_keys.len() == picked.len()
    &&& new_values.len() == picked.len()
    &&& forall|j: int|
        0 <= j < picked.len() ==> new_keys[j] == keys[#[trigger] picked[j]] && new_values[j]
            == values[picked[j]]
}

/// `picked` holds the indices of exactly those pairs that `p` accepts.
spec fn picks_accepted(
    keys: Seq<Seq<char>>,
    values: Seq<i32>,
    picked: Seq<int>,
    p: spec_fn(Seq<char>, i32) -> bool,
) -> bool {
    forall|t: int|
        0 <= t < keys.len() ==> (p(keys[t], values[t]) <==> #[trigger] picked.contains(t))
}

/// For each of the first `upto` stored pairs, `f` has answered whether its
/// index is in `picked`.
spec fn answered<F: Fn(&String, i32) -> bool>(
    f: F,
    stored: Seq<String>,
    values: Seq<i32>,
    picked: Seq<int>,
    upto: int,
) -> bool {
    forall|t: int|
        0 <= t < upto ==> call_ensures(f, (&stored[t], values[t]), #[trigger] picked.contains(t))
}

/// One more pair examined: index `i` joins `picked` exactly where `f`
/// answered true for the pair there.
proof fn lemma_answered_step<F: Fn(&String, i32) -> bool>(
    f: F,
    stored: Seq<String>,
    values: Seq<i32>,
    picked: Seq<int>,
    i: int,
    accepted: bool,
)
    requires
        0 <= i,
        rising_below(picked, i),
        answered(f, stored, values, picked, i),
        call_ensures(f, (&stored[i], values[i]), accepted),
    ensures
        accepted ==> answered(f, stored, values, picked.push(i), i + 1) && rising_below(
            picked.push(i),
            i + 1,
        ),
        !accepted ==> answered(f, stored, values, picked, i + 1) && rising_below(picked, i + 1),
{
    let picked2 = if accepted {
        picked.push(i)
    } else {
        picked
    };
    assert forall|t: int| 0 <= t < i + 1 implies call_ensures(
        f,
        (&stored[t], values[t]),
        #[trigger] picked2.contains(t),
    ) by {
        if t < i {
            assert(call_ensures(f, (&stored[t], values[t]), picked.contains(t)));
            if picked.contains(t) {
                let j = choose|j: int| 0 <= j < picked.len() && picked[j] == t;
                assert(picked2[j] == t);
            }
            if picked2.contains(t) {
                let j = choose|j: int| 0 <= j < picked2.len() && picked2[j] == t;
                assert(picked[j] == t);
            }
        } else {
            if accepted {
                assert(picked2[picked2.len() - 1] == t);
            } else if picked2.contains(t) {
                let j = choose|j: int| 0 <= j < picked2.len() && picked2[j] == t;
                assert(picked[j] < i);
            }
        }
    }
}

/// A source key is among the copied keys exactly where its index
/// was picked.
proof fn lemma_copied_contains(
    keys: Seq<Seq<char>>,
    values: Seq<i32>,
    picked: Seq<int>,
    new_keys: Seq<Seq<char>>,
    new_values: Seq<i32>,
    t: int,
)
    requires
        keys.no_duplicates(),
        keys.len() == values.len(),
        rising_below(picked, keys.len() as int),
        copied_from(keys, values, picked, new_keys, new_values),
        0 <= t < keys.len(),
    ensures
        new_keys.contains(keys[t]) <==> picked.contains(t),
{
    if new_keys.contains(keys[t]) {
        let j = new_keys.index_of(keys[t]);
        assert(new_keys[j] == keys[t]);
        assert(keys[picked[j]] == keys[t]);
        assert(picked[j] == t);
    }
    if picked.contains(t) {
        let j = choose|j: int| 0 <= j < picked.len() && picked[j] == t;
        assert(new_keys[j] == keys[t]);
    }
}

/// Pairs copied from distinct keys at rising indices have distinct keys, and
/// all of them are pairs of the source.
proof fn lemma_copied_submap(
    keys: Seq<Seq<char>>,
    values: Seq<i32>,
    picked: Seq<int>,
    new_keys: Seq<Seq<char>>,
    new_values: Seq<i32>,
)
    requires
        keys.no_duplicates(),
        keys.len() == values.len(),
        rising_below(picked, keys.len() as int),
        copied_from(keys, values, picked, new_keys, new_values),
    ensures
        new_keys.no_duplicates(),
        pairing(new_keys, new_values).submap_of(pairing(keys, values)),
{
    assert forall|a: int, b: int|
        0 <= a < new_keys.len() && 0 <= b < new_keys.len() && a != b implies new_keys[a]
        != new_keys[b] by {
        if a < b {
            assert(picked[a] < picked[b]);
        } else {
            assert(picked[b] < picked[a]);
        }
        assert(keys[picked[a]] != keys[picked[b]]);
    }
    lemma_pairing(keys, values);
    lemma_pairing(new_keys, new_values);
    assert forall|q: Seq<char>| #[trigger]
        pairing(new_keys, new_values).dom().contains(q) implies pairing(keys, values).dom().contains(
        q,
    ) && pairing(new_keys, new_values)[q] == pairing(keys, values)[q] by {
        let j = new_keys.index_of(q);
        assert(new_keys[j] == q);
        assert(keys[picked[j]] == q);
    }
}

/// Pairs copied from exactly the indices that `p` accepts are the pairs
/// that `p` accepts.
proof fn lemma_copied_kept(
    keys: Seq<Seq<char>>,
    values: Seq<i32>,
    picked: Seq<int>,
    new_keys: Seq<Seq<char>>,
    new_values: Seq<i32>,
    p: spec_fn(Seq<char>, i32) -> bool,
)
    requires
        keys.no_duplicates(),
        keys.len() == values.len(),
        rising_below(picked, keys.len() as int),
        copied_from(keys, values, picked, new_keys, new_values),
        picks_accepted(keys, values, picked, p),
    ensures
        pairing(new_keys, new_values) == kept_pairs(pairing(keys, values), p),
{
    lemma_copied_submap(keys, values, picked, new_keys, new_values);
    lemma_pairing(keys, values);
    lemma_pairing(new_keys, new_values);
    let old_map = pairing(keys, values);
    let new_map = pairing(new_keys, new_values);
    assert forall|q: Seq<char>| #[trigger] new_map.contains_key(q) implies kept_pairs(
        old_map,
        p,
    ).contains_key(q) by {
        let j = new_keys.index_of(q);
        assert(new_keys[j] == q);
        let t = picked[j];
        assert(keys[t] == q);
        assert(picked.contains(t));
    }
    assert forall|q: Seq<char>| #[trigger] kept_pairs(old_map, p).contains_key(
        q,
    ) implies new_map.contains_key(q) by {
        let t = keys.index_of(q);
        assert(keys[t] == q);
        assert(old_map[keys[t]] == values[t]);
        assert(picked.contains(t));
        let j = choose|j: int| 0 <= j < picked.len() && picked[j] == t;
        assert(new_keys[j] == q);
    }
    assert(new_map =~= kept_pairs(old_map, p));
}

/// A mapping from string keys to integers with at most one value per key.
///
/// Its view is the `Map` from each key's characters to the key's value. A
/// value of this type is well formed (`wf`) when no key occurs twice; every
/// constructor establishes that and every method preserves it.
pub struct Mapping {
    keys: Vec<String>,
    values: Vec<i32>,
}

impl View for Mapping {
    type V = Map<Seq<char>, i32>;

    closed spec fn view(&self) -> Map<Seq<char>, i32> {
        pairing(self.key_seq(), self.values@)
    }
}

impl Mapping {
    /// The characters of each stored key, in storage order.
    closed spec fn key_seq(&self) -> Seq<Seq<char>> {
        Seq::new(self.keys@.len(), |i: int| self.keys@[i]@)
    }

    /// Well-formedness: one value for each key, and no key twice.
    pub closed spec fn wf(&self) -> bool {
        &&& self.keys@.len() == self.values@.len()
        &&& self.key_seq().no_duplicates()
    }

    /// A well-formed mapping holds finitely many pairs.
    pub proof fn lemma_finite(&self)
        requires
            self.wf(),
        ensures
            self@.dom().finite(),
    {
        lemma_pairing_len(self.key_seq(), self.values@);
    }

    /// The empty mapping.
    pub fn new() -> (result: Mapping)
        ensures
            result.wf(),
            result@ == Map::<Seq<char>, i32>::empty(),
    {
        let result = Mapping { keys: Vec::new(), values: Vec::new() };
        proof {
            assert(result.key_seq() =~= Seq::<Seq<char>>::empty());
            assert(result@ =~= Map::<Seq<char>, i32>::empty());
        }
        result
    }

    /// The number of pairs.
    pub fn len(&self) -> (result: usize)
        requires
            self.wf(),
        ensures
            result == self@.len(),
    {
        proof {
            lemma_pairing_len(self.key_seq(), self.values@);
        }
        self.keys.len()
    }

    /// Every pair of the mapping, each key once, in no promised order.
    pub fn pairs(&self) -> (result: Vec<(String, i32)>)
        requires
            self.wf(),
        ensures
            result@.len() == self@.len(),
            forall|j: int|
                0 <= j < result@.len() ==> lookup(self@, (#[trigger] result@[j]).0@) == Some(
                    result@[j].1,
                ),
            forall|a: int, b: int|
                0 <= a < b < result@.len() ==> (#[trigger] result@[a]).0@ != (#[trigger] result@[b]).0@,
    {
        let mut result: Vec<(String, i32)> = Vec::new();
        let mut i: usize = 0;
        proof {
            lemma_pairing(self.key_seq(), self.values@);
            lemma_pairing_len(self.key_seq(), self.values@);
        }
        while i < self.keys.len()
            invariant
                self.wf(),
                i <= self.keys@.len(),
                result@.len() == i,
                forall|j: int|
                    0 <= j < i ==> (#[trigger] result@[j]).0@ == self.key_seq()[j] && result@[j].1
                        == self.values@[j],
            decreases self.keys@.len() - i,
        {
            let key: String = self.keys[i].clone();
            result.push((key, self.values[i]));
            i = i + 1;
        }
        proof {
            assert forall|j: int| 0 <= j < result@.len() implies lookup(
                self@,
                (#[trigger] result@[j]).0@,
            ) == Some(result@[j].1) by {
                assert(result@[j].0@ == self.key_seq()[j]);
            }
            assert forall|a: int, b: int| 0 <= a < b < result@.len() implies (#[trigger] result@[a]).0@
                != (#[trigger] result@[b]).0@ by {
                assert(result@[a].0@ == self.key_seq()[a]);
                assert(result@[b].0@ == self.key_seq()[b]);
            }
        }
        result
    }

    /// The storage index of `key`, if it is present.
    fn position(&self, key: &String) -> (result: Option<usize>)
        requires
            self.wf(),
        ensures
            match result {
                Some(i) => i < self.keys@.len() && self.key_seq()[i as int] == key@,
                None => !self.key_seq().contains(key@),
            },
    {
        let mut i: usize = 0;
        while i < self.keys.len()
            invariant
                i <= self.keys@.len(),
                forall|j: int| 0 <= j < i ==> #[trigger] self.key_seq()[j] != key@,
            decreases self.keys@.len() - i,
        {
            if self.keys[i] == *key {
                return Some(i);
            }
            i = i + 1;
        }
        None
    }

    /// The value of `key`, or `None` where `key` is absent.
    pub fn get(&self, key: &str) -> (result: Option<i32>)
        requires
            self.wf(),
        ensures
            result == lookup(self@, key@),
    {
        let owned: String = key.to_owned();
        proof {
            lemma_pairing(self.key_seq(), self.values@);
        }
        match self.position(&owned) {
            Some(i) => Some(self.values[i]),
            None => None,
        }
    }

    /// Sets the value of `key` to `value`, whether or not `key` was present.
    pub fn insert(&mut self, key: String, value: i32)
        requires
            old(self).wf(),
        ensures
            final(self).wf(),
            final(self)@ == old(self)@.insert(key@, value),
    {
        match self.position(&key) {
            Some(i) => {
                proof {
                    lemma_pairing_update(self.key_seq(), self.values@, i as int, value);
                }
                self.values.set(i, value);
            },
            None => {
                proof {
                    lemma_pairing_push(self.key_seq(), self.values@, key@, value);
                    assert(self.key_seq().push(key@) =~= Seq::new(
                        self.keys@.push(key).len(),
                        |j: int| self.keys@.push(key)[j]@,
                    ));
                }
                self.keys.push(key);
                self.values.push(value);
            },
        }
    }

    /// Sets the value of `key` to `value`; for a caller that has already
    /// decided to overwrite. Does what `insert` does.
    pub fn insert_unconditional(&mut self, key: String, value: i32)
        requires
            old(self).wf(),
        ensures
            final(self).wf(),
            final(self)@ == old(self)@.insert(key@, value),
    {
        self.insert(key, value);
    }

    /// Sets the value of `key` to `default` where `key` is absent, and leaves
    /// the mapping unchanged where it is present. Returns the value that
    /// `key` has afterwards.
    pub fn or_insert(&mut self, key: String, default: i32) -> (value: i32)
        requires
            old(self).wf(),
        ensures
            final(self).wf(),
            final(self)@ == inserted_if_absent(old(self)@, key@, default),
            value == final(self)@[key@],
    {
        proof {
            lemma_pairing(self.key_seq(), self.values@);
        }
        match self.position(&key) {
            Some(i) => self.values[i],
            None => {
                self.insert(key, default);
                default
            },
        }
    }

    /// Where `key` is absent, calls `f` and sets the value of `key` to what
    /// it returned; where `key` is present, leaves the mapping unchanged and
    /// does not call `f`. Returns the value that `key` has afterwards.
    ///
    /// `f` needs to be callable only where `key` is absent: this function is
    /// proved for an `f` that must not be called on a present key.
    pub fn or_insert_with<F: FnOnce() -> i32>(&mut self, key: String, f: F) -> (value: i32)
        requires
            old(self).wf(),
            !old(self)@.contains_key(key@) ==> call_requires(f, ()),
        ensures
            final(self).wf(),
            old(self)@.contains_key(key@) ==> final(self)@ == old(self)@,
            !old(self)@.contains_key(key@) ==> call_ensures(f, (), value),
            final(self)@ == inserted_if_absent(old(self)@, key@, value),
            value == final(self)@[key@],
    {
        proof {
            lemma_pairing(self.key_seq(), self.values@);
        }
        match self.position(&key) {
            Some(i) => self.values[i],
            None => {
                let default: i32 = f();
                self.insert(key, default);
                default
            },
        }
    }

    /// As `or_insert_with`, but `f` is given the key.
    pub fn or_insert_with_key<F: FnOnce(&String) -> i32>(&mut self, key: String, f: F) -> (value:
        i32)
        requires
            old(self).wf(),
            !old(self)@.contains_key(key@) ==> call_requires(f, (&key,)),
        ensures
            final(self).wf(),
            old(self)@.contains_key(key@) ==> final(self)@ == old(self)@,
            !old(self)@.contains_key(key@) ==> call_ensures(f, (&key,), value),
            final(self)@ == inserted_if_absent(old(self)@, key@, value),
            value == final(self)@[key@],
    {
        proof {
            lemma_pairing(self.key_seq(), self.values@);
        }
        match self.position(&key) {
            Some(i) => self.values[i],
            None => {
                let default: i32 = f(&key);
                self.insert(key, default);
                default
            },
        }
    }

    /// Removes the pairs that `f` rejects and leaves the others as they are.
    ///
    /// `f` must be callable on every pair of the mapping. A pair stays
    /// exactly where `f` answered true for it. Whatever mathematical
    /// predicate `f` decides, the mapping becomes the pairs of its old value
    /// that the predicate accepts.
    pub fn retain<F: Fn(&String, i32) -> bool>(&mut self, f: F)
        requires
            old(self).wf(),
            forall|k: String, v: i32|
                old(self)@.contains_key(k@) && old(self)@[k@] == v ==> call_requires(f, (&k, v)),
        ensures
            final(self).wf(),
            final(self)@.submap_of(old(self)@),
            forall|k: Seq<char>| #[trigger]
                old(self)@.contains_key(k) ==> exists|key: String|
                    key@ == k && #[trigger] call_ensures(
                        f,
                        (&key, old(self)@[k]),
                        final(self)@.contains_key(k),
                    ),
            forall|p: spec_fn(Seq<char>, i32) -> bool| #[trigger]
                decides_pair(f, p) ==> final(self)@ == kept_pairs(old(self)@, p),
    {
        let ghost stored = self.keys@;
        let ghost keys = self.key_seq();
        let ghost values = self.values@;
        let mut new_keys: Vec<String> = Vec::new();
        let mut new_values: Vec<i32> = Vec::new();
        let ghost mut picked: Seq<int> = Seq::empty();
        let ghost mut new_key_seq: Seq<Seq<char>> = Seq::empty();
        let mut i: usize = 0;
        proof {
            lemma_pairing(keys, values);
        }
        while i < self.keys.len()
            invariant
                self.wf(),
                stored == self.keys@,
                keys == self.key_seq(),
                values == self.values@,
                i <= keys.len(),
                forall|k: String, v: i32|
                    self@.contains_key(k@) && self@[k@] == v ==> call_requires(f, (&k, v)),
                new_key_seq.len() == new_keys@.len(),
                forall|j: int| 0 <= j < new_keys@.len() ==> new_key_seq[j] == #[trigger] new_keys@[j]@,
                rising_below(picked, i as int),
                copied_from(keys, values, picked, new_key_seq, new_values@),
                answered(f, stored, values, picked, i as int),
            decreases keys.len() - i,
        {
            let value: i32 = self.values[i];
            proof {
                lemma_pairing(keys, values);
                assert(keys[i as int] == self.keys@[i as int]@);
                assert(self@.contains_key(keys[i as int]));
            }
            let accepted: bool = f(&self.keys[i], value);
            proof {
                lemma_answered_step(f, stored, values, picked, i as int, accepted);
            }
            if accepted {
                let key: String = self.keys[i].clone();
                new_keys.push(key);
                new_values.push(value);
                proof {
                    picked = picked.push(i as int);
                    new_key_seq = new_key_seq.push(keys[i as int]);
                }
            }
            i = i + 1;
        }
        proof {
            lemma_copied_submap(keys, values, picked, new_key_seq, new_values@);
            lemma_pairing(keys, values);
            lemma_pairing(new_key_seq, new_values@);
            let new_map = pairing(new_key_seq, new_values@);
            assert forall|k: Seq<char>| #[trigger] self@.contains_key(k) implies exists|key: String|
                key@ == k && #[trigger] call_ensures(f, (&key, self@[k]), new_map.contains_key(k)) by {
                let t = keys.index_of(k);
                assert(keys[t] == k);
                assert(self@[keys[t]] == values[t]);
                lemma_copied_contains(keys, values, picked, new_key_seq, new_values@, t);
                let key = stored[t];
                assert(call_ensures(f, (&key, values[t]), picked.contains(t)));
                assert(new_map.contains_key(k) == picked.contains(t));
                assert(key@ == k && call_ensures(f, (&key, self@[k]), new_map.contains_key(k)));
            }
            assert forall|p: spec_fn(Seq<char>, i32) -> bool| #[trigger]
                decides_pair(f, p) implies new_map == kept_pairs(pairing(keys, values), p) by {
                assert forall|t: int| 0 <= t < keys.len() implies (p(keys[t], values[t])
                    <==> #[trigger] picked.contains(t)) by {
                    assert(call_ensures(f, (&stored[t], values[t]), picked.contains(t)));
                    assert(keys[t] == stored[t]@);
                }
                lemma_copied_kept(keys, values, picked, new_key_seq, new_values@, p);
            }
            assert(new_key_seq =~= Seq::new(new_keys@.len(), |j: int| new_keys@[j]@));
        }
        self.keys = new_keys;
        self.values = new_values;
    }
}

} // verus!
