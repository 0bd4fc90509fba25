//! The keyed values and the tags a command or a closure carries, each kept in
//! sorted order with nothing in it twice.

use vstd::prelude::*;

use crate::text;

verus! {

/// The keys of a list of keyed values.
pub open spec fn keys(entries: Seq<(Seq<char>, Seq<char>)>) -> Seq<Seq<char>> {
    Seq::new(entries.len(), |i: int| entries[i].0)
}

/// Whether `key` has a value here.
pub open spec fn has_key(entries: Seq<(Seq<char>, Seq<char>)>, key: Seq<char>) -> bool {
    exists|i: int| 0 <= i < entries.len() && (#[trigger] entries[i]).0 == key
}

/// Where `key` is, if it is here at all.
pub open spec fn place_of(entries: Seq<(Seq<char>, Seq<char>)>, key: Seq<char>) -> int {
    choose|i: int| 0 <= i < entries.len() && (#[trigger] entries[i]).0 == key
}

/// The value `key` has here.
pub open spec fn value_of(entries: Seq<(Seq<char>, Seq<char>)>, key: Seq<char>) -> Seq<char> {
    entries[place_of(entries, key)].1
}

/// What a list of keyed values says, whatever order it says it in.
pub open spec fn as_map(entries: Seq<(Seq<char>, Seq<char>)>) -> Map<Seq<char>, Seq<char>> {
    Map::new(|key: Seq<char>| has_key(entries, key), |key: Seq<char>| value_of(entries, key))
}

/// Values by key, in key order.
#[derive(Debug)]
pub struct Fields {
    entries: Vec<(String, String)>,
}

impl View for Fields {
    type V = Seq<(Seq<char>, Seq<char>)>;

    closed spec fn view(&self) -> Seq<(Seq<char>, Seq<char>)> {
        Seq::new(self.entries@.len(), |i: int| (self.entries@[i].0@, self.entries@[i].1@))
    }
}

impl Fields {
    /// In key order, with no key in it twice.
    #[verifier::type_invariant]
    pub open spec fn in_order(self) -> bool {
        text::increasing(keys(self@))
    }

    pub fn new() -> (r: Fields)
        ensures
            r@ == Seq::<(Seq<char>, Seq<char>)>::empty(),
    {
        let r = Fields { entries: Vec::new() };
        assert(r@ =~= Seq::<(Seq<char>, Seq<char>)>::empty());
        r
    }

    pub fn len(&self) -> (r: usize)
        ensures
            r == self@.len(),
            text::increasing(keys(self@)),
    {
        proof {
            use_type_invariant(self);
        }
        self.entries.len()
    }

    pub fn key(&self, i: usize) -> (r: &str)
        requires
            i < self@.len(),
        ensures
            r@ == self@[i as int].0,
    {
        self.entries[i].0.as_str()
    }

    pub fn value(&self, i: usize) -> (r: &str)
        requires
            i < self@.len(),
        ensures
            r@ == self@[i as int].1,
    {
        self.entries[i].1.as_str()
    }

    /// The value under `key`, if there is one.
    pub fn get(&self, key: &str) -> (r: Option<&str>)
        ensures
            r is Some <==> as_map(self@).contains_key(key@),
            r matches Some(value) ==> value@ == as_map(self@)[key@],
    {
        proof {
            use_type_invariant(self);
        }
        for i in 0..self.entries.len()
            invariant
                text::increasing(keys(self@)),
                forall|j: int| 0 <= j < i ==> (#[trigger] self@[j]).0 != key@,
        {
            if text::same(self.entries[i].0.as_str(), key) {
                proof {
                    assert(self@[i as int].0 == key@);
                    lemma_value(self@, i as int);
                }
                return Some(self.entries[i].1.as_str());
            }
            assert(self@[i as int].0 != key@);
        }
        None
    }

    /// With `key` set to `value`, whatever it was before.
    pub fn insert(self, key: String, value: String) -> (r: Fields)
        ensures
            text::increasing(keys(r@)),
            as_map(r@) == as_map(self@).insert(key@, value@),
    {
        proof {
            use_type_invariant(&self);
        }
        let ghost old = self@;
        let mut entries = self.entries;
        let mut at: usize = 0;
        while at < entries.len() && text::sorts_before(entries[at].0.as_str(), key.as_str())
            invariant
                at <= entries@.len(),
                entries@ == self.entries@,
                old == self@,
                forall|j: int| 0 <= j < at ==> text::before((#[trigger] old[j]).0, key@),
            decreases entries@.len() - at,
        {
            at = at + 1;
        }
        let ghost k = key@;
        let ghost v = value@;
        if at < entries.len() && text::same(entries[at].0.as_str(), key.as_str()) {
            entries[at] = (key, value);
            let ghost new = old.update(at as int, (k, v));
            let ghost r0 = Fields { entries };
            proof {
                assert(r0@ =~= new);
                assert(keys(new) =~= keys(old));
                lemma_update(old, at as int, v);
            }
            Fields { entries }
        } else {
            proof {
                if at < entries@.len() {
                    text::lemma_before_total(old[at as int].0, k);
                }
                lemma_insert(old, at as int, k, v);
            }
            entries.insert(at, (key, value));
            let ghost new = old.insert(at as int, (k, v));
            let ghost r0 = Fields { entries };
            assert(r0@ =~= new);
            Fields { entries }
        }
    }
}

impl Clone for Fields {
    fn clone(&self) -> (r: Fields)
        ensures
            r@ == self@,
    {
        proof {
            use_type_invariant(self);
        }
        let mut entries: Vec<(String, String)> = Vec::new();
        for i in 0..self.entries.len()
            invariant
                entries@ == self.entries@.take(i as int),
        {
            entries.push((self.entries[i].0.clone(), self.entries[i].1.clone()));
            assert(entries@ =~= self.entries@.take(i + 1));
        }
        let ghost r0 = Fields { entries };
        assert(r0@ =~= self@);
        Fields { entries }
    }
}

/// A key's value is wherever the key is.
proof fn lemma_value(entries: Seq<(Seq<char>, Seq<char>)>, i: int)
    requires
        text::increasing(keys(entries)),
        0 <= i < entries.len(),
    ensures
        has_key(entries, entries[i].0),
        value_of(entries, entries[i].0) == entries[i].1,
{
    let key = entries[i].0;
    assert(has_key(entries, key));
    let j = place_of(entries, key);
    text::lemma_before_irreflexive(key);
    assert(keys(entries)[i] == key);
    assert(keys(entries)[j] == key);
    assert(i == j);
}

proof fn lemma_update(old: Seq<(Seq<char>, Seq<char>)>, at: int, v: Seq<char>)
    requires
        text::increasing(keys(old)),
        0 <= at < old.len(),
    ensures
        as_map(old.update(at, (old[at].0, v))) == as_map(old).insert(old[at].0, v),
{
    let k = old[at].0;
    let new = old.update(at, (k, v));
    assert(keys(new) =~= keys(old));
    lemma_same_map(new, old, at, k, v);
}

proof fn lemma_insert(old: Seq<(Seq<char>, Seq<char>)>, at: int, k: Seq<char>, v: Seq<char>)
    requires
        text::increasing(keys(old)),
        0 <= at <= old.len(),
        forall|j: int| 0 <= j < at ==> text::before((#[trigger] old[j]).0, k),
        at < old.len() ==> text::before(k, old[at].0),
    ensures
        text::increasing(keys(old.insert(at, (k, v)))),
        as_map(old.insert(at, (k, v))) == as_map(old).insert(k, v),
{
    let new = old.insert(at, (k, v));
    assert forall|j: int| at <= j < old.len() implies text::before(k, (#[trigger] old[j]).0) by {
        if j > at {
            assert(text::before(keys(old)[at], keys(old)[j]));
            text::lemma_before_transitive(k, old[at].0, old[j].0);
        }
    }
    assert forall|i: int, j: int| 0 <= i < j < new.len() implies text::before(
        #[trigger] keys(new)[i],
        #[trigger] keys(new)[j],
    ) by {
        let oi = if i < at { i } else { i - 1 };
        let oj = if j < at { j } else { j - 1 };
        if i != at {
            assert(new[i] == old[oi]);
        }
        if j != at {
            assert(new[j] == old[oj]);
        }
        if i != at && j != at {
            assert(text::before(keys(old)[oi], keys(old)[oj]));
        }
    }
    lemma_same_map(new, old, at, k, v);
}

/// Two lists that agree everywhere but at `k`, where the new one says `v`.
proof fn lemma_same_map(
    new: Seq<(Seq<char>, Seq<char>)>,
    old: Seq<(Seq<char>, Seq<char>)>,
    at: int,
    k: Seq<char>,
    v: Seq<char>,
)
    requires
        text::increasing(keys(new)),
        text::increasing(keys(old)),
        0 <= at <= old.len(),
        new == old.insert(at, (k, v)) || at < old.len() && old[at].0 == k && new == old.update(
            at,
            (k, v),
        ),
    ensures
        as_map(new) == as_map(old).insert(k, v),
{
    let grown = new.len() > old.len();
    assert(new[at] == (k, v));
    lemma_value(new, at);
    let ghost left = as_map(new);
    let ghost right = as_map(old).insert(k, v);
    assert forall|key: Seq<char>| left.contains_key(key) <==> right.contains_key(key) by {
        if key != k {
            if has_key(new, key) {
                let i = choose|i: int| 0 <= i < new.len() && (#[trigger] new[i]).0 == key;
                let o = if grown && i > at { i - 1 } else { i };
                assert(old[o] == new[i]);
            }
            if has_key(old, key) {
                let o = choose|o: int| 0 <= o < old.len() && (#[trigger] old[o]).0 == key;
                let i = if grown && o >= at { o + 1 } else { o };
                assert(new[i] == old[o]);
            }
        }
    }
    assert forall|key: Seq<char>| left.contains_key(key) implies left[key] == right[key] by {
        if key != k {
            let i = choose|i: int| 0 <= i < new.len() && (#[trigger] new[i]).0 == key;
            let o = if grown && i > at { i - 1 } else { i };
            assert(old[o] == new[i]);
            lemma_value(new, i);
            lemma_value(old, o);
        }
    }
    assert(left =~= right);
}

/// Tags, in order.
#[derive(Debug)]
pub struct Tags {
    items: Vec<String>,
}

impl View for Tags {
    type V = Seq<Seq<char>>;

    closed spec fn view(&self) -> Seq<Seq<char>> {
        text::texts(self.items@)
    }
}

impl Tags {
    /// In order, with no tag in it twice.
    #[verifier::type_invariant]
    pub open spec fn in_order(self) -> bool {
        text::increasing(self@)
    }

    pub fn new() -> (r: Tags)
        ensures
            r@ == Seq::<Seq<char>>::empty(),
    {
        let r = Tags { items: Vec::new() };
        assert(r@ =~= Seq::<Seq<char>>::empty());
        r
    }

    pub fn len(&self) -> (r: usize)
        ensures
            r == self@.len(),
            text::increasing(self@),
    {
        proof {
            use_type_invariant(self);
        }
        self.items.len()
    }

    pub fn tag(&self, i: usize) -> (r: &str)
        requires
            i < self@.len(),
        ensures
            r@ == self@[i as int],
    {
        self.items[i].as_str()
    }

    pub fn contains(&self, tag: &str) -> (r: bool)
        ensures
            r == self@.contains(tag@),
    {
        for i in 0..self.items.len()
            invariant
                forall|j: int| 0 <= j < i ==> #[trigger] self@[j] != tag@,
        {
            if text::same(self.items[i].as_str(), tag) {
                assert(self@[i as int] == tag@);
                return true;
            }
            assert(self@[i as int] != tag@);
        }
        false
    }

    /// With `tag` among them.
    pub fn insert(self, tag: String) -> (r: Tags)
        ensures
            text::increasing(r@),
            forall|t: Seq<char>| r@.contains(t) <==> self@.contains(t) || t == tag@,
    {
        proof {
            use_type_invariant(&self);
        }
        let ghost old = self@;
        let mut items = self.items;
        let mut at: usize = 0;
        while at < items.len() && text::sorts_before(items[at].as_str(), tag.as_str())
            invariant
                at <= items@.len(),
                items@ == self.items@,
                old == self@,
                forall|j: int| 0 <= j < at ==> text::before(#[trigger] old[j], tag@),
            decreases items@.len() - at,
        {
            at = at + 1;
        }
        if at < items.len() && text::same(items[at].as_str(), tag.as_str()) {
            assert(old[at as int] == tag@);
            let r = Tags { items };
            assert(r@ =~= old);
            r
        } else {
            let ghost t = tag@;
            proof {
                if at < items@.len() {
                    text::lemma_before_total(old[at as int], t);
                }
                lemma_insert_tag(old, at as int, t);
            }
            items.insert(at, tag);
            let ghost r0 = Tags { items };
            assert(r0@ =~= old.insert(at as int, t));
            Tags { items }
        }
    }

    /// The tags themselves.
    pub fn into_vec(self) -> (r: Vec<String>)
        ensures
            text::texts(r@) == self@,
            text::increasing(self@),
    {
        proof {
            use_type_invariant(&self);
        }
        self.items
    }
}

impl Clone for Tags {
    fn clone(&self) -> (r: Tags)
        ensures
            r@ == self@,
    {
        proof {
            use_type_invariant(self);
        }
        Tags { items: text::copied(&self.items) }
    }
}

proof fn lemma_insert_tag(old: Seq<Seq<char>>, at: int, t: Seq<char>)
    requires
        text::increasing(old),
        0 <= at <= old.len(),
        forall|j: int| 0 <= j < at ==> text::before(#[trigger] old[j], t),
        at < old.len() ==> text::before(t, old[at]),
    ensures
        text::increasing(old.insert(at, t)),
        forall|x: Seq<char>|
            #![trigger old.insert(at, t).contains(x)]
            old.insert(at, t).contains(x) <==> old.contains(x) || x == t,
{
    let new = old.insert(at, t);
    assert forall|j: int| at <= j < old.len() implies text::before(t, #[trigger] old[j]) by {
        if j > at {
            text::lemma_before_transitive(t, old[at], old[j]);
        }
    }
    assert forall|i: int, j: int| 0 <= i < j < new.len() implies text::before(
        #[trigger] new[i],
        #[trigger] new[j],
    ) by {
        let oi = if i < at { i } else { i - 1 };
        let oj = if j < at { j } else { j - 1 };
        if i != at {
            assert(new[i] == old[oi]);
        }
        if j != at {
            assert(new[j] == old[oj]);
        }
    }
    assert forall|x: Seq<char>| #[trigger] new.contains(x) <==> old.contains(x) || x == t by {
        if new.contains(x) && x != t {
            let i = choose|i: int| 0 <= i < new.len() && new[i] == x;
            let o = if i < at { i } else { i - 1 };
            assert(old[o] == x);
        }
        if old.contains(x) {
            let o = choose|o: int| 0 <= o < old.len() && old[o] == x;
            let i = if o < at { o } else { o + 1 };
            assert(new[i] == x);
        }
        if x == t {
            assert(new[at] == x);
        }
    }
}

/// A list of fields says of a key what stands beside it, and nothing of a key that is
/// not there.
pub proof fn a_key_has_the_value_beside_it(
    entries: Seq<(Seq<char>, Seq<char>)>,
    i: int,
    key: Seq<char>,
)
    requires
        text::increasing(keys(entries)),
        0 <= i < entries.len(),
    ensures
        as_map(entries).contains_key(entries[i].0),
        as_map(entries)[entries[i].0] == entries[i].1,
        has_key(entries, entries[i].0),
        value_of(entries, entries[i].0) == entries[i].1,
        as_map(entries).contains_key(key) <==> exists|k: int|
            0 <= k < entries.len() && (#[trigger] entries[k]).0 == key,
        keys(entries).len() == entries.len(),
        keys(entries)[i] == entries[i].0,
{
    lemma_value(entries, i);
}

} // verus!
