//! A map from texts to values that walks its keys in order.
use crate::text::{
    distinct, distinct_is_unique, is_distinct, same_text, strictly_sorted, text_less, text_lt,
    text_lt_irreflexive, text_lt_total, text_lt_transitive, texts,
};
use vstd::prelude::*;

verus! {

/// A map keyed by text, kept as a sorted list. Its view is the map.
pub struct TextMap<V> {
    entries: Vec<(String, V)>,
}

spec fn keys_of<V>(entries: Seq<(String, V)>) -> Seq<Seq<char>> {
    Seq::new(entries.len(), |i: int| entries[i].0@)
}

impl<V> View for TextMap<V> {
    type V = Map<Seq<char>, V>;

    closed spec fn view(&self) -> Map<Seq<char>, V> {
        Map::new(
            |k: Seq<char>| keys_of(self.entries@).contains(k),
            |k: Seq<char>| self.entries@[keys_of(self.entries@).index_of(k)].1,
        )
    }
}

/// In a strictly sorted list a key stands in one place.
proof fn index_is_unique(ks: Seq<Seq<char>>, i: int)
    requires
        strictly_sorted(ks),
        0 <= i < ks.len(),
    ensures
        ks.contains(ks[i]),
        ks.index_of(ks[i]) == i,
{
    let j = ks.index_of(ks[i]);
    assert(ks.contains(ks[i]));
    assert(0 <= j < ks.len() && ks[j] == ks[i]);
    text_lt_irreflexive(ks[i]);
    if j < i {
        assert(text_lt(ks[j], ks[i]));
    }
    if i < j {
        assert(text_lt(ks[i], ks[j]));
    }
}

impl<V> TextMap<V> {
    #[verifier::type_invariant]
    spec fn wf(&self) -> bool {
        strictly_sorted(keys_of(self.entries@))
    }

    /// The keys, in order.
    pub closed spec fn order(&self) -> Seq<Seq<char>> {
        keys_of(self.entries@)
    }

    /// The order is sorted and holds exactly the keys of the map.
    pub open spec fn ordered(&self) -> bool {
        &&& strictly_sorted(self.order())
        &&& forall|k: Seq<char>| #[trigger] self@.contains_key(k) <==> self.order().contains(k)
    }

    /// A map without keys.
    pub fn new() -> (m: TextMap<V>)
        ensures
            m@ == Map::<Seq<char>, V>::empty(),
            m.order() == Seq::<Seq<char>>::empty(),
    {
        let m = TextMap { entries: Vec::new() };
        assert(m@ =~= Map::<Seq<char>, V>::empty());
        assert(m.order() =~= Seq::<Seq<char>>::empty());
        m
    }

    /// The place of `key`, or where it would stand.
    fn place(&self, key: &str) -> (r: (usize, bool))
        ensures
            r.0 <= self.entries.len(),
            r.1 ==> r.0 < self.entries.len() && self.order()[r.0 as int] == key@,
            r.1 == self@.contains_key(key@),
            forall|i: int| 0 <= i < r.0 ==> text_lt(#[trigger] self.order()[i], key@),
            !r.1 ==> forall|i: int|
                r.0 <= i < self.entries.len() ==> text_lt(key@, #[trigger] self.order()[i]),
    {
        proof {
            use_type_invariant(self);
        }
        let ghost ks = self.order();
        let mut lo: usize = 0;
        let mut hi: usize = self.entries.len();
        while lo < hi
            invariant
                ks == self.order(),
                strictly_sorted(ks),
                lo <= hi <= self.entries.len(),
                forall|i: int| 0 <= i < lo ==> text_lt(#[trigger] ks[i], key@),
                forall|i: int| hi <= i < self.entries.len() ==> !text_lt(#[trigger] ks[i], key@),
            decreases hi - lo,
        {
            let mid: usize = lo + (hi - lo) / 2;
            assert(ks[mid as int] == self.entries@[mid as int].0@);
            if text_less(&self.entries[mid].0, key) {
                proof {
                    assert forall|i: int| 0 <= i < mid + 1 implies text_lt(
                        #[trigger] ks[i],
                        key@,
                    ) by {
                        if i < mid {
                            text_lt_transitive(ks[i], ks[mid as int], key@);
                        }
                    }
                }
                lo = mid + 1;
            } else {
                proof {
                    assert forall|i: int| mid <= i < self.entries.len() implies !text_lt(
                        #[trigger] ks[i],
                        key@,
                    ) by {
                        if mid < i && text_lt(ks[i], key@) {
                            text_lt_transitive(ks[mid as int], ks[i], key@);
                        }
                    }
                }
                hi = mid;
            }
        }
        let found = lo < self.entries.len() && same_text(&self.entries[lo].0, key);
        proof {
            assert(lo < ks.len() ==> ks[lo as int] == self.entries@[lo as int].0@);
            assert forall|i: int| lo <= i < self.entries.len() && !found implies text_lt(
                key@,
                #[trigger] ks[i],
            ) by {
                text_lt_total(key@, ks[i]);
                if ks[i] == key@ && lo < i {
                    assert(text_lt(ks[lo as int], ks[i]));
                }
            }
            if found {
                assert(ks.contains(ks[lo as int]));
            }
            if ks.contains(key@) {
                let j = ks.index_of(key@);
                text_lt_irreflexive(key@);
                assert(ks[j] == key@);
            }
        }
        (lo, found)
    }

    /// The value of `key`.
    pub fn get(&self, key: &str) -> (r: Option<&V>)
        ensures
            match r {
                Some(v) => self@.contains_key(key@) && self@[key@] == *v,
                None => !self@.contains_key(key@),
            },
    {
        let (i, found) = self.place(key);
        if found {
            proof {
                use_type_invariant(self);
                index_is_unique(self.order(), i as int);
            }
            Some(&self.entries[i].1)
        } else {
            None
        }
    }

    /// Whether the map holds `key`.
    pub fn contains(&self, key: &str) -> (b: bool)
        ensures
            b == self@.contains_key(key@),
    {
        self.place(key).1
    }

    /// How many keys the map holds.
    pub fn len(&self) -> (n: usize)
        ensures
            n == self.order().len(),
            self.ordered(),
    {
        proof {
            use_type_invariant(self);
        }
        self.entries.len()
    }

    /// The key at place `i` of the order.
    pub fn key_at(&self, i: usize) -> (k: &String)
        requires
            i < self.order().len(),
        ensures
            k@ == self.order()[i as int],
    {
        &self.entries[i].0
    }

    /// The value of the key at place `i` of the order.
    pub fn value_at(&self, i: usize) -> (v: &V)
        requires
            i < self.order().len(),
        ensures
            self@.contains_key(self.order()[i as int]),
            *v == self@[self.order()[i as int]],
    {
        proof {
            use_type_invariant(self);
            index_is_unique(self.order(), i as int);
        }
        &self.entries[i].1
    }

    /// The keys and values, in order.
    pub fn into_entries(self) -> (out: Vec<(String, V)>)
        ensures
            out.len() == self.order().len(),
            forall|i: int|
                0 <= i < out.len() ==> (#[trigger] out@[i]).0@ == self.order()[i]
                    && self@.contains_key(out@[i].0@) && out@[i].1 == self@[out@[i].0@],
            self.ordered(),
    {
        proof {
            use_type_invariant(&self);
            assert forall|i: int| 0 <= i < self.entries.len() implies (
            #[trigger] self.entries@[i]).0@ == self.order()[i] && self@.contains_key(
                self.entries@[i].0@,
            ) && self.entries@[i].1 == self@[self.entries@[i].0@] by {
                index_is_unique(self.order(), i);
            }
        }
        self.entries
    }

    /// Sets the value of `key`.
    pub fn insert(&mut self, key: String, value: V)
        ensures
            final(self)@ == old(self)@.insert(key@, value),
    {
        let (i, found) = self.place(&key);
        proof {
            use_type_invariant(&*self);
        }
        let ghost k0 = self.order();
        let ghost e0 = self.entries@;
        let ghost m0 = self@;
        let ghost key_text = key@;
        let mut entries: Vec<(String, V)> = Vec::new();
        std::mem::swap(&mut entries, &mut self.entries);
        if found {
            entries.set(i, (key, value));
            proof {
                assert(keys_of(entries@) =~= k0);
            }
        } else {
            entries.insert(i, (key, value));
            proof {
                assert(keys_of(entries@) =~= k0.insert(i as int, key_text));
                let ks = keys_of(entries@);
                assert forall|a: int, b: int| 0 <= a < b < ks.len() implies text_lt(
                    #[trigger] ks[a],
                    #[trigger] ks[b],
                ) by {
                    if a < i && i < b {
                        text_lt_transitive(k0[a], key_text, k0[b - 1]);
                    } else if a < i && b < i {
                        assert(text_lt(k0[a], k0[b]));
                    } else if a < i {
                        assert(text_lt(k0[a], key_text));
                    } else if a == i {
                        assert(text_lt(key_text, k0[b - 1]));
                    } else {
                        assert(text_lt(k0[a - 1], k0[b - 1]));
                    }
                }
            }
        }
        let ghost ks = keys_of(entries@);
        proof {
            let now = TextMap { entries };
            let want = m0.insert(key_text, value);
            assert(ks[i as int] == key_text);
            index_is_unique(ks, i as int);
            assert forall|k: Seq<char>| now@.contains_key(k) == want.contains_key(k) by {
                if k0.contains(k) {
                    let j = k0.index_of(k);
                    assert(k0[j] == k);
                    if found || j < i {
                        assert(ks[j] == k);
                    } else {
                        assert(ks[j + 1] == k);
                    }
                }
                if ks.contains(k) && k != key_text {
                    let j = ks.index_of(k);
                    assert(ks[j] == k);
                    if found || j < i {
                        assert(k0[j] == k);
                    } else {
                        assert(k0[j - 1] == k);
                    }
                }
            }
            assert forall|k: Seq<char>| now@.contains_key(k) implies now@[k] == want[k] by {
                let j = ks.index_of(k);
                assert(ks[j] == k);
                if k != key_text {
                    if found || j < i {
                        assert(k0[j] == k);
                        index_is_unique(k0, j);
                    } else {
                        assert(k0[j - 1] == k);
                        index_is_unique(k0, j - 1);
                    }
                }
            }
            assert(now@ =~= want);
        }
        self.entries = entries;
    }
}

/// The items listed under `key`, none where the map does not hold it.
pub open spec fn items_at<T>(m: Map<Seq<char>, Vec<T>>, key: Seq<char>) -> Seq<T> {
    if m.contains_key(key) {
        m[key]@
    } else {
        Seq::empty()
    }
}

/// The texts listed under `key`, none where the map does not hold it.
pub open spec fn listed(m: Map<Seq<char>, Vec<String>>, key: Seq<char>) -> Seq<Seq<char>> {
    if m.contains_key(key) {
        texts(m[key]@)
    } else {
        Seq::empty()
    }
}

impl<T> TextMap<Vec<T>> {
    /// Appends `item` to the list of `key`.
    pub fn push_item(&mut self, key: String, item: T)
        ensures
            final(self)@.dom() == old(self)@.dom().insert(key@),
            items_at(final(self)@, key@) == items_at(old(self)@, key@).push(item),
            forall|k: Seq<char>|
                k != key@ ==> #[trigger] items_at(final(self)@, k) == items_at(old(self)@, k),
    {
        let ghost m0 = self@;
        let ghost key_text = key@;
        let (i, found) = self.place(&key);
        proof {
            use_type_invariant(&*self);
        }
        if !found {
            let mut list: Vec<T> = Vec::new();
            list.push(item);
            self.insert(key, list);
        } else {
            let ghost ks = self.order();
            proof {
                index_is_unique(ks, i as int);
            }
            let mut entries: Vec<(String, Vec<T>)> = Vec::new();
            std::mem::swap(&mut entries, &mut self.entries);
            let (own, mut list) = entries.remove(i);
            list.push(item);
            entries.insert(i, (own, list));
            proof {
                assert(keys_of(entries@) =~= ks);
                let now = TextMap { entries };
                assert forall|k: Seq<char>| k != key_text && now@.contains_key(k) implies now@[k]
                    == m0[k] by {
                    assert(ks[ks.index_of(k)] == k);
                }
                assert(now@.dom() =~= m0.dom());
            }
            self.entries = entries;
        }
        assert(self@.dom() =~= m0.dom().insert(key_text));
    }
}

impl TextMap<Vec<String>> {
    /// Appends `item` to the list of `key`.
    pub fn push_to(&mut self, key: String, item: String)
        ensures
            final(self)@.dom() == old(self)@.dom().insert(key@),
            listed(final(self)@, key@) == listed(old(self)@, key@).push(item@),
            forall|k: Seq<char>|
                k != key@ ==> #[trigger] listed(final(self)@, k) == listed(old(self)@, k),
    {
        let ghost key_text = key@;
        let ghost item_text = item@;
        self.push_item(key, item);
        proof {
            let now = self@;
            assert(texts(items_at(now, key_text)) == listed(now, key_text));
            assert(texts(items_at(old(self)@, key_text)) =~= listed(old(self)@, key_text));
            assert(listed(now, key_text) =~= listed(old(self)@, key_text).push(item_text));
            assert forall|k: Seq<char>| k != key_text implies #[trigger] listed(self@, k)
                == listed(old(self)@, k) by {
                assert(items_at(self@, k) == items_at(old(self)@, k));
                assert(texts(items_at(self@, k)) =~= listed(self@, k));
                assert(texts(items_at(old(self)@, k)) =~= listed(old(self)@, k));
            }
        }
    }
}

/// The strings, each once, sorted.
pub fn distinct_sorted(v: &Vec<String>) -> (out: Vec<String>)
    ensures
        texts(out@) == distinct(texts(v@)),
        is_distinct(texts(out@), texts(v@)),
{
    let ghost model = texts(v@);
    let mut set: TextMap<()> = TextMap::new();
    let mut i: usize = 0;
    while i < v.len()
        invariant
            i <= v.len(),
            model == texts(v@),
            forall|t: Seq<char>| #[trigger]
                set@.contains_key(t) <==> exists|j: int| 0 <= j < i && #[trigger] model[j] == t,
        decreases v.len() - i,
    {
        let ghost before = set@;
        assert(model[i as int] == v@[i as int]@);
        set.insert(v[i].clone(), ());
        proof {
            assert forall|t: Seq<char>| #[trigger] set@.contains_key(t) <==> exists|j: int|
                0 <= j < i + 1 && #[trigger] model[j] == t by {
                if set@.contains_key(t) && t != model[i as int] {
                    assert(before.contains_key(t));
                }
                if exists|j: int| 0 <= j < i + 1 && #[trigger] model[j] == t {
                    let j = choose|j: int| 0 <= j < i + 1 && #[trigger] model[j] == t;
                    if j < i {
                        assert(before.contains_key(t));
                    }
                }
            }
        }
        i = i + 1;
    }
    let n = set.len();
    let ghost order = set.order();
    let mut out: Vec<String> = Vec::new();
    let mut k: usize = 0;
    while k < n
        invariant
            k <= n == order.len(),
            order == set.order(),
            out.len() == k,
            forall|j: int| 0 <= j < k ==> #[trigger] out@[j]@ == order[j],
        decreases n - k,
    {
        out.push(set.key_at(k).clone());
        k = k + 1;
    }
    proof {
        assert(texts(out@) =~= order);
        assert forall|t: Seq<char>|
            #![trigger order.contains(t)]
            order.contains(t) <==> model.contains(t) by {
            assert(set@.contains_key(t) <==> order.contains(t));
            if model.contains(t) {
                let j = model.index_of(t);
                assert(model[j] == t);
            }
        }
        distinct_is_unique(order, model);
    }
    out
}

} // verus!
