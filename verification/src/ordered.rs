//! Maps and sets keyed by text, kept as vectors in key order.

use vstd::prelude::*;
use crate::text::lemma_text_lt_asymmetric;
use crate::text::lemma_text_lt_total;
use crate::text::lemma_text_lt_transitive;
use crate::text::text_less;
use crate::text::text_lt;

verus! {

/// Each text of the sequence comes before the ones behind it.
pub open spec fn strictly_sorted(keys: Seq<Seq<char>>) -> bool {
    forall|i: int, j: int| 0 <= i < j < keys.len() ==> text_lt(#[trigger] keys[i], #[trigger] keys[j])
}

/// The strings of a sequence, each as its characters.
pub open spec fn texts(strings: Seq<String>) -> Seq<Seq<char>> {
    strings.map_values(|s: String| s@)
}

/// A strictly sorted sequence holds no text twice.
pub proof fn lemma_strictly_sorted_no_duplicates(keys: Seq<Seq<char>>)
    requires
        strictly_sorted(keys),
    ensures
        keys.no_duplicates(),
{
    assert forall|i: int, j: int| 0 <= i < keys.len() && 0 <= j < keys.len() && i != j implies keys[i]
        != keys[j] by {
        if i < j {
            lemma_text_lt_asymmetric(keys[i], keys[j]);
        } else {
            lemma_text_lt_asymmetric(keys[j], keys[i]);
        }
    }
}

/// Two strictly sorted sequences with the same members are the same sequence.
pub proof fn lemma_strictly_sorted_unique(a: Seq<Seq<char>>, b: Seq<Seq<char>>)
    requires
        strictly_sorted(a),
        strictly_sorted(b),
        a.to_set() == b.to_set(),
    ensures
        a == b,
    decreases a.len(),
{
    if a.len() == 0 {
        if b.len() > 0 {
            assert(b.to_set().contains(b[0]));
            assert(a.to_set().contains(b[0]));
        }
        assert(a =~= b);
    } else {
        assert(a.to_set().contains(a[0]));
        assert(b.contains(a[0]));
        assert(b.to_set().contains(b[0]));
        assert(a.contains(b[0]));
        let i = b.index_of(a[0]);
        let j = a.index_of(b[0]);
        if a[0] != b[0] {
            assert(text_lt(b[0], b[i]));
            assert(text_lt(a[0], a[j]));
            lemma_text_lt_asymmetric(a[0], b[0]);
        }
        let ra = a.drop_first();
        let rb = b.drop_first();
        lemma_strictly_sorted_no_duplicates(a);
        lemma_strictly_sorted_no_duplicates(b);
        assert forall|k: Seq<char>| ra.to_set().contains(k) <==> rb.to_set().contains(k) by {
            if ra.contains(k) {
                let n = ra.index_of(k);
                assert(a[n + 1] == k);
                assert(a.to_set().contains(k));
                assert(b.contains(k));
                let m = b.index_of(k);
                assert(m != 0);
                assert(rb[m - 1] == k);
            }
            if rb.contains(k) {
                let n = rb.index_of(k);
                assert(b[n + 1] == k);
                assert(b.to_set().contains(k));
                assert(a.contains(k));
                let m = a.index_of(k);
                assert(m != 0);
                assert(ra[m - 1] == k);
            }
        }
        assert(ra.to_set() =~= rb.to_set());
        lemma_strictly_sorted_unique(ra, rb);
        assert(a =~= seq![a[0]] + ra);
        assert(b =~= seq![b[0]] + rb);
    }
}

/// The members of a finite set of texts, in text order.
pub open spec fn sorted_texts(set: Set<Seq<char>>) -> Seq<Seq<char>> {
    choose|keys: Seq<Seq<char>>| strictly_sorted(keys) && #[trigger] keys.to_set() == set
}

/// A strictly sorted sequence is its own set in text order.
pub proof fn lemma_sorted_texts(keys: Seq<Seq<char>>)
    requires
        strictly_sorted(keys),
    ensures
        sorted_texts(keys.to_set()) == keys,
{
    lemma_strictly_sorted_unique(sorted_texts(keys.to_set()), keys);
}

/// Every finite set of texts can be put in text order.
pub proof fn lemma_sorted_texts_exists(set: Set<Seq<char>>)
    requires
        set.finite(),
    ensures
        strictly_sorted(sorted_texts(set)),
        sorted_texts(set).to_set() == set,
    decreases set.len(),
{
    if set =~= Set::<Seq<char>>::empty() {
        let none = Seq::<Seq<char>>::empty();
        assert(none.to_set() =~= set);
        lemma_sorted_texts(none);
    } else {
        let key = set.choose();
        let rest = set.remove(key);
        lemma_sorted_texts_exists(rest);
        let keys = sorted_texts(rest);
        let place = lemma_place_for(keys, key);
        let longer = keys.insert(place, key);
        assert forall|i: int, j: int| 0 <= i < j < longer.len() implies text_lt(
            #[trigger] longer[i],
            #[trigger] longer[j],
        ) by {
            if i < place && j == place {
                assert(longer[i] == keys[i]);
            } else if i == place {
                assert(longer[j] == keys[j - 1]);
            } else if j < place {
                assert(longer[i] == keys[i] && longer[j] == keys[j]);
            } else if i < place {
                assert(longer[i] == keys[i] && longer[j] == keys[j - 1]);
            } else {
                assert(longer[i] == keys[i - 1] && longer[j] == keys[j - 1]);
            }
        }
        assert forall|k: Seq<char>| longer.to_set().contains(k) <==> set.contains(k) by {
            if longer.contains(k) {
                let n = longer.index_of(k);
                if n < place {
                    assert(keys[n] == k);
                    assert(keys.to_set().contains(k));
                } else if n > place {
                    assert(keys[n - 1] == k);
                    assert(keys.to_set().contains(k));
                }
            }
            if k == key {
                assert(longer[place] == k);
            } else if set.contains(k) {
                assert(keys.to_set().contains(k));
                let n = keys.index_of(k);
                if n < place {
                    assert(longer[n] == k);
                } else {
                    assert(longer[n + 1] == k);
                }
            }
        }
        assert(longer.to_set() =~= set);
        lemma_sorted_texts(longer);
    }
}

/// A new text has a place in a strictly sorted sequence.
proof fn lemma_place_for(keys: Seq<Seq<char>>, key: Seq<char>) -> (place: int)
    requires
        strictly_sorted(keys),
        !keys.to_set().contains(key),
    ensures
        0 <= place <= keys.len(),
        forall|i: int| 0 <= i < place ==> text_lt(#[trigger] keys[i], key),
        forall|i: int| place <= i < keys.len() ==> text_lt(key, #[trigger] keys[i]),
    decreases keys.len(),
{
    if keys.len() == 0 {
        0
    } else {
        let last = keys.last();
        assert(keys.contains(last));
        assert(keys.to_set().contains(last));
        lemma_text_lt_total(last, key);
        if text_lt(last, key) {
            assert forall|i: int| 0 <= i < keys.len() implies text_lt(#[trigger] keys[i], key) by {
                if i < keys.len() - 1 {
                    lemma_text_lt_transitive(keys[i], last, key);
                }
            }
            keys.len() as int
        } else {
            let rest = keys.drop_last();
            if rest.contains(key) {
                let n = rest.index_of(key);
                assert(keys[n] == key);
                assert(keys.contains(key));
            }
            let place = lemma_place_for(rest, key);
            assert forall|i: int| 0 <= i < place implies text_lt(#[trigger] keys[i], key) by {
                assert(rest[i] == keys[i]);
            }
            assert forall|i: int| place <= i < keys.len() implies text_lt(key, #[trigger] keys[i]) by {
                if i < keys.len() - 1 {
                    assert(rest[i] == keys[i]);
                }
            }
            place
        }
    }
}

/// A set of texts in text order.
#[derive(Debug, Clone, PartialEq, Eq)]
pub struct TextSet {
    items: Vec<String>,
}

impl View for TextSet {
    type V = Set<Seq<char>>;

    closed spec fn view(&self) -> Set<Seq<char>> {
        self.sequence().to_set()
    }
}

impl TextSet {
    /// The members in order.
    pub closed spec fn sequence(&self) -> Seq<Seq<char>> {
        texts(self.items@)
    }

    /// The members are kept in order, each once.
    pub closed spec fn wf(&self) -> bool {
        strictly_sorted(self.sequence())
    }

    /// What the stored order says of the members.
    pub proof fn lemma_sequence(&self)
        requires
            self.wf(),
        ensures
            strictly_sorted(self.sequence()),
            self.sequence().no_duplicates(),
            self@ == self.sequence().to_set(),
            self@.finite(),
            self@.len() == self.sequence().len(),
            self.sequence() == sorted_texts(self@),
            forall|i: int| 0 <= i < self.sequence().len() ==> self@.contains(#[trigger] self.sequence()[i]),
            forall|key: Seq<char>| #[trigger] self@.contains(key) <==> self.sequence().contains(key),
    {
        lemma_sorted_texts(self.sequence());
        lemma_strictly_sorted_no_duplicates(self.sequence());
        self.sequence().unique_seq_to_set();
    }

    /// The empty set.
    pub fn new() -> (set: Self)
        ensures
            set.wf(),
            set@ == Set::<Seq<char>>::empty(),
            set.sequence() == Seq::<Seq<char>>::empty(),
    {
        let set = TextSet { items: Vec::new() };
        assert(set.sequence() =~= Seq::<Seq<char>>::empty());
        assert(set@ =~= Set::<Seq<char>>::empty());
        set
    }

    /// The distinct texts of a list.
    pub fn from_list(list: &Vec<String>) -> (set: Self)
        ensures
            set.wf(),
            set@ == texts(list@).to_set(),
    {
        let mut set = TextSet::new();
        let mut i: usize = 0;
        while i < list.len()
            invariant
                0 <= i <= list.len(),
                set.wf(),
                set@ == texts(list@).take(i as int).to_set(),
            decreases list.len() - i,
        {
            let ghost before = texts(list@).take(i as int);
            set.insert(list[i].clone());
            proof {
                let after = texts(list@).take(i + 1);
                assert(after =~= before.push(texts(list@)[i as int]));
                assert(texts(list@)[i as int] == list@[i as int]@);
                assert(set@ =~= after.to_set()) by {
                    assert forall|k: Seq<char>| set@.contains(k) <==> after.to_set().contains(k) by {
                        if before.contains(k) {
                            let n = before.index_of(k);
                            assert(after[n] == k);
                        }
                        if k == list@[i as int]@ {
                            assert(after[i as int] == k);
                        }
                        if after.contains(k) {
                            let n = after.index_of(k);
                            if n < i {
                                assert(before[n] == k);
                            }
                        }
                    }
                }
            }
            i += 1;
        }
        assert(texts(list@).take(i as int) =~= texts(list@));
        set
    }

    /// How many members the set has.
    pub fn len(&self) -> (len: usize)
        ensures
            len == self.sequence().len(),
    {
        self.items.len()
    }

    /// The member at a place of the order.
    pub fn at(&self, index: usize) -> (item: &String)
        requires
            index < self.sequence().len(),
        ensures
            item@ == self.sequence()[index as int],
    {
        &self.items[index]
    }

    /// The members in order.
    pub fn to_vec(&self) -> (items: Vec<String>)
        ensures
            texts(items@) == self.sequence(),
    {
        let mut items: Vec<String> = Vec::new();
        let mut i: usize = 0;
        while i < self.items.len()
            invariant
                0 <= i <= self.items.len(),
                items.len() == i,
                forall|j: int| 0 <= j < i ==> (#[trigger] items@[j])@ == self.items@[j]@,
            decreases self.items.len() - i,
        {
            items.push(self.items[i].clone());
            i += 1;
        }
        assert(texts(items@) =~= self.sequence());
        items
    }

    /// The place of the first member that does not come before `key`.
    fn lower_bound(&self, key: &str) -> (index: usize)
        requires
            self.wf(),
        ensures
            index <= self.sequence().len(),
            forall|i: int| 0 <= i < index ==> text_lt(#[trigger] self.sequence()[i], key@),
            forall|i: int| index <= i < self.sequence().len() ==> !text_lt(#[trigger] self.sequence()[i], key@),
    {
        let mut low: usize = 0;
        let mut high: usize = self.items.len();
        while low < high
            invariant
                self.wf(),
                0 <= low <= high <= self.items.len(),
                self.items.len() == self.sequence().len(),
                forall|i: int| 0 <= i < low ==> text_lt(#[trigger] self.sequence()[i], key@),
                forall|i: int|
                    high <= i < self.sequence().len() ==> !text_lt(#[trigger] self.sequence()[i], key@),
            decreases high - low,
        {
            let middle: usize = low + (high - low) / 2;
            assert(self.sequence()[middle as int] == self.items@[middle as int]@);
            if text_less(self.items[middle].as_str(), key) {
                assert forall|i: int| 0 <= i < middle + 1 implies text_lt(
                    #[trigger] self.sequence()[i],
                    key@,
                ) by {
                    if i < middle {
                        lemma_text_lt_transitive(
                            self.sequence()[i],
                            self.sequence()[middle as int],
                            key@,
                        );
                    }
                }
                low = middle + 1;
            } else {
                assert forall|i: int| middle <= i < self.sequence().len() implies !text_lt(
                    #[trigger] self.sequence()[i],
                    key@,
                ) by {
                    if middle < i && text_lt(self.sequence()[i], key@) {
                        lemma_text_lt_transitive(
                            self.sequence()[middle as int],
                            self.sequence()[i],
                            key@,
                        );
                    }
                }
                high = middle;
            }
        }
        low
    }

    /// Whether `key` is at a lower bound: it is a member exactly then.
    proof fn lemma_lower_bound(&self, key: Seq<char>, index: int)
        requires
            self.wf(),
            0 <= index <= self.sequence().len(),
            forall|i: int| 0 <= i < index ==> text_lt(#[trigger] self.sequence()[i], key),
            forall|i: int| index <= i < self.sequence().len() ==> !text_lt(#[trigger] self.sequence()[i], key),
        ensures
            self@.contains(key) <==> (index < self.sequence().len() && self.sequence()[index] == key),
            !self@.contains(key) ==> forall|i: int|
                index <= i < self.sequence().len() ==> text_lt(key, #[trigger] self.sequence()[i]),
    {
        let keys = self.sequence();
        if keys.contains(key) {
            let n = keys.index_of(key);
            if n < index {
                lemma_text_lt_asymmetric(keys[n], key);
            }
            if n > index {
                assert(text_lt(keys[index], keys[n]));
            }
        }
        if !self@.contains(key) {
            assert forall|i: int| index <= i < keys.len() implies text_lt(key, #[trigger] keys[i]) by {
                lemma_text_lt_total(keys[i], key);
                assert(keys.contains(keys[i]));
            }
        }
    }

    /// Whether `key` is a member.
    pub fn contains(&self, key: &str) -> (found: bool)
        requires
            self.wf(),
        ensures
            found == self@.contains(key@),
    {
        let index = self.lower_bound(key);
        proof {
            self.lemma_lower_bound(key@, index as int);
        }
        index < self.items.len() && crate::text::text_equal(self.items[index].as_str(), key)
    }

    /// Adds `key`; says whether it was new.
    pub fn insert(&mut self, key: String) -> (added: bool)
        requires
            old(self).wf(),
        ensures
            final(self).wf(),
            final(self)@ == old(self)@.insert(key@),
            added == !old(self)@.contains(key@),
            !added ==> final(self).sequence() == old(self).sequence(),
    {
        let index = self.lower_bound(key.as_str());
        proof {
            self.lemma_lower_bound(key@, index as int);
        }
        if index < self.items.len() && self.items[index] == key {
            assert(self@ =~= old(self)@.insert(key@));
            return false;
        }
        self.insert_at(index, key);
        true
    }

    /// Puts a new member at its place of the order.
    fn insert_at(&mut self, index: usize, key: String)
        requires
            old(self).wf(),
            index <= old(self).sequence().len(),
            forall|i: int| 0 <= i < index ==> text_lt(#[trigger] old(self).sequence()[i], key@),
            forall|i: int|
                index <= i < old(self).sequence().len() ==> text_lt(key@, #[trigger] old(self).sequence()[i]),
        ensures
            final(self).wf(),
            final(self).sequence() == old(self).sequence().insert(index as int, key@),
            final(self)@ == old(self)@.insert(key@),
    {
        let ghost before = self.sequence();
        self.items.insert(index, key);
        proof {
            let after = self.sequence();
            assert(after =~= before.insert(index as int, key@));
            assert forall|i: int, j: int| 0 <= i < j < after.len() implies text_lt(
                #[trigger] after[i],
                #[trigger] after[j],
            ) by {
                if i < index && j == index {
                    assert(after[i] == before[i]);
                } else if i == index {
                    assert(after[j] == before[j - 1]);
                } else if j < index {
                    assert(after[i] == before[i] && after[j] == before[j]);
                } else if i < index {
                    assert(after[i] == before[i] && after[j] == before[j - 1]);
                } else {
                    assert(after[i] == before[i - 1] && after[j] == before[j - 1]);
                }
            }
            assert forall|k: Seq<char>| #[trigger] after.contains(k) <==> before.contains(k) || k == key@ by {
                if before.contains(k) {
                    let n = before.index_of(k);
                    if n < index {
                        assert(after[n] == k);
                    } else {
                        assert(after[n + 1] == k);
                    }
                }
                if k == key@ {
                    assert(after[index as int] == k);
                }
                if after.contains(k) {
                    let n = after.index_of(k);
                    if n < index {
                        assert(before[n] == k);
                    } else if n > index {
                        assert(before[n - 1] == k);
                    }
                }
            }
            assert(self@ =~= old(self)@.insert(key@));
        }
    }

    /// Removes `key`; says whether it was a member.
    pub fn remove(&mut self, key: &str) -> (removed: bool)
        requires
            old(self).wf(),
        ensures
            final(self).wf(),
            final(self)@ == old(self)@.remove(key@),
            removed == old(self)@.contains(key@),
    {
        let index = self.lower_bound(key);
        proof {
            self.lemma_lower_bound(key@, index as int);
        }
        if index < self.items.len() && crate::text::text_equal(self.items[index].as_str(), key) {
            self.remove_at(index);
            return true;
        }
        assert(self@ =~= old(self)@.remove(key@));
        false
    }

    /// Removes and returns the member at a place of the order.
    pub fn remove_at(&mut self, index: usize) -> (item: String)
        requires
            old(self).wf(),
            index < old(self).sequence().len(),
        ensures
            final(self).wf(),
            item@ == old(self).sequence()[index as int],
            final(self).sequence() == old(self).sequence().remove(index as int),
            final(self)@ == old(self)@.remove(item@),
            old(self)@.contains(item@),
    {
        let ghost before = self.sequence();
        proof {
            lemma_strictly_sorted_no_duplicates(before);
        }
        let item = self.items.remove(index);
        proof {
            let after = self.sequence();
            assert(before[index as int] == item@);
            assert(after =~= before.remove(index as int));
            assert forall|k: Seq<char>| #[trigger] after.contains(k) <==> before.contains(k) && k != item@ by {
                if before.contains(k) && k != item@ {
                    let n = before.index_of(k);
                    if n < index {
                        assert(after[n] == k);
                    } else {
                        assert(after[n - 1] == k);
                    }
                }
                if after.contains(k) {
                    let n = after.index_of(k);
                    if n < index {
                        assert(before[n] == k);
                    } else {
                        assert(before[n + 1] == k);
                    }
                }
            }
            assert(before.contains(item@));
            assert(self@ =~= old(self)@.remove(item@));
        }
        item
    }

    /// Removes and returns the member that comes first.
    pub fn pop_first(&mut self) -> (item: Option<String>)
        requires
            old(self).wf(),
        ensures
            final(self).wf(),
            match item {
                None => old(self)@ == Set::<Seq<char>>::empty() && final(self)@ == old(self)@,
                Some(first) => {
                    &&& old(self).sequence().len() > 0
                    &&& first@ == old(self).sequence()[0]
                    &&& old(self)@.contains(first@)
                    &&& final(self)@ == old(self)@.remove(first@)
                    &&& final(self).sequence() == old(self).sequence().drop_first()
                },
            },
    {
        if self.items.len() == 0 {
            assert(self@ =~= Set::<Seq<char>>::empty());
            return None;
        }
        let first = self.remove_at(0);
        assert(self.sequence() =~= old(self).sequence().drop_first());
        Some(first)
    }
}

/// A map from texts to values, in text order of the keys.
#[derive(Debug, Clone, PartialEq, Eq)]
pub struct TextMap<V> {
    keys: TextSet,
    values: Vec<V>,
}

impl<V> View for TextMap<V> {
    type V = Map<Seq<char>, V>;

    closed spec fn view(&self) -> Map<Seq<char>, V> {
        Map::new(
            |key: Seq<char>| self.keys@.contains(key),
            |key: Seq<char>| self.values@[self.keys.sequence().index_of(key)],
        )
    }
}

impl<V> TextMap<V> {
    /// The keys in order.
    pub closed spec fn keys(&self) -> Seq<Seq<char>> {
        self.keys.sequence()
    }

    /// The keys are kept in order, each once, and each has a value.
    pub closed spec fn wf(&self) -> bool {
        self.keys.wf() && self.values@.len() == self.keys.sequence().len()
    }

    /// What the stored order says of the keys and values.
    pub proof fn lemma_keys(&self)
        requires
            self.wf(),
        ensures
            strictly_sorted(self.keys()),
            self.keys().no_duplicates(),
            self@.dom() == self.keys().to_set(),
            self@.dom().finite(),
            self@.dom().len() == self.keys().len(),
            forall|i: int| 0 <= i < self.keys().len() ==> self@.contains_key(#[trigger] self.keys()[i]),
            forall|key: Seq<char>| #[trigger] self@.contains_key(key) <==> self.keys().contains(key),
    {
        self.keys.lemma_sequence();
        assert(self@.dom() =~= self.keys().to_set());
        assert forall|i: int| 0 <= i < self.keys().len() implies self@.contains_key(
            #[trigger] self.keys()[i],
        ) by {
            assert(self.keys().contains(self.keys()[i]));
        }
    }

    /// The value stored at a place belongs to the key at that place.
    proof fn lemma_value_at(&self, index: int)
        requires
            self.wf(),
            0 <= index < self.keys().len(),
        ensures
            self@.contains_key(self.keys()[index]),
            self@[self.keys()[index]] == self.values@[index],
    {
        self.keys.lemma_sequence();
        assert(self.keys().contains(self.keys()[index]));
        assert(self.keys().index_of(self.keys()[index]) == index);
    }

    /// The empty map.
    pub fn new() -> (map: Self)
        ensures
            map.wf(),
            map@ == Map::<Seq<char>, V>::empty(),
            map.keys() == Seq::<Seq<char>>::empty(),
    {
        let map = TextMap { keys: TextSet::new(), values: Vec::new() };
        assert(map@ =~= Map::<Seq<char>, V>::empty());
        map
    }

    /// How many keys the map has.
    pub fn len(&self) -> (len: usize)
        ensures
            len == self.keys().len(),
    {
        self.keys.len()
    }

    /// The key at a place of the order.
    pub fn key_at(&self, index: usize) -> (key: &String)
        requires
            index < self.keys().len(),
        ensures
            key@ == self.keys()[index as int],
    {
        self.keys.at(index)
    }

    /// The value at a place of the order.
    pub fn value_at(&self, index: usize) -> (value: &V)
        requires
            self.wf(),
            index < self.keys().len(),
        ensures
            self@.contains_key(self.keys()[index as int]),
            *value == self@[self.keys()[index as int]],
    {
        proof {
            self.lemma_value_at(index as int);
        }
        &self.values[index]
    }

    /// Whether `key` has a value.
    pub fn contains_key(&self, key: &str) -> (found: bool)
        requires
            self.wf(),
        ensures
            found == self@.contains_key(key@),
    {
        self.keys.contains(key)
    }

    /// The value of `key`.
    pub fn get(&self, key: &str) -> (value: Option<&V>)
        requires
            self.wf(),
        ensures
            match value {
                Some(found) => self@.contains_key(key@) && *found == self@[key@],
                None => !self@.contains_key(key@),
            },
    {
        let index = self.keys.lower_bound(key);
        proof {
            self.keys.lemma_lower_bound(key@, index as int);
        }
        if index < self.keys.len() && crate::text::text_equal(self.keys.at(index).as_str(), key) {
            proof {
                self.lemma_value_at(index as int);
            }
            Some(&self.values[index])
        } else {
            None
        }
    }

    /// The place of `key` in the order of the keys.
    pub fn position(&self, key: &str) -> (place: Option<usize>)
        requires
            self.wf(),
        ensures
            match place {
                Some(index) => {
                    &&& index < self.keys().len()
                    &&& self.keys()[index as int] == key@
                    &&& self.keys().index_of(key@) == index
                },
                None => !self@.contains_key(key@),
            },
    {
        let index = self.keys.lower_bound(key);
        proof {
            self.keys.lemma_lower_bound(key@, index as int);
            self.keys.lemma_sequence();
        }
        if index < self.keys.len() && crate::text::text_equal(self.keys.at(index).as_str(), key) {
            Some(index)
        } else {
            None
        }
    }

    /// Gives `key` a value; returns the value it replaces.
    pub fn insert(&mut self, key: String, value: V) -> (previous: Option<V>)
        requires
            old(self).wf(),
        ensures
            final(self).wf(),
            final(self)@ == old(self)@.insert(key@, value),
            previous == (if old(self)@.contains_key(key@) {
                Some(old(self)@[key@])
            } else {
                None
            }),
            old(self)@.contains_key(key@) ==> final(self).keys() == old(self).keys(),
    {
        let index = self.keys.lower_bound(key.as_str());
        proof {
            self.keys.lemma_lower_bound(key@, index as int);
            self.keys.lemma_sequence();
        }
        if index < self.keys.len() && *self.keys.at(index) == key {
            proof {
                self.lemma_value_at(index as int);
            }
            let mut slot = value;
            core::mem::swap(&mut self.values[index], &mut slot);
            proof {
                let before = old(self)@;
                assert forall|k: Seq<char>| self@.contains_key(k) implies self@[k] == before.insert(
                    key@,
                    value,
                )[k] by {
                    let n = self.keys().index_of(k);
                    assert(self.keys().contains(k));
                    if k != key@ {
                        assert(n != index);
                    }
                }
                assert(self@ =~= before.insert(key@, value));
            }
            return Some(slot);
        }
        let ghost keys_before = self.keys();
        let ghost values_before = self.values@;
        self.keys.insert_at(index, key);
        self.values.insert(index, value);
        proof {
            let before = old(self)@;
            self.keys.lemma_sequence();
            let keys_after = self.keys();
            assert forall|k: Seq<char>| self@.contains_key(k) implies self@[k] == before.insert(
                key@,
                value,
            )[k] by {
                let n = keys_after.index_of(k);
                assert(keys_after.contains(k));
                if n < index {
                    assert(keys_before[n] == k);
                    assert(keys_before.index_of(k) == n);
                } else if n > index {
                    assert(keys_before[n - 1] == k);
                    assert(keys_before.index_of(k) == n - 1);
                }
            }
            assert(self@ =~= before.insert(key@, value));
        }
        None
    }

    /// Removes `key` and returns its value.
    pub fn remove(&mut self, key: &str) -> (removed: Option<V>)
        requires
            old(self).wf(),
        ensures
            final(self).wf(),
            final(self)@ == old(self)@.remove(key@),
            removed == (if old(self)@.contains_key(key@) {
                Some(old(self)@[key@])
            } else {
                None
            }),
    {
        let index = self.keys.lower_bound(key);
        proof {
            self.keys.lemma_lower_bound(key@, index as int);
            self.keys.lemma_sequence();
        }
        if index < self.keys.len() && crate::text::text_equal(self.keys.at(index).as_str(), key) {
            proof {
                self.lemma_value_at(index as int);
            }
            let ghost keys_before = self.keys();
            let _ = self.keys.remove_at(index);
            let value = self.values.remove(index);
            proof {
                let before = old(self)@;
                self.keys.lemma_sequence();
                let keys_after = self.keys();
                assert forall|k: Seq<char>| self@.contains_key(k) implies self@[k] == before.remove(
                    key@,
                )[k] by {
                    let n = keys_after.index_of(k);
                    assert(keys_after.contains(k));
                    if n < index {
                        assert(keys_before[n] == k);
                        assert(keys_before.index_of(k) == n);
                    } else {
                        assert(keys_before[n + 1] == k);
                        assert(keys_before.index_of(k) == n + 1);
                    }
                }
                assert(self@ =~= before.remove(key@));
            }
            return Some(value);
        }
        assert(self@ =~= old(self)@.remove(key@));
        None
    }
}

} // verus!
