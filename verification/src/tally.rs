//! Counting how often each key occurs in a sequence of keys.

use vstd::prelude::*;
use crate::text::str_equal;

verus! {

/// A value that is counted by its key: two values count as the same when
/// their keys are equal.
pub trait Countable {
    type Key;

    /// The key that the value is counted by.
    spec fn key(&self) -> Self::Key;

    /// Whether two values have the same key.
    fn same_key(&self, other: &Self) -> (same: bool)
        ensures
            same == (self.key() == other.key()),
    ;
}

impl Countable for u16 {
    type Key = u16;

    open spec fn key(&self) -> u16 {
        *self
    }

    fn same_key(&self, other: &u16) -> (same: bool) {
        *self == *other
    }
}

impl Countable for String {
    type Key = Seq<char>;

    open spec fn key(&self) -> Seq<char> {
        self@
    }

    fn same_key(&self, other: &String) -> (same: bool) {
        str_equal(self.as_str(), other.as_str())
    }
}

impl Countable for (u32, String) {
    type Key = (u32, Seq<char>);

    open spec fn key(&self) -> (u32, Seq<char>) {
        (self.0, self.1@)
    }

    fn same_key(&self, other: &(u32, String)) -> (same: bool) {
        self.0 == other.0 && str_equal(self.1.as_str(), other.1.as_str())
    }
}

/// How often `key` occurs in `keys`.
pub open spec fn occurrences<K>(keys: Seq<K>, key: K) -> nat
    decreases keys.len(),
{
    if keys.len() == 0 {
        0
    } else {
        occurrences(keys.drop_last(), key) + if keys.last() == key {
            1nat
        } else {
            0nat
        }
    }
}

/// The number of different keys in `keys`.
pub open spec fn distinct<K>(keys: Seq<K>) -> nat {
    keys.to_set().len()
}

/// Whether `key`, with `count` occurrences, is the most frequent key of
/// `keys` outside `excluded`: it occurs in `keys`, no key outside `excluded`
/// occurs more often, and of the keys that occur as often it is the one that
/// occurs first.
pub open spec fn is_top<K>(keys: Seq<K>, excluded: Set<K>, key: K, count: nat) -> bool {
    &&& !excluded.contains(key)
    &&& count == occurrences(keys, key)
    &&& forall|j: int|
        0 <= j < keys.len() && !excluded.contains(#[trigger] keys[j]) ==> occurrences(
            keys,
            keys[j],
        ) <= count
    &&& exists|first: int|
        {
            &&& 0 <= first < keys.len()
            &&& #[trigger] keys[first] == key
            &&& forall|j: int|
                0 <= j < first && !excluded.contains(#[trigger] keys[j]) ==> occurrences(
                    keys,
                    keys[j],
                ) < count
        }
}

/// Whether `keys` holds a key outside `excluded`.
pub open spec fn has_eligible<K>(keys: Seq<K>, excluded: Set<K>) -> bool {
    exists|j: int| 0 <= j < keys.len() && !excluded.contains(#[trigger] keys[j])
}

/// A key that occurs is counted at least once, and no key is counted more
/// often than there are keys.
pub proof fn lemma_occurrences_bounds<K>(keys: Seq<K>, key: K)
    ensures
        occurrences(keys, key) <= keys.len(),
        keys.contains(key) <==> occurrences(keys, key) > 0,
    decreases keys.len(),
{
    if keys.len() > 0 {
        lemma_occurrences_bounds(keys.drop_last(), key);
        if keys.contains(key) {
            let i = choose|i: int| 0 <= i < keys.len() && keys[i] == key;
            if i < keys.len() - 1 {
                assert(keys.drop_last()[i] == key);
            }
        }
        if keys.drop_last().contains(key) {
            let i = choose|i: int| 0 <= i < keys.drop_last().len() && keys.drop_last()[i] == key;
            assert(keys[i] == key);
        }
    }
}

/// The different keys of `keys`, each once, in the order in which they
/// first occur.
pub open spec fn first_occurrences<K>(keys: Seq<K>) -> Seq<K>
    decreases keys.len(),
{
    if keys.len() == 0 {
        keys
    } else {
        let before = first_occurrences(keys.drop_last());
        if before.contains(keys.last()) {
            before
        } else {
            before.push(keys.last())
        }
    }
}

/// The first occurrences hold every key of the sequence, and each once.
pub proof fn lemma_first_occurrences<K>(keys: Seq<K>)
    ensures
        first_occurrences(keys).no_duplicates(),
        first_occurrences(keys).to_set() == keys.to_set(),
        first_occurrences(keys).len() == distinct(keys),
    decreases keys.len(),
{
    let firsts = first_occurrences(keys);
    if keys.len() > 0 {
        let front = keys.drop_last();
        let before = first_occurrences(front);
        lemma_first_occurrences(front);
        assert forall|k: K| firsts.to_set().contains(k) <==> keys.to_set().contains(k) by {
            if firsts.contains(k) {
                let i = choose|i: int| 0 <= i < firsts.len() && firsts[i] == k;
                if i < before.len() {
                    assert(before.contains(k));
                    assert(front.to_set().contains(k));
                    let j = choose|j: int| 0 <= j < front.len() && front[j] == k;
                    assert(keys[j] == k);
                } else {
                    assert(keys[keys.len() - 1] == k);
                }
            }
            if keys.contains(k) {
                let j = choose|j: int| 0 <= j < keys.len() && keys[j] == k;
                if j < front.len() {
                    assert(front[j] == k);
                    assert(front.to_set().contains(k));
                    assert(before.contains(k));
                    let i = choose|i: int| 0 <= i < before.len() && before[i] == k;
                    assert(firsts[i] == k);
                } else if before.contains(k) {
                    let i = choose|i: int| 0 <= i < before.len() && before[i] == k;
                    assert(firsts[i] == k);
                } else {
                    assert(firsts[firsts.len() - 1] == k);
                }
            }
        }
        assert(firsts.to_set() =~= keys.to_set());
    }
    firsts.unique_seq_to_set();
}

/// The first occurrences of a part of a sequence that ends where the
/// sequence goes on are the start of the first occurrences of the sequence.
pub proof fn lemma_first_occurrences_of_prefix<K>(keys: Seq<K>, n: int)
    requires
        0 <= n <= keys.len(),
    ensures
        first_occurrences(keys.take(n)).len() <= first_occurrences(keys).len(),
        first_occurrences(keys.take(n)) == first_occurrences(keys).take(
            first_occurrences(keys.take(n)).len() as int,
        ),
    decreases keys.len() - n,
{
    if n == keys.len() {
        assert(keys.take(n) =~= keys);
        assert(first_occurrences(keys).take(first_occurrences(keys).len() as int)
            =~= first_occurrences(keys));
    } else {
        lemma_first_occurrences_of_prefix(keys, n + 1);
        assert(keys.take(n + 1).drop_last() =~= keys.take(n));
        let shorter = first_occurrences(keys.take(n));
        let longer = first_occurrences(keys.take(n + 1));
        assert(shorter =~= longer.take(shorter.len() as int));
        assert(shorter =~= first_occurrences(keys).take(shorter.len() as int));
    }
}

/// Among the first occurrences, a key that no key outside `excluded` before
/// it equals in count, and none at all exceeds, is the most frequent key.
pub proof fn lemma_top_of_first_occurrences<K>(keys: Seq<K>, excluded: Set<K>, e: int)
    requires
        0 <= e < first_occurrences(keys).len(),
        !excluded.contains(first_occurrences(keys)[e]),
        forall|d: int|
            0 <= d < first_occurrences(keys).len() && !excluded.contains(
                #[trigger] first_occurrences(keys)[d],
            ) ==> occurrences(keys, first_occurrences(keys)[d]) <= occurrences(
                keys,
                first_occurrences(keys)[e],
            ),
        forall|d: int|
            0 <= d < e && !excluded.contains(#[trigger] first_occurrences(keys)[d])
                ==> occurrences(keys, first_occurrences(keys)[d]) < occurrences(
                keys,
                first_occurrences(keys)[e],
            ),
    ensures
        is_top(
            keys,
            excluded,
            first_occurrences(keys)[e],
            occurrences(keys, first_occurrences(keys)[e]),
        ),
{
    let firsts = first_occurrences(keys);
    let key = firsts[e];
    let count = occurrences(keys, key);
    lemma_first_occurrences(keys);
    assert(firsts.to_set().contains(key));
    assert(keys.to_set().contains(key));
    assert forall|j: int|
        0 <= j < keys.len() && !excluded.contains(#[trigger] keys[j]) implies occurrences(
        keys,
        keys[j],
    ) <= count by {
        assert(keys.to_set().contains(keys[j]));
        assert(firsts.to_set().contains(keys[j]));
        let d = choose|d: int| 0 <= d < firsts.len() && firsts[d] == keys[j];
        assert(!excluded.contains(firsts[d]));
    }
    let first = choose|first: int|
        0 <= first < keys.len() && keys[first] == key && forall|j: int|
            0 <= j < first ==> keys[j] != key;
    assert(exists|first: int|
        0 <= first < keys.len() && keys[first] == key && forall|j: int|
            0 <= j < first ==> keys[j] != key) by {
        lemma_first_index(keys, key);
    }
    let part = keys.take(first);
    let part_firsts = first_occurrences(part);
    lemma_first_occurrences_of_prefix(keys, first);
    lemma_first_occurrences(part);
    assert forall|j: int| 0 <= j < first && !excluded.contains(#[trigger] keys[j]) implies occurrences(
        keys,
        keys[j],
    ) < count by {
        assert(part[j] == keys[j]);
        assert(part.to_set().contains(keys[j]));
        assert(part_firsts.to_set().contains(keys[j]));
        let d = choose|d: int| 0 <= d < part_firsts.len() && part_firsts[d] == keys[j];
        assert(firsts.take(part_firsts.len() as int)[d] == keys[j]);
        assert(firsts[d] == keys[j]);
        if d >= e {
            assert(part_firsts[e] == firsts.take(part_firsts.len() as int)[e]);
            assert(part_firsts.to_set().contains(key));
            assert(part.to_set().contains(key));
            let at = choose|at: int| 0 <= at < part.len() && part[at] == key;
            assert(keys[at] == key);
            assert(false);
        }
        assert(!excluded.contains(firsts[d]));
    }
    assert(keys[first] == key);
}

/// A key that occurs in a sequence has a first place where it occurs.
pub proof fn lemma_first_index<K>(keys: Seq<K>, key: K)
    requires
        keys.contains(key),
    ensures
        exists|first: int|
            0 <= first < keys.len() && keys[first] == key && forall|j: int|
                0 <= j < first ==> keys[j] != key,
    decreases keys.len(),
{
    let front = keys.drop_last();
    if front.contains(key) {
        lemma_first_index(front, key);
        let first = choose|first: int|
            0 <= first < front.len() && front[first] == key && forall|j: int|
                0 <= j < first ==> front[j] != key;
        assert(keys[first] == key);
        assert forall|j: int| 0 <= j < first implies keys[j] != key by {
            assert(front[j] != key);
        }
    } else {
        let last = keys.len() - 1;
        let at = choose|at: int| 0 <= at < keys.len() && keys[at] == key;
        if at < last {
            assert(front[at] == key);
        }
        assert forall|j: int| 0 <= j < last implies keys[j] != key by {
            if keys[j] == key {
                assert(front[j] == key);
            }
        }
    }
}

/// The keys that `values` are counted by.
pub open spec fn keys_of<K: Countable>(values: Seq<K>) -> Seq<K::Key> {
    values.map_values(|v: K| v.key())
}

/// The counts of the keys of a sequence, kept in the order in which the
/// keys first occur.
pub struct Tally<K: Countable> {
    keys: Vec<K>,
    counts: Vec<usize>,
    /// The keys counted so far.
    seen: Ghost<Seq<K::Key>>,
}

impl<K: Countable> Tally<K> {
    /// The keys counted so far, in the order they were added.
    pub closed spec fn counted(&self) -> Seq<K::Key> {
        self.seen@
    }

    /// The counts agree with the keys counted so far.
    pub closed spec fn wf(&self) -> bool {
        &&& self.keys@.len() == self.counts@.len()
        &&& keys_of(self.keys@) == first_occurrences(self.seen@)
        &&& forall|e: int|
            0 <= e < self.keys@.len() ==> #[trigger] self.counts@[e] == occurrences(
                self.seen@,
                self.keys@[e].key(),
            )
    }

    /// The tally of no keys.
    pub fn new() -> (tally: Tally<K>)
        ensures
            tally.wf(),
            tally.counted() == Seq::<K::Key>::empty(),
    {
        let tally = Tally { keys: Vec::new(), counts: Vec::new(), seen: Ghost(Seq::empty()) };
        assert(keys_of(tally.keys@) =~= first_occurrences(tally.seen@));
        tally
    }

    /// Finds the place of the key of `value` among the counted keys.
    fn find(&self, value: &K) -> (place: Option<usize>)
        requires
            self.wf(),
        ensures
            match place {
                Some(e) => e < self.keys@.len() && self.keys@[e as int].key() == value.key(),
                None => !first_occurrences(self.counted()).contains(value.key()),
            },
    {
        let mut e: usize = 0;
        while e < self.keys.len()
            invariant
                e <= self.keys@.len(),
                forall|d: int| 0 <= d < e ==> (#[trigger] self.keys@[d]).key() != value.key(),
            decreases self.keys@.len() - e,
        {
            if self.keys[e].same_key(value) {
                return Some(e);
            }
            e = e + 1;
        }
        proof {
            let firsts = first_occurrences(self.counted());
            if firsts.contains(value.key()) {
                let d = choose|d: int| 0 <= d < firsts.len() && firsts[d] == value.key();
                assert(keys_of(self.keys@)[d] == self.keys@[d].key());
            }
        }
        None
    }

    /// Counts one more occurrence of the key of `value`.
    pub fn add(&mut self, value: K)
        requires
            old(self).wf(),
            old(self).counted().len() < usize::MAX,
        ensures
            final(self).wf(),
            final(self).counted() == old(self).counted().push(value.key()),
    {
        let ghost before = self.seen@;
        let ghost after = before.push(value.key());
        proof {
            assert(after.drop_last() =~= before);
            lemma_occurrences_bounds(before, value.key());
        }
        match self.find(&value) {
            Some(e) => {
                let count: usize = self.counts[e];
                self.counts.set(e, count + 1);
                self.seen = Ghost(after);
                proof {
                    assert(keys_of(self.keys@)[e as int] == self.keys@[e as int].key());
                    assert(first_occurrences(before).contains(value.key()));
                    lemma_first_occurrences(before);
                    assert forall|d: int| 0 <= d < self.keys@.len() implies #[trigger] self.counts@[d]
                        == occurrences(after, self.keys@[d].key()) by {
                        if d != e && self.keys@[d].key() == value.key() {
                            assert(keys_of(self.keys@)[d] == keys_of(self.keys@)[e as int]);
                        }
                    }
                }
            },
            None => {
                let ghost old_keys = self.keys@;
                self.keys.push(value);
                self.counts.push(1);
                self.seen = Ghost(after);
                proof {
                    lemma_first_occurrences(before);
                    assert(!before.to_set().contains(value.key()));
                    assert(!before.contains(value.key()));
                    assert(keys_of(self.keys@) =~= keys_of(old_keys).push(value.key()));
                    assert forall|d: int| 0 <= d < self.keys@.len() implies #[trigger] self.counts@[d]
                        == occurrences(after, self.keys@[d].key()) by {
                        if d < old_keys.len() {
                            assert(keys_of(old_keys)[d] == old_keys[d].key());
                            assert(first_occurrences(before).contains(old_keys[d].key()));
                            assert(before.to_set().contains(old_keys[d].key()));
                        }
                    }
                }
            },
        }
    }

    /// The number of different keys counted.
    pub fn distinct_count(&self) -> (n: usize)
        requires
            self.wf(),
        ensures
            n == distinct(self.counted()),
    {
        proof {
            lemma_first_occurrences(self.seen@);
            assert(keys_of(self.keys@).len() == self.keys@.len());
        }
        self.keys.len()
    }

    /// The most frequent of the counted keys outside `excluded`, with its
    /// count; none where every counted key is excluded.
    pub fn top_excluding(&self, excluded: &Vec<K>) -> (top: Option<(&K, usize)>)
        requires
            self.wf(),
        ensures
            match top {
                Some((value, count)) => is_top(
                    self.counted(),
                    keys_of(excluded@).to_set(),
                    value.key(),
                    count as nat,
                ),
                None => !has_eligible(self.counted(), keys_of(excluded@).to_set()),
            },
    {
        let ghost firsts = first_occurrences(self.seen@);
        let ghost out = keys_of(excluded@).to_set();
        let mut best: Option<usize> = None;
        let mut e: usize = 0;
        while e < self.keys.len()
            invariant
                self.wf(),
                e <= self.keys@.len(),
                firsts == first_occurrences(self.seen@),
                out == keys_of(excluded@).to_set(),
                best is None ==> forall|d: int| 0 <= d < e ==> out.contains(#[trigger] firsts[d]),
                best matches Some(b) ==> {
                    &&& b < e
                    &&& !out.contains(firsts[b as int])
                    &&& forall|d: int|
                        0 <= d < e && !out.contains(#[trigger] firsts[d]) ==> self.counts@[d]
                            <= self.counts@[b as int]
                    &&& forall|d: int|
                        0 <= d < b && !out.contains(#[trigger] firsts[d]) ==> self.counts@[d]
                            < self.counts@[b as int]
                },
            decreases self.keys@.len() - e,
        {
            proof {
                assert(keys_of(self.keys@)[e as int] == self.keys@[e as int].key());
            }
            if !is_listed(&self.keys[e], excluded) {
                match best {
                    Some(b) => {
                        if self.counts[e] > self.counts[b] {
                            best = Some(e);
                        }
                    },
                    None => {
                        best = Some(e);
                    },
                }
            }
            e = e + 1;
        }
        match best {
            Some(b) => {
                proof {
                    assert forall|d: int| 0 <= d < firsts.len() implies self.counts@[d]
                        == occurrences(self.seen@, #[trigger] firsts[d]) by {
                        assert(keys_of(self.keys@)[d] == self.keys@[d].key());
                    }
                    lemma_top_of_first_occurrences(self.seen@, out, b as int);
                    assert(keys_of(self.keys@)[b as int] == self.keys@[b as int].key());
                }
                Some((&self.keys[b], self.counts[b]))
            },
            None => {
                proof {
                    lemma_first_occurrences(self.seen@);
                    if has_eligible(self.seen@, out) {
                        let j = choose|j: int|
                            0 <= j < self.seen@.len() && !out.contains(#[trigger] self.seen@[j]);
                        assert(self.seen@.to_set().contains(self.seen@[j]));
                        assert(firsts.to_set().contains(self.seen@[j]));
                        let d = choose|d: int| 0 <= d < firsts.len() && firsts[d] == self.seen@[j];
                        assert(out.contains(firsts[d]));
                    }
                }
                None
            },
        }
    }
}

/// Whether the key of `value` is the key of one of `listed`.
fn is_listed<K: Countable>(value: &K, listed: &Vec<K>) -> (found: bool)
    ensures
        found == keys_of(listed@).to_set().contains(value.key()),
{
    let mut i: usize = 0;
    while i < listed.len()
        invariant
            i <= listed.len(),
            forall|j: int| 0 <= j < i ==> (#[trigger] listed@[j]).key() != value.key(),
        decreases listed.len() - i,
    {
        if listed[i].same_key(value) {
            proof {
                assert(keys_of(listed@)[i as int] == value.key());
            }
            return true;
        }
        i = i + 1;
    }
    proof {
        if keys_of(listed@).contains(value.key()) {
            let j = choose|j: int| 0 <= j < keys_of(listed@).len() && keys_of(listed@)[j]
                == value.key();
            assert(listed@[j].key() == value.key());
        }
    }
    false
}

} // verus!
