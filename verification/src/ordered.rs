//! A map keyed by byte strings that keeps its entries in key order.

use crate::bytes::{before, has_prefix, place, starts_with, Placed};
use crate::bytes::{lemma_before_asymmetric, lemma_before_irreflexive, lemma_before_total};
use crate::bytes::{lemma_before_transitive, lemma_prefix_interval, lemma_prefix_not_after};
use vstd::prelude::*;

verus! {

/// Every key comes before those that follow it.
pub open spec fn in_order<V>(pairs: Seq<(Vec<u8>, V)>) -> bool {
    forall|i: int, j: int|
        0 <= i < j < pairs.len() ==> before((#[trigger] pairs[i]).0@, (#[trigger] pairs[j]).0@)
}

/// `key` is the key of the pair at position `i`.
pub open spec fn found_at<V>(pairs: Seq<(Vec<u8>, V)>, key: Seq<u8>, i: int) -> bool {
    0 <= i < pairs.len() && pairs[i].0@ == key
}

/// The map that pairs in key order stand for.
pub open spec fn map_of<V>(pairs: Seq<(Vec<u8>, V)>) -> Map<Seq<u8>, V> {
    Map::new(
        |key: Seq<u8>| exists|i: int| found_at(pairs, key, i),
        |key: Seq<u8>| pairs[choose|i: int| found_at(pairs, key, i)].1,
    )
}

/// A map keyed by byte strings.
pub struct ByteMap<V> {
    pairs: Vec<(Vec<u8>, V)>,
}

impl<V> View for ByteMap<V> {
    type V = Map<Seq<u8>, V>;

    closed spec fn view(&self) -> Map<Seq<u8>, V> {
        map_of(self.pairs@)
    }
}

proof fn lemma_found_once<V>(pairs: Seq<(Vec<u8>, V)>, key: Seq<u8>, i: int)
    requires
        in_order(pairs),
        found_at(pairs, key, i),
    ensures
        map_of(pairs).contains_key(key),
        map_of(pairs)[key] == pairs[i].1,
{
    let j = choose|j: int| found_at(pairs, key, j);
    assert(found_at(pairs, key, j));
    if i < j {
        lemma_before_asymmetric(pairs[i].0@, pairs[j].0@);
    } else if j < i {
        lemma_before_asymmetric(pairs[j].0@, pairs[i].0@);
    }
}

/// Where the keys before `key` end.
spec fn divides<V>(pairs: Seq<(Vec<u8>, V)>, key: Seq<u8>, at: int) -> bool {
    &&& 0 <= at <= pairs.len()
    &&& forall|i: int| 0 <= i < at ==> before((#[trigger] pairs[i]).0@, key)
    &&& forall|i: int| at <= i < pairs.len() ==> !before((#[trigger] pairs[i]).0@, key)
}

proof fn lemma_divided<V>(pairs: Seq<(Vec<u8>, V)>, key: Seq<u8>, at: int)
    requires
        in_order(pairs),
        divides(pairs, key, at),
    ensures
        map_of(pairs).contains_key(key) <==> found_at(pairs, key, at),
{
    if map_of(pairs).contains_key(key) {
        let i = choose|i: int| found_at(pairs, key, i);
        assert(pairs[i].0@ == key);
        if i < at {
            lemma_before_irreflexive(key);
        } else if at < i {
            assert(before(pairs[at].0@, pairs[i].0@));
        }
    }
    if found_at(pairs, key, at) {
        lemma_found_once(pairs, key, at);
    }
}

impl<V> ByteMap<V> {
    #[verifier::type_invariant]
    spec fn ordered(self) -> bool {
        in_order(self.pairs@)
    }

    /// An empty map.
    pub fn new() -> (r: Self)
        ensures
            r@ == Map::<Seq<u8>, V>::empty(),
    {
        let r = ByteMap { pairs: Vec::new() };
        assert(r@ =~= Map::<Seq<u8>, V>::empty());
        r
    }

    /// The number of keys that come before `key`.
    fn position(&self, key: &[u8]) -> (at: usize)
        ensures
            divides(self.pairs@, key@, at as int),
    {
        proof {
            use_type_invariant(self);
        }
        let mut low: usize = 0;
        let mut high: usize = self.pairs.len();
        while low < high
            invariant
                in_order(self.pairs@),
                low <= high <= self.pairs@.len(),
                forall|i: int| 0 <= i < low ==> before((#[trigger] self.pairs@[i]).0@, key@),
                forall|i: int|
                    high <= i < self.pairs@.len() ==> !before((#[trigger] self.pairs@[i]).0@, key@),
            decreases high - low,
        {
            let middle: usize = low + (high - low) / 2;
            match place(self.pairs[middle].0.as_slice(), key) {
                Placed::Before => {
                    proof {
                        assert forall|i: int| 0 <= i <= middle implies before(
                            (#[trigger] self.pairs@[i]).0@,
                            key@,
                        ) by {
                            if i < middle {
                                lemma_before_transitive(
                                    self.pairs@[i].0@,
                                    self.pairs@[middle as int].0@,
                                    key@,
                                );
                            }
                        }
                    }
                    low = middle + 1;
                },
                _ => {
                    proof {
                        let at = self.pairs@[middle as int].0@;
                        if at != key@ {
                            lemma_before_asymmetric(key@, at);
                        } else {
                            lemma_before_irreflexive(key@);
                        }
                        assert forall|i: int|
                            middle <= i < self.pairs@.len() implies !before(
                            (#[trigger] self.pairs@[i]).0@,
                            key@,
                        ) by {
                            if i > middle && before(self.pairs@[i].0@, key@) {
                                lemma_before_transitive(at, self.pairs@[i].0@, key@);
                            }
                        }
                    }
                    high = middle;
                },
            }
        }
        low
    }

    /// Tells whether there is an entry under `key`.
    pub fn contains_key(&self, key: &[u8]) -> (r: bool)
        ensures
            r == self@.contains_key(key@),
    {
        match self.get(key) {
            Some(_) => true,
            None => false,
        }
    }

    /// The value under `key`, if there is one.
    pub fn get(&self, key: &[u8]) -> (r: Option<&V>)
        ensures
            match r {
                Some(value) => self@.contains_key(key@) && *value == self@[key@],
                None => !self@.contains_key(key@),
            },
    {
        let at = self.position(key);
        proof {
            use_type_invariant(self);
            lemma_divided(self.pairs@, key@, at as int);
        }
        if at < self.pairs.len() {
            match place(self.pairs[at].0.as_slice(), key) {
                Placed::Same => {
                    proof {
                        lemma_found_once(self.pairs@, key@, at as int);
                    }
                    return Some(&self.pairs[at].1);
                },
                Placed::Before => {},
                Placed::After => {
                    proof {
                        lemma_before_asymmetric(key@, self.pairs@[at as int].0@);
                    }
                },
            }
        }
        None
    }

    /// Puts `value` under `key`, in place of what was there.
    pub fn insert(&mut self, key: Vec<u8>, value: V)
        ensures
            final(self)@ == old(self)@.insert(key@, value),
    {
        let at = self.position(key.as_slice());
        proof {
            use_type_invariant(&*self);
            lemma_divided(self.pairs@, key@, at as int);
        }
        let mut pairs: Vec<(Vec<u8>, V)> = Vec::new();
        std::mem::swap(&mut pairs, &mut self.pairs);
        let ghost before_pairs = pairs@;
        let mut present = false;
        if at < pairs.len() {
            present = match place(pairs[at].0.as_slice(), key.as_slice()) {
                Placed::Same => true,
                _ => false,
            };
        }
        let ghost new_key = key@;
        if present {
            let _ = pairs.remove(at);
        }
        pairs.insert(at, (key, value));
        proof {
            lemma_inserted(before_pairs, pairs@, new_key, value, at as int);
        }
        self.pairs = pairs;
    }

    /// Removes the entry under `key`, if there is one.
    pub fn remove(&mut self, key: &[u8])
        ensures
            final(self)@ == old(self)@.remove(key@),
    {
        let at = self.position(key);
        proof {
            use_type_invariant(&*self);
            lemma_divided(self.pairs@, key@, at as int);
        }
        let mut pairs: Vec<(Vec<u8>, V)> = Vec::new();
        std::mem::swap(&mut pairs, &mut self.pairs);
        let ghost before_pairs = pairs@;
        let mut present = false;
        if at < pairs.len() {
            present = match place(pairs[at].0.as_slice(), key) {
                Placed::Same => true,
                _ => false,
            };
        }
        if present {
            let _ = pairs.remove(at);
            proof {
                lemma_removed(before_pairs, pairs@, key@, at as int);
            }
        } else {
            assert(map_of(before_pairs).remove(key@) =~= map_of(before_pairs));
        }
        self.pairs = pairs;
    }
}

/// A walk over neighbouring entries of a map.
pub struct ByteScan<'a, V> {
    map: &'a ByteMap<V>,
    at: usize,
    end: usize,
}

impl<'a, V> ByteScan<'a, V> {
    #[verifier::type_invariant]
    spec fn within(self) -> bool {
        self.at <= self.end <= self.map.pairs@.len()
    }

    /// The entries that are still to come.
    pub closed spec fn rest(&self) -> Seq<(Vec<u8>, V)> {
        self.map.pairs@.subrange(self.at as int, self.end as int)
    }

    /// Hands out the next entry.
    pub fn next(&mut self) -> (r: Option<&'a (Vec<u8>, V)>)
        ensures
            match r {
                Some(pair) => {
                    &&& old(self).rest().len() > 0
                    &&& *pair == old(self).rest()[0]
                    &&& final(self).rest() == old(self).rest().skip(1)
                },
                None => old(self).rest().len() == 0 && final(self).rest() == old(self).rest(),
            },
    {
        proof {
            use_type_invariant(&*self);
        }
        if self.at < self.end {
            let i = self.at;
            self.at = i + 1;
            assert(self.rest() =~= old(self).rest().skip(1));
            Some(&self.map.pairs[i])
        } else {
            None
        }
    }
}

impl<V> ByteMap<V> {
    /// The entries whose keys begin with `prefix`, in key order.
    pub fn scan<'a>(&'a self, prefix: &[u8]) -> (r: ByteScan<'a, V>)
        ensures
            in_order(r.rest()),
            forall|i: int|
                0 <= i < r.rest().len() ==> {
                    let key = (#[trigger] r.rest()[i]).0@;
                    has_prefix(key, prefix@) && self@.contains_key(key) && self@[key]
                        == r.rest()[i].1
                },
            forall|key: Seq<u8>| #[trigger]
                self@.contains_key(key) && has_prefix(key, prefix@) ==> exists|i: int|
                    found_at(r.rest(), key, i),
    {
        let at = self.position(prefix);
        proof {
            use_type_invariant(self);
        }
        let mut end: usize = at;
        while end < self.pairs.len() && starts_with(self.pairs[end].0.as_slice(), prefix)
            invariant
                at <= end <= self.pairs@.len(),
                forall|i: int|
                    at <= i < end ==> has_prefix((#[trigger] self.pairs@[i]).0@, prefix@),
            decreases self.pairs@.len() - end,
        {
            end += 1;
        }
        let r = ByteScan { map: self, at, end };
        proof {
            let pairs = self.pairs@;
            assert forall|i: int| 0 <= i < r.rest().len() implies {
                let key = (#[trigger] r.rest()[i]).0@;
                has_prefix(key, prefix@) && self@.contains_key(key) && self@[key] == r.rest()[i].1
            } by {
                assert(r.rest()[i] == pairs[at + i]);
                assert(found_at(pairs, pairs[at + i].0@, at + i));
                lemma_found_once(pairs, pairs[at + i].0@, at + i);
            }
            assert forall|key: Seq<u8>| #[trigger] self@.contains_key(key) && has_prefix(
                key,
                prefix@,
            ) implies exists|i: int| found_at(r.rest(), key, i) by {
                let n = choose|n: int| found_at(pairs, key, n);
                assert(pairs[n].0@ == key);
                lemma_prefix_not_after(key, prefix@);
                if n >= end {
                    if n > end {
                        lemma_prefix_interval(pairs[end as int].0@, key, prefix@);
                    }
                }
                assert(found_at(r.rest(), key, n - at));
            }
        }
        r
    }
}

proof fn lemma_removed<V>(
    pairs: Seq<(Vec<u8>, V)>,
    pairs1: Seq<(Vec<u8>, V)>,
    key: Seq<u8>,
    at: int,
)
    requires
        in_order(pairs),
        found_at(pairs, key, at),
        pairs1 == pairs.remove(at),
    ensures
        in_order(pairs1),
        map_of(pairs1) == map_of(pairs).remove(key),
{
    assert forall|i: int, j: int| 0 <= i < j < pairs1.len() implies before(
        (#[trigger] pairs1[i]).0@,
        (#[trigger] pairs1[j]).0@,
    ) by {
        let i0 = if i < at { i } else { i + 1 };
        let j0 = if j < at { j } else { j + 1 };
        assert(before(pairs[i0].0@, pairs[j0].0@));
    }
    assert forall|k: Seq<u8>| #[trigger]
        map_of(pairs1).dom().contains(k) == map_of(pairs).remove(
        key,
    ).contains_key(k) && (map_of(pairs1).contains_key(k) ==> map_of(pairs1)[k] == map_of(pairs).remove(
        key,
    )[k]) by {
        if map_of(pairs1).contains_key(k) {
            let i = choose|i: int| found_at(pairs1, k, i);
            let i0 = if i < at { i } else { i + 1 };
            assert(found_at(pairs, k, i0));
            lemma_found_once(pairs, k, i0);
            lemma_found_once(pairs1, k, i);
            if i0 < at {
                lemma_before_asymmetric(pairs[i0].0@, pairs[at].0@);
            } else {
                lemma_before_asymmetric(pairs[at].0@, pairs[i0].0@);
            }
        }
        if map_of(pairs).remove(key).contains_key(k) {
            let i0 = choose|i: int| found_at(pairs, k, i);
            let i = if i0 < at { i0 } else { i0 - 1 };
            assert(found_at(pairs1, k, i));
        }
    }
    assert(map_of(pairs1) =~= map_of(pairs).remove(key));
}

proof fn lemma_inserted<V>(
    pairs: Seq<(Vec<u8>, V)>,
    pairs1: Seq<(Vec<u8>, V)>,
    key: Seq<u8>,
    value: V,
    at: int,
)
    requires
        in_order(pairs),
        divides(pairs, key, at),
        at < pairs1.len(),
        pairs1[at].0@ == key,
        pairs1[at].1 == value,
        pairs1 == (if found_at(pairs, key, at) {
            pairs.remove(at)
        } else {
            pairs
        }).insert(at, pairs1[at]),
    ensures
        in_order(pairs1),
        map_of(pairs1) == map_of(pairs).insert(key, value),
{
    let present = found_at(pairs, key, at);
    let shift: int = if present { 0 } else { 1 };
    assert forall|i: int| at < i < pairs1.len() implies #[trigger] pairs1[i] == pairs[i - shift] by {}
    assert forall|i: int| 0 <= i < at implies #[trigger] pairs1[i] == pairs[i] by {}
    assert forall|i: int| at < i < pairs1.len() implies before(key, (#[trigger] pairs1[i]).0@) by {
        let p = pairs[i - shift];
        assert(!before(p.0@, key));
        if present {
            assert(before(pairs[at].0@, pairs[i].0@));
        } else {
            if p.0@ == key {
                assert(map_of(pairs).contains_key(key)) by {
                    lemma_found_once(pairs, key, i - shift);
                }
                lemma_divided(pairs, key, at);
            }
            lemma_before_total(p.0@, key);
        }
    }
    assert forall|i: int, j: int| 0 <= i < j < pairs1.len() implies before(
        (#[trigger] pairs1[i]).0@,
        (#[trigger] pairs1[j]).0@,
    ) by {
        if j < at {
            assert(before(pairs[i].0@, pairs[j].0@));
        } else if i > at {
            assert(before(pairs[i - shift].0@, pairs[j - shift].0@));
        } else if i < at {
            assert(before(pairs[i].0@, key));
            if j > at {
                lemma_before_transitive(pairs[i].0@, key, pairs1[j].0@);
            }
        }
    }
    assert forall|k: Seq<u8>| #[trigger]
        map_of(pairs1).dom().contains(k) == map_of(pairs).insert(
        key,
        value,
    ).contains_key(k) && (map_of(pairs1).contains_key(k) ==> map_of(pairs1)[k] == map_of(
        pairs,
    ).insert(key, value)[k]) by {
        assert(found_at(pairs1, key, at));
        lemma_found_once(pairs1, key, at);
        if map_of(pairs1).contains_key(k) && k != key {
            let i = choose|i: int| found_at(pairs1, k, i);
            let i0 = if i < at { i } else { i - shift };
            assert(found_at(pairs, k, i0));
            lemma_found_once(pairs, k, i0);
            lemma_found_once(pairs1, k, i);
        }
        if map_of(pairs).contains_key(k) && k != key {
            let i0 = choose|i: int| found_at(pairs, k, i);
            let i = if i0 < at { i0 } else { i0 + shift };
            assert(found_at(pairs1, k, i));
        }
    }
    assert(map_of(pairs1) =~= map_of(pairs).insert(key, value));
}

} // verus!
