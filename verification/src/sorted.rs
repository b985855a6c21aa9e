//! A map keyed by strings and held as two parallel vectors in ascending key
//! order, so that walking it is walking the keys alphabetically.

use vstd::prelude::*;
use crate::text::{
    compare, lemma_lex_asymmetric, lemma_lex_irreflexive, lemma_lex_transitive, lex_lt, Rank,
};

verus! {

/// A map from strings to `T`, sorted by key. `keys[i]` belongs to `values[i]`.
#[derive(Clone, Debug, PartialEq, Eq)]
pub struct SortedMap<T> {
    pub keys: Vec<String>,
    pub values: Vec<T>,
}

impl<T> View for SortedMap<T> {
    type V = Map<Seq<char>, T>;

    open spec fn view(&self) -> Map<Seq<char>, T> {
        Map::new(|k: Seq<char>| self.has_key(k), |k: Seq<char>| self.values@[self.position(k)])
    }
}

impl<T> SortedMap<T> {
    /// The two vectors have one length and the keys strictly ascend, so no key
    /// occurs twice.
    pub open spec fn wf(&self) -> bool {
        &&& self.keys@.len() == self.values@.len()
        &&& forall|i: int, j: int|
            0 <= i < j < self.keys@.len() ==> lex_lt(
                #[trigger] self.keys@[i]@,
                #[trigger] self.keys@[j]@,
            )
    }

    /// `i` is a place at which `k` is stored.
    pub open spec fn stored_at(&self, k: Seq<char>, i: int) -> bool {
        0 <= i < self.keys@.len() && self.keys@[i]@ == k
    }

    /// `k` is stored somewhere.
    pub open spec fn has_key(&self, k: Seq<char>) -> bool {
        exists|i: int| self.stored_at(k, i)
    }

    /// The place at which `k` is stored, where it is stored at all.
    pub open spec fn position(&self, k: Seq<char>) -> int {
        choose|i: int| self.stored_at(k, i)
    }

    /// A key is stored at one place only, and the view maps it to the value
    /// at that place.
    pub proof fn lemma_stored(&self, i: int)
        requires
            self.wf(),
            0 <= i < self.keys@.len(),
        ensures
            self.position(self.keys@[i]@) == i,
            self@.contains_key(self.keys@[i]@),
            self@[self.keys@[i]@] == self.values@[i],
    {
        let k = self.keys@[i]@;
        assert(self.stored_at(k, i));
        let p = self.position(k);
        lemma_lex_irreflexive(k);
        if p < i {
            assert(lex_lt(self.keys@[p]@, self.keys@[i]@));
        } else if i < p {
            assert(lex_lt(self.keys@[i]@, self.keys@[p]@));
        }
    }

    /// An empty map.
    pub fn new() -> (m: Self)
        ensures
            m.wf(),
            m@ == Map::<Seq<char>, T>::empty(),
            m.keys@.len() == 0,
    {
        let m = SortedMap { keys: Vec::new(), values: Vec::new() };
        assert(m@ =~= Map::<Seq<char>, T>::empty());
        m
    }

    /// Binary search for `key`: whether it is stored, and the place where it
    /// is or where it would have to be put.
    pub fn search(&self, key: &str) -> (r: (bool, usize))
        requires
            self.wf(),
        ensures
            r.0 == self@.contains_key(key@),
            r.0 ==> self.stored_at(key@, r.1 as int),
            !r.0 ==> r.1 <= self.keys@.len(),
            !r.0 ==> forall|j: int| 0 <= j < r.1 ==> lex_lt(#[trigger] self.keys@[j]@, key@),
            !r.0 ==> forall|j: int|
                r.1 <= j < self.keys@.len() ==> lex_lt(key@, #[trigger] self.keys@[j]@),
    {
        let mut lo: usize = 0;
        let mut hi: usize = self.keys.len();
        while lo < hi
            invariant
                self.wf(),
                lo <= hi <= self.keys@.len(),
                forall|j: int| 0 <= j < lo ==> lex_lt(#[trigger] self.keys@[j]@, key@),
                forall|j: int| hi <= j < self.keys@.len() ==> lex_lt(key@, #[trigger] self.keys@[j]@),
            decreases hi - lo,
        {
            let mid: usize = lo + (hi - lo) / 2;
            match compare(self.keys[mid].as_str(), key) {
                Rank::Same => {
                    proof {
                        self.lemma_stored(mid as int);
                    }
                    return (true, mid);
                },
                Rank::Before => {
                    proof {
                        assert forall|j: int| 0 <= j < mid + 1 implies lex_lt(
                            #[trigger] self.keys@[j]@,
                            key@,
                        ) by {
                            if j < mid {
                                lemma_lex_transitive(self.keys@[j]@, self.keys@[mid as int]@, key@);
                            }
                        }
                    }
                    lo = mid + 1;
                },
                Rank::After => {
                    proof {
                        assert forall|j: int| mid <= j < self.keys@.len() implies lex_lt(
                            key@,
                            #[trigger] self.keys@[j]@,
                        ) by {
                            if mid < j {
                                lemma_lex_transitive(key@, self.keys@[mid as int]@, self.keys@[j]@);
                            }
                        }
                    }
                    hi = mid;
                },
            }
        }
        proof {
            lemma_lex_irreflexive(key@);
            assert forall|i: int| !self.stored_at(key@, i) by {
                if 0 <= i < self.keys@.len() {
                    if i < lo {
                        assert(lex_lt(self.keys@[i]@, key@));
                    } else {
                        assert(lex_lt(key@, self.keys@[i]@));
                    }
                }
            }
        }
        (false, lo)
    }

    /// Whether `key` is stored.
    pub fn contains_key(&self, key: &str) -> (b: bool)
        requires
            self.wf(),
        ensures
            b == self@.contains_key(key@),
    {
        self.search(key).0
    }

    /// The value stored under `key`, if there is one.
    pub fn get(&self, key: &str) -> (r: Option<&T>)
        requires
            self.wf(),
        ensures
            match r {
                Some(v) => self@.contains_key(key@) && *v == self@[key@],
                None => !self@.contains_key(key@),
            },
    {
        let (found, i) = self.search(key);
        if found {
            proof {
                self.lemma_stored(i as int);
            }
            Some(&self.values[i])
        } else {
            None
        }
    }

    /// Stores `value` under `key`, in place of what was stored there before.
    pub fn insert(&mut self, key: String, value: T)
        requires
            old(self).wf(),
        ensures
            final(self).wf(),
            final(self)@ == old(self)@.insert(key@, value),
    {
        let (found, i) = self.search(key.as_str());
        if found {
            self.values.set(i, value);
            proof {
                assert(final(self).wf());
                assert forall|k: Seq<char>| final(self).has_key(k) == old(self).has_key(k) by {
                    if old(self).has_key(k) {
                        assert(final(self).stored_at(k, old(self).position(k)));
                    }
                    if final(self).has_key(k) {
                        assert(old(self).stored_at(k, final(self).position(k)));
                    }
                }
                old(self).lemma_stored(i as int);
                assert forall|k: Seq<char>| final(self).has_key(k) implies #[trigger] final(self)@[k]
                    == old(self)@.insert(key@, value)[k] by {
                    let p = final(self).position(k);
                    final(self).lemma_stored(p);
                    old(self).lemma_stored(p);
                }
                assert(final(self)@ =~= old(self)@.insert(key@, value));
            }
        } else {
            self.keys.insert(i, key);
            self.values.insert(i, value);
            proof {
                assert forall|a: int, b: int| 0 <= a < b < final(self).keys@.len() implies lex_lt(
                    #[trigger] final(self).keys@[a]@,
                    #[trigger] final(self).keys@[b]@,
                ) by {
                    let oa = if a < i { a } else { a - 1 };
                    let ob = if b < i { b } else { b - 1 };
                    if a != i && b != i {
                        assert(lex_lt(old(self).keys@[oa]@, old(self).keys@[ob]@));
                    } else if a == i {
                        assert(lex_lt(key@, old(self).keys@[ob]@));
                    } else {
                        assert(lex_lt(old(self).keys@[oa]@, key@));
                    }
                }
                assert forall|k: Seq<char>| final(self).has_key(k) == (k == key@ || old(self).has_key(
                    k,
                )) by {
                    if old(self).has_key(k) {
                        let p = old(self).position(k);
                        assert(final(self).stored_at(k, if p < i { p } else { p + 1 }));
                    }
                    if k == key@ {
                        assert(final(self).stored_at(k, i as int));
                    }
                    if final(self).has_key(k) && k != key@ {
                        let p = final(self).position(k);
                        assert(old(self).stored_at(k, if p < i { p } else { p - 1 }));
                    }
                }
                assert forall|k: Seq<char>| final(self).has_key(k) implies #[trigger] final(self)@[k]
                    == old(self)@.insert(key@, value)[k] by {
                    let p = final(self).position(k);
                    final(self).lemma_stored(p);
                    if p != i {
                        old(self).lemma_stored(if p < i { p } else { p - 1 });
                    }
                }
                assert(final(self)@ =~= old(self)@.insert(key@, value));
            }
        }
    }

    /// Takes `key` and its value out, and hands the value back if there was
    /// one.
    pub fn remove(&mut self, key: &str) -> (r: Option<T>)
        requires
            old(self).wf(),
        ensures
            final(self).wf(),
            final(self)@ == old(self)@.remove(key@),
            match r {
                Some(v) => old(self)@.contains_key(key@) && v == old(self)@[key@],
                None => !old(self)@.contains_key(key@),
            },
    {
        let (found, i) = self.search(key);
        if !found {
            assert(final(self)@ =~= old(self)@.remove(key@));
            return None;
        }
        proof {
            old(self).lemma_stored(i as int);
        }
        self.keys.remove(i);
        let v = self.values.remove(i);
        proof {
            assert forall|a: int, b: int| 0 <= a < b < final(self).keys@.len() implies lex_lt(
                #[trigger] final(self).keys@[a]@,
                #[trigger] final(self).keys@[b]@,
            ) by {
                let oa = if a < i { a } else { a + 1 };
                let ob = if b < i { b } else { b + 1 };
                assert(lex_lt(old(self).keys@[oa]@, old(self).keys@[ob]@));
            }
            assert forall|k: Seq<char>| final(self).has_key(k) == (k != key@ && old(self).has_key(
                k,
            )) by {
                if old(self).has_key(k) && k != key@ {
                    let p = old(self).position(k);
                    assert(final(self).stored_at(k, if p < i { p } else { p - 1 }));
                }
                if final(self).has_key(k) {
                    let p = final(self).position(k);
                    let op = if p < i { p } else { p + 1 };
                    assert(old(self).stored_at(k, op));
                    old(self).lemma_stored(op);
                }
            }
            assert forall|k: Seq<char>| final(self).has_key(k) implies #[trigger] final(self)@[k]
                == old(self)@[k] by {
                let p = final(self).position(k);
                final(self).lemma_stored(p);
                old(self).lemma_stored(if p < i { p } else { p + 1 });
            }
            assert(final(self)@ =~= old(self)@.remove(key@));
        }
        Some(v)
    }
    /// Whether the map is well formed, for maps whose fields were set by
    /// hand.
    pub fn is_wf(&self) -> (b: bool)
        ensures
            b == self.wf(),
    {
        let n = self.keys.len();
        if n != self.values.len() {
            return false;
        }
        let mut i: usize = 1;
        while i < n
            invariant
                n == self.keys@.len(),
                1 <= i,
                forall|a: int, b: int|
                    0 <= a < b < i && b < n ==> lex_lt(
                        #[trigger] self.keys@[a]@,
                        #[trigger] self.keys@[b]@,
                    ),
            decreases n - i,
        {
            match compare(self.keys[i - 1].as_str(), self.keys[i].as_str()) {
                Rank::Before => {},
                _ => {
                    assert(!lex_lt(self.keys@[i - 1]@, self.keys@[i as int]@));
                    return false;
                },
            }
            proof {
                assert forall|a: int, b: int| 0 <= a < b < i + 1 && b < n implies lex_lt(
                    #[trigger] self.keys@[a]@,
                    #[trigger] self.keys@[b]@,
                ) by {
                    if b == i && a < i - 1 {
                        lemma_lex_transitive(
                            self.keys@[a]@,
                            self.keys@[i - 1]@,
                            self.keys@[i as int]@,
                        );
                    }
                }
            }
            i += 1;
        }
        true
    }
    /// Two well-formed maps that store the same keys agree on their first
    /// `n` places.
    proof fn lemma_same_prefix(&self, other: &SortedMap<T>, n: int)
        requires
            self.wf(),
            other.wf(),
            forall|k: Seq<char>| self.has_key(k) <==> other.has_key(k),
            0 <= n <= self.keys@.len(),
        ensures
            n <= other.keys@.len(),
            forall|j: int| 0 <= j < n ==> self.keys@[j]@ == other.keys@[j]@,
        decreases n,
    {
        if n > 0 {
            self.lemma_same_prefix(other, n - 1);
            let i = n - 1;
            let k = self.keys@[i]@;
            assert(self.stored_at(k, i));
            assert(self.has_key(k));
            assert(other.has_key(k));
            let p = other.position(k);
            assert(other.stored_at(k, p));
            if p < i {
                assert(self.keys@[p]@ == k);
                assert(lex_lt(self.keys@[p]@, self.keys@[i]@));
                lemma_lex_irreflexive(k);
            }
            assert(i <= p);
            let k2 = other.keys@[i]@;
            assert(other.stored_at(k2, i));
            assert(other.has_key(k2));
            assert(self.has_key(k2));
            let q = self.position(k2);
            assert(self.stored_at(k2, q));
            if q < i {
                assert(other.keys@[q]@ == k2);
                assert(lex_lt(other.keys@[q]@, other.keys@[i]@));
                lemma_lex_irreflexive(k2);
            }
            if p > i {
                assert(lex_lt(other.keys@[i]@, other.keys@[p]@));
                if q == i {
                    lemma_lex_irreflexive(k);
                } else {
                    assert(lex_lt(self.keys@[i]@, self.keys@[q]@));
                    lemma_lex_asymmetric(k, k2);
                }
            }
        }
    }

    /// The keys decide the layout: two well-formed maps that store the same
    /// keys store them at the same places.
    pub proof fn lemma_same_keys(&self, other: &SortedMap<T>)
        requires
            self.wf(),
            other.wf(),
            forall|k: Seq<char>| self.has_key(k) <==> other.has_key(k),
        ensures
            self.keys@.len() == other.keys@.len(),
            forall|j: int| 0 <= j < self.keys@.len() ==> self.keys@[j]@ == other.keys@[j]@,
    {
        self.lemma_same_prefix(other, self.keys@.len() as int);
        other.lemma_same_prefix(self, other.keys@.len() as int);
    }
}

} // verus!
