//! Frontiers: the minimal times that may still be observed on an edge.

use crate::order::{strictly_before, Timestamp};
use vstd::prelude::*;

verus! {

/// A finite set of pairwise incomparable times.
///
/// A frontier stands for every time at or after one of its elements: these
/// are the times that may still be observed. The empty frontier says that
/// nothing more can come.
pub struct Antichain<T: Timestamp> {
    elements: Vec<T>,
}

impl<T: Timestamp> View for Antichain<T> {
    type V = Set<T>;

    /// The elements of the frontier.
    closed spec fn view(&self) -> Set<T> {
        self.elements@.to_set()
    }
}

/// No element of `s` is at or before another.
pub open spec fn pairwise_incomparable<T: Timestamp>(s: Set<T>) -> bool {
    forall|a: T, b: T| s.contains(a) && s.contains(b) && a.leq(b) ==> a == b
}

/// Some time in `times` is at or before `t`.
pub open spec fn reaches<T: Timestamp>(times: Set<T>, t: T) -> bool {
    exists|s: T| times.contains(s) && s.leq(t)
}

/// The minimal elements of a set of times: those with no other element of
/// the set before them.
pub open spec fn minimal<T: Timestamp>(times: Set<T>) -> Set<T> {
    Set::new(|t: T| times.contains(t) && forall|s: T| times.contains(s) && s.leq(t) ==> s == t)
}

/// A frontier that stands for exactly the times at or after an element of
/// `times` consists of the minimal elements of `times`.
pub proof fn lemma_frontier_is_minimal<T: Timestamp>(f: &Antichain<T>, times: Set<T>)
    requires
        f.wf(),
        forall|t: T| #[trigger] f.dominates(t) <==> reaches(times, t),
    ensures
        f@ == minimal(times),
{
    f.wf_is_antichain();
    assert forall|x: T| f@.contains(x) <==> minimal(times).contains(x) by {
        T::leq_reflexive(x);
        if f@.contains(x) {
            assert(f.dominates(x));
            let s = choose|s: T| times.contains(s) && s.leq(x);
            T::leq_reflexive(s);
            assert(reaches(times, s));
            assert(f.dominates(s));
            let e = choose|e: T| f@.contains(e) && e.leq(s);
            T::leq_transitive(e, s, x);
            T::leq_antisymmetric(s, x);
            assert forall|r: T| times.contains(r) && r.leq(x) implies r == x by {
                T::leq_reflexive(r);
                assert(reaches(times, r));
                assert(f.dominates(r));
                let d = choose|d: T| f@.contains(d) && d.leq(r);
                T::leq_transitive(d, r, x);
                T::leq_antisymmetric(r, x);
            }
        }
        if minimal(times).contains(x) {
            assert(reaches(times, x));
            assert(f.dominates(x));
            let e = choose|e: T| f@.contains(e) && e.leq(x);
            T::leq_reflexive(e);
            assert(f.dominates(e));
            let s = choose|s: T| times.contains(s) && s.leq(e);
            T::leq_transitive(s, e, x);
            T::leq_antisymmetric(e, x);
        }
    }
    assert(f@ =~= minimal(times));
}

/// The frontier that results from adding `time` to the antichain `s`: `s`
/// itself where an element of `s` is at or before `time`, and otherwise
/// `time` together with the elements of `s` that are not after it.
pub open spec fn with_time<T: Timestamp>(s: Set<T>, time: T) -> Set<T> {
    if exists|e: T| s.contains(e) && e.leq(time) {
        s
    } else {
        s.filter(|e: T| !time.leq(e)).insert(time)
    }
}

impl<T: Timestamp> Antichain<T> {
    /// The elements are pairwise incomparable, and none is stored twice.
    pub closed spec fn wf(&self) -> bool {
        forall|i: int, j: int|
            0 <= i < self.elements.len() && 0 <= j < self.elements.len()
                && #[trigger] self.elements[i].leq(#[trigger] self.elements[j]) ==> i == j
    }

    /// Some element of the frontier is at or before `time`: `time` may still
    /// be observed.
    pub open spec fn dominates(&self, time: T) -> bool {
        reaches(self@, time)
    }

    /// Some element of the frontier is strictly before `time`.
    pub open spec fn strictly_dominates(&self, time: T) -> bool {
        exists|e: T| self@.contains(e) && strictly_before(e, time)
    }

    /// Every time that `self` may still deliver, `earlier` could deliver too:
    /// `self` is `earlier` or an advance of it.
    pub open spec fn advanced_from(&self, earlier: &Antichain<T>) -> bool {
        forall|t: T| self.dominates(t) ==> earlier.dominates(t)
    }

    /// A well-formed frontier is a finite antichain.
    pub proof fn wf_is_antichain(&self)
        requires
            self.wf(),
        ensures
            self@.finite(),
            pairwise_incomparable(self@),
    {
        let s = self.elements@;
        vstd::seq_lib::seq_to_set_is_finite(s);
        assert forall|a: T, b: T| self@.contains(a) && self@.contains(b) && a.leq(b) implies a
            == b by {
            let i = choose|i: int| 0 <= i < s.len() && s[i] == a;
            let j = choose|j: int| 0 <= j < s.len() && s[j] == b;
            assert(s[i].leq(s[j]));
        }
    }

    proof fn lemma_stored_once(&self)
        requires
            self.wf(),
        ensures
            self.elements@.no_duplicates(),
            self@.len() == self.elements@.len(),
    {
        let s = self.elements@;
        assert forall|i: int, j: int| 0 <= i < s.len() && 0 <= j < s.len() && i != j implies s[i]
            != s[j] by {
            if s[i] == s[j] {
                T::leq_reflexive(s[i]);
                assert(s[i].leq(s[j]));
            }
        }
        s.unique_seq_to_set();
    }

    /// The empty frontier: nothing more can come.
    pub fn new() -> (f: Antichain<T>)
        ensures
            f.wf(),
            f@ == Set::<T>::empty(),
    {
        let f = Antichain { elements: Vec::new() };
        assert(f@ =~= Set::<T>::empty());
        f
    }

    /// The frontier with the single element `time`.
    pub fn from_elem(time: T) -> (f: Antichain<T>)
        ensures
            f.wf(),
            f@ == set![time],
    {
        let mut elements = Vec::new();
        elements.push(time);
        let f = Antichain { elements };
        assert(f@ =~= set![time]) by {
            assert(f.elements@[0] == time);
        }
        f
    }

    /// The frontier of a collection of times: its minimal elements.
    pub fn from_times(times: &Vec<T>) -> (f: Antichain<T>)
        ensures
            f.wf(),
            f@ == minimal(times@.to_set()),
            forall|t: T| #[trigger] f.dominates(t) <==> reaches(times@.to_set(), t),
    {
        let mut f = Antichain::new();
        let mut i: usize = 0;
        while i < times.len()
            invariant
                i <= times.len(),
                f.wf(),
                forall|t: T| #[trigger]
                    f.dominates(t) <==> reaches(times@.take(i as int).to_set(), t),
            decreases times.len() - i,
        {
            let ghost prior = f;
            let ghost seen = times@.take(i as int);
            f.insert(times[i]);
            i += 1;
            proof {
                let now = times@.take(i as int);
                assert(now =~= seen.push(times@[i - 1]));
                assert forall|t: T| #[trigger] f.dominates(t) <==> reaches(now.to_set(), t) by {
                    if reaches(now.to_set(), t) {
                        let s = choose|s: T| now.to_set().contains(s) && s.leq(t);
                        let k = choose|k: int| 0 <= k < now.len() && now[k] == s;
                        if k < i - 1 {
                            assert(seen[k] == s);
                            assert(seen.to_set().contains(s));
                            assert(prior.dominates(t));
                        }
                    }
                    if prior.dominates(t) {
                        let s = choose|s: T| seen.to_set().contains(s) && s.leq(t);
                        let k = choose|k: int| 0 <= k < seen.len() && seen[k] == s;
                        assert(now[k] == s);
                        assert(now.to_set().contains(s));
                    }
                    if times@[i - 1].leq(t) {
                        assert(now[i - 1] == times@[i - 1]);
                        assert(now.to_set().contains(times@[i - 1]));
                    }
                }
            }
        }
        proof {
            assert(times@.take(i as int) =~= times@);
            lemma_frontier_is_minimal(&f, times@.to_set());
        }
        f
    }

    /// The number of elements.
    pub fn len(&self) -> (n: usize)
        requires
            self.wf(),
        ensures
            n == self@.len(),
    {
        proof {
            self.lemma_stored_once();
        }
        self.elements.len()
    }

    /// Whether the frontier is empty, so that nothing more can come.
    pub fn is_empty(&self) -> (r: bool)
        ensures
            r == (self@ == Set::<T>::empty()),
    {
        let r = self.elements.len() == 0;
        proof {
            if r {
                assert(self@ =~= Set::<T>::empty());
            } else {
                assert(self@.contains(self.elements@[0]));
            }
        }
        r
    }

    /// The elements, each once.
    pub fn elements(&self) -> (v: Vec<T>)
        ensures
            v@.to_set() == self@,
            self.wf() ==> v@.no_duplicates() && v@.len() == self@.len(),
    {
        let mut v: Vec<T> = Vec::new();
        let mut i: usize = 0;
        while i < self.elements.len()
            invariant
                i <= self.elements.len(),
                v@ == self.elements@.take(i as int),
            decreases self.elements.len() - i,
        {
            v.push(self.elements[i]);
            i += 1;
            assert(self.elements@.take(i as int) =~= self.elements@.take(i - 1).push(
                self.elements@[i - 1],
            ));
        }
        proof {
            assert(self.elements@.take(i as int) =~= self.elements@);
            if self.wf() {
                self.lemma_stored_once();
            }
        }
        v
    }

    /// Whether `time` is an element of the frontier.
    pub fn contains(&self, time: &T) -> (r: bool)
        ensures
            r == self@.contains(*time),
    {
        let mut i: usize = 0;
        while i < self.elements.len()
            invariant
                i <= self.elements.len(),
                forall|k: int| 0 <= k < i ==> #[trigger] self.elements[k] != *time,
            decreases self.elements.len() - i,
        {
            if crate::order::same_time(&self.elements[i], time) {
                assert(self.elements@[i as int] == *time);
                return true;
            }
            i += 1;
        }
        false
    }

    /// Whether some element is at or before `time`.
    pub fn less_equal(&self, time: &T) -> (r: bool)
        ensures
            r == self.dominates(*time),
    {
        let mut i: usize = 0;
        while i < self.elements.len()
            invariant
                i <= self.elements.len(),
                forall|k: int| 0 <= k < i ==> !(#[trigger] self.elements[k]).leq(*time),
            decreases self.elements.len() - i,
        {
            if self.elements[i].less_equal(time) {
                assert(self@.contains(self.elements@[i as int]));
                return true;
            }
            i += 1;
        }
        proof {
            if self.dominates(*time) {
                let e = choose|e: T| self@.contains(e) && e.leq(*time);
                let k = choose|k: int| 0 <= k < self.elements@.len() && self.elements@[k] == e;
                assert(self.elements[k].leq(*time));
            }
        }
        false
    }

    /// Whether some element is strictly before `time`.
    pub fn less_than(&self, time: &T) -> (r: bool)
        ensures
            r == self.strictly_dominates(*time),
    {
        let mut i: usize = 0;
        while i < self.elements.len()
            invariant
                i <= self.elements.len(),
                forall|k: int| 0 <= k < i ==> !strictly_before(#[trigger] self.elements[k], *time),
            decreases self.elements.len() - i,
        {
            if crate::order::less_than(&self.elements[i], time) {
                assert(self@.contains(self.elements@[i as int]));
                return true;
            }
            i += 1;
        }
        proof {
            if self.strictly_dominates(*time) {
                let e = choose|e: T| self@.contains(e) && strictly_before(e, *time);
                let k = choose|k: int| 0 <= k < self.elements@.len() && self.elements@[k] == e;
                assert(strictly_before(self.elements[k], *time));
            }
        }
        false
    }

    /// Adds `time` to the frontier unless an element is already at or before
    /// it, and removes the elements that `time` is before. Says whether the
    /// frontier changed.
    pub fn insert(&mut self, time: T) -> (added: bool)
        requires
            old(self).wf(),
        ensures
            final(self).wf(),
            added == !old(self).dominates(time),
            final(self)@ == with_time(old(self)@, time),
            forall|t: T|
                #[trigger] final(self).dominates(t) <==> old(self).dominates(t) || time.leq(t),
    {
        if self.less_equal(&time) {
            proof {
                let e = choose|e: T| self@.contains(e) && e.leq(time);
                assert forall|t: T| time.leq(t) implies self.dominates(t) by {
                    T::leq_transitive(e, time, t);
                }
            }
            return false;
        }
        let ghost before = self.elements@;
        let mut kept: Vec<T> = Vec::new();
        let mut i: usize = 0;
        while i < self.elements.len()
            invariant
                i <= self.elements.len(),
                self.elements@ == before,
                forall|k: int| 0 <= k < kept.len() ==> before.contains(#[trigger] kept[k]) && !time.leq(
                    kept[k],
                ),
                forall|k: int|
                    0 <= k < i && !time.leq(#[trigger] before[k]) ==> kept@.contains(before[k]),
                forall|a: int, b: int|
                    0 <= a < kept.len() && 0 <= b < kept.len() && #[trigger] kept[a].leq(
                        #[trigger] kept[b],
                    ) ==> a == b,
                forall|a: int, b: int|
                    0 <= a < before.len() && 0 <= b < before.len() && #[trigger] before[a].leq(
                        #[trigger] before[b],
                    ) ==> a == b,
                forall|k: int| 0 <= k < kept.len() ==> exists|j: int|
                    0 <= j < i && before[j] == #[trigger] kept[k],
            decreases self.elements.len() - i,
        {
            let e = self.elements[i];
            if !time.less_equal(&e) {
                let ghost prior = kept@;
                assert forall|a: int| 0 <= a < kept.len() implies !(#[trigger] kept[a]).leq(e) && !e.leq(
                    kept[a],
                ) by {
                    let j = choose|j: int| 0 <= j < i && before[j] == kept[a];
                    if kept[a].leq(e) {
                        assert(before[j].leq(before[i as int]));
                    }
                    if e.leq(kept[a]) {
                        assert(before[i as int].leq(before[j]));
                    }
                }
                kept.push(e);
                assert(kept@[kept.len() - 1] == before[i as int]);
                assert forall|k: int|
                    0 <= k < i + 1 && !time.leq(#[trigger] before[k]) implies kept@.contains(
                    before[k],
                ) by {
                    if k < i {
                        assert(prior.contains(before[k]));
                        let m = choose|m: int| 0 <= m < prior.len() && prior[m] == before[k];
                        assert(kept@[m] == before[k]);
                    }
                }
            }
            i += 1;
        }
        proof {
            assert forall|a: int| 0 <= a < kept.len() implies !(#[trigger] kept[a]).leq(time) by {
                if kept[a].leq(time) {
                    assert(old(self)@.contains(kept[a]));
                }
            }
        }
        let ghost survivors = kept@;
        kept.push(time);
        self.elements = kept;
        proof {
            T::leq_reflexive(time);
            assert(self.elements@ == survivors.push(time));
            let target = old(self)@.filter(|e: T| !time.leq(e)).insert(time);
            assert forall|x: T| self@.contains(x) <==> target.contains(x) by {
                if self@.contains(x) {
                    let k = choose|k: int| 0 <= k < self.elements@.len() && self.elements@[k] == x;
                    if k < self.elements@.len() - 1 {
                        assert(survivors[k] == x);
                        assert(before.contains(x));
                    }
                }
                if target.contains(x) {
                    if x == time {
                        assert(self.elements@[self.elements@.len() - 1] == time);
                    } else {
                        let k = choose|k: int| 0 <= k < before.len() && before[k] == x;
                        assert(!time.leq(before[k]));
                        assert(survivors.contains(before[k]));
                        let m = choose|m: int| 0 <= m < survivors.len() && survivors[m] == x;
                        assert(self.elements@[m] == x);
                    }
                }
            }
            assert(self@ =~= target);
            assert forall|t: T| #[trigger]
                self.dominates(t) <==> old(self).dominates(t) || time.leq(t) by {
                if self.dominates(t) {
                    let e = choose|e: T| self@.contains(e) && e.leq(t);
                    if e != time {
                        assert(old(self)@.contains(e));
                    }
                }
                if old(self).dominates(t) {
                    let e = choose|e: T| old(self)@.contains(e) && e.leq(t);
                    if time.leq(e) {
                        T::leq_transitive(time, e, t);
                        assert(self@.contains(time));
                    } else {
                        assert(self@.contains(e));
                    }
                }
                if time.leq(t) {
                    assert(self@.contains(time));
                }
            }
        }
        true
    }

    /// Whether every time that this frontier may still deliver could also be
    /// delivered by `earlier`.
    pub fn is_advanced_from(&self, earlier: &Antichain<T>) -> (r: bool)
        ensures
            r == self.advanced_from(earlier),
    {
        let mut i: usize = 0;
        while i < self.elements.len()
            invariant
                i <= self.elements.len(),
                forall|k: int| 0 <= k < i ==> earlier.dominates(#[trigger] self.elements[k]),
            decreases self.elements.len() - i,
        {
            if !earlier.less_equal(&self.elements[i]) {
                proof {
                    let e = self.elements[i as int];
                    T::leq_reflexive(e);
                    assert(self@.contains(e));
                    assert(self.dominates(e));
                }
                return false;
            }
            i += 1;
        }
        proof {
            assert forall|t: T| self.dominates(t) implies earlier.dominates(t) by {
                let e = choose|e: T| self@.contains(e) && e.leq(t);
                let k = choose|k: int| 0 <= k < self.elements@.len() && self.elements@[k] == e;
                assert(earlier.dominates(self.elements[k]));
                let f = choose|f: T| earlier@.contains(f) && f.leq(e);
                T::leq_transitive(f, e, t);
            }
        }
        true
    }

    /// A copy of this frontier.
    pub fn duplicate(&self) -> (f: Antichain<T>)
        ensures
            f@ == self@,
            self.wf() ==> f.wf(),
    {
        let elements = self.elements();
        let f = Antichain { elements };
        proof {
            if self.wf() {
                self.wf_is_antichain();
                assert forall|i: int, j: int|
                    0 <= i < f.elements.len() && 0 <= j < f.elements.len()
                        && #[trigger] f.elements[i].leq(#[trigger] f.elements[j]) implies i == j by {
                    assert(f@.contains(f.elements@[i]));
                    assert(f@.contains(f.elements@[j]));
                }
            }
        }
        f
    }
}

} // verus!
