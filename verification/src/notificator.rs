//! Notification: telling an operator when a time it asked about is complete.

use crate::capability::Capability;
use crate::frontier::Antichain;
use crate::order::{less_than, same_time, strictly_before, Timestamp};
use vstd::prelude::*;

verus! {

/// None of the frontiers can still deliver a record at or before `time`:
/// every frontier has moved strictly past it.
pub open spec fn passed<T: Timestamp>(frontiers: Seq<Antichain<T>>, time: T) -> bool {
    forall|i: int| 0 <= i < frontiers.len() ==> !(#[trigger] frontiers[i]).dominates(time)
}

/// No capability in the sequence is for a time strictly before that of a
/// capability that comes earlier in the sequence.
pub open spec fn in_time_order<T: Timestamp>(caps: Seq<Capability<T>>) -> bool {
    forall|i: int, j: int|
        0 <= i < j < caps.len() ==> !strictly_before(
            (#[trigger] caps[j]).at(),
            (#[trigger] caps[i]).at(),
        )
}

/// No two capabilities in the sequence are for the same time.
pub open spec fn distinct_times<T: Timestamp>(caps: Seq<Capability<T>>) -> bool {
    forall|i: int, j: int|
        0 <= i < caps.len() && 0 <= j < caps.len() && (#[trigger] caps[i]).at() == (
        #[trigger] caps[j]).at() ==> i == j
}

/// The requests to be told when a time is complete.
///
/// Each request retains the capability it was made with, so that the request
/// itself keeps its time open until it fires. A time is pending at most once.
pub struct Notificator<T: Timestamp> {
    pending: Vec<Capability<T>>,
}

impl<T: Timestamp> View for Notificator<T> {
    type V = Set<Capability<T>>;

    /// The retained capabilities, one for each pending time.
    closed spec fn view(&self) -> Set<Capability<T>> {
        self.pending@.to_set()
    }
}

impl<T: Timestamp> Notificator<T> {
    /// No time is pending twice.
    pub closed spec fn wf(&self) -> bool {
        distinct_times(self.pending@)
    }

    /// A request for `time` is pending.
    pub open spec fn awaits(&self, time: T) -> bool {
        exists|c: Capability<T>| self@.contains(c) && c.at() == time
    }

    /// A notificator with no request pending.
    pub fn new() -> (n: Notificator<T>)
        ensures
            n.wf(),
            n@ == Set::<Capability<T>>::empty(),
    {
        let n = Notificator { pending: Vec::new() };
        assert(n@ =~= Set::<Capability<T>>::empty());
        n
    }

    /// The number of pending requests.
    pub fn len(&self) -> (n: usize)
        requires
            self.wf(),
        ensures
            n == self@.len(),
    {
        proof {
            let s = self.pending@;
            assert(s.no_duplicates());
            s.unique_seq_to_set();
        }
        self.pending.len()
    }

    /// Whether a request for `time` is pending.
    pub fn is_pending(&self, time: &T) -> (r: bool)
        ensures
            r == self.awaits(*time),
    {
        let mut i: usize = 0;
        while i < self.pending.len()
            invariant
                i <= self.pending.len(),
                forall|k: int| 0 <= k < i ==> (#[trigger] self.pending[k]).at() != *time,
            decreases self.pending.len() - i,
        {
            let at = self.pending[i].time();
            if same_time(&at, time) {
                assert(self@.contains(self.pending@[i as int]));
                return true;
            }
            i += 1;
        }
        proof {
            if self.awaits(*time) {
                let c = choose|c: Capability<T>| self@.contains(c) && c.at() == *time;
                let k = choose|k: int| 0 <= k < self.pending@.len() && self.pending@[k] == c;
                assert(self.pending[k].at() == *time);
            }
        }
        false
    }

    /// The times of the pending requests, which keep those times open.
    pub fn pending_times(&self) -> (times: Vec<T>)
        ensures
            self.wf() ==> times@.len() == self@.len(),
            forall|t: T| times@.contains(t) <==> self.awaits(t),
    {
        let mut times: Vec<T> = Vec::new();
        let mut i: usize = 0;
        while i < self.pending.len()
            invariant
                i <= self.pending.len(),
                times.len() == i,
                forall|k: int| 0 <= k < i ==> #[trigger] times[k] == self.pending[k].at(),
            decreases self.pending.len() - i,
        {
            times.push(self.pending[i].time());
            i += 1;
        }
        proof {
            if self.wf() {
                let s = self.pending@;
                assert(s.no_duplicates());
                s.unique_seq_to_set();
            }
            assert forall|t: T| times@.contains(t) <==> self.awaits(t) by {
                if times@.contains(t) {
                    let k = choose|k: int| 0 <= k < times@.len() && times@[k] == t;
                    assert(times[k] == self.pending[k].at());
                    assert(self@.contains(self.pending@[k]));
                }
                if self.awaits(t) {
                    let c = choose|c: Capability<T>| self@.contains(c) && c.at() == t;
                    let k = choose|k: int| 0 <= k < self.pending@.len() && self.pending@[k] == c;
                    assert(times[k] == self.pending[k].at());
                }
            }
        }
        times
    }

    /// Asks to be told once the time of `cap` is complete. The capability is
    /// retained until then. Where a request for that time is already
    /// pending, nothing changes and the capability is handed back.
    pub fn notify_at(&mut self, cap: Capability<T>) -> (spare: Option<Capability<T>>)
        requires
            old(self).wf(),
        ensures
            final(self).wf(),
            match spare {
                Some(c) => c == cap && old(self).awaits(cap.at()) && final(self)@ == old(self)@,
                None => !old(self).awaits(cap.at()) && final(self)@ == old(self)@.insert(cap),
            },
    {
        let at = cap.time();
        if self.is_pending(&at) {
            return Some(cap);
        }
        let ghost before = self.pending@;
        self.pending.push(cap);
        proof {
            assert(self.pending@ == before.push(cap));
            assert forall|i: int, j: int|
                0 <= i < self.pending@.len() && 0 <= j < self.pending@.len() && (
                #[trigger] self.pending@[i]).at() == (#[trigger] self.pending@[j]).at() implies i
                == j by {
                if i < before.len() && j == before.len() {
                    assert(before.to_set().contains(before[i]));
                }
                if j < before.len() && i == before.len() {
                    assert(before.to_set().contains(before[j]));
                }
            }
            assert(self@ =~= old(self)@.insert(cap)) by {
                assert forall|c: Capability<T>| self@.contains(c) <==> old(self)@.insert(
                    cap,
                ).contains(c) by {
                    if self@.contains(c) {
                        let k = choose|k: int|
                            0 <= k < self.pending@.len() && self.pending@[k] == c;
                        if k < before.len() {
                            assert(before[k] == c);
                            assert(before.contains(c));
                        }
                    }
                    if old(self)@.contains(c) {
                        let k = choose|k: int| 0 <= k < before.len() && before[k] == c;
                        assert(self.pending@[k] == c);
                    }
                    if c == cap {
                        assert(self.pending@[before.len() as int] == c);
                    }
                }
            }
        }
        None
    }

    /// Whether no frontier can still deliver at or before `time`.
    pub fn has_passed(frontiers: &Vec<Antichain<T>>, time: &T) -> (r: bool)
        ensures
            r == passed(frontiers@, *time),
    {
        let mut i: usize = 0;
        while i < frontiers.len()
            invariant
                i <= frontiers.len(),
                forall|k: int| 0 <= k < i ==> !(#[trigger] frontiers@[k]).dominates(*time),
            decreases frontiers.len() - i,
        {
            if frontiers[i].less_equal(time) {
                return false;
            }
            i += 1;
        }
        true
    }

    /// Fires every pending request whose time all of `frontiers` have
    /// passed, and hands back the retained capabilities in the order in
    /// which they are to be acted on: never a time after one that is
    /// strictly later. A fired request is no longer pending, so no time
    /// fires twice.
    pub fn for_each(&mut self, frontiers: &Vec<Antichain<T>>) -> (fired: Vec<Capability<T>>)
        requires
            old(self).wf(),
        ensures
            final(self).wf(),
            fired_from(old(self)@, frontiers@, fired@, final(self)@),
            in_time_order(fired@),
    {
        let ghost before = self.pending@;
        let mut ready: Vec<Capability<T>> = Vec::new();
        let mut waiting: Vec<Capability<T>> = Vec::new();
        while self.pending.len() > 0
            invariant
                self.pending@.len() <= before.len(),
                self.pending@ == before.take(self.pending@.len() as int),
                distinct_times(before),
                forall|k: int|
                    0 <= k < ready.len() ==> before.contains(#[trigger] ready[k]) && passed(
                        frontiers@,
                        ready[k].at(),
                    ),
                forall|k: int|
                    0 <= k < waiting.len() ==> before.contains(#[trigger] waiting[k]) && !passed(
                        frontiers@,
                        waiting[k].at(),
                    ),
                forall|k: int|
                    self.pending@.len() <= k < before.len() ==> ready@.contains(
                        #[trigger] before[k],
                    ) || waiting@.contains(before[k]),
                forall|k: int| 0 <= k < ready.len() ==> exists|m: int|
                    self.pending@.len() <= m < before.len() && before[m] == #[trigger] ready[k],
                forall|k: int| 0 <= k < waiting.len() ==> exists|m: int|
                    self.pending@.len() <= m < before.len() && before[m] == #[trigger] waiting[k],
                distinct_times(ready@),
                distinct_times(waiting@),
            decreases self.pending@.len(),
        {
            let ghost n = self.pending@.len() - 1;
            let ghost prior_ready = ready@;
            let ghost prior_waiting = waiting@;
            let cap = self.pending.pop().unwrap();
            assert(cap == before[n]);
            let at = cap.time();
            let go = Self::has_passed(frontiers, &at);
            proof {
                assert forall|k: int| 0 <= k < prior_ready.len() implies prior_ready[k].at()
                    != cap.at() by {
                    let m = choose|m: int| n < m < before.len() && before[m] == prior_ready[k];
                    assert(before[m].at() != before[n].at());
                }
                assert forall|k: int| 0 <= k < prior_waiting.len() implies prior_waiting[k].at()
                    != cap.at() by {
                    let m = choose|m: int| n < m < before.len() && before[m] == prior_waiting[k];
                    assert(before[m].at() != before[n].at());
                }
            }
            if go {
                ready.push(cap);
            } else {
                waiting.push(cap);
            }
            proof {
                assert(self.pending@ =~= before.take(n));
                assert forall|k: int| n <= k < before.len() implies ready@.contains(
                    #[trigger] before[k],
                ) || waiting@.contains(before[k]) by {
                    if k == n {
                        if go {
                            assert(ready@[ready@.len() - 1] == before[k]);
                        } else {
                            assert(waiting@[waiting@.len() - 1] == before[k]);
                        }
                    } else {
                        if prior_ready.contains(before[k]) {
                            let m = choose|m: int|
                                0 <= m < prior_ready.len() && prior_ready[m] == before[k];
                            assert(ready@[m] == before[k]);
                        } else {
                            assert(prior_waiting.contains(before[k]));
                            let m = choose|m: int|
                                0 <= m < prior_waiting.len() && prior_waiting[m] == before[k];
                            assert(waiting@[m] == before[k]);
                        }
                    }
                }
                assert forall|k: int| 0 <= k < ready.len() implies exists|m: int|
                    n <= m < before.len() && before[m] == #[trigger] ready[k] by {
                    if k < prior_ready.len() {
                        let m = choose|m: int| n < m < before.len() && before[m] == prior_ready[k];
                        assert(before[m] == ready[k]);
                    } else {
                        assert(before[n] == ready[k]);
                    }
                }
                assert forall|k: int| 0 <= k < waiting.len() implies exists|m: int|
                    n <= m < before.len() && before[m] == #[trigger] waiting[k] by {
                    if k < prior_waiting.len() {
                        let m = choose|m: int|
                            n < m < before.len() && before[m] == prior_waiting[k];
                        assert(before[m] == waiting[k]);
                    } else {
                        assert(before[n] == waiting[k]);
                    }
                }
            }
        }
        self.pending = waiting;
        let ghost chosen = ready@;
        proof {
            assert(self@ =~= old(self)@.filter(|c: Capability<T>| !passed(frontiers@, c.at())))
                by {
                assert forall|c: Capability<T>| self@.contains(c) <==> old(self)@.filter(
                    |c: Capability<T>| !passed(frontiers@, c.at()),
                ).contains(c) by {
                    if self@.contains(c) {
                        let k = choose|k: int|
                            0 <= k < self.pending@.len() && self.pending@[k] == c;
                        assert(before.contains(self.pending@[k]));
                    }
                    if old(self)@.contains(c) && !passed(frontiers@, c.at()) {
                        let k = choose|k: int| 0 <= k < before.len() && before[k] == c;
                        if chosen.contains(before[k]) {
                            let m = choose|m: int| 0 <= m < chosen.len() && chosen[m] == c;
                            assert(passed(frontiers@, chosen[m].at()));
                        }
                    }
                }
            }
            assert(chosen.to_set() =~= old(self)@.filter(
                |c: Capability<T>| passed(frontiers@, c.at()),
            )) by {
                assert forall|c: Capability<T>| chosen.to_set().contains(c) <==> old(self)@.filter(
                    |c: Capability<T>| passed(frontiers@, c.at()),
                ).contains(c) by {
                    if chosen.to_set().contains(c) {
                        let k = choose|k: int| 0 <= k < chosen.len() && chosen[k] == c;
                        assert(before.contains(chosen[k]));
                    }
                    if old(self)@.contains(c) && passed(frontiers@, c.at()) {
                        let k = choose|k: int| 0 <= k < before.len() && before[k] == c;
                        if self.pending@.contains(before[k]) {
                            let m = choose|m: int|
                                0 <= m < self.pending@.len() && self.pending@[m] == c;
                            assert(!passed(frontiers@, self.pending@[m].at()));
                        }
                    }
                }
            }
        }
        let fired = Self::arrange(ready);
        fired
    }

    /// Puts capabilities for distinct times into an order in which no time
    /// comes after one that is strictly later.
    fn arrange(caps: Vec<Capability<T>>) -> (ordered: Vec<Capability<T>>)
        requires
            distinct_times(caps@),
        ensures
            ordered@.to_set() == caps@.to_set(),
            distinct_times(ordered@),
            in_time_order(ordered@),
    {
        let ghost given = caps@;
        let mut rest = caps;
        let mut ordered: Vec<Capability<T>> = Vec::new();
        while rest.len() > 0
            invariant
                distinct_times(rest@),
                distinct_times(ordered@),
                in_time_order(ordered@),
                forall|i: int, j: int|
                    0 <= i < ordered.len() && 0 <= j < rest.len() ==> !strictly_before(
                        (#[trigger] rest[j]).at(),
                        (#[trigger] ordered[i]).at(),
                    ) && rest[j].at() != ordered[i].at(),
                forall|c: Capability<T>|
                    given.contains(c) <==> rest@.contains(c) || ordered@.contains(c),
            decreases rest.len(),
        {
            let m = Self::earliest(&rest);
            let ghost prior_rest = rest@;
            let ghost prior_ordered = ordered@;
            let cap = rest.remove(m);
            ordered.push(cap);
            proof {
                assert(rest@ == prior_rest.remove(m as int));
                assert(ordered@ == prior_ordered.push(prior_rest[m as int]));
                assert forall|j: int| 0 <= j < rest@.len() implies exists|k: int|
                    0 <= k < prior_rest.len() && k != m && prior_rest[k] == #[trigger] rest@[j] by {
                    if j < m {
                        assert(prior_rest[j] == rest@[j]);
                    } else {
                        assert(prior_rest[j + 1] == rest@[j]);
                    }
                }
                assert(distinct_times(rest@)) by {
                    assert forall|i: int, j: int|
                        0 <= i < rest@.len() && 0 <= j < rest@.len() && (#[trigger] rest@[i]).at()
                            == (#[trigger] rest@[j]).at() implies i == j by {
                        let a = if i < m { i } else { i + 1 };
                        let b = if j < m { j } else { j + 1 };
                        assert(prior_rest[a] == rest@[i]);
                        assert(prior_rest[b] == rest@[j]);
                    }
                }
                assert(distinct_times(ordered@)) by {
                    assert forall|i: int, j: int|
                        0 <= i < ordered@.len() && 0 <= j < ordered@.len() && (
                        #[trigger] ordered@[i]).at() == (#[trigger] ordered@[j]).at() implies i
                        == j by {
                        if i < prior_ordered.len() && j == prior_ordered.len() {
                            assert(prior_rest[m as int].at() != prior_ordered[i].at());
                        }
                        if j < prior_ordered.len() && i == prior_ordered.len() {
                            assert(prior_rest[m as int].at() != prior_ordered[j].at());
                        }
                    }
                }
                assert(in_time_order(ordered@)) by {
                    assert forall|i: int, j: int| 0 <= i < j < ordered@.len() implies !strictly_before(
                        (#[trigger] ordered@[j]).at(),
                        (#[trigger] ordered@[i]).at(),
                    ) by {
                        if j == prior_ordered.len() {
                            assert(!strictly_before(
                                prior_rest[m as int].at(),
                                prior_ordered[i].at(),
                            ));
                        }
                    }
                }
                assert forall|i: int, j: int|
                    0 <= i < ordered@.len() && 0 <= j < rest@.len() implies !strictly_before(
                    (#[trigger] rest@[j]).at(),
                    (#[trigger] ordered@[i]).at(),
                ) && rest@[j].at() != ordered@[i].at() by {
                    let b = if j < m { j } else { j + 1 };
                    assert(prior_rest[b] == rest@[j]);
                    if i == prior_ordered.len() {
                        assert(!strictly_before(prior_rest[b].at(), prior_rest[m as int].at()));
                    } else {
                        assert(!strictly_before(prior_rest[b].at(), prior_ordered[i].at()));
                    }
                }
                assert forall|c: Capability<T>|
                    given.contains(c) <==> rest@.contains(c) || ordered@.contains(c) by {
                    if rest@.contains(c) {
                        let j = choose|j: int| 0 <= j < rest@.len() && rest@[j] == c;
                        let b = if j < m { j } else { j + 1 };
                        assert(prior_rest[b] == c);
                        assert(prior_rest.contains(c));
                    }
                    if ordered@.contains(c) {
                        let j = choose|j: int| 0 <= j < ordered@.len() && ordered@[j] == c;
                        if j < prior_ordered.len() {
                            assert(prior_ordered[j] == c);
                            assert(prior_ordered.contains(c));
                        } else {
                            assert(prior_rest[m as int] == c);
                            assert(prior_rest.contains(c));
                        }
                    }
                    if prior_rest.contains(c) {
                        let k = choose|k: int| 0 <= k < prior_rest.len() && prior_rest[k] == c;
                        if k < m {
                            assert(rest@[k] == c);
                        } else if k == m {
                            assert(ordered@[prior_ordered.len() as int] == c);
                        } else {
                            assert(rest@[k - 1] == c);
                        }
                    }
                    if prior_ordered.contains(c) {
                        let k = choose|k: int|
                            0 <= k < prior_ordered.len() && prior_ordered[k] == c;
                        assert(ordered@[k] == c);
                    }
                }
            }
        }
        proof {
            assert(ordered@.to_set() =~= given.to_set());
        }
        ordered
    }

    /// The position of a capability that no other in `caps` is strictly
    /// before.
    fn earliest(caps: &Vec<Capability<T>>) -> (m: usize)
        requires
            caps.len() > 0,
        ensures
            m < caps.len(),
            forall|j: int|
                0 <= j < caps.len() ==> !strictly_before(
                    (#[trigger] caps[j]).at(),
                    caps[m as int].at(),
                ),
    {
        let mut m: usize = 0;
        let mut j: usize = 1;
        while j < caps.len()
            invariant
                m < j <= caps.len(),
                forall|k: int|
                    0 <= k < j ==> !strictly_before((#[trigger] caps[k]).at(), caps[m as int].at()),
            decreases caps.len() - j,
        {
            let a = caps[j].time();
            let b = caps[m].time();
            if less_than(&a, &b) {
                proof {
                    assert forall|k: int| 0 <= k < j + 1 implies !strictly_before(
                        (#[trigger] caps[k]).at(),
                        caps[j as int].at(),
                    ) by {
                        if strictly_before(caps[k].at(), caps[j as int].at()) {
                            T::leq_transitive(caps[k].at(), a, b);
                            if caps[k].at() == b {
                                T::leq_antisymmetric(a, b);
                            }
                        }
                    }
                }
                m = j;
            }
            j += 1;
        }
        m
    }
}

/// `fired` and `after` are what a call of `for_each` with `frontiers` makes of
/// the requests `before`.
pub open spec fn fired_from<T: Timestamp>(
    before: Set<Capability<T>>,
    frontiers: Seq<Antichain<T>>,
    fired: Seq<Capability<T>>,
    after: Set<Capability<T>>,
) -> bool {
    &&& fired.to_set() == before.filter(|c: Capability<T>| passed(frontiers, c.at()))
    &&& after == before.filter(|c: Capability<T>| !passed(frontiers, c.at()))
    &&& distinct_times(fired)
}

/// How often `time` occurs among the times of `caps`.
pub open spec fn firings<T: Timestamp>(caps: Seq<Capability<T>>, time: T) -> nat
    decreases caps.len(),
{
    if caps.len() == 0 {
        0
    } else {
        firings(caps.drop_last(), time) + (if caps.last().at() == time {
            1nat
        } else {
            0nat
        })
    }
}

/// A time that occurs at no position does not fire, and a time that occurs at
/// one position only fires once.
proof fn lemma_firings<T: Timestamp>(caps: Seq<Capability<T>>, time: T)
    requires
        distinct_times(caps),
    ensures
        firings(caps, time) == (if exists|i: int| 0 <= i < caps.len() && (#[trigger] caps[i]).at()
            == time {
            1nat
        } else {
            0nat
        }),
    decreases caps.len(),
{
    if caps.len() > 0 {
        let shorter = caps.drop_last();
        assert forall|i: int, j: int|
            0 <= i < shorter.len() && 0 <= j < shorter.len() && (#[trigger] shorter[i]).at() == (
            #[trigger] shorter[j]).at() implies i == j by {
            assert(shorter[i] == caps[i]);
            assert(shorter[j] == caps[j]);
        }
        lemma_firings(shorter, time);
        if exists|i: int| 0 <= i < shorter.len() && (#[trigger] shorter[i]).at() == time {
            let i = choose|i: int| 0 <= i < shorter.len() && (#[trigger] shorter[i]).at() == time;
            assert(caps[i] == shorter[i]);
            assert(caps[i].at() == time);
            if caps.last().at() == time {
                assert(caps[caps.len() - 1].at() == caps[i].at());
            }
        } else {
            if caps.last().at() == time {
                assert(caps[caps.len() - 1].at() == time);
            } else if exists|i: int| 0 <= i < caps.len() && (#[trigger] caps[i]).at() == time {
                let i = choose|i: int| 0 <= i < caps.len() && (#[trigger] caps[i]).at() == time;
                assert(shorter[i] == caps[i]);
            }
        }
    }
}

/// Notification is exactly once: of the times that are pending when
/// `for_each` is called, those that every frontier has passed fire once
/// and are pending no longer, and the others do not fire and stay pending.
/// A time that is not pending does not fire.
pub proof fn notification_is_exactly_once<T: Timestamp>(
    before: &Notificator<T>,
    frontiers: Seq<Antichain<T>>,
    fired: Seq<Capability<T>>,
    after: &Notificator<T>,
    time: T,
)
    requires
        fired_from(before@, frontiers, fired, after@),
    ensures
        before.awaits(time) && passed(frontiers, time) ==> firings(fired, time) == 1
            && !after.awaits(time),
        before.awaits(time) && !passed(frontiers, time) ==> firings(fired, time) == 0
            && after.awaits(time),
        !before.awaits(time) ==> firings(fired, time) == 0 && !after.awaits(time),
{
    lemma_firings(fired, time);
    let ready = before@.filter(|c: Capability<T>| passed(frontiers, c.at()));
    if exists|i: int| 0 <= i < fired.len() && (#[trigger] fired[i]).at() == time {
        let i = choose|i: int| 0 <= i < fired.len() && (#[trigger] fired[i]).at() == time;
        assert(fired.to_set().contains(fired[i]));
        assert(ready.contains(fired[i]));
    }
    if before.awaits(time) {
        let c = choose|c: Capability<T>| before@.contains(c) && c.at() == time;
        if passed(frontiers, time) {
            assert(ready.contains(c));
            assert(fired.to_set().contains(c));
            let i = choose|i: int| 0 <= i < fired.len() && fired[i] == c;
            assert(fired[i].at() == time);
        } else {
            assert(after@.contains(c));
        }
    }
}

} // verus!
