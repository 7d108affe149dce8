//! Logical timestamps: a partial order with a least element, least upper
//! bounds, and a way to move a time forward by a number of steps.

use vstd::prelude::*;

verus! {

/// A logical time attached to every record.
///
/// Times form a partial order `leq` with a least element. Two times always
/// have a least upper bound. A time can be moved forward by a number of
/// steps; this is how a loop stamps each pass, and it is strictly increasing
/// so that a record can never return to a time it has already had.
pub trait Timestamp: Copy {
    /// `self` is at or before `other`.
    spec fn leq(self, other: Self) -> bool;

    /// The time that is at or before every other.
    spec fn least() -> Self;

    /// The least upper bound of two times.
    spec fn lub(self, other: Self) -> Self;

    /// The time reached after `steps` steps, or `None` if no such time exists.
    spec fn advanced(self, steps: nat) -> Option<Self>;

    /// Every time is at or before itself.
    proof fn leq_reflexive(a: Self)
        ensures
            a.leq(a),
    ;

    /// Two times that are each at or before the other are the same.
    proof fn leq_antisymmetric(a: Self, b: Self)
        requires
            a.leq(b),
            b.leq(a),
        ensures
            a == b,
    ;

    /// What is at or before a time is at or before every later time.
    proof fn leq_transitive(a: Self, b: Self, c: Self)
        requires
            a.leq(b),
            b.leq(c),
        ensures
            a.leq(c),
    ;

    /// The least time is at or before every time.
    proof fn least_is_least(a: Self)
        ensures
            Self::least().leq(a),
    ;

    /// The least upper bound of two times is at or after both, and at or
    /// before every time that is at or after both.
    proof fn lub_is_least_upper_bound(a: Self, b: Self, c: Self)
        ensures
            a.leq(a.lub(b)),
            b.leq(a.lub(b)),
            a.leq(c) && b.leq(c) ==> a.lub(b).leq(c),
    ;

    /// Zero steps leave a time where it is.
    proof fn advanced_zero(a: Self)
        ensures
            a.advanced(0) == Some(a),
    ;

    /// Steps add up: `j + k` steps are `j` steps followed by `k` steps.
    proof fn advanced_splits(a: Self, j: nat, k: nat)
        ensures
            a.advanced(j + k) == (match a.advanced(j) {
                Some(b) => b.advanced(k),
                None => None,
            }),
    ;

    /// Moving forward never goes back, and one or more steps change the time.
    proof fn advanced_grows(a: Self, k: nat)
        ensures
            a.advanced(k) matches Some(b) ==> a.leq(b) && (k > 0 ==> a != b),
    ;

    /// More steps than `u128::MAX` lead nowhere.
    proof fn advanced_is_bounded(a: Self, k: nat)
        requires
            k > u128::MAX,
        ensures
            a.advanced(k) is None,
    ;

    /// Moving forward keeps the order of two times.
    proof fn advanced_monotone(a: Self, b: Self, k: nat)
        requires
            a.leq(b),
            b.advanced(k) is Some,
        ensures
            a.advanced(k) is Some,
            a.advanced(k).unwrap().leq(b.advanced(k).unwrap()),
    ;

    /// The least time.
    fn minimum() -> (m: Self)
        ensures
            m == Self::least(),
    ;

    /// Whether `self` is at or before `other`.
    fn less_equal(&self, other: &Self) -> (r: bool)
        ensures
            r == self.leq(*other),
    ;

    /// The least upper bound of two times.
    fn join(&self, other: &Self) -> (j: Self)
        ensures
            j == self.lub(*other),
    ;

    /// The time reached after `steps` steps, if there is one.
    fn advance_by(&self, steps: u128) -> (r: Option<Self>)
        ensures
            r == self.advanced(steps as nat),
    ;
}

/// `a` is strictly before `b`.
pub open spec fn strictly_before<T: Timestamp>(a: T, b: T) -> bool {
    a.leq(b) && a != b
}

/// Whether two times are the same, decided through the order alone.
pub fn same_time<T: Timestamp>(a: &T, b: &T) -> (r: bool)
    ensures
        r == (*a == *b),
{
    let r = a.less_equal(b) && b.less_equal(a);
    proof {
        if r {
            T::leq_antisymmetric(*a, *b);
        }
        if *a == *b {
            T::leq_reflexive(*a);
        }
    }
    r
}

/// Whether `a` is strictly before `b`.
pub fn less_than<T: Timestamp>(a: &T, b: &T) -> (r: bool)
    ensures
        r == strictly_before(*a, *b),
{
    let r = a.less_equal(b) && !b.less_equal(a);
    proof {
        if a.leq(*b) && b.leq(*a) {
            T::leq_antisymmetric(*a, *b);
        }
        if *a == *b {
            T::leq_reflexive(*a);
        }
    }
    r
}

/// Fewer steps reach an earlier time: if `j + k` steps can be taken from `a`,
/// so can `j`, and the time reached is at or before the later one.
pub proof fn advanced_fewer_steps<T: Timestamp>(a: T, j: nat, k: nat)
    requires
        a.advanced(j + k) is Some,
    ensures
        a.advanced(j) is Some,
        a.advanced(j).unwrap().leq(a.advanced(j + k).unwrap()),
{
    T::advanced_splits(a, j, k);
    T::advanced_grows(a.advanced(j).unwrap(), k);
}

/// `times` are the times that a record, and what is made of it, has on its
/// way through a dataflow: from each to the next the time is moved forward
/// by some steps, as by a trip round a loop, and then perhaps put later
/// still, as by an operator that sends under a capability.
pub open spec fn carried_forward<T: Timestamp>(times: Seq<T>, steps: Seq<nat>) -> bool {
    &&& times.len() == steps.len() + 1
    &&& forall|i: int|
        0 <= i < steps.len() ==> match (#[trigger] times[i]).advanced(steps[i]) {
            Some(w) => w.leq(times[i + 1]),
            None => false,
        }
}

/// The steps taken in all.
pub open spec fn steps_in_all(steps: Seq<nat>) -> nat
    decreases steps.len(),
{
    if steps.len() == 0 {
        0
    } else {
        steps_in_all(steps.drop_last()) + steps.last()
    }
}

/// Steps of one or more each are in all at least as many as there are.
proof fn lemma_steps_in_all(steps: Seq<nat>)
    requires
        forall|i: int| 0 <= i < steps.len() ==> #[trigger] steps[i] >= 1,
    ensures
        steps_in_all(steps) >= steps.len(),
    decreases steps.len(),
{
    if steps.len() > 0 {
        assert forall|i: int| 0 <= i < steps.drop_last().len() implies #[trigger] steps.drop_last()[i]
            >= 1 by {
            assert(steps.drop_last()[i] == steps[i]);
        }
        lemma_steps_in_all(steps.drop_last());
        assert(steps[steps.len() - 1] >= 1);
    }
}

/// Time runs out: however a record is carried forward, all the steps that
/// it has been moved can be taken at once from the time at which it
/// started, and lead to a time at or before the one it has reached. They
/// are therefore no more than `u128::MAX`, and where every move is by one
/// step or more, as every trip round a loop is, there are no more moves
/// than that: no record goes round a loop for ever.
pub proof fn time_runs_out<T: Timestamp>(times: Seq<T>, steps: Seq<nat>)
    requires
        carried_forward(times, steps),
    ensures
        match times[0].advanced(steps_in_all(steps)) {
            Some(w) => w.leq(times[times.len() - 1]),
            None => false,
        },
        steps_in_all(steps) <= u128::MAX,
        (forall|i: int| 0 <= i < steps.len() ==> #[trigger] steps[i] >= 1) ==> steps.len()
            <= u128::MAX,
    decreases steps.len(),
{
    if steps.len() == 0 {
        T::advanced_zero(times[0]);
        T::leq_reflexive(times[0]);
    } else {
        let n = steps.len() - 1;
        let earlier = times.drop_last();
        let fewer = steps.drop_last();
        assert forall|i: int| 0 <= i < fewer.len() implies match (#[trigger] earlier[i]).advanced(
            fewer[i],
        ) {
            Some(w) => w.leq(earlier[i + 1]),
            None => false,
        } by {
            assert(earlier[i] == times[i]);
            assert(earlier[i + 1] == times[i + 1]);
            assert(fewer[i] == steps[i]);
        }
        time_runs_out(earlier, fewer);
        assert(earlier[0] == times[0]);
        assert(earlier[earlier.len() - 1] == times[n]);
        let so_far = steps_in_all(fewer);
        let w = times[0].advanced(so_far).unwrap();
        let last = steps[n];
        let x = times[n].advanced(last).unwrap();
        T::advanced_monotone(w, times[n], last);
        let y = w.advanced(last).unwrap();
        T::advanced_splits(times[0], so_far, last);
        T::leq_transitive(y, x, times[n + 1]);
        if so_far + last > u128::MAX {
            T::advanced_is_bounded(times[0], so_far + last);
        }
        if forall|i: int| 0 <= i < steps.len() ==> #[trigger] steps[i] >= 1 {
            lemma_steps_in_all(steps);
        }
    }
}

impl Timestamp for u64 {
    open spec fn leq(self, other: Self) -> bool {
        self <= other
    }

    open spec fn least() -> Self {
        0
    }

    open spec fn lub(self, other: Self) -> Self {
        if self <= other {
            other
        } else {
            self
        }
    }

    open spec fn advanced(self, steps: nat) -> Option<Self> {
        if self + steps <= u64::MAX {
            Some((self + steps) as u64)
        } else {
            None
        }
    }

    proof fn leq_reflexive(a: Self) {
    }

    proof fn leq_antisymmetric(a: Self, b: Self) {
    }

    proof fn leq_transitive(a: Self, b: Self, c: Self) {
    }

    proof fn least_is_least(a: Self) {
    }

    proof fn lub_is_least_upper_bound(a: Self, b: Self, c: Self) {
    }

    proof fn advanced_zero(a: Self) {
    }

    proof fn advanced_splits(a: Self, j: nat, k: nat) {
    }

    proof fn advanced_grows(a: Self, k: nat) {
    }

    proof fn advanced_is_bounded(a: Self, k: nat) {
    }

    proof fn advanced_monotone(a: Self, b: Self, k: nat) {
    }

    fn minimum() -> (m: Self) {
        0
    }

    fn less_equal(&self, other: &Self) -> (r: bool) {
        *self <= *other
    }

    fn join(&self, other: &Self) -> (j: Self) {
        if *self <= *other {
            *other
        } else {
            *self
        }
    }

    fn advance_by(&self, steps: u128) -> (r: Option<Self>) {
        if steps <= (u64::MAX - *self) as u128 {
            Some(*self + steps as u64)
        } else {
            None
        }
    }
}

/// A time inside a loop: the epoch of the enclosing computation paired with
/// the number of passes made round the loop, ordered lexicographically.
#[derive(Clone, Copy, Debug, PartialEq, Eq, Structural)]
pub struct Nested {
    pub outer: u64,
    pub iteration: u64,
}

/// The number of iterations that one epoch holds.
pub open spec fn epoch_span() -> int {
    0x1_0000_0000_0000_0000
}

impl Nested {
    /// The position of this time when all nested times are laid out in order.
    pub open spec fn rank(self) -> int {
        self.outer * epoch_span() + self.iteration
    }

    /// The nested time at a position, the inverse of `rank`.
    pub open spec fn at_rank(rank: int) -> Nested {
        Nested { outer: (rank / epoch_span()) as u64, iteration: (rank % epoch_span()) as u64 }
    }

    /// The time of the pass `iteration` of the epoch `outer`.
    pub fn new(outer: u64, iteration: u64) -> (t: Nested)
        ensures
            t.outer == outer,
            t.iteration == iteration,
    {
        Nested { outer, iteration }
    }
}

impl Timestamp for Nested {
    open spec fn leq(self, other: Self) -> bool {
        self.outer < other.outer || (self.outer == other.outer && self.iteration
            <= other.iteration)
    }

    open spec fn least() -> Self {
        Nested { outer: 0, iteration: 0 }
    }

    open spec fn lub(self, other: Self) -> Self {
        if self.leq(other) {
            other
        } else {
            self
        }
    }

    open spec fn advanced(self, steps: nat) -> Option<Self> {
        if self.rank() + steps < epoch_span() * epoch_span() {
            Some(Nested::at_rank(self.rank() + steps))
        } else {
            None
        }
    }

    proof fn leq_reflexive(a: Self) {
    }

    proof fn leq_antisymmetric(a: Self, b: Self) {
    }

    proof fn leq_transitive(a: Self, b: Self, c: Self) {
    }

    proof fn least_is_least(a: Self) {
    }

    proof fn lub_is_least_upper_bound(a: Self, b: Self, c: Self) {
    }

    proof fn advanced_zero(a: Self) {
    }

    proof fn advanced_splits(a: Self, j: nat, k: nat) {
    }

    proof fn advanced_grows(a: Self, k: nat) {
    }

    proof fn advanced_is_bounded(a: Self, k: nat) {
    }

    proof fn advanced_monotone(a: Self, b: Self, k: nat) {
    }

    fn minimum() -> (m: Self) {
        Nested { outer: 0, iteration: 0 }
    }

    fn less_equal(&self, other: &Self) -> (r: bool) {
        self.outer < other.outer || (self.outer == other.outer && self.iteration
            <= other.iteration)
    }

    fn join(&self, other: &Self) -> (j: Self) {
        if self.less_equal(other) {
            *other
        } else {
            *self
        }
    }

    fn advance_by(&self, steps: u128) -> (r: Option<Self>) {
        let span: u128 = 0x1_0000_0000_0000_0000;
        let rank: u128 = self.outer as u128 * span + self.iteration as u128;
        match rank.checked_add(steps) {
            Some(rank) => Some(
                Nested { outer: (rank / span) as u64, iteration: (rank % span) as u64 },
            ),
            None => None,
        }
    }
}

/// A pair of counters, ordered coordinate by coordinate: one pair is at or
/// before another when neither of its counters is greater. Two pairs of
/// which each has one counter greater are not ordered at all.
#[derive(Clone, Copy, Debug, PartialEq, Eq, Structural)]
pub struct Product {
    pub outer: u64,
    pub inner: u64,
}

impl Product {
    /// The pair of the two counters.
    pub fn new(outer: u64, inner: u64) -> (t: Product)
        ensures
            t.outer == outer,
            t.inner == inner,
    {
        Product { outer, inner }
    }
}

impl Timestamp for Product {
    open spec fn leq(self, other: Self) -> bool {
        self.outer <= other.outer && self.inner <= other.inner
    }

    open spec fn least() -> Self {
        Product { outer: 0, inner: 0 }
    }

    open spec fn lub(self, other: Self) -> Self {
        Product {
            outer: if self.outer <= other.outer {
                other.outer
            } else {
                self.outer
            },
            inner: if self.inner <= other.inner {
                other.inner
            } else {
                self.inner
            },
        }
    }

    open spec fn advanced(self, steps: nat) -> Option<Self> {
        if self.inner + steps <= u64::MAX {
            Some(Product { outer: self.outer, inner: (self.inner + steps) as u64 })
        } else {
            None
        }
    }

    proof fn leq_reflexive(a: Self) {
    }

    proof fn leq_antisymmetric(a: Self, b: Self) {
    }

    proof fn leq_transitive(a: Self, b: Self, c: Self) {
    }

    proof fn least_is_least(a: Self) {
    }

    proof fn lub_is_least_upper_bound(a: Self, b: Self, c: Self) {
    }

    proof fn advanced_zero(a: Self) {
    }

    proof fn advanced_splits(a: Self, j: nat, k: nat) {
    }

    proof fn advanced_grows(a: Self, k: nat) {
    }

    proof fn advanced_is_bounded(a: Self, k: nat) {
    }

    proof fn advanced_monotone(a: Self, b: Self, k: nat) {
    }

    fn minimum() -> (m: Self) {
        Product { outer: 0, inner: 0 }
    }

    fn less_equal(&self, other: &Self) -> (r: bool) {
        self.outer <= other.outer && self.inner <= other.inner
    }

    fn join(&self, other: &Self) -> (j: Self) {
        Product {
            outer: if self.outer <= other.outer {
                other.outer
            } else {
                self.outer
            },
            inner: if self.inner <= other.inner {
                other.inner
            } else {
                self.inner
            },
        }
    }

    fn advance_by(&self, steps: u128) -> (r: Option<Self>) {
        if steps <= (u64::MAX - self.inner) as u128 {
            Some(Product { outer: self.outer, inner: self.inner + steps as u64 })
        } else {
            None
        }
    }
}

} // verus!
