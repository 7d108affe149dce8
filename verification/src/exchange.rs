//! Channels: how the records of a batch are routed to the parallel inputs
//! of the operator that consumes them.

use crate::vectors::reversed;
use vstd::prelude::*;

verus! {

/// How a channel routes records.
#[derive(Clone, Copy, Debug, PartialEq, Eq, Structural)]
pub enum Pact {
    /// Every record stays with the worker that produced it.
    Pipeline,
    /// Every record goes to the target that its key selects.
    Exchange,
}

/// The target that a key selects among `targets` targets.
pub open spec fn selected(key: u64, targets: nat) -> int {
    key as int % targets as int
}

/// The records that an exchange delivers to `target`: those whose key
/// selects it, in the order in which they were sent.
pub open spec fn delivered<D>(keyed: Seq<(u64, D)>, targets: nat, target: int) -> Seq<D>
    decreases keyed.len(),
{
    if keyed.len() == 0 {
        Seq::empty()
    } else if selected(keyed.last().0, targets) == target {
        delivered(keyed.drop_last(), targets, target).push(keyed.last().1)
    } else {
        delivered(keyed.drop_last(), targets, target)
    }
}

/// The records that a channel of kind `pact` delivers to `target` when the
/// worker `from` sends them.
pub open spec fn routed<D>(
    pact: Pact,
    from: int,
    keyed: Seq<(u64, D)>,
    targets: nat,
    target: int,
) -> Seq<D> {
    match pact {
        Pact::Pipeline => if target == from {
            Seq::new(keyed.len(), |i: int| keyed[i].1)
        } else {
            Seq::empty()
        },
        Pact::Exchange => delivered(keyed, targets, target),
    }
}

/// `merged` holds the elements of `left` and of `right`, each in its own
/// order, interleaved in some way.
pub open spec fn interleaves<A>(merged: Seq<A>, left: Seq<A>, right: Seq<A>) -> bool
    decreases merged.len(),
{
    if merged.len() == 0 {
        left.len() == 0 && right.len() == 0
    } else {
        ||| left.len() > 0 && left.last() == merged.last() && interleaves(
            merged.drop_last(),
            left.drop_last(),
            right,
        )
        ||| right.len() > 0 && right.last() == merged.last() && interleaves(
            merged.drop_last(),
            left,
            right.drop_last(),
        )
    }
}

/// An exchange keeps the order of each source: however the records of two
/// sources interleave on their way, what each target receives is an
/// interleaving of what it receives from either source alone.
pub proof fn exchange_keeps_source_order<D>(
    merged: Seq<(u64, D)>,
    left: Seq<(u64, D)>,
    right: Seq<(u64, D)>,
    targets: nat,
    target: int,
)
    requires
        interleaves(merged, left, right),
    ensures
        interleaves(
            delivered(merged, targets, target),
            delivered(left, targets, target),
            delivered(right, targets, target),
        ),
    decreases merged.len(),
{
    if merged.len() > 0 {
        let hit = selected(merged.last().0, targets) == target;
        if left.len() > 0 && left.last() == merged.last() && interleaves(
            merged.drop_last(),
            left.drop_last(),
            right,
        ) {
            exchange_keeps_source_order(merged.drop_last(), left.drop_last(), right, targets, target);
            if hit {
                let m = delivered(merged, targets, target);
                let l = delivered(left, targets, target);
                assert(m.drop_last() =~= delivered(merged.drop_last(), targets, target));
                assert(l.drop_last() =~= delivered(left.drop_last(), targets, target));
            }
        } else {
            exchange_keeps_source_order(merged.drop_last(), left, right.drop_last(), targets, target);
            if hit {
                let m = delivered(merged, targets, target);
                let r = delivered(right, targets, target);
                assert(m.drop_last() =~= delivered(merged.drop_last(), targets, target));
                assert(r.drop_last() =~= delivered(right.drop_last(), targets, target));
            }
        }
    }
}

/// An interleaving holds exactly the elements of its two parts.
pub proof fn interleaving_is_union<A>(merged: Seq<A>, left: Seq<A>, right: Seq<A>)
    requires
        interleaves(merged, left, right),
    ensures
        merged.to_multiset() == left.to_multiset().add(right.to_multiset()),
    decreases merged.len(),
{
    broadcast use vstd::multiset::group_multiset_axioms;

    if merged.len() == 0 {
        merged.to_multiset_ensures();
        left.to_multiset_ensures();
        right.to_multiset_ensures();
        assert(merged.to_multiset() =~= left.to_multiset().add(right.to_multiset()));
    } else {
        merged.drop_last().to_multiset_ensures();
        assert(merged =~= merged.drop_last().push(merged.last()));
        if left.len() > 0 && left.last() == merged.last() && interleaves(
            merged.drop_last(),
            left.drop_last(),
            right,
        ) {
            interleaving_is_union(merged.drop_last(), left.drop_last(), right);
            left.drop_last().to_multiset_ensures();
            assert(left =~= left.drop_last().push(left.last()));
            assert(merged.to_multiset() =~= left.to_multiset().add(right.to_multiset()));
        } else {
            interleaving_is_union(merged.drop_last(), left, right.drop_last());
            right.drop_last().to_multiset_ensures();
            assert(right =~= right.drop_last().push(right.last()));
            assert(merged.to_multiset() =~= left.to_multiset().add(right.to_multiset()));
        }
    }
}

/// An exchange is deterministic up to arrival order: two runs that send the
/// same records from the same two sources, interleaved in whatever way,
/// deliver the same records to each target, each as often.
pub proof fn exchange_is_deterministic<D>(
    first_run: Seq<(u64, D)>,
    second_run: Seq<(u64, D)>,
    left: Seq<(u64, D)>,
    right: Seq<(u64, D)>,
    targets: nat,
    target: int,
)
    requires
        interleaves(first_run, left, right),
        interleaves(second_run, left, right),
    ensures
        delivered(first_run, targets, target).to_multiset() == delivered(
            second_run,
            targets,
            target,
        ).to_multiset(),
{
    exchange_keeps_source_order(first_run, left, right, targets, target);
    exchange_keeps_source_order(second_run, left, right, targets, target);
    interleaving_is_union(
        delivered(first_run, targets, target),
        delivered(left, targets, target),
        delivered(right, targets, target),
    );
    interleaving_is_union(
        delivered(second_run, targets, target),
        delivered(left, targets, target),
        delivered(right, targets, target),
    );
}

/// The records of keyed records, without their keys.
pub open spec fn records_of<D>(keyed: Seq<(u64, D)>) -> Seq<D> {
    Seq::new(keyed.len(), |i: int| keyed[i].1)
}

/// All that an exchange delivers to the targets below `upto`, taken
/// together.
pub open spec fn gathered<D>(keyed: Seq<(u64, D)>, targets: nat, upto: nat) -> vstd::multiset::Multiset<D>
    decreases upto,
{
    if upto == 0 {
        vstd::multiset::Multiset::empty()
    } else {
        gathered(keyed, targets, (upto - 1) as nat).add(
            delivered(keyed, targets, upto - 1).to_multiset(),
        )
    }
}

/// One more record is one more record for the target that its key selects,
/// and for no other.
proof fn lemma_gathered_one_more<D>(keyed: Seq<(u64, D)>, targets: nat, upto: nat)
    requires
        keyed.len() > 0,
    ensures
        gathered(keyed, targets, upto) == (if 0 <= selected(keyed.last().0, targets) < upto {
            gathered(keyed.drop_last(), targets, upto).insert(keyed.last().1)
        } else {
            gathered(keyed.drop_last(), targets, upto)
        }),
    decreases upto,
{
    broadcast use vstd::multiset::group_multiset_axioms;

    if upto > 0 {
        let t = upto - 1;
        lemma_gathered_one_more(keyed, targets, t as nat);
        delivered(keyed.drop_last(), targets, t).to_multiset_ensures();
        if selected(keyed.last().0, targets) == t {
            assert(gathered(keyed, targets, upto) =~= gathered(
                keyed.drop_last(),
                targets,
                upto,
            ).insert(keyed.last().1));
        } else if 0 <= selected(keyed.last().0, targets) < t {
            assert(gathered(keyed, targets, upto) =~= gathered(
                keyed.drop_last(),
                targets,
                upto,
            ).insert(keyed.last().1));
        } else {
            assert(gathered(keyed, targets, upto) =~= gathered(keyed.drop_last(), targets, upto));
        }
    } else {
        assert(gathered(keyed, targets, upto) =~= gathered(keyed.drop_last(), targets, upto));
    }
}

/// Where nothing is sent, nothing is delivered.
proof fn lemma_gathered_nothing<D>(targets: nat, upto: nat)
    ensures
        gathered(Seq::<(u64, D)>::empty(), targets, upto) == vstd::multiset::Multiset::<D>::empty(),
    decreases upto,
{
    broadcast use vstd::multiset::group_multiset_axioms;

    if upto > 0 {
        lemma_gathered_nothing::<D>(targets, (upto - 1) as nat);
        Seq::<D>::empty().to_multiset_ensures();
        assert(delivered(Seq::<(u64, D)>::empty(), targets, upto - 1) =~= Seq::<D>::empty());
        assert(gathered(Seq::<(u64, D)>::empty(), targets, upto) =~= vstd::multiset::Multiset::<
            D,
        >::empty());
    }
}

/// An exchange loses nothing and makes nothing up: what all the targets
/// receive, taken together, are the records that were sent, each as often
/// as it was sent.
pub proof fn exchange_delivers_every_record_once<D>(keyed: Seq<(u64, D)>, targets: nat)
    requires
        targets > 0,
    ensures
        gathered(keyed, targets, targets) == records_of(keyed).to_multiset(),
    decreases keyed.len(),
{
    broadcast use vstd::multiset::group_multiset_axioms;

    if keyed.len() == 0 {
        lemma_gathered_nothing::<D>(targets, targets);
        assert(keyed =~= Seq::<(u64, D)>::empty());
        records_of(keyed).to_multiset_ensures();
        assert(records_of(keyed).to_multiset() =~= vstd::multiset::Multiset::<D>::empty());
    } else {
        exchange_delivers_every_record_once(keyed.drop_last(), targets);
        lemma_gathered_one_more(keyed, targets, targets);
        assert(0 <= selected(keyed.last().0, targets) < targets) by (nonlinear_arith)
            requires
                targets > 0,
                selected(keyed.last().0, targets) == keyed.last().0 as int % targets as int,
                keyed.last().0 >= 0,
        ;
        records_of(keyed.drop_last()).to_multiset_ensures();
        assert(records_of(keyed) =~= records_of(keyed.drop_last()).push(keyed.last().1));
        assert(records_of(keyed).to_multiset() =~= records_of(
            keyed.drop_last(),
        ).to_multiset().insert(keyed.last().1));
        assert(gathered(keyed, targets, targets) =~= records_of(keyed).to_multiset());
    }
}

/// What an exchange delivers in all does not depend on the number of
/// targets: among however many targets the records are shared out, taken
/// together the targets receive the same records.
pub proof fn exchange_is_independent_of_the_number_of_targets<D>(
    keyed: Seq<(u64, D)>,
    some: nat,
    others: nat,
)
    requires
        some > 0,
        others > 0,
    ensures
        gathered(keyed, some, some) == gathered(keyed, others, others),
{
    exchange_delivers_every_record_once(keyed, some);
    exchange_delivers_every_record_once(keyed, others);
}

/// Records with the same key go to the same target, whoever sends them and
/// whenever: the record at every position is among those delivered to the
/// target that its key selects.
pub proof fn exchange_sends_a_key_to_one_target<D>(keyed: Seq<(u64, D)>, targets: nat, at: int)
    requires
        0 <= at < keyed.len(),
    ensures
        delivered(keyed, targets, selected(keyed[at].0, targets)).contains(keyed[at].1),
    decreases keyed.len(),
{
    let target = selected(keyed[at].0, targets);
    let all = delivered(keyed, targets, target);
    if at == keyed.len() - 1 {
        assert(all[all.len() - 1] == keyed[at].1);
    } else {
        exchange_sends_a_key_to_one_target(keyed.drop_last(), targets, at);
        let fewer = delivered(keyed.drop_last(), targets, target);
        let i = choose|i: int| 0 <= i < fewer.len() && fewer[i] == keyed.drop_last()[at].1;
        assert(all[i] == keyed[at].1);
    }
}

/// The target that `key` selects among `targets` targets.
pub fn select(key: u64, targets: usize) -> (target: usize)
    requires
        targets > 0,
    ensures
        target == selected(key, targets as nat),
        target < targets,
{
    (key % (targets as u64)) as usize
}

/// `n` empty batches.
fn empty_batches<D>(n: usize) -> (out: Vec<Vec<D>>)
    ensures
        out.len() == n,
        forall|t: int| 0 <= t < n ==> (#[trigger] out[t])@ == Seq::<D>::empty(),
{
    let mut out: Vec<Vec<D>> = Vec::new();
    while out.len() < n
        invariant
            out.len() <= n,
            forall|t: int| 0 <= t < out.len() ==> (#[trigger] out[t])@ == Seq::<D>::empty(),
        decreases n - out.len(),
    {
        out.push(Vec::new());
    }
    out
}

/// Routes keyed records to `targets` targets: each record goes to the target
/// that its key selects, and the records of one target keep their order.
pub fn distribute<D>(keyed: Vec<(u64, D)>, targets: usize) -> (out: Vec<Vec<D>>)
    requires
        targets > 0,
    ensures
        out.len() == targets,
        forall|t: int|
            0 <= t < targets ==> (#[trigger] out[t])@ == delivered(keyed@, targets as nat, t),
{
    let ghost given = keyed@;
    let mut out: Vec<Vec<D>> = empty_batches(targets);
    let mut stack = reversed(keyed);
    while stack.len() > 0
        invariant
            targets > 0,
            out.len() == targets,
            stack@.len() <= given.len(),
            stack@ == given.reverse().take(stack@.len() as int),
            forall|t: int|
                0 <= t < targets ==> (#[trigger] out[t])@ == delivered(
                    given.take(given.len() - stack@.len()),
                    targets as nat,
                    t,
                ),
        decreases stack.len(),
    {
        let ghost done = given.len() - stack@.len();
        let ghost prior = out@;
        let (key, record) = stack.pop().unwrap();
        assert((key, record) == given[done]);
        let target = select(key, targets);
        let mut batch: Vec<D> = Vec::new();
        std::mem::swap(&mut batch, &mut out[target]);
        batch.push(record);
        out[target] = batch;
        proof {
            assert(given.take(done + 1).drop_last() =~= given.take(done));
            assert(given.take(done + 1).last() == given[done]);
            assert forall|t: int| 0 <= t < targets implies (#[trigger] out[t])@ == delivered(
                given.take(done + 1),
                targets as nat,
                t,
            ) by {
                if t != target {
                    assert(out[t] == prior[t]);
                }
            }
        }
    }
    assert(given.take(given.len() as int) =~= given);
    out
}

/// Delivers keyed records as the channel `pact` prescribes when the worker
/// `from` sends them.
pub fn route<D>(pact: Pact, from: usize, keyed: Vec<(u64, D)>, targets: usize) -> (out: Vec<
    Vec<D>,
>)
    requires
        from < targets,
    ensures
        out.len() == targets,
        forall|t: int|
            0 <= t < targets ==> (#[trigger] out[t])@ == routed(
                pact,
                from as int,
                keyed@,
                targets as nat,
                t,
            ),
{
    match pact {
        Pact::Exchange => distribute(keyed, targets),
        Pact::Pipeline => {
            let ghost given = keyed@;
            let mut out: Vec<Vec<D>> = empty_batches(targets);
            let mut stack = reversed(keyed);
            let mut batch: Vec<D> = Vec::new();
            while stack.len() > 0
                invariant
                    stack@.len() <= given.len(),
                    stack@ == given.reverse().take(stack@.len() as int),
                    batch@.len() == given.len() - stack@.len(),
                    forall|k: int| 0 <= k < batch@.len() ==> #[trigger] batch@[k] == given[k].1,
                decreases stack.len(),
            {
                let (_, record) = stack.pop().unwrap();
                batch.push(record);
            }
            assert(batch@ =~= Seq::new(given.len(), |i: int| given[i].1));
            out[from] = batch;
            out
        },
    }
}

/// Exchanges records among `targets` targets by a partition function: each
/// record goes to the target selected by the key that `key` gives it.
pub fn exchange<D, F: Fn(&D) -> u64>(records: Vec<D>, key: F, targets: usize) -> (out: Vec<Vec<D>>)
    requires
        targets > 0,
        forall|d: D| call_requires(key, (&d,)),
    ensures
        out.len() == targets,
        exists|keyed: Seq<(u64, D)>|
            {
                &&& keyed.len() == records.len()
                &&& forall|i: int|
                    0 <= i < keyed.len() ==> (#[trigger] keyed[i]).1 == records[i] && call_ensures(
                        key,
                        (&records[i],),
                        keyed[i].0,
                    )
                &&& forall|t: int|
                    0 <= t < targets ==> (#[trigger] out[t])@ == delivered(
                        keyed,
                        targets as nat,
                        t,
                    )
            },
{
    let ghost given = records@;
    let mut keyed: Vec<(u64, D)> = Vec::new();
    let mut stack = reversed(records);
    while stack.len() > 0
        invariant
            forall|d: D| call_requires(key, (&d,)),
            stack@.len() <= given.len(),
            stack@ == given.reverse().take(stack@.len() as int),
            keyed@.len() == given.len() - stack@.len(),
            forall|i: int|
                0 <= i < keyed@.len() ==> (#[trigger] keyed@[i]).1 == given[i] && call_ensures(
                    key,
                    (&given[i],),
                    keyed@[i].0,
                ),
        decreases stack.len(),
    {
        let record = stack.pop().unwrap();
        let k = key(&record);
        keyed.push((k, record));
    }
    let ghost witness = keyed@;
    let out = distribute(keyed, targets);
    assert(witness.len() == records.len());
    out
}

} // verus!
