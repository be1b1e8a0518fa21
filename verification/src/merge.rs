//! The merge of sorted streams of values.

use vstd::prelude::*;
use vstd::multiset::Multiset;
use vstd::seq_lib::{lemma_multiset_commutative, to_multiset_build};
use crate::convert::ascending;
use crate::delta_stream::Decoder;

verus! {

/// All the values of `streams`, each as often as it occurs in them.
pub open spec fn pooled(streams: Seq<Seq<u64>>) -> Multiset<u64>
    decreases streams.len(),
{
    if streams.len() == 0 {
        Multiset::empty()
    } else {
        pooled(streams.drop_last()).add(streams.last().to_multiset())
    }
}

/// The values that each of `iterators` still has to give.
pub open spec fn remaining_all(iterators: Seq<Decoder>) -> Seq<Seq<u64>> {
    Seq::new(iterators.len(), |i: int| iterators[i].remaining())
}

/// A sequence holds its first value and what follows it.
proof fn lemma_first_and_rest(values: Seq<u64>)
    requires
        values.len() > 0,
    ensures
        values.to_multiset() =~= values.skip(1).to_multiset().insert(values[0]),
{
    let head = Seq::<u64>::empty().push(values[0]);
    assert(values =~= head + values.skip(1));
    lemma_multiset_commutative(head, values.skip(1));
    to_multiset_build(Seq::<u64>::empty(), values[0]);
    assert(Seq::<u64>::empty().to_multiset() =~= Multiset::empty()) by {
        broadcast use vstd::seq_lib::group_to_multiset_ensures;

    }
}

/// Taking the first value away from one of the streams takes it away from their pool.
proof fn lemma_pooled_without_first(streams: Seq<Seq<u64>>, a: int)
    requires
        0 <= a < streams.len(),
        streams[a].len() > 0,
    ensures
        pooled(streams) =~= pooled(streams.update(a, streams[a].skip(1))).insert(streams[a][0]),
        pooled(streams).len() == pooled(streams.update(a, streams[a].skip(1))).len() + 1,
    decreases streams.len(),
{
    let after = streams.update(a, streams[a].skip(1));
    if a == streams.len() - 1 {
        assert(after.drop_last() =~= streams.drop_last());
        lemma_first_and_rest(streams[a]);
    } else {
        lemma_pooled_without_first(streams.drop_last(), a);
        assert(after.drop_last() =~= streams.drop_last().update(a, streams[a].skip(1)));
    }
}

/// Streams that hold nothing pool to nothing.
proof fn lemma_pooled_empty(streams: Seq<Seq<u64>>)
    requires
        forall|i: int| 0 <= i < streams.len() ==> (#[trigger] streams[i]).len() == 0,
    ensures
        pooled(streams) =~= Multiset::empty(),
    decreases streams.len(),
{
    if streams.len() > 0 {
        lemma_pooled_empty(streams.drop_last());
        assert(streams.last().len() == 0);
        assert(streams.last().to_multiset() =~= Multiset::empty()) by {
            broadcast use vstd::seq_lib::group_to_multiset_ensures;

        }
    }
}

/// What a stream still has to give, behind the value that was taken from it last.
spec fn pending(head: Option<u64>, iterator: Decoder) -> Seq<u64> {
    match head {
        Some(value) => seq![value] + iterator.remaining(),
        None => Seq::empty(),
    }
}

/// Whether `pend` is what the streams still have to give, with `values` at their heads.
spec fn heads_of(pend: Seq<Seq<u64>>, values: Seq<Option<u64>>, iterators: Seq<Decoder>, upto: int) -> bool {
    forall|i: int|
        0 <= i < upto ==> {
            &&& #[trigger] pend[i] == pending(values[i], iterators[i])
            &&& values[i] matches Some(value) ==> value == iterators[i].current()
        }
}

/// The values of all of `iterators`, merged in ascending order. A value that several
/// streams hold comes as often as they hold it.
pub fn merge<'a>(mut iterators: Vec<Decoder<'a>>) -> (output: Vec<u64>)
    ensures
        ascending(output@),
        output@.to_multiset() == pooled(remaining_all(iterators@)),
{
    let ghost total = pooled(remaining_all(iterators@));
    let ghost mut pend = remaining_all(iterators@);
    let count: usize = iterators.len();
    let mut values: Vec<Option<u64>> = Vec::new();
    let mut i: usize = 0;
    while i < count
        invariant
            i <= count,
            iterators@.len() == count,
            values@.len() == i,
            pend.len() == count,
            pooled(pend) == total,
            heads_of(pend, values@, iterators@, i as int),
            forall|j: int| i <= j < count ==> #[trigger] pend[j] == iterators@[j].remaining(),
        decreases count - i,
    {
        let ghost before = iterators@;
        let head = iterators[i].next();
        values.push(head);
        proof {
            assert(forall|j: int| 0 <= j < count && j != i ==> iterators@[j] == before[j]);
            assert(pend[i as int] =~= pending(head, iterators@[i as int]));
        }
        i += 1;
    }
    let mut output: Vec<u64> = Vec::new();
    let mut val_old: u64 = 0;
    let mut done: bool = false;
    proof {
        assert(output@.to_multiset() =~= Multiset::empty()) by {
            broadcast use vstd::seq_lib::group_to_multiset_ensures;

        }
        assert(output@.to_multiset().add(pooled(pend)) =~= total);
    }
    while !done
        invariant
            iterators@.len() == count,
            values@.len() == count,
            pend.len() == count,
            heads_of(pend, values@, iterators@, count as int),
            output@.to_multiset().add(pooled(pend)) == total,
            ascending(output@),
            forall|k: int| 0 <= k < output@.len() ==> output@[k] <= val_old,
            forall|i: int| 0 <= i < count ==> (#[trigger] values@[i] matches Some(value) ==> val_old <= value),
            done ==> pooled(pend) == Multiset::<u64>::empty(),
        decreases pooled(pend).len() + (if done { 0nat } else { 1nat }),
    {
        let mut arg_min: usize = count;
        let mut val_min: u64 = 0;
        let mut index: usize = 0;
        while index < count
            invariant
                index <= count,
                values@.len() == count,
                arg_min <= count,
                arg_min == count ==> forall|i: int| 0 <= i < index ==> #[trigger] values@[i] is None,
                arg_min < count ==> arg_min < index,
                arg_min < count ==> values@[arg_min as int] == Some(val_min),
                arg_min < count ==> forall|i: int|
                    0 <= i < index ==> (#[trigger] values@[i] matches Some(value) ==> val_min <= value),
            decreases count - index,
        {
            if let Some(val) = values[index] {
                if arg_min > index || val < val_min {
                    arg_min = index;
                    val_min = val;
                }
            }
            index += 1;
        }

        if arg_min < count {
            let ghost before = iterators@;
            let ghost stream = pend[arg_min as int];
            proof {
                lemma_pooled_without_first(pend, arg_min as int);
                before[arg_min as int].lemma_remaining_increasing();
                to_multiset_build(output@, val_min);
            }
            let head = iterators[arg_min].next();
            values.set(arg_min, head);
            proof {
                assert(forall|j: int| 0 <= j < count && j != arg_min ==> iterators@[j] == before[j]);
                pend = pend.update(arg_min as int, stream.skip(1));
                assert(stream.skip(1) =~= pending(head, iterators@[arg_min as int]));
                assert(output@.push(val_min).to_multiset().add(pooled(pend)) =~= total);
                if head is Some {
                    assert(before[arg_min as int].remaining()[0] == head.unwrap());
                }
            }
            val_old = val_min;
            output.push(val_min);
        } else {
            proof {
                lemma_pooled_empty(pend);
            }
            done = true;
        }
    }
    proof {
        assert(output@.to_multiset().add(Multiset::<u64>::empty()) =~= output@.to_multiset());
    }
    output
}

} // verus!
