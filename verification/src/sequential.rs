use vstd::prelude::*;

use crate::error::RpcError;

verus! {

/// What sequential dispatch does after one provider's outcome.
#[derive(Debug, Eq, PartialEq)]
pub enum SequentialStep<T> {
    /// Short-circuit with this result.
    Finish(Result<T, RpcError>),
    /// Ask the next provider.
    TryNext,
}

/// The result of querying providers in order until one answers: the first
/// ok outcome, or the last error when every provider fails.
pub open spec fn sequential_outcome<T>(outcomes: Seq<Result<T, RpcError>>) -> Result<T, RpcError>
    recommends
        outcomes.len() > 0,
    decreases outcomes.len(),
{
    if outcomes.len() <= 1 || outcomes[0] is Ok {
        outcomes[0]
    } else {
        sequential_outcome(outcomes.skip(1))
    }
}

/// Decides one step of sequential dispatch: a success returns at once; a
/// failure is returned only when no provider is left, else it is dropped
/// (only the last error survives) and the next provider is asked.
pub fn sequential_step<T>(outcome: Result<T, RpcError>, remaining: usize) -> (step: SequentialStep<
    T,
>)
    ensures
        outcome is Ok ==> step == SequentialStep::Finish(outcome),
        outcome is Err && remaining == 0 ==> step == SequentialStep::Finish(outcome),
        outcome is Err && remaining > 0 ==> step == SequentialStep::<T>::TryNext,
{
    match outcome {
        Ok(v) => SequentialStep::Finish(Ok(v)),
        Err(e) => {
            if remaining == 0 {
                SequentialStep::Finish(Err(e))
            } else {
                SequentialStep::TryNext
            }
        }
    }
}

/// Reduces an already-collected column of outcomes exactly as sequential
/// dispatch would have, had it produced them one by one.
pub fn reduce_sequential<T>(outcomes: Vec<Result<T, RpcError>>) -> (r: Result<T, RpcError>)
    requires
        outcomes@.len() > 0,
    ensures
        r == sequential_outcome(outcomes@),
{
    let ghost orig = outcomes@;
    let mut rem = outcomes;
    while rem.len() > 1 && rem[0].is_err()
        invariant
            rem@.len() >= 1,
            sequential_outcome(orig) == sequential_outcome(rem@),
        decreases rem@.len(),
    {
        let ghost pre = rem@;
        let _ = rem.remove(0);
        proof {
            assert(rem@ =~= pre.skip(1));
        }
    }
    let mut rem = rem;
    rem.remove(0)
}

/// With all-failure providers, sequential dispatch returns the last error.
pub proof fn lemma_sequential_all_errors<T>(outcomes: Seq<Result<T, RpcError>>)
    requires
        outcomes.len() > 0,
        forall|i: int| 0 <= i < outcomes.len() ==> (#[trigger] outcomes[i]) is Err,
    ensures
        sequential_outcome(outcomes) == outcomes.last(),
    decreases outcomes.len(),
{
    if outcomes.len() > 1 {
        let rest = outcomes.skip(1);
        assert forall|i: int| 0 <= i < rest.len() implies (#[trigger] rest[i]) is Err by {
            assert(outcomes[i + 1] is Err);
        }
        lemma_sequential_all_errors(rest);
        assert(rest.last() == outcomes.last());
    }
}

/// The first ok outcome is returned, and the providers after it change
/// nothing: the dispatch never consults them.
pub proof fn lemma_sequential_first_ok<T>(outcomes: Seq<Result<T, RpcError>>, i: int)
    requires
        0 <= i < outcomes.len(),
        outcomes[i] is Ok,
        forall|j: int| 0 <= j < i ==> (#[trigger] outcomes[j]) is Err,
    ensures
        sequential_outcome(outcomes) == outcomes[i],
        sequential_outcome(outcomes.take(i + 1)) == outcomes[i],
    decreases i,
{
    if i == 0 {
        assert(outcomes.take(1)[0] == outcomes[0]);
    } else {
        let rest = outcomes.skip(1);
        assert(outcomes[0] is Err);
        assert forall|j: int| 0 <= j < i - 1 implies (#[trigger] rest[j]) is Err by {
            assert(outcomes[j + 1] is Err);
        }
        assert(rest[i - 1] == outcomes[i]);
        lemma_sequential_first_ok(rest, i - 1);
        assert(outcomes.take(i + 1)[0] == outcomes[0]);
        assert(outcomes.take(i + 1).len() > 1);
        assert(outcomes.take(i + 1).skip(1) =~= rest.take(i));
        assert(sequential_outcome(outcomes.take(i + 1)) == sequential_outcome(rest.take(i)));
    }
}

} // verus!
