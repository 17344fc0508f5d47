//! The steps of a database transaction.

use vstd::prelude::*;

verus! {

/// How a transaction has ended.
#[derive(Clone, Copy, Debug, PartialEq, Eq, Structural)]
pub enum TransactionOutcome {
    Committed,
    /// It could not be begun.
    NotBegun,
    /// Its operation has failed.
    OperationFailed,
    /// It could not be committed.
    CommitFailed,
    /// The statement that commits it could not be prepared.
    CommitNotPrepared,
    /// The statement that rolls it back could not be prepared.
    RollbackNotPrepared,
}

/// What is to be done next.
#[derive(Clone, Copy, Debug, PartialEq, Eq, Structural)]
pub enum TransactionStep {
    Begin,
    Operate,
    Commit,
    /// Roll back, because of what has failed.
    Rollback(RollbackCause),
    Finished(TransactionOutcome),
}

/// What has failed in a transaction that is to be rolled back.
#[derive(Clone, Copy, Debug, PartialEq, Eq, Structural)]
pub enum RollbackCause {
    Operation,
    Commit,
}

/// What has become of a step.
#[derive(Clone, Copy, Debug, PartialEq, Eq, Structural)]
pub enum StepResult {
    Succeeded,
    /// Its statement could not be prepared.
    NotPrepared,
    /// Its statement, or the operation, has failed.
    Failed,
}

/// The outcome that a cause leads to.
pub open spec fn outcome_of(cause: RollbackCause) -> TransactionOutcome {
    match cause {
        RollbackCause::Operation => TransactionOutcome::OperationFailed,
        RollbackCause::Commit => TransactionOutcome::CommitFailed,
    }
}

/// What is to be done when a step has come to a result. A transaction that is
/// rolled back reports what made that necessary, even where the rollback fails
/// too.
pub open spec fn step_after(step: TransactionStep, result: StepResult) -> TransactionStep {
    match (step, result) {
        (TransactionStep::Begin, StepResult::Succeeded) => TransactionStep::Operate,
        (TransactionStep::Begin, _) => TransactionStep::Finished(TransactionOutcome::NotBegun),
        (TransactionStep::Operate, StepResult::Succeeded) => TransactionStep::Commit,
        (TransactionStep::Operate, _) => TransactionStep::Rollback(RollbackCause::Operation),
        (TransactionStep::Commit, StepResult::Succeeded) => TransactionStep::Finished(
            TransactionOutcome::Committed,
        ),
        (TransactionStep::Commit, StepResult::NotPrepared) => TransactionStep::Finished(
            TransactionOutcome::CommitNotPrepared,
        ),
        (TransactionStep::Commit, StepResult::Failed) => TransactionStep::Rollback(
            RollbackCause::Commit,
        ),
        (TransactionStep::Rollback(_), StepResult::NotPrepared) => TransactionStep::Finished(
            TransactionOutcome::RollbackNotPrepared,
        ),
        (TransactionStep::Rollback(cause), _) => TransactionStep::Finished(outcome_of(cause)),
        (TransactionStep::Finished(_), _) => step,
    }
}

/// What is to be done when `step` has come to `result`.
pub fn next_transaction_step(step: TransactionStep, result: StepResult) -> (next: TransactionStep)
    ensures
        next == step_after(step, result),
{
    match step {
        TransactionStep::Begin => match result {
            StepResult::Succeeded => TransactionStep::Operate,
            _ => TransactionStep::Finished(TransactionOutcome::NotBegun),
        },
        TransactionStep::Operate => match result {
            StepResult::Succeeded => TransactionStep::Commit,
            _ => TransactionStep::Rollback(RollbackCause::Operation),
        },
        TransactionStep::Commit => match result {
            StepResult::Succeeded => TransactionStep::Finished(TransactionOutcome::Committed),
            StepResult::NotPrepared => TransactionStep::Finished(
                TransactionOutcome::CommitNotPrepared,
            ),
            StepResult::Failed => TransactionStep::Rollback(RollbackCause::Commit),
        },
        TransactionStep::Rollback(cause) => match result {
            StepResult::NotPrepared => TransactionStep::Finished(
                TransactionOutcome::RollbackNotPrepared,
            ),
            _ => TransactionStep::Finished(
                match cause {
                    RollbackCause::Operation => TransactionOutcome::OperationFailed,
                    RollbackCause::Commit => TransactionOutcome::CommitFailed,
                },
            ),
        },
        TransactionStep::Finished(outcome) => TransactionStep::Finished(outcome),
    }
}

/// Where a transaction stands after these results of its steps.
pub open spec fn step_after_all(results: Seq<StepResult>) -> TransactionStep
    decreases results.len(),
{
    if results.len() == 0 {
        TransactionStep::Begin
    } else {
        step_after(step_after_all(results.drop_last()), results.last())
    }
}

/// A transaction has just ended with these results of its steps.
pub open spec fn ends_with(results: Seq<StepResult>, outcome: TransactionOutcome) -> bool {
    &&& results.len() > 0
    &&& step_after_all(results) == TransactionStep::Finished(outcome)
    &&& step_after_all(results.drop_last()) !is Finished
}

/// The last of the steps was to roll back, and it has succeeded.
pub open spec fn is_rolled_back(results: Seq<StepResult>) -> bool {
    &&& results.len() > 0
    &&& step_after_all(results.drop_last()) is Rollback
    &&& results.last() == StepResult::Succeeded
}

/// Nothing of a transaction is left open: it was not begun, or has been committed
/// or rolled back. One whose commit or rollback could not be prepared, or whose
/// rollback has failed, is still open.
pub open spec fn is_closed(results: Seq<StepResult>, outcome: TransactionOutcome) -> bool {
    outcome is NotBegun || outcome is Committed || is_rolled_back(results)
}

/// A transaction that has ended without having been committed, and of which
/// nothing is open, was never begun or has been rolled back. It is still open
/// exactly where one of its statements could not be prepared after it was begun,
/// or its rollback has failed.
pub proof fn law_when_transactions_stay_open(
    results: Seq<StepResult>,
    outcome: TransactionOutcome,
)
    requires
        ends_with(results, outcome),
    ensures
        !is_closed(results, outcome) <==> {
            ||| outcome is CommitNotPrepared
            ||| outcome is RollbackNotPrepared
            ||| step_after_all(results.drop_last()) is Rollback && results.last()
                == StepResult::Failed
        },
        is_rolled_back(results) ==> outcome is OperationFailed || outcome is CommitFailed,
{
    let front = results.drop_last();
    assert(step_after_all(results) == step_after(step_after_all(front), results.last()));
}

/// Any transaction has ended after four steps.
pub proof fn law_transactions_end(results: Seq<StepResult>)
    requires
        results.len() >= 4,
    ensures
        step_after_all(results) is Finished,
    decreases results.len(),
{
    let front = results.drop_last();
    if results.len() > 4 {
        law_transactions_end(front);
    } else {
        reveal_with_fuel(step_after_all, 5);
    }
}

/// A transaction is committed exactly when it was begun, its operation has
/// succeeded and the commit has.
pub proof fn law_committed_when_all_succeed(results: Seq<StepResult>)
    requires
        results.len() >= 3,
    ensures
        step_after_all(results) == TransactionStep::Finished(TransactionOutcome::Committed) <==> {
            &&& results[0] == StepResult::Succeeded
            &&& results[1] == StepResult::Succeeded
            &&& results[2] == StepResult::Succeeded
        },
    decreases results.len(),
{
    if results.len() > 3 {
        let front = results.drop_last();
        law_committed_when_all_succeed(front);
        if results.len() == 4 {
            reveal_with_fuel(step_after_all, 4);
        } else {
            law_transactions_end(front);
        }
    } else {
        reveal_with_fuel(step_after_all, 4);
    }
}

} // verus!
