//! A batch of changes to the site (creations or deletions) as a state
//! machine: nothing to do, or a question to the user, then the changes one
//! by one, in order, then the outcome. The caller performs each action and
//! hands back what came of it.

use vstd::prelude::*;

verus! {

/// Where a batch stands.
#[derive(Debug, Clone, Copy)]
pub enum BatchStage {
    /// Not started.
    Idle,
    /// Waiting for the user's answer.
    Asking,
    /// A change is under way.
    Running,
    /// Over: nothing more will be done.
    Over,
}

/// A batch of `total` changes.
#[derive(Debug, Clone, Copy)]
pub struct BatchState {
    /// Number of changes in the batch.
    pub total: usize,
    /// The user answered yes in advance (`--yes`).
    pub assume_yes: bool,
    pub stage: BatchStage,
    /// Number of changes handed out so far.
    pub next: usize,
    /// Changes that went through.
    pub succeeded: usize,
    /// Changes that failed.
    pub failed: usize,
}

/// What happened since the last action.
#[derive(Debug, Clone, Copy)]
pub enum BatchEvent {
    /// The batch begins.
    Start,
    /// The user answered the question: yes or not.
    Answered { yes: bool },
    /// The question cannot be asked: there is no terminal.
    NoTerminal,
    /// The change under way is over: it went through or not.
    Finished { ok: bool },
}

/// What to do next.
#[derive(Debug, Clone, Copy)]
pub enum BatchAction {
    /// Ask the user; `assumed` when `--yes` answers for them.
    Ask { assumed: bool },
    /// Make change number `i` (counted from 0).
    Run(usize),
    /// The user declined: nothing is changed.
    Abort,
    /// No answer can be had: nothing is changed, and that is an error.
    Refuse,
    /// The batch is over: `Ok` with the number of changes made, or `Err`
    /// with the number of failures.
    Done(Result<usize, usize>),
    /// The event does not fit where the batch stands: nothing to do.
    Ignore,
}

/// The counters of a batch agree with its stage.
pub open spec fn batch_wf(s: BatchState) -> bool {
    match s.stage {
        BatchStage::Idle => s.next == 0 && s.succeeded == 0 && s.failed == 0,
        BatchStage::Asking => s.next == 0 && s.succeeded == 0 && s.failed == 0 && s.total > 0,
        BatchStage::Running => 1 <= s.next <= s.total && s.succeeded + s.failed == s.next - 1,
        BatchStage::Over => s.succeeded + s.failed <= s.next <= s.total,
    }
}

/// The outcome of a batch whose changes are all over.
pub open spec fn outcome(succeeded: usize, failed: usize) -> Result<usize, usize> {
    if failed == 0 {
        Ok(succeeded)
    } else {
        Err(failed)
    }
}

/// The first change, once the user agreed.
pub open spec fn first_change(s: BatchState) -> (BatchState, BatchAction) {
    (BatchState { stage: BatchStage::Running, next: 1, ..s }, BatchAction::Run(0))
}

/// The step of a batch: from where it stands and what happened, where it
/// stands next and what to do.
pub open spec fn batch_next(s: BatchState, e: BatchEvent) -> (BatchState, BatchAction) {
    match (s.stage, e) {
        (BatchStage::Idle, BatchEvent::Start) => if s.total == 0 {
            (BatchState { stage: BatchStage::Over, ..s }, BatchAction::Done(Ok(0)))
        } else {
            (BatchState { stage: BatchStage::Asking, ..s }, BatchAction::Ask { assumed: s.assume_yes })
        },
        (BatchStage::Asking, BatchEvent::Answered { yes }) => if yes || s.assume_yes {
            first_change(s)
        } else {
            (BatchState { stage: BatchStage::Over, ..s }, BatchAction::Abort)
        },
        (BatchStage::Asking, BatchEvent::NoTerminal) => if s.assume_yes {
            first_change(s)
        } else {
            (BatchState { stage: BatchStage::Over, ..s }, BatchAction::Refuse)
        },
        (BatchStage::Running, BatchEvent::Finished { ok }) => {
            let succeeded = if ok { s.succeeded + 1 } else { s.succeeded as int };
            let failed = if ok { s.failed as int } else { s.failed + 1 };
            if s.next < s.total {
                (
                    BatchState {
                        next: (s.next + 1) as usize,
                        succeeded: succeeded as usize,
                        failed: failed as usize,
                        ..s
                    },
                    BatchAction::Run(s.next),
                )
            } else {
                (
                    BatchState {
                        stage: BatchStage::Over,
                        succeeded: succeeded as usize,
                        failed: failed as usize,
                        ..s
                    },
                    BatchAction::Done(outcome(succeeded as usize, failed as usize)),
                )
            }
        },
        _ => (s, BatchAction::Ignore),
    }
}

impl BatchState {
    /// A batch of `total` changes, not started.
    pub fn new(total: usize, assume_yes: bool) -> (r: BatchState)
        ensures
            batch_wf(r),
            r == (BatchState { total, assume_yes, stage: BatchStage::Idle, next: 0, succeeded: 0, failed: 0 }),
    {
        BatchState { total, assume_yes, stage: BatchStage::Idle, next: 0, succeeded: 0, failed: 0 }
    }
}

/// The step of a batch.
pub fn batch_step(s: BatchState, e: BatchEvent) -> (r: (BatchState, BatchAction))
    requires
        batch_wf(s),
    ensures
        r == batch_next(s, e),
        batch_wf(r.0),
{
    match (s.stage, e) {
        (BatchStage::Idle, BatchEvent::Start) => if s.total == 0 {
            (BatchState { stage: BatchStage::Over, ..s }, BatchAction::Done(Ok(0)))
        } else {
            (BatchState { stage: BatchStage::Asking, ..s }, BatchAction::Ask { assumed: s.assume_yes })
        },
        (BatchStage::Asking, BatchEvent::Answered { yes }) => if yes || s.assume_yes {
            (BatchState { stage: BatchStage::Running, next: 1, ..s }, BatchAction::Run(0))
        } else {
            (BatchState { stage: BatchStage::Over, ..s }, BatchAction::Abort)
        },
        (BatchStage::Asking, BatchEvent::NoTerminal) => if s.assume_yes {
            (BatchState { stage: BatchStage::Running, next: 1, ..s }, BatchAction::Run(0))
        } else {
            (BatchState { stage: BatchStage::Over, ..s }, BatchAction::Refuse)
        },
        (BatchStage::Running, BatchEvent::Finished { ok }) => {
            let succeeded = if ok { s.succeeded + 1 } else { s.succeeded };
            let failed = if ok { s.failed } else { s.failed + 1 };
            if s.next < s.total {
                (BatchState { next: s.next + 1, succeeded, failed, ..s }, BatchAction::Run(s.next))
            } else {
                let done = if failed == 0 { Ok(succeeded) } else { Err(failed) };
                (BatchState { stage: BatchStage::Over, succeeded, failed, ..s }, BatchAction::Done(done))
            }
        },
        _ => (s, BatchAction::Ignore),
    }
}


// ---------------------------------------------------------------------------
// Runs of a batch
// ---------------------------------------------------------------------------

/// A batch of `total` changes, not started.
pub open spec fn batch_start(total: usize, assume_yes: bool) -> BatchState {
    BatchState { total, assume_yes, stage: BatchStage::Idle, next: 0, succeeded: 0, failed: 0 }
}

/// Where a batch stands after the events `evs`, and the actions it asked
/// for, one per event.
pub open spec fn batch_run(s: BatchState, evs: Seq<BatchEvent>) -> (BatchState, Seq<BatchAction>)
    decreases evs.len(),
{
    if evs.len() == 0 {
        (s, Seq::empty())
    } else {
        let (s1, acts) = batch_run(s, evs.drop_last());
        let (s2, a) = batch_next(s1, evs.last());
        (s2, acts.push(a))
    }
}

/// The number of changes asked for among `acts`.
pub open spec fn run_count(acts: Seq<BatchAction>) -> nat
    decreases acts.len(),
{
    if acts.len() == 0 {
        0
    } else {
        run_count(acts.drop_last()) + if acts.last() is Run { 1nat } else { 0nat }
    }
}

/// The number of changes reported over with outcome `ok` among `evs`, not
/// counting the events the batch ignored (`acts` are the actions answering
/// them).
pub open spec fn finished_count(evs: Seq<BatchEvent>, acts: Seq<BatchAction>, ok: bool) -> nat
    decreases evs.len(),
{
    if evs.len() == 0 || acts.len() == 0 {
        0
    } else {
        finished_count(evs.drop_last(), acts.drop_last(), ok) + if evs.last() == (BatchEvent::Finished { ok })
            && !(acts.last() is Ignore) {
            1nat
        } else {
            0nat
        }
    }
}

/// The user agreed to the changes: `--yes`, or a yes among the answers.
pub open spec fn consented(assume_yes: bool, evs: Seq<BatchEvent>) -> bool {
    assume_yes || exists|i: int| 0 <= i < evs.len() && evs[i] == (BatchEvent::Answered { yes: true })
}

proof fn lemma_batch_run(total: usize, assume_yes: bool, evs: Seq<BatchEvent>)
    ensures
        ({
            let (s, acts) = batch_run(batch_start(total, assume_yes), evs);
            &&& batch_wf(s)
            &&& s.total == total
            &&& s.assume_yes == assume_yes
            &&& acts.len() == evs.len()
            &&& run_count(acts) == s.next
            &&& s.next > 0 ==> consented(assume_yes, evs)
            &&& s.succeeded == finished_count(evs, acts, true)
            &&& s.failed == finished_count(evs, acts, false)
        }),
    decreases evs.len(),
{
    if evs.len() > 0 {
        let pre = evs.drop_last();
        lemma_batch_run(total, assume_yes, pre);
        let (s1, acts1) = batch_run(batch_start(total, assume_yes), pre);
        let (s2, a) = batch_next(s1, evs.last());
        let acts = acts1.push(a);
        assert(acts.drop_last() =~= acts1);
        if s2.next > 0 && s1.next == 0 {
            assert(evs.last() == (BatchEvent::Answered { yes: true }) || assume_yes);
            if !assume_yes {
                assert(evs[evs.len() - 1] == (BatchEvent::Answered { yes: true }));
            }
        }
        if s1.next > 0 && !assume_yes {
            let i = choose|i: int| 0 <= i < pre.len() && pre[i] == (BatchEvent::Answered { yes: true });
            assert(evs[i] == pre[i]);
        }
    }
}

proof fn lemma_batch_run_prefix(s: BatchState, evs: Seq<BatchEvent>, j: int)
    requires
        0 <= j <= evs.len(),
    ensures
        batch_run(s, evs.take(j)).1 == batch_run(s, evs).1.take(j),
        batch_run(s, evs).1.len() == evs.len(),
    decreases evs.len(),
{
    if evs.len() > 0 {
        let pre = evs.drop_last();
        if j < evs.len() {
            lemma_batch_run_prefix(s, pre, j);
            assert(pre.take(j) =~= evs.take(j));
            assert(batch_run(s, evs).1.take(j) =~= batch_run(s, pre).1.take(j));
        } else {
            lemma_batch_run_prefix(s, pre, pre.len() as int);
            assert(evs.take(j) =~= evs);
            assert(batch_run(s, evs).1.take(j) =~= batch_run(s, evs).1);
        }
    } else {
        assert(evs.take(j) =~= evs);
        assert(batch_run(s, evs).1.take(j) =~= batch_run(s, evs).1);
    }
}

/// Law: a batch with nothing in it is over at once, `Ok`, without asking
/// anything.
pub proof fn law_batch_empty(assume_yes: bool)
    ensures
        batch_next(batch_start(0, assume_yes), BatchEvent::Start).1 == BatchAction::Done(Ok(0)),
{
}

/// Law: nothing is changed before the user agreed: a change is asked for
/// only after a yes answer, or under `--yes`.
pub proof fn law_batch_consent(total: usize, assume_yes: bool, evs: Seq<BatchEvent>, j: int)
    requires
        0 <= j < evs.len(),
        batch_run(batch_start(total, assume_yes), evs).1[j] is Run,
    ensures
        consented(assume_yes, evs.take(j + 1)),
{
    let s0 = batch_start(total, assume_yes);
    lemma_batch_run_prefix(s0, evs, j + 1);
    lemma_batch_run_prefix(s0, evs, j);
    lemma_batch_run(total, assume_yes, evs.take(j));
    lemma_batch_run(total, assume_yes, evs.take(j + 1));
    assert(evs.take(j + 1).drop_last() =~= evs.take(j));
    assert(batch_run(s0, evs.take(j + 1)).1.last() == batch_run(s0, evs).1[j]);
}

/// Law: the changes are asked for in order, each once: the `k`-th change
/// asked for is change number `k`, and every number is below the size of
/// the batch.
pub proof fn law_batch_in_order(total: usize, assume_yes: bool, evs: Seq<BatchEvent>, j: int, i: usize)
    requires
        0 <= j < evs.len(),
        batch_run(batch_start(total, assume_yes), evs).1[j] == BatchAction::Run(i),
    ensures
        i == run_count(batch_run(batch_start(total, assume_yes), evs).1.take(j)),
        i < total,
{
    let s0 = batch_start(total, assume_yes);
    lemma_batch_run_prefix(s0, evs, j + 1);
    lemma_batch_run_prefix(s0, evs, j);
    lemma_batch_run(total, assume_yes, evs.take(j));
    assert(evs.take(j + 1).drop_last() =~= evs.take(j));
    assert(evs.take(j + 1).last() == evs[j]);
    assert(batch_run(s0, evs.take(j + 1)).1.last() == batch_run(s0, evs).1[j]);
}

/// Law: a batch is over only once every change was asked for, and its
/// outcome is `Err` with the number of failures exactly when some change
/// failed, `Ok` with the number of changes made otherwise.
pub proof fn law_batch_outcome(
    total: usize,
    assume_yes: bool,
    evs: Seq<BatchEvent>,
    j: int,
    r: Result<usize, usize>,
)
    requires
        0 <= j < evs.len(),
        batch_run(batch_start(total, assume_yes), evs).1[j] == BatchAction::Done(r),
    ensures
        ({
            let acts = batch_run(batch_start(total, assume_yes), evs).1.take(j + 1);
            let ok = finished_count(evs.take(j + 1), acts, true);
            let failed = finished_count(evs.take(j + 1), acts, false);
            &&& run_count(acts) == total
            &&& ok + failed == total
            &&& r == outcome(ok as usize, failed as usize)
        }),
{
    let s0 = batch_start(total, assume_yes);
    lemma_batch_run_prefix(s0, evs, j + 1);
    lemma_batch_run_prefix(s0, evs, j);
    lemma_batch_run(total, assume_yes, evs.take(j));
    lemma_batch_run(total, assume_yes, evs.take(j + 1));
    assert(evs.take(j + 1).drop_last() =~= evs.take(j));
    assert(batch_run(s0, evs.take(j + 1)).1.last() == batch_run(s0, evs).1[j]);
}

} // verus!
