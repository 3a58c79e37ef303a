use super::policy::RunnerPolicy;
use crate::base::ExitReason;
use vstd::prelude::*;

verus! {

/// What a sequence asks for next.
#[derive(Clone, Copy, PartialEq, Eq, Debug, Structural)]
pub enum SerialStep {
    /// Run the runner with this index.
    Run(usize),
    /// It is over, and this is how it ended.
    Done(ExitReason),
    /// It is over, because a runner could not be run at all. That runner's
    /// error is the sequence's.
    Failed,
}

/// A sequence: how many runners it has, what a failure does, which runner is
/// running, and the first failure there has been.
#[verifier::ext_equal]
pub struct SerialView {
    pub len: nat,
    pub policy: RunnerPolicy,
    pub running: Option<usize>,
    pub failure: Option<ExitReason>,
}

impl SerialView {
    /// What is asked for with the runners before `index` done: the next one,
    /// or the end — a success only if every runner was one, and otherwise the
    /// first failure.
    pub open spec fn at(self, index: int) -> SerialStep {
        if index < self.len {
            SerialStep::Run(index as usize)
        } else {
            SerialStep::Done(
                match self.failure {
                    Some(reason) => reason,
                    None => ExitReason::Success,
                },
            )
        }
    }

    /// The sequence with `step` about to be done.
    pub open spec fn doing(self, step: SerialStep) -> SerialView {
        SerialView {
            running: match step {
                SerialStep::Run(index) => Some(index),
                _ => None,
            },
            ..self
        }
    }

    /// The sequence once the running runner has come to `result`, keeping the
    /// first failure there was.
    pub open spec fn noted(self, result: Option<ExitReason>) -> SerialView {
        SerialView {
            failure: match result {
                Some(reason) => if reason is Success || self.failure is Some {
                    self.failure
                } else {
                    Some(reason)
                },
                None => self.failure,
            },
            ..self
        }
    }

    /// What is asked for once the running runner has come to `result`, `None`
    /// being one that could not be run at all.
    pub open spec fn next(self, result: Option<ExitReason>) -> SerialStep {
        match result {
            None => SerialStep::Failed,
            Some(reason) => if !(reason is Success) && self.policy == RunnerPolicy::Abort {
                SerialStep::Done(reason)
            } else {
                self.noted(result).at(self.running->0 + 1)
            },
        }
    }

    /// What holds of every sequence: the one running is one there is, and
    /// under a policy that aborts nothing runs after a failure.
    pub open spec fn wf(self) -> bool {
        &&& self.len <= usize::MAX
        &&& (self.running matches Some(index) ==> index < self.len)
        &&& (self.running is Some && self.policy == RunnerPolicy::Abort ==> self.failure is None)
        &&& (self.failure matches Some(reason) ==> !(reason is Success))
    }
}

/// Several runners, one after the other, supervised as one thing.
///
/// Up to the [`RunnerPolicy`] what a failure does. Under the default the chain
/// is an `&&`: a runner that does not succeed ends the sequence and the rest
/// is left unrun. Under [`Continue`](RunnerPolicy::Continue) it is a `;`, and
/// every runner gets its turn.
///
/// Either way the sequence is only a success if every runner was, and the
/// reason reported is the *first* failure, not the last: a later one is
/// usually a consequence of it, and the first is the one worth showing.
///
/// The index of the runner in flight is kept, so that an abort that drops a
/// run half way still knows which one to shut down — and nothing after it is
/// started.
pub struct RunnerSerial<R> {
    /// The runners, in the order they were added.
    runners: Vec<R>,
    /// What to do when one of them does not succeed.
    policy: RunnerPolicy,
    /// Which one is running, by index.
    ///
    /// `None` before the first and after the last, and after any runner that
    /// ended the sequence — which is exactly the times there is nothing for
    /// [`shutdown`](RunnerSerial::shutdown) to reach.
    running: Option<usize>,
    /// The first failure of this run.
    failure: Option<ExitReason>,
}

impl<R> RunnerSerial<R> {
    /// What the sequence is doing.
    pub closed spec fn view(&self) -> SerialView {
        SerialView {
            len: self.runners@.len(),
            policy: self.policy,
            running: self.running,
            failure: self.failure,
        }
    }

    /// The runners, in order.
    pub closed spec fn runners(&self) -> Seq<R> {
        self.runners@
    }

    /// A sequence with nothing in it, which succeeds immediately.
    ///
    /// Stops at the first failure; see
    /// [`with_policy`](RunnerSerial::with_policy) for the alternative.
    pub fn new() -> (serial: Self)
        ensures
            serial@.wf(),
            serial.runners() == Seq::<R>::empty(),
            serial@ == (SerialView {
                len: 0,
                policy: RunnerPolicy::Abort,
                running: None,
                failure: None,
            }),
    {
        Self::with_policy(RunnerPolicy::default())
    }

    /// The same, deciding for itself what a failure means.
    pub fn with_policy(policy: RunnerPolicy) -> (serial: Self)
        ensures
            serial@.wf(),
            serial.runners() == Seq::<R>::empty(),
            serial@ == (SerialView { len: 0, policy, running: None, failure: None }),
    {
        Self { runners: Vec::new(), policy, running: None, failure: None }
    }

    /// Put a runner at the end of the sequence.
    pub fn add(&mut self, runner: R)
        requires
            old(self)@.wf(),
        ensures
            final(self)@.wf(),
            final(self).runners() == old(self).runners().push(runner),
            final(self)@ == (SerialView { len: old(self)@.len + 1, ..old(self)@ }),
    {
        self.runners.push(runner);
        assert(self.runners.len() == self.runners@.len());
    }

    /// The runner with this index.
    pub fn runner(&mut self, index: usize) -> (runner: &mut R)
        requires
            index < old(self)@.len,
        ensures
            *runner == old(self).runners()[index as int],
            final(self).runners() == old(self).runners().update(index as int, *final(runner)),
            final(self)@ == old(self)@,
    {
        &mut self.runners[index]
    }

    /// Run from the first one.
    pub fn run(&mut self) -> (step: SerialStep)
        requires
            old(self)@.wf(),
        ensures
            final(self)@.wf(),
            final(self).runners() == old(self).runners(),
            ({
                let fresh = SerialView { failure: None, ..old(self)@ };
                &&& step == fresh.at(0)
                &&& final(self)@ == fresh.doing(step)
            }),
    {
        self.failure = None;
        self.advance(0)
    }

    fn advance(&mut self, index: usize) -> (step: SerialStep)
        requires
            old(self)@.policy == RunnerPolicy::Abort ==> old(self)@.failure is None,
            old(self)@.failure matches Some(reason) ==> !(reason is Success),
        ensures
            final(self)@.wf(),
            final(self).runners() == old(self).runners(),
            step == old(self)@.at(index as int),
            final(self)@ == old(self)@.doing(step),
    {
        assert(self.runners.len() == self.runners@.len());
        if index < self.runners.len() {
            self.running = Some(index);
            return SerialStep::Run(index);
        }
        self.running = None;
        match self.failure {
            Some(reason) => SerialStep::Done(reason),
            None => SerialStep::Done(ExitReason::Success),
        }
    }

    /// Take what the running runner came to, and say what to do next.
    ///
    /// A runner that could not be started at all — `None`, rather than one
    /// that ran and failed — ends the sequence whatever the policy says. The
    /// policy weighs exit reasons, and that is not one.
    pub fn ran(&mut self, result: Option<ExitReason>) -> (step: SerialStep)
        requires
            old(self)@.wf(),
            old(self)@.running is Some,
        ensures
            final(self)@.wf(),
            final(self).runners() == old(self).runners(),
            step == old(self)@.next(result),
            final(self)@ == old(self)@.noted(result).doing(step),
    {
        assert(self.runners.len() == self.runners@.len());
        let index = match self.running {
            Some(index) => index,
            None => 0,
        };
        // This runner is done, so it is not the one an abort should reach.
        self.running = None;
        let reason = match result {
            Some(reason) => reason,
            None => return SerialStep::Failed,
        };
        if self.policy.is_abort(reason) {
            self.failure = Some(reason);
            return SerialStep::Done(reason);
        }
        if reason != ExitReason::Success && self.failure.is_none() {
            // Kept whether or not the sequence stops here, so that one that
            // goes on still comes back as the failure it was.
            self.failure = Some(reason);
        }
        self.advance(index + 1)
    }

    /// Which runner was in flight, to be shut down; the rest is abandoned.
    ///
    /// `None` — aborted before the first one started, or the sequence is empty
    /// — is to be reported as [`Killed`](ExitReason::Killed) and not as a
    /// success: a shutdown only ever happens because somebody asked for this
    /// to stop.
    pub fn shutdown(&mut self) -> (index: Option<usize>)
        requires
            old(self)@.wf(),
        ensures
            final(self)@.wf(),
            final(self).runners() == old(self).runners(),
            index == old(self)@.running,
            index matches Some(index) ==> index < old(self)@.len,
            final(self)@ == (SerialView { running: None, ..old(self)@ }),
    {
        let index = self.running;
        self.running = None;
        index
    }

    /// How a shutdown that had nothing to reach is reported.
    pub fn shutdown_reason(&self) -> (reason: ExitReason)
        ensures
            reason == ExitReason::Killed(None),
    {
        ExitReason::Killed(None)
    }
}

impl<R> Default for RunnerSerial<R> {
    fn default() -> (serial: Self)
        ensures
            serial@.wf(),
            serial.runners() == Seq::<R>::empty(),
            serial@ == (SerialView {
                len: 0,
                policy: RunnerPolicy::Abort,
                running: None,
                failure: None,
            }),
    {
        Self::new()
    }
}

/// How a sequence ends whose runners come to `results` — `None` being one that
/// could not be run — with `failure` the first failure before them.
pub open spec fn serial_outcome(
    policy: RunnerPolicy,
    results: Seq<Option<ExitReason>>,
    failure: Option<ExitReason>,
) -> SerialStep
    decreases results.len(),
{
    if results.len() == 0 {
        SerialStep::Done(
            match failure {
                Some(reason) => reason,
                None => ExitReason::Success,
            },
        )
    } else {
        match results[0] {
            None => SerialStep::Failed,
            Some(reason) => if reason is Success {
                serial_outcome(policy, results.skip(1), failure)
            } else if policy == RunnerPolicy::Abort {
                SerialStep::Done(reason)
            } else {
                serial_outcome(
                    policy,
                    results.skip(1),
                    if failure is Some {
                        failure
                    } else {
                        Some(reason)
                    },
                )
            },
        }
    }
}

/// How a sequence goes on to end, with its running runner and those after it
/// coming to `results`.
pub open spec fn serial_ends(serial: SerialView, results: Seq<Option<ExitReason>>) -> SerialStep
    decreases results.len(),
{
    if results.len() == 0 {
        SerialStep::Failed
    } else {
        let step = serial.next(results[0]);
        match step {
            SerialStep::Run(_) => serial_ends(
                serial.noted(results[0]).doing(step),
                results.skip(1),
            ),
            _ => step,
        }
    }
}

/// Stepping through a sequence ends it as its results say.
pub proof fn a_sequence_ends_as_its_results_say(
    serial: SerialView,
    results: Seq<Option<ExitReason>>,
)
    requires
        serial.wf(),
        serial.running is Some,
        results.len() == serial.len - serial.running->0,
    ensures
        serial_ends(serial, results) == serial_outcome(serial.policy, results, serial.failure),
    decreases results.len(),
{
    let step = serial.next(results[0]);
    let after = serial.noted(results[0]).doing(step);
    match step {
        SerialStep::Run(_) => {
            a_sequence_ends_as_its_results_say(after, results.skip(1));
            assert(serial_ends(serial, results) == serial_ends(after, results.skip(1)));
            assert(serial_outcome(serial.policy, results, serial.failure) == serial_outcome(
                serial.policy,
                results.skip(1),
                after.failure,
            ));
        },
        _ => {
            if results[0] is Some && (results[0]->0 is Success || serial.policy
                == RunnerPolicy::Continue) {
                assert(results.skip(1).len() == 0);
            }
        },
    }
}

/// A sequence is a success exactly when every runner was. Otherwise, unless
/// one could not be run at all, what is reported is the first failure.
pub proof fn a_sequence_succeeds_only_if_every_runner_does(
    policy: RunnerPolicy,
    results: Seq<Option<ExitReason>>,
)
    ensures
        serial_outcome(policy, results, None) == SerialStep::Done(ExitReason::Success) <==> (
        forall|i: int| 0 <= i < results.len() ==> results[i] == Some(ExitReason::Success)),
        forall|first: int|
            0 <= first < results.len() && results[first] is Some && results[first]
                != Some(ExitReason::Success) && (forall|i: int|
                0 <= i < first ==> results[i] == Some(ExitReason::Success)) && (policy
                == RunnerPolicy::Abort || (forall|i: int|
                0 <= i < results.len() ==> results[i] is Some)) ==> serial_outcome(
                policy,
                results,
                None,
            ) == SerialStep::Done((#[trigger] results[first])->0),
{
    lemma_outcome(policy, results, None);
    assert forall|first: int|
        0 <= first < results.len() && results[first] is Some && results[first]
            != Some(ExitReason::Success) && (forall|i: int|
            0 <= i < first ==> results[i] == Some(ExitReason::Success)) && (policy
            == RunnerPolicy::Abort || (forall|i: int|
            0 <= i < results.len() ==> results[i] is Some)) implies serial_outcome(
        policy,
        results,
        None,
    ) == SerialStep::Done((#[trigger] results[first])->0) by {
        lemma_first_failure(policy, results, first);
    }
}

proof fn lemma_outcome(
    policy: RunnerPolicy,
    results: Seq<Option<ExitReason>>,
    failure: Option<ExitReason>,
)
    requires
        failure matches Some(reason) ==> !(reason is Success),
    ensures
        serial_outcome(policy, results, failure) == SerialStep::Done(ExitReason::Success) <==> (
        failure is None && forall|i: int|
            0 <= i < results.len() ==> results[i] == Some(ExitReason::Success)),
        failure is Some && policy == RunnerPolicy::Continue && (forall|i: int|
            0 <= i < results.len() ==> results[i] is Some) ==> serial_outcome(
            policy,
            results,
            failure,
        ) == SerialStep::Done(failure->0),
    decreases results.len(),
{
    if results.len() > 0 {
        let rest = results.skip(1);
        if let Some(reason) = results[0] {
            if reason is Success {
                lemma_outcome(policy, rest, failure);
            } else if policy == RunnerPolicy::Continue {
                lemma_outcome(
                    policy,
                    rest,
                    if failure is Some {
                        failure
                    } else {
                        Some(reason)
                    },
                );
            }
        }
        assert(forall|i: int| 0 <= i < rest.len() ==> rest[i] == results[i + 1]);
        if forall|i: int| 0 <= i < rest.len() ==> rest[i] == Some(ExitReason::Success) {
            assert forall|i: int| 1 <= i < results.len() implies results[i] == Some(
                ExitReason::Success,
            ) by {
                assert(rest[i - 1] == results[i]);
            }
        }
    }
}

proof fn lemma_first_failure(policy: RunnerPolicy, results: Seq<Option<ExitReason>>, first: int)
    requires
        0 <= first < results.len(),
        results[first] is Some,
        results[first] != Some(ExitReason::Success),
        forall|i: int| 0 <= i < first ==> results[i] == Some(ExitReason::Success),
        policy == RunnerPolicy::Abort || forall|i: int|
            0 <= i < results.len() ==> results[i] is Some,
    ensures
        serial_outcome(policy, results, None) == SerialStep::Done(results[first]->0),
    decreases results.len(),
{
    let rest = results.skip(1);
    assert(forall|i: int| 0 <= i < rest.len() ==> rest[i] == results[i + 1]);
    if first == 0 {
        if policy == RunnerPolicy::Continue {
            lemma_outcome(policy, rest, results[0]);
        }
    } else {
        lemma_first_failure(policy, rest, first - 1);
    }
}

/// Runners run one after the other, each of them once and none skipped: the
/// first comes first, and each one that succeeds — or under a policy that
/// continues, each one that could be run — is followed by the one after it.
/// Under a policy that aborts nothing is run after a failure, and nothing ever
/// is after one that could not be run.
pub proof fn runners_run_one_after_the_other(
    serial: SerialView,
    result: Option<ExitReason>,
    index: usize,
)
    requires
        serial.wf(),
        serial.running == Some(index),
    ensures
        serial.len > 0 ==> serial.at(0) == SerialStep::Run(0usize),
        serial.next(result) matches SerialStep::Run(after) ==> after == index + 1 && after
            < serial.len && result is Some,
        index + 1 < serial.len && result == Some(ExitReason::Success) ==> serial.next(result)
            == SerialStep::Run((index + 1) as usize),
        index + 1 < serial.len && result is Some && serial.policy == RunnerPolicy::Continue
            ==> serial.next(result) == SerialStep::Run((index + 1) as usize),
        result is Some && result != Some(ExitReason::Success) && serial.policy
            == RunnerPolicy::Abort ==> serial.next(result) == SerialStep::Done(result->0),
        result is None ==> serial.next(result) == SerialStep::Failed,
        serial.failure is Some ==> serial.noted(result).failure == serial.failure,
        serial.failure is None && result is Some && result != Some(ExitReason::Success)
            ==> serial.noted(result).failure == result,
        serial.failure is None && (result is None || result == Some(ExitReason::Success))
            ==> serial.noted(result).failure is None,
{
}

} // verus!
