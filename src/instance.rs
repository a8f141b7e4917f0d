//! One loaded provider and its private call queue. Calls are taken off the
//! queue one at a time: a provider never runs two calls at once.
use crate::abi::{exports_complete, missing_exports, CapabilityCall, ExtensionError, ProviderDescriptor};
use vstd::prelude::*;

verus! {

/// Where a runtime instance stands in its life.
#[derive(Clone, Copy, Debug, PartialEq, Eq, Structural)]
pub enum InstanceState {
    /// Idle; the next queued call may start.
    Ready,
    /// Running one call; nothing else starts until it finishes.
    Executing,
    /// Unusable; the instance is dropped from the registry.
    Failed,
}

/// A call waiting for, or taken by, a provider's worker. `id` names the
/// caller's reply channel.
pub struct Job {
    pub id: u64,
    pub call: CapabilityCall,
}

/// How a guest call ended.
pub enum CallOutcome {
    /// The guest returned its encoded result.
    Returned(Vec<u8>),
    /// The guest does not implement the capability.
    Unsupported,
    /// The guest reported an error of its own.
    Errored,
    /// The guest trapped; its memory is still usable.
    Trapped,
    /// The guest trapped and left its memory unusable.
    Corrupted,
}

/// What a runtime instance is, to its contracts.
pub struct InstanceView {
    pub id: i64,
    pub state: InstanceState,
    pub queue: Seq<u64>,
    pub current: Option<u64>,
}

pub open spec fn job_ids(q: Seq<Job>) -> Seq<u64> {
    q.map_values(|j: Job| j.id)
}

/// A fresh instance: ready, nothing queued, nothing running.
pub open spec fn fresh_instance(id: i64) -> InstanceView {
    InstanceView { id, state: InstanceState::Ready, queue: Seq::empty(), current: None }
}

/// A call joins the back of the queue.
pub open spec fn enqueue_step(v: InstanceView, job: u64) -> InstanceView {
    InstanceView { queue: v.queue.push(job), ..v }
}

/// The front call starts when the instance is ready; otherwise nothing happens.
pub open spec fn begin_step(v: InstanceView) -> (InstanceView, Option<u64>) {
    if v.state == InstanceState::Ready && v.queue.len() > 0 {
        (
            InstanceView {
                state: InstanceState::Executing,
                queue: v.queue.drop_first(),
                current: Some(v.queue[0]),
                ..v
            },
            Some(v.queue[0]),
        )
    } else {
        (v, None)
    }
}

/// The running call ends: the instance is ready again, unless its memory was lost.
pub open spec fn finish_step(v: InstanceView, corrupted: bool) -> InstanceView {
    InstanceView {
        state: if corrupted {
            InstanceState::Failed
        } else {
            InstanceState::Ready
        },
        current: None,
        ..v
    }
}

/// What the caller of a finished call receives.
pub open spec fn outcome_result(o: CallOutcome) -> Result<Seq<u8>, ExtensionError> {
    match o {
        CallOutcome::Returned(b) => Ok(b@),
        CallOutcome::Unsupported => Err(ExtensionError::Unsupported),
        CallOutcome::Errored => Err(ExtensionError::ProviderError),
        CallOutcome::Trapped => Err(ExtensionError::ExtensionFault),
        CallOutcome::Corrupted => Err(ExtensionError::ExtensionFault),
    }
}

pub open spec fn result_view(r: Result<Vec<u8>, ExtensionError>) -> Result<Seq<u8>, ExtensionError> {
    match r {
        Ok(b) => Ok(b@),
        Err(e) => Err(e),
    }
}

/// One loaded provider with its private queue.
pub struct RuntimeInstance {
    descriptor: ProviderDescriptor,
    state: InstanceState,
    queue: Vec<Job>,
    current: Option<u64>,
}

impl View for RuntimeInstance {
    type V = InstanceView;

    closed spec fn view(&self) -> InstanceView {
        InstanceView {
            id: self.descriptor.id,
            state: self.state,
            queue: job_ids(self.queue@),
            current: self.current,
        }
    }
}

impl RuntimeInstance {
    /// The descriptor this instance was loaded with.
    pub closed spec fn spec_descriptor(&self) -> ProviderDescriptor {
        self.descriptor
    }

    /// Whether the instance is executing exactly when a call is running.
    pub open spec fn wf(&self) -> bool {
        &&& self@.id == self.spec_descriptor().id
        &&& (self@.state == InstanceState::Executing <==> self@.current is Some)
    }

    /// Loads a plugin that reported `descriptor` and exports `exports`; fails
    /// with `LoadFailure` when part of the capability set is missing.
    pub fn load(descriptor: ProviderDescriptor, exports: &Vec<String>) -> (r: Result<
        RuntimeInstance,
        ExtensionError,
    >)
        ensures
            exports_complete(exports@) ==> (r matches Ok(i) && i@ == fresh_instance(descriptor.id)
                && i.spec_descriptor() == descriptor && i.wf()),
            !exports_complete(exports@) ==> r == Err::<RuntimeInstance, _>(
                ExtensionError::LoadFailure,
            ),
    {
        let missing = missing_exports(exports);
        if missing.len() > 0 {
            return Err(ExtensionError::LoadFailure);
        }
        let r = RuntimeInstance {
            descriptor,
            state: InstanceState::Ready,
            queue: Vec::new(),
            current: None,
        };
        assert(job_ids(r.queue@) =~= Seq::<u64>::empty());
        Ok(r)
    }

    pub fn descriptor(&self) -> (r: &ProviderDescriptor)
        ensures
            *r == self.spec_descriptor(),
    {
        &self.descriptor
    }

    pub fn id(&self) -> (r: i64)
        requires
            self.wf(),
        ensures
            r == self@.id,
    {
        self.descriptor.id
    }

    pub fn state(&self) -> (r: InstanceState)
        ensures
            r == self@.state,
    {
        self.state
    }

    /// The ids of the queued calls, front first.
    pub fn queued_ids(&self) -> (r: Vec<u64>)
        ensures
            r@ == self@.queue,
    {
        let mut r: Vec<u64> = Vec::new();
        let mut i: usize = 0;
        while i < self.queue.len()
            invariant
                i <= self.queue@.len(),
                r@ == job_ids(self.queue@).take(i as int),
            decreases self.queue@.len() - i,
        {
            r.push(self.queue[i].id);
            i = i + 1;
            assert(r@ =~= job_ids(self.queue@).take(i as int));
        }
        assert(job_ids(self.queue@).take(i as int) =~= job_ids(self.queue@));
        r
    }

    /// Puts `job` at the back of the queue.
    pub fn enqueue(&mut self, job: Job)
        requires
            old(self).wf(),
        ensures
            final(self)@ == enqueue_step(old(self)@, job.id),
            final(self).spec_descriptor() == old(self).spec_descriptor(),
            final(self).wf(),
    {
        let ghost id = job.id;
        self.queue.push(job);
        assert(job_ids(self.queue@) =~= job_ids(old(self).queue@).push(id));
    }

    /// Starts the front call if the instance is ready; returns it.
    pub fn begin(&mut self) -> (r: Option<Job>)
        requires
            old(self).wf(),
        ensures
            final(self)@ == begin_step(old(self)@).0,
            begin_step(old(self)@).1 == match r {
                Some(j) => Some(j.id),
                None => None,
            },
            final(self).spec_descriptor() == old(self).spec_descriptor(),
            final(self).wf(),
    {
        if self.state == InstanceState::Ready && self.queue.len() > 0 {
            let job = self.queue.remove(0);
            self.state = InstanceState::Executing;
            self.current = Some(job.id);
            assert(job_ids(self.queue@) =~= job_ids(old(self).queue@).drop_first());
            Some(job)
        } else {
            None
        }
    }

    /// Ends the running call with `outcome` and gives the caller's result.
    /// Whether anyone still waits for that result does not matter here.
    pub fn finish(&mut self, outcome: CallOutcome) -> (r: Result<Vec<u8>, ExtensionError>)
        requires
            old(self).wf(),
            old(self)@.state == InstanceState::Executing,
        ensures
            final(self)@ == finish_step(old(self)@, outcome is Corrupted),
            result_view(r) == outcome_result(outcome),
            final(self).spec_descriptor() == old(self).spec_descriptor(),
            final(self)@.state != InstanceState::Executing,
            final(self)@.current is None,
            final(self).wf(),
    {
        self.current = None;
        match outcome {
            CallOutcome::Returned(b) => {
                self.state = InstanceState::Ready;
                Ok(b)
            },
            CallOutcome::Unsupported => {
                self.state = InstanceState::Ready;
                Err(ExtensionError::Unsupported)
            },
            CallOutcome::Errored => {
                self.state = InstanceState::Ready;
                Err(ExtensionError::ProviderError)
            },
            CallOutcome::Trapped => {
                self.state = InstanceState::Ready;
                Err(ExtensionError::ExtensionFault)
            },
            CallOutcome::Corrupted => {
                self.state = InstanceState::Failed;
                Err(ExtensionError::ExtensionFault)
            },
        }
    }
}

/// While a provider runs a call, no other call of it starts: a second start
/// leaves the instance as it is and hands out nothing.
pub proof fn lemma_no_reentry(v: InstanceView)
    requires
        v.state == InstanceState::Executing,
    ensures
        begin_step(v) == (v, None::<u64>),
        begin_step(enqueue_step(v, 0)).1 is None,
{
}

/// Of two calls queued on an idle provider, the first starts and the second
/// waits until the first has finished, then starts.
pub proof fn lemma_calls_serialized(v: InstanceView, a: u64, b: u64, corrupted: bool)
    requires
        v.state == InstanceState::Ready,
        v.queue.len() == 0,
    ensures
        ({
            let q = enqueue_step(enqueue_step(v, a), b);
            let (s1, first) = begin_step(q);
            let (s2, second) = begin_step(s1);
            let s3 = finish_step(s2, corrupted);
            let (s4, third) = begin_step(s3);
            &&& first == Some(a)
            &&& second is None
            &&& s2 == s1
            &&& !corrupted ==> third == Some(b) && s4.current == Some(b)
        }),
{
    let q = enqueue_step(enqueue_step(v, a), b);
    assert(q.queue =~= seq![a, b]);
    assert(q.queue.drop_first() =~= seq![b]);
}

/// A call that ends in a recoverable trap, or in any other way that keeps
/// the guest's memory, leaves the provider ready: the next call starts.
/// This holds whatever became of the caller that was waiting (a timeout only
/// drops the reply).
pub proof fn lemma_recovers_after_call(v: InstanceView, o: CallOutcome, next: u64)
    requires
        v.state == InstanceState::Executing,
        !(o is Corrupted),
    ensures
        finish_step(v, o is Corrupted).state == InstanceState::Ready,
        o is Trapped ==> outcome_result(o) == Err::<Seq<u8>, ExtensionError>(
            ExtensionError::ExtensionFault,
        ),
        v.queue.len() == 0 ==> begin_step(enqueue_step(finish_step(v, o is Corrupted), next)).1
            == Some(next),
        begin_step(enqueue_step(finish_step(v, o is Corrupted), next)).1 is Some,
{
    let w = enqueue_step(finish_step(v, o is Corrupted), next);
    assert(w.queue.len() > 0);
    if v.queue.len() == 0 {
        assert(w.queue =~= seq![next]);
    }
}

} // verus!
