//! The one interface the application uses: native providers, linked into
//! the process, are looked up first; every other id goes to the registry of
//! sandboxed providers.
use crate::abi::{ExtensionError, ProviderDescriptor};
use crate::instance::{
    begin_step, enqueue_step, finish_step, outcome_result, result_view, CallOutcome, InstanceState,
    Job,
};
use crate::vm::{index_of, loaded_descriptors, lemma_load_origin, load_all, registered, PluginCandidate, Registry};
use vstd::prelude::*;

verus! {

pub open spec fn descriptor_ids(d: Seq<ProviderDescriptor>) -> Seq<i64> {
    d.map_values(|p: ProviderDescriptor| p.id)
}

/// Where the bus sends a call.
#[derive(Clone, Copy, Debug, PartialEq, Eq, Structural)]
pub enum Route {
    /// To the native provider in the process.
    Native,
    /// To the registry of sandboxed providers.
    Sandboxed,
}

/// What became of a call submitted to the bus.
pub enum Submitted {
    /// The id is a native provider's: the caller runs the job in process.
    Native(Job),
    /// The job waits in the sandboxed provider's queue.
    Queued,
    /// No provider has this id; the caller named by the first field gets the error at once.
    Rejected(u64, ExtensionError),
}

/// Native providers and the registry of sandboxed ones, under one id space.
pub struct ExtensionBus {
    natives: Vec<ProviderDescriptor>,
    vm: Registry,
}

impl ExtensionBus {
    /// The descriptors of the native providers, in order of insertion.
    pub closed spec fn natives(&self) -> Seq<ProviderDescriptor> {
        self.natives@
    }

    /// The registry of sandboxed providers.
    pub closed spec fn vm(&self) -> Registry {
        self.vm
    }

    /// Each id names one provider, native or sandboxed.
    pub open spec fn wf(&self) -> bool {
        &&& self.vm().wf()
        &&& forall|i: int, j: int|
            0 <= i < self.natives().len() && 0 <= j < self.natives().len() && i != j
                ==> #[trigger] self.natives()[i].id != #[trigger] self.natives()[j].id
        &&& forall|i: int|
            0 <= i < self.natives().len() ==> !registered(
                self.vm()@,
                #[trigger] self.natives()[i].id,
            )
    }

    /// A bus over `vm`, with no native provider yet.
    pub fn new(vm: Registry) -> (r: ExtensionBus)
        requires
            vm.wf(),
        ensures
            r.wf(),
            r.natives().len() == 0,
            r.vm() == vm,
    {
        ExtensionBus { natives: Vec::new(), vm }
    }

    fn native_position(&self, id: i64) -> (r: Option<usize>)
        ensures
            match r {
                Some(i) => i < self.natives().len() && self.natives()[i as int].id == id,
                None => !descriptor_ids(self.natives()).contains(id),
            },
    {
        let mut i: usize = 0;
        while i < self.natives.len()
            invariant
                i <= self.natives@.len(),
                forall|j: int| 0 <= j < i ==> self.natives@[j].id != id,
            decreases self.natives@.len() - i,
        {
            if self.natives[i].id == id {
                return Some(i);
            }
            i = i + 1;
        }
        proof {
            if descriptor_ids(self.natives()).contains(id) {
                let k = choose|k: int|
                    0 <= k < descriptor_ids(self.natives()).len() && descriptor_ids(
                        self.natives(),
                    )[k] == id;
                assert(self.natives@[k].id == id);
            }
        }
        None
    }

    fn native_ids(&self) -> (r: Vec<i64>)
        ensures
            r@ == descriptor_ids(self.natives()),
    {
        let mut r: Vec<i64> = Vec::new();
        let mut i: usize = 0;
        while i < self.natives.len()
            invariant
                i <= self.natives@.len(),
                r@ == descriptor_ids(self.natives@).take(i as int),
            decreases self.natives@.len() - i,
        {
            r.push(self.natives[i].id);
            i = i + 1;
            assert(r@ =~= descriptor_ids(self.natives@).take(i as int));
        }
        assert(descriptor_ids(self.natives@).take(i as int) =~= descriptor_ids(self.natives@));
        r
    }

    /// Registers a native provider. Its id must be free: an id already used
    /// by a sandboxed or a native provider is refused with `IdInUse`, and
    /// nothing changes.
    pub fn insert(&mut self, descriptor: ProviderDescriptor) -> (r: Result<(), ExtensionError>)
        requires
            old(self).wf(),
        ensures
            final(self).wf(),
            final(self).vm() == old(self).vm(),
            registered(old(self).vm()@, descriptor.id) || descriptor_ids(
                old(self).natives(),
            ).contains(descriptor.id) ==> r == Err::<(), _>(ExtensionError::IdInUse)
                && final(self).natives() == old(self).natives(),
            !(registered(old(self).vm()@, descriptor.id) || descriptor_ids(
                old(self).natives(),
            ).contains(descriptor.id)) ==> r is Ok && final(self).natives() == old(self).natives().push(descriptor),
    {
        if self.vm.contains(descriptor.id) {
            return Err(ExtensionError::IdInUse);
        }
        match self.native_position(descriptor.id) {
            Some(i) => {
                proof {
                    assert(descriptor_ids(self.natives())[i as int] == descriptor.id);
                }
                return Err(ExtensionError::IdInUse);
            },
            None => {},
        }
        let ghost id = descriptor.id;
        self.natives.push(descriptor);
        proof {
            assert forall|i: int| 0 <= i < old(self).natives().len() implies #[trigger] old(self).natives()[i].id != id by {
                assert(descriptor_ids(old(self).natives())[i] == old(self).natives()[i].id);
            }
            assert(self.natives()[self.natives().len() - 1].id == id);
        }
        Ok(())
    }

    /// Where a call for provider `id` goes: native providers first.
    pub fn route(&self, id: i64) -> (r: Route)
        ensures
            r == Route::Native <==> descriptor_ids(self.natives()).contains(id),
    {
        match self.native_position(id) {
            Some(i) => {
                proof {
                    assert(descriptor_ids(self.natives())[i as int] == id);
                }
                Route::Native
            },
            None => Route::Sandboxed,
        }
    }

    /// Every provider: the native ones, then the sandboxed ones.
    pub fn list_providers(&self) -> (r: Vec<ProviderDescriptor>)
        requires
            self.wf(),
        ensures
            r@ == self.natives() + self.vm().descriptors(),
    {
        let mut r: Vec<ProviderDescriptor> = Vec::new();
        let mut i: usize = 0;
        while i < self.natives.len()
            invariant
                i <= self.natives@.len(),
                r@ == self.natives@.take(i as int),
            decreases self.natives@.len() - i,
        {
            r.push(self.natives[i].duplicate());
            i = i + 1;
            assert(r@ =~= self.natives@.take(i as int));
        }
        let mut rest = self.vm.list_providers();
        r.append(&mut rest);
        assert(self.natives@.take(self.natives@.len() as int) =~= self.natives@);
        r
    }

    /// Loads sandboxed providers; a candidate whose id a native provider
    /// holds is skipped like one whose id is already loaded.
    pub fn load(&mut self, candidates: Vec<PluginCandidate>)
        requires
            old(self).wf(),
        ensures
            final(self).wf(),
            final(self).natives() == old(self).natives(),
            final(self).vm()@ == load_all(
                old(self).vm()@,
                descriptor_ids(old(self).natives()),
                candidates@,
            ),
            final(self).vm().descriptors() == old(self).vm().descriptors() + loaded_descriptors(
                old(self).vm()@,
                descriptor_ids(old(self).natives()),
                candidates@,
            ),
    {
        let reserved = self.native_ids();
        let ghost cs = candidates@;
        self.vm.load(candidates, &reserved);
        proof {
            assert forall|i: int| 0 <= i < self.natives().len() implies !registered(
                self.vm()@,
                #[trigger] self.natives()[i].id,
            ) by {
                let id = self.natives()[i].id;
                assert(descriptor_ids(self.natives())[i] == id);
                if registered(self.vm()@, id) {
                    lemma_load_origin(old(self).vm()@, reserved@, cs, id);
                }
            }
        }
    }

    /// Submits a call for provider `id`: a native provider gets it back to
    /// run in process, a sandboxed one has it queued, and an unknown id is
    /// answered with `NotFound` without reaching any queue.
    pub fn submit(&mut self, id: i64, job: Job) -> (r: Submitted)
        requires
            old(self).wf(),
        ensures
            final(self).wf(),
            final(self).natives() == old(self).natives(),
            descriptor_ids(old(self).natives()).contains(id) ==> (r matches Submitted::Native(j)
                && j == job) && final(self).vm() == old(self).vm(),
            !descriptor_ids(old(self).natives()).contains(id) && registered(old(self).vm()@, id)
                ==> r is Queued && final(self).vm()@ == old(self).vm()@.update(
                index_of(old(self).vm()@, id),
                enqueue_step(old(self).vm()@[index_of(old(self).vm()@, id)], job.id),
            ),
            !descriptor_ids(old(self).natives()).contains(id) && !registered(old(self).vm()@, id)
                ==> r == Submitted::Rejected(job.id, ExtensionError::NotFound) && final(self).vm()@ == old(self).vm()@,
    {
        match self.native_position(id) {
            Some(i) => {
                proof {
                    assert(descriptor_ids(self.natives())[i as int] == id);
                }
                return Submitted::Native(job);
            },
            None => {},
        }
        let reply = job.id;
        match self.vm.invoke(id, job) {
            Ok(()) => Submitted::Queued,
            Err(e) => Submitted::Rejected(reply, e),
        }
    }

    /// Hands the next queued call of sandboxed provider `id` to its worker;
    /// see `Registry::begin`.
    pub fn begin(&mut self, id: i64) -> (r: Option<Job>)
        requires
            old(self).wf(),
        ensures
            final(self).wf(),
            final(self).natives() == old(self).natives(),
            !registered(old(self).vm()@, id) ==> r is None && final(self).vm()@ == old(self).vm()@,
            registered(old(self).vm()@, id) ==> ({
                let i = index_of(old(self).vm()@, id);
                &&& final(self).vm()@ == old(self).vm()@.update(
                    i,
                    begin_step(old(self).vm()@[i]).0,
                )
                &&& begin_step(old(self).vm()@[i]).1 == match r {
                    Some(j) => Some(j.id),
                    None => None,
                }
            }),
    {
        let r = self.vm.begin(id);
        proof {
            assert(self.natives() == old(self).natives());
            assert forall|i: int| 0 <= i < self.natives().len() implies !registered(
                self.vm()@,
                #[trigger] self.natives()[i].id,
            ) by {
                let nid = self.natives()[i].id;
                assert(old(self).natives()[i] == self.natives()[i]);
                if registered(self.vm()@, nid) {
                    let k = choose|k: int| 0 <= k < self.vm()@.len() && self.vm()@[k].id == nid;
                    assert(self.vm()@[k].id == old(self).vm()@[k].id);
                }
            }
        }
        r
    }

    /// Ends the call that sandboxed provider `id` is running; see
    /// `Registry::finish`.
    pub fn finish(&mut self, id: i64, outcome: CallOutcome) -> (r: (
        Result<Vec<u8>, ExtensionError>,
        Vec<u64>,
    ))
        requires
            old(self).wf(),
        ensures
            final(self).wf(),
            final(self).natives() == old(self).natives(),
            !(registered(old(self).vm()@, id) && old(self).vm()@[index_of(
                old(self).vm()@,
                id,
            )].state == InstanceState::Executing) ==> r.0 == Err::<Vec<u8>, _>(
                ExtensionError::NotFound,
            ) && r.1@.len() == 0 && final(self).vm()@ == old(self).vm()@,
            registered(old(self).vm()@, id) && old(self).vm()@[index_of(
                old(self).vm()@,
                id,
            )].state == InstanceState::Executing ==> ({
                let i = index_of(old(self).vm()@, id);
                &&& result_view(r.0) == outcome_result(outcome)
                &&& outcome is Corrupted ==> final(self).vm()@ == old(self).vm()@.remove(i)
                    && !registered(final(self).vm()@, id) && r.1@ == old(self).vm()@[i].queue
                &&& !(outcome is Corrupted) ==> final(self).vm()@ == old(self).vm()@.update(
                    i,
                    finish_step(old(self).vm()@[i], false),
                ) && r.1@.len() == 0
            }),
    {
        let r = self.vm.finish(id, outcome);
        proof {
            assert(self.natives() == old(self).natives());
            assert forall|i: int| 0 <= i < self.natives().len() implies !registered(
                self.vm()@,
                #[trigger] self.natives()[i].id,
            ) by {
                let nid = self.natives()[i].id;
                assert(old(self).natives()[i] == self.natives()[i]);
                assert(!registered(old(self).vm()@, nid));
                if registered(self.vm()@, nid) {
                    let k = choose|k: int| 0 <= k < self.vm()@.len() && self.vm()@[k].id == nid;
                    let j = index_of(old(self).vm()@, id);
                    if registered(old(self).vm()@, id) && old(self).vm()@[j].state
                        == InstanceState::Executing {
                        if outcome is Corrupted {
                            let k2 = if k < j { k } else { k + 1 };
                            assert(self.vm()@[k] == old(self).vm()@[k2]);
                        } else {
                            assert(self.vm()@[k].id == old(self).vm()@[k].id);
                        }
                    }
                }
            }
        }
        r
    }
}

/// Whether the operator's selector picks a provider: no selector picks
/// every provider, a selector picks those with exactly that name.
pub open spec fn selected(selector: Option<Seq<char>>, d: ProviderDescriptor) -> bool {
    match selector {
        None => true,
        Some(name) => d.name@ == name,
    }
}

pub open spec fn selector_view(selector: Option<&str>) -> Option<Seq<char>> {
    match selector {
        Some(s) => Some(s@),
        None => None,
    }
}

pub open spec fn selector_pred(sel: Option<Seq<char>>) -> spec_fn(ProviderDescriptor) -> bool {
    |d: ProviderDescriptor| selected(sel, d)
}

/// The providers the operator's selector picks, in order.
pub fn select_providers(list: &Vec<ProviderDescriptor>, selector: Option<&str>) -> (r: Vec<
    ProviderDescriptor,
>)
    ensures
        r@ == list@.filter(selector_pred(selector_view(selector))),
{
    let ghost sel = selector_view(selector);
    let ghost f = selector_pred(sel);
    let wanted: Option<String> = match selector {
        Some(s) => Some(s.to_owned()),
        None => None,
    };
    let mut r: Vec<ProviderDescriptor> = Vec::new();
    let mut i: usize = 0;
    while i < list.len()
        invariant
            i <= list@.len(),
            f == selector_pred(sel),
            match wanted {
                Some(w) => sel == Some(w@),
                None => sel is None,
            },
            r@ == list@.take(i as int).filter(f),
        decreases list@.len() - i,
    {
        let pick = match &wanted {
            None => true,
            Some(w) => list[i].name == *w,
        };
        if pick {
            r.push(list[i].duplicate());
        }
        proof {
            assert(list@.take(i + 1) =~= list@.take(i as int).push(list@[i as int]));
            list@.take(i as int).lemma_filter_push(list@[i as int], f);
        }
        i = i + 1;
    }
    assert(list@.take(i as int) =~= list@);
    r
}

} // verus!
