//! The provider registry and the rules of the dispatch loop: loading
//! plugins, routing calls to each provider's queue, handing calls to
//! workers, and unloading.
use crate::abi::{exports_complete, ExtensionError, ProviderDescriptor};
use crate::instance::{
    begin_step, enqueue_step, finish_step, fresh_instance, outcome_result, result_view,
    CallOutcome, InstanceState, InstanceView, Job, RuntimeInstance,
};
use vstd::prelude::*;
use vstd::string::*;
use vstd::utf8::*;

verus! {

/// A plugin binary that the engine instantiated, with what it reported.
pub struct LoadedPlugin {
    pub descriptor: ProviderDescriptor,
    pub exports: Vec<String>,
}

/// One plugin binary found while loading a directory; `loaded` is none when
/// the engine could not instantiate it.
pub struct PluginCandidate {
    pub file_name: String,
    pub loaded: Option<LoadedPlugin>,
}

/// Whether a candidate becomes a provider: it instantiated and exports the
/// whole capability set.
pub open spec fn candidate_valid(c: PluginCandidate) -> bool {
    c.loaded matches Some(p) && exports_complete(p.exports@)
}

pub open spec fn candidate_id(c: PluginCandidate) -> i64 {
    c.loaded->Some_0.descriptor.id
}

pub open spec fn registered(r: Seq<InstanceView>, id: i64) -> bool {
    exists|i: int| 0 <= i < r.len() && r[i].id == id
}

pub open spec fn index_of(r: Seq<InstanceView>, id: i64) -> int {
    choose|i: int| 0 <= i < r.len() && r[i].id == id
}

pub open spec fn ids_unique(r: Seq<InstanceView>) -> bool {
    forall|i: int, j: int|
        0 <= i < r.len() && 0 <= j < r.len() && i != j ==> #[trigger] r[i].id != #[trigger] r[j].id
}

/// One candidate of a load: registered when valid and its id is neither
/// loaded nor `reserved` (held by a provider outside the registry).
pub open spec fn load_step(r: Seq<InstanceView>, reserved: Seq<i64>, c: PluginCandidate) -> Seq<
    InstanceView,
> {
    if candidate_valid(c) && !registered(r, candidate_id(c)) && !reserved.contains(
        candidate_id(c),
    ) {
        r.push(fresh_instance(candidate_id(c)))
    } else {
        r
    }
}

/// The registry after loading `cs` in order.
pub open spec fn load_all(r: Seq<InstanceView>, reserved: Seq<i64>, cs: Seq<PluginCandidate>) -> Seq<
    InstanceView,
>
    decreases cs.len(),
{
    if cs.len() == 0 {
        r
    } else {
        load_step(load_all(r, reserved, cs.drop_last()), reserved, cs.last())
    }
}

/// The bytes of the file-name suffix that marks a plugin binary: `.wasm`.
pub open spec fn plugin_suffix() -> Seq<u8> {
    seq![46u8, 119u8, 97u8, 115u8, 109u8]
}

/// Whether a file name, given as its UTF-8 bytes, names a plugin binary:
/// something before the `.wasm` suffix.
pub open spec fn is_plugin_name(b: Seq<u8>) -> bool {
    b.len() > 5 && b.subrange(b.len() - 5, b.len() as int) == plugin_suffix()
}

/// Whether `name` is the file name of a plugin binary.
pub fn is_plugin_file(name: &str) -> (r: bool)
    ensures
        r == is_plugin_name(name.spec_bytes()),
{
    let b = name.as_bytes();
    let n = b.len();
    if n <= 5 {
        return false;
    }
    let r = b[n - 5] == 46u8 && b[n - 4] == 119u8 && b[n - 3] == 97u8 && b[n - 2] == 115u8 && b[n
        - 1] == 109u8;
    proof {
        let tail = b@.subrange(n - 5, n as int);
        if r {
            assert(tail =~= plugin_suffix());
        } else {
            if tail == plugin_suffix() {
                assert(tail[0] == b@[n - 5]);
                assert(tail[1] == b@[n - 4]);
                assert(tail[2] == b@[n - 3]);
                assert(tail[3] == b@[n - 2]);
                assert(tail[4] == b@[n - 1]);
            }
        }
    }
    r
}

/// The plugin binaries among the entries of a directory, in order.
pub fn plugin_files(names: &Vec<String>) -> (r: Vec<String>)
    ensures
        r@.map_values(|s: String| s@) == names@.map_values(|s: String| s@).filter(
            |s: Seq<char>| is_plugin_name(encode_utf8(s)),
        ),
{
    let ghost f = |s: Seq<char>| is_plugin_name(encode_utf8(s));
    let ghost vs = names@.map_values(|s: String| s@);
    let mut r: Vec<String> = Vec::new();
    let mut i: usize = 0;
    while i < names.len()
        invariant
            i <= names@.len(),
            vs == names@.map_values(|s: String| s@),
            f == (|s: Seq<char>| is_plugin_name(encode_utf8(s))),
            r@.map_values(|s: String| s@) == vs.take(i as int).filter(f),
        decreases names@.len() - i,
    {
        let ghost before = r@;
        if is_plugin_file(names[i].as_str()) {
            r.push(names[i].clone());
        }
        proof {
            assert(vs.take(i + 1) =~= vs.take(i as int).push(vs[i as int]));
            vs.take(i as int).lemma_filter_push(vs[i as int], f);
            assert(r@.map_values(|s: String| s@) =~= vs.take(i + 1).filter(f));
        }
        i = i + 1;
    }
    assert(vs.take(i as int) =~= vs);
    r
}

/// Whether `v` holds `id`.
pub fn contains_id(v: &Vec<i64>, id: i64) -> (r: bool)
    ensures
        r == v@.contains(id),
{
    let mut i: usize = 0;
    while i < v.len()
        invariant
            i <= v@.len(),
            forall|j: int| 0 <= j < i ==> v@[j] != id,
        decreases v@.len() - i,
    {
        if v[i] == id {
            assert(v@[i as int] == id);
            return true;
        }
        i = i + 1;
    }
    false
}

/// The descriptors of the candidates that `load_all` registers, in order.
pub open spec fn loaded_descriptors(r: Seq<InstanceView>, reserved: Seq<i64>, cs: Seq<PluginCandidate>) -> Seq<
    ProviderDescriptor,
>
    decreases cs.len(),
{
    if cs.len() == 0 {
        Seq::empty()
    } else {
        let before = loaded_descriptors(r, reserved, cs.drop_last());
        let c = cs.last();
        if candidate_valid(c) && !registered(load_all(r, reserved, cs.drop_last()), candidate_id(c))
            && !reserved.contains(candidate_id(c)) {
            before.push(c.loaded->Some_0.descriptor)
        } else {
            before
        }
    }
}

/// How many of `cs` are valid.
pub open spec fn valid_count(cs: Seq<PluginCandidate>) -> nat
    decreases cs.len(),
{
    if cs.len() == 0 {
        0
    } else {
        valid_count(cs.drop_last()) + if candidate_valid(cs.last()) {
            1nat
        } else {
            0nat
        }
    }
}

/// A message to the dispatch loop.
pub enum Command {
    /// Register the plugins found in a directory.
    Load(Vec<PluginCandidate>),
    /// Queue a call on a provider.
    Invoke(i64, Job),
    /// Drop a provider.
    Unload(i64),
}

/// What the dispatch loop did with a command.
#[derive(Debug)]
pub enum Dispatched {
    Loaded,
    Queued,
    /// The caller named by the first field gets the error at once; no worker sees the call.
    Rejected(u64, ExtensionError),
    /// Whether the provider was loaded; if so, the ids of the calls that
    /// were still queued on it and will not run.
    Unloaded(Option<Vec<u64>>),
}

/// The loaded providers, owned by the dispatch loop.
pub struct Registry {
    instances: Vec<RuntimeInstance>,
}

pub closed spec fn instances_view(s: Seq<RuntimeInstance>) -> Seq<InstanceView> {
    s.map_values(|i: RuntimeInstance| i@)
}

pub closed spec fn instances_descriptors(s: Seq<RuntimeInstance>) -> Seq<ProviderDescriptor> {
    s.map_values(|i: RuntimeInstance| i.spec_descriptor())
}

pub closed spec fn instances_wf(s: Seq<RuntimeInstance>) -> bool {
    &&& ids_unique(instances_view(s))
    &&& forall|i: int|
        0 <= i < s.len() ==> (#[trigger] s[i]).wf() && s[i]@.state != InstanceState::Failed
}

/// Putting back an instance with the same id and descriptor keeps the
/// registry well formed and changes only that position.
proof fn lemma_put_back(before: Seq<RuntimeInstance>, i: int, inst: RuntimeInstance)
    requires
        0 <= i < before.len(),
        instances_wf(before),
        inst.wf(),
        inst@.state != InstanceState::Failed,
        inst@.id == before[i]@.id,
        inst.spec_descriptor() == before[i].spec_descriptor(),
    ensures
        instances_view(before.update(i, inst)) == instances_view(before).update(i, inst@),
        instances_descriptors(before.update(i, inst)) == instances_descriptors(before),
        instances_wf(before.update(i, inst)),
{
    let after = before.update(i, inst);
    assert(instances_view(after) =~= instances_view(before).update(i, inst@));
    assert(instances_descriptors(after) =~= instances_descriptors(before));
    let va = instances_view(after);
    let vb = instances_view(before);
    assert forall|a: int, b: int|
        0 <= a < va.len() && 0 <= b < va.len() && a != b implies #[trigger] va[a].id
        != #[trigger] va[b].id by {
        assert(va[a].id == vb[a].id);
        assert(va[b].id == vb[b].id);
    }
    assert forall|a: int| 0 <= a < after.len() implies (#[trigger] after[a]).wf()
        && after[a]@.state != InstanceState::Failed by {
        if a != i {
            assert(after[a] == before[a]);
        }
    }
}

/// Dropping an instance keeps the registry well formed.
proof fn lemma_drop(before: Seq<RuntimeInstance>, i: int)
    requires
        0 <= i < before.len(),
        instances_wf(before),
    ensures
        instances_view(before.remove(i)) == instances_view(before).remove(i),
        instances_descriptors(before.remove(i)) == instances_descriptors(before).remove(i),
        instances_wf(before.remove(i)),
{
    let after = before.remove(i);
    assert(instances_view(after) =~= instances_view(before).remove(i));
    assert(instances_descriptors(after) =~= instances_descriptors(before).remove(i));
    let va = instances_view(after);
    let vb = instances_view(before);
    assert forall|a: int, b: int|
        0 <= a < va.len() && 0 <= b < va.len() && a != b implies #[trigger] va[a].id
        != #[trigger] va[b].id by {
        let a2 = if a < i { a } else { a + 1 };
        let b2 = if b < i { b } else { b + 1 };
        assert(va[a].id == vb[a2].id);
        assert(va[b].id == vb[b2].id);
    }
    assert forall|a: int| 0 <= a < after.len() implies (#[trigger] after[a]).wf()
        && after[a]@.state != InstanceState::Failed by {
        if a < i {
            assert(after[a] == before[a]);
        } else {
            assert(after[a] == before[a + 1]);
        }
    }
}

impl View for Registry {
    type V = Seq<InstanceView>;

    closed spec fn view(&self) -> Seq<InstanceView> {
        instances_view(self.instances@)
    }
}

impl Registry {
    /// The descriptors of the loaded providers, in registry order.
    pub closed spec fn descriptors(&self) -> Seq<ProviderDescriptor> {
        instances_descriptors(self.instances@)
    }

    /// Ids are unique, no failed instance stays, and each instance runs at most one call.
    pub closed spec fn wf(&self) -> bool {
        instances_wf(self.instances@)
    }

    /// A well-formed registry holds each id at most once.
    pub proof fn lemma_wf_ids_unique(&self)
        requires
            self.wf(),
        ensures
            ids_unique(self@),
            self.descriptors().len() == self@.len(),
            forall|i: int| 0 <= i < self@.len() ==> #[trigger] self.descriptors()[i].id == self@[i].id,
    {
        self.lemma_view_len();
        assert forall|i: int| 0 <= i < self@.len() implies #[trigger] self.descriptors()[i].id
            == self@[i].id by {
            assert(self.instances@[i].wf());
        }
    }

    proof fn lemma_view_len(&self)
        ensures
            self@.len() == self.instances@.len(),
            self.descriptors().len() == self.instances@.len(),
            forall|i: int|
                0 <= i < self.instances@.len() ==> #[trigger] self@[i] == self.instances@[i]@,
            forall|i: int|
                0 <= i < self.instances@.len() ==> #[trigger] self.descriptors()[i]
                    == self.instances@[i].spec_descriptor(),
    {
    }

    /// An empty registry.
    pub fn new() -> (r: Registry)
        ensures
            r@.len() == 0,
            r.wf(),
    {
        let r = Registry { instances: Vec::new() };
        assert(r@ =~= Seq::<InstanceView>::empty());
        r
    }

    /// Where provider `id` stands in the registry.
    fn position(&self, id: i64) -> (r: Option<usize>)
        requires
            self.wf(),
        ensures
            match r {
                Some(i) => i < self@.len() && self@[i as int].id == id && index_of(self@, id)
                    == i,
                None => !registered(self@, id),
            },
    {
        proof {
            self.lemma_view_len();
        }
        let mut i: usize = 0;
        while i < self.instances.len()
            invariant
                i <= self.instances@.len(),
                self.wf(),
                forall|j: int| 0 <= j < i ==> self@[j].id != id,
            decreases self.instances@.len() - i,
        {
            proof {
                self.lemma_view_len();
            }
            if self.instances[i].id() == id {
                assert(self@[i as int].id == id);
                let ghost k = index_of(self@, id);
                assert(0 <= k < self@.len() && self@[k].id == id);
                return Some(i);
            }
            i = i + 1;
        }
        None
    }

    /// Whether provider `id` is loaded.
    pub fn contains(&self, id: i64) -> (r: bool)
        requires
            self.wf(),
        ensures
            r == registered(self@, id),
    {
        self.position(id).is_some()
    }

    /// The descriptors of all loaded providers.
    pub fn list_providers(&self) -> (r: Vec<ProviderDescriptor>)
        requires
            self.wf(),
        ensures
            r@ == self.descriptors(),
            r@.len() == self@.len(),
            forall|i: int| 0 <= i < r@.len() ==> #[trigger] r@[i].id == self@[i].id,
    {
        proof {
            self.lemma_view_len();
        }
        let mut r: Vec<ProviderDescriptor> = Vec::new();
        let mut i: usize = 0;
        while i < self.instances.len()
            invariant
                i <= self.instances@.len(),
                self.wf(),
                r@ == self.descriptors().take(i as int),
            decreases self.instances@.len() - i,
        {
            proof {
                self.lemma_view_len();
            }
            let d = self.instances[i].descriptor().duplicate();
            r.push(d);
            i = i + 1;
            assert(r@ =~= self.descriptors().take(i as int));
        }
        assert(self.descriptors().take(i as int) =~= self.descriptors());
        r
    }

    /// Registers each valid candidate whose id is still free, in order; the
    /// others are skipped. Ids in `reserved` are taken by providers outside
    /// the registry.
    pub fn load(&mut self, candidates: Vec<PluginCandidate>, reserved: &Vec<i64>)
        requires
            old(self).wf(),
        ensures
            final(self).wf(),
            final(self)@ == load_all(old(self)@, reserved@, candidates@),
            final(self).descriptors() == old(self).descriptors() + loaded_descriptors(
                old(self)@,
                reserved@,
                candidates@,
            ),
    {
        let ghost orig = candidates@;
        let mut cands = candidates;
        let n = cands.len();
        let mut k: usize = 0;
        assert(orig.take(0) =~= Seq::<PluginCandidate>::empty());
        while k < n
            invariant
                k <= n,
                n == orig.len(),
                cands@ == orig.subrange(k as int, n as int),
                self.wf(),
                self@ == load_all(old(self)@, reserved@, orig.take(k as int)),
                self.descriptors() == old(self).descriptors() + loaded_descriptors(
                    old(self)@,
                    reserved@,
                    orig.take(k as int),
                ),
            decreases n - k,
        {
            let c = cands.remove(0);
            assert(c == orig[k as int]);
            assert(orig.take(k + 1).drop_last() =~= orig.take(k as int));
            let ghost before = self@;
            let ghost before_d = self.descriptors();
            proof {
                self.lemma_view_len();
            }
            match c.loaded {
                Some(p) => {
                    if self.position(p.descriptor.id).is_none() && !contains_id(
                        reserved,
                        p.descriptor.id,
                    ) {
                        let ghost id = p.descriptor.id;
                        let ghost d = p.descriptor;
                        match RuntimeInstance::load(p.descriptor, &p.exports) {
                            Ok(inst) => {
                                self.instances.push(inst);
                                proof {
                                    self.lemma_view_len();
                                    assert(self@ =~= before.push(fresh_instance(id)));
                                    assert(self.descriptors() =~= before_d.push(d));
                                    assert forall|a: int, b: int|
                                        0 <= a < self@.len() && 0 <= b < self@.len() && a
                                            != b implies #[trigger] self@[a].id
                                        != #[trigger] self@[b].id by {
                                        if a < before.len() && b < before.len() {
                                            assert(self@[a] == before[a]);
                                            assert(self@[b] == before[b]);
                                        } else if a < before.len() {
                                            assert(self@[a] == before[a]);
                                        } else {
                                            assert(self@[b] == before[b]);
                                        }
                                    }
                                }
                            },
                            Err(_) => {},
                        }
                    }
                },
                None => {},
            }
            k = k + 1;
            assert(cands@ =~= orig.subrange(k as int, n as int));
            assert(orig.take(k as int).last() == orig[k - 1]);
        }
        assert(orig.take(n as int) =~= orig);
    }

    /// Queues `job` on provider `id`. An unknown id is answered with
    /// `NotFound` at once and nothing in the registry changes.
    pub fn invoke(&mut self, id: i64, job: Job) -> (r: Result<(), ExtensionError>)
        requires
            old(self).wf(),
        ensures
            final(self).wf(),
            final(self).descriptors() == old(self).descriptors(),
            !registered(old(self)@, id) ==> r == Err::<(), _>(ExtensionError::NotFound)
                && final(self)@ == old(self)@,
            registered(old(self)@, id) ==> r is Ok && final(self)@ == old(self)@.update(
                index_of(old(self)@, id),
                enqueue_step(old(self)@[index_of(old(self)@, id)], job.id),
            ),
    {
        match self.position(id) {
            None => Err(ExtensionError::NotFound),
            Some(i) => {
                proof {
                    self.lemma_view_len();
                }
                let ghost before = self.instances@;
                let mut inst = self.instances.remove(i);
                inst.enqueue(job);
                self.instances.insert(i, inst);
                proof {
                    assert(self.instances@ =~= before.update(i as int, inst));
                    lemma_put_back(before, i as int, inst);
                }
                Ok(())
            },
        }
    }

    /// Hands the next queued call of provider `id` to its worker, if the
    /// provider is idle; a provider that is running a call starts nothing.
    pub fn begin(&mut self, id: i64) -> (r: Option<Job>)
        requires
            old(self).wf(),
        ensures
            final(self).wf(),
            final(self).descriptors() == old(self).descriptors(),
            !registered(old(self)@, id) ==> r is None && final(self)@ == old(self)@,
            registered(old(self)@, id) ==> ({
                let i = index_of(old(self)@, id);
                &&& final(self)@ == old(self)@.update(i, begin_step(old(self)@[i]).0)
                &&& begin_step(old(self)@[i]).1 == match r {
                    Some(j) => Some(j.id),
                    None => None,
                }
            }),
    {
        match self.position(id) {
            None => None,
            Some(i) => {
                proof {
                    self.lemma_view_len();
                }
                let ghost before = self.instances@;
                let mut inst = self.instances.remove(i);
                let r = inst.begin();
                self.instances.insert(i, inst);
                proof {
                    assert(self.instances@ =~= before.update(i as int, inst));
                    lemma_put_back(before, i as int, inst);
                }
                r
            },
        }
    }

    /// Ends the call that provider `id` is running. The provider is ready
    /// again, or dropped when the guest's memory was lost. `NotFound` when
    /// no such provider is running a call.
    /// The second part of the result holds the ids of the calls that were
    /// queued on a provider dropped here; they will not run.
    pub fn finish(&mut self, id: i64, outcome: CallOutcome) -> (r: (
        Result<Vec<u8>, ExtensionError>,
        Vec<u64>,
    ))
        requires
            old(self).wf(),
        ensures
            final(self).wf(),
            !(registered(old(self)@, id) && old(self)@[index_of(old(self)@, id)].state
                == InstanceState::Executing) ==> r.0 == Err::<Vec<u8>, _>(ExtensionError::NotFound)
                && r.1@.len() == 0 && final(self)@ == old(self)@ && final(self).descriptors() == old(self).descriptors(),
            registered(old(self)@, id) && old(self)@[index_of(old(self)@, id)].state
                == InstanceState::Executing ==> ({
                let i = index_of(old(self)@, id);
                &&& result_view(r.0) == outcome_result(outcome)
                &&& outcome is Corrupted ==> final(self)@ == old(self)@.remove(i)
                    && final(self).descriptors() == old(self).descriptors().remove(i)
                    && !registered(final(self)@, id) && r.1@ == old(self)@[i].queue
                &&& !(outcome is Corrupted) ==> final(self)@ == old(self)@.update(
                    i,
                    finish_step(old(self)@[i], false),
                ) && final(self).descriptors() == old(self).descriptors() && r.1@.len() == 0
            }),
    {
        let i = match self.position(id) {
            None => {
                return (Err(ExtensionError::NotFound), Vec::new());
            },
            Some(i) => i,
        };
        proof {
            self.lemma_view_len();
        }
        if self.instances[i].state() != InstanceState::Executing {
            return (Err(ExtensionError::NotFound), Vec::new());
        }
        let ghost before = self.instances@;
        let ghost old_view = self@;
        let corrupted = matches!(outcome, CallOutcome::Corrupted);
        let mut inst = self.instances.remove(i);
        let dropped = if corrupted {
            inst.queued_ids()
        } else {
            Vec::new()
        };
        let r = inst.finish(outcome);
        if corrupted {
            proof {
                assert(self.instances@ == before.remove(i as int));
                lemma_drop(before, i as int);
                lemma_removed_gone(old_view, i as int);
            }
        } else {
            self.instances.insert(i, inst);
            proof {
                assert(self.instances@ =~= before.update(i as int, inst));
                lemma_put_back(before, i as int, inst);
            }
        }
        (r, dropped)
    }

    /// Drops provider `id`, giving the ids of the calls still queued on it;
    /// none when it was not loaded. Afterwards the id is not loaded.
    pub fn unload(&mut self, id: i64) -> (r: Option<Vec<u64>>)
        requires
            old(self).wf(),
        ensures
            final(self).wf(),
            r is Some == registered(old(self)@, id),
            !registered(final(self)@, id),
            r is None ==> final(self)@ == old(self)@ && final(self).descriptors() == old(self).descriptors(),
            r matches Some(q) ==> q@ == old(self)@[index_of(old(self)@, id)].queue && final(self)@
                == old(self)@.remove(index_of(old(self)@, id)) && final(self).descriptors() == old(self).descriptors().remove(index_of(old(self)@, id)),
    {
        match self.position(id) {
            None => None,
            Some(i) => {
                proof {
                    self.lemma_view_len();
                }
                let ghost before = self.instances@;
                let ghost old_view = self@;
                let inst = self.instances.remove(i);
                let dropped = inst.queued_ids();
                proof {
                    lemma_drop(before, i as int);
                    lemma_removed_gone(old_view, i as int);
                }
                Some(dropped)
            },
        }
    }

    /// Carries out one command of the dispatch loop. A call for an unknown
    /// provider is rejected with `NotFound` and reaches no queue.
    pub fn dispatch(&mut self, cmd: Command, reserved: &Vec<i64>) -> (r: Dispatched)
        requires
            old(self).wf(),
        ensures
            final(self).wf(),
            match cmd {
                Command::Load(cs) => r is Loaded && final(self)@ == load_all(
                    old(self)@,
                    reserved@,
                    cs@,
                ),
                Command::Invoke(id, job) => if registered(old(self)@, id) {
                    r is Queued && final(self)@ == old(self)@.update(
                        index_of(old(self)@, id),
                        enqueue_step(old(self)@[index_of(old(self)@, id)], job.id),
                    )
                } else {
                    r matches Dispatched::Rejected(reply, e) && reply == job.id && e
                        == ExtensionError::NotFound && final(self)@ == old(self)@
                },
                Command::Unload(id) => r matches Dispatched::Unloaded(q) && (q is Some
                    == registered(old(self)@, id)) && !registered(final(self)@, id) && (q matches Some(
                    ids,
                ) ==> ids@ == old(self)@[index_of(old(self)@, id)].queue && final(self)@ == old(self)@.remove(index_of(old(self)@, id))) && (q is None ==> final(self)@ == old(self)@),
            },
    {
        match cmd {
            Command::Load(cs) => {
                self.load(cs, reserved);
                Dispatched::Loaded
            },
            Command::Invoke(id, job) => {
                let reply = job.id;
                match self.invoke(id, job) {
                    Ok(()) => Dispatched::Queued,
                    Err(e) => Dispatched::Rejected(reply, e),
                }
            },
            Command::Unload(id) => Dispatched::Unloaded(self.unload(id)),
        }
    }
}

proof fn lemma_removed_gone(r: Seq<InstanceView>, i: int)
    requires
        ids_unique(r),
        0 <= i < r.len(),
    ensures
        !registered(r.remove(i), r[i].id),
{
    let id = r[i].id;
    let after = r.remove(i);
    if registered(after, id) {
        let k = choose|k: int| 0 <= k < after.len() && after[k].id == id;
        let k2 = if k < i { k } else { k + 1 };
        assert(after[k] == r[k2]);
    }
}

proof fn lemma_index_of(r: Seq<InstanceView>, id: i64, i: int)
    requires
        ids_unique(r),
        0 <= i < r.len(),
        r[i].id == id,
    ensures
        registered(r, id),
        index_of(r, id) == i,
{
    assert(registered(r, id));
    let k = index_of(r, id);
    assert(0 <= k < r.len() && r[k].id == id);
}

/// A provider loaded by `load_all` was loaded before or is a valid,
/// unreserved candidate.
pub proof fn lemma_load_origin(r: Seq<InstanceView>, rs: Seq<i64>, cs: Seq<PluginCandidate>, id: i64)
    requires
        registered(load_all(r, rs, cs), id),
    ensures
        registered(r, id) || exists|j: int|
            0 <= j < cs.len() && candidate_valid(cs[j]) && candidate_id(cs[j]) == id
                && !rs.contains(id),
    decreases cs.len(),
{
    if cs.len() > 0 {
        let d = cs.drop_last();
        let l = load_all(r, rs, d);
        let after = load_all(r, rs, cs);
        let k = choose|k: int| 0 <= k < after.len() && after[k].id == id;
        if k < l.len() {
            assert(l[k] == after[k]);
            lemma_load_origin(r, rs, d, id);
            if !registered(r, id) {
                let j = choose|j: int|
                    0 <= j < d.len() && candidate_valid(d[j]) && candidate_id(d[j]) == id
                        && !rs.contains(id);
                assert(cs[j] == d[j]);
            }
        } else {
            assert(cs[cs.len() - 1] == cs.last());
        }
    }
}

/// Loading registers exactly the valid candidates, when their ids are new,
/// not reserved, and differ from each other: the registry grows by the
/// number of valid candidates, and each of them is then loaded.
pub proof fn lemma_load_registers_valid(
    r: Seq<InstanceView>,
    rs: Seq<i64>,
    cs: Seq<PluginCandidate>,
)
    requires
        forall|i: int|
            0 <= i < cs.len() && candidate_valid(#[trigger] cs[i]) ==> !registered(
                r,
                candidate_id(cs[i]),
            ) && !rs.contains(candidate_id(cs[i])),
        forall|i: int, j: int|
            0 <= i < j < cs.len() && candidate_valid(#[trigger] cs[i]) && candidate_valid(
                #[trigger] cs[j],
            ) ==> candidate_id(cs[i]) != candidate_id(cs[j]),
    ensures
        load_all(r, rs, cs).len() == r.len() + valid_count(cs),
        forall|i: int|
            0 <= i < cs.len() && candidate_valid(#[trigger] cs[i]) ==> registered(
                load_all(r, rs, cs),
                candidate_id(cs[i]),
            ),
    decreases cs.len(),
{
    if cs.len() > 0 {
        let d = cs.drop_last();
        let c = cs.last();
        let n = cs.len() - 1;
        assert(c == cs[n]);
        assert forall|i: int| 0 <= i < d.len() implies #[trigger] d[i] == cs[i] by {}
        lemma_load_registers_valid(r, rs, d);
        let l = load_all(r, rs, d);
        if candidate_valid(c) {
            if registered(l, candidate_id(c)) {
                lemma_load_origin(r, rs, d, candidate_id(c));
                if !registered(r, candidate_id(c)) {
                    let j = choose|j: int|
                        0 <= j < d.len() && candidate_valid(d[j]) && candidate_id(d[j])
                            == candidate_id(c) && !rs.contains(candidate_id(c));
                    assert(candidate_valid(cs[j]) && candidate_valid(cs[n]));
                }
            }
            let after = load_all(r, rs, cs);
            assert(after == l.push(fresh_instance(candidate_id(c))));
            assert(after[l.len() as int].id == candidate_id(c));
        }
        assert forall|i: int|
            0 <= i < cs.len() && candidate_valid(#[trigger] cs[i]) implies registered(
            load_all(r, rs, cs),
            candidate_id(cs[i]),
        ) by {
            if i < n {
                assert(d[i] == cs[i]);
                assert(registered(l, candidate_id(cs[i])));
                let k = choose|k: int| 0 <= k < l.len() && l[k].id == candidate_id(cs[i]);
                assert(load_all(r, rs, cs)[k] == l[k]);
            } else {
                assert(load_all(r, rs, cs)[l.len() as int].id == candidate_id(c));
            }
        }
    }
}

/// Calls to two different providers run side by side: starting a call on
/// one leaves the other as it was, so both can be running at once. For a
/// `Registry`, `lemma_wf_ids_unique` gives the uniqueness this needs.
pub proof fn lemma_providers_independent(r: Seq<InstanceView>, p: i64, q: i64)
    requires
        ids_unique(r),
        p != q,
        registered(r, p),
        registered(r, q),
        r[index_of(r, p)].state == InstanceState::Ready,
        r[index_of(r, p)].queue.len() > 0,
        r[index_of(r, q)].state == InstanceState::Ready,
        r[index_of(r, q)].queue.len() > 0,
    ensures
        ({
            let ip = index_of(r, p);
            let iq = index_of(r, q);
            let r1 = r.update(ip, begin_step(r[ip]).0);
            let r2 = r1.update(index_of(r1, q), begin_step(r1[index_of(r1, q)]).0);
            &&& index_of(r1, q) == iq
            &&& r1[iq] == r[iq]
            &&& begin_step(r[ip]).1 is Some
            &&& begin_step(r1[iq]).1 is Some
            &&& r2[ip].state == InstanceState::Executing
            &&& r2[iq].state == InstanceState::Executing
        }),
{
    let ip = index_of(r, p);
    let iq = index_of(r, q);
    assert(0 <= ip < r.len() && r[ip].id == p);
    assert(0 <= iq < r.len() && r[iq].id == q);
    let r1 = r.update(ip, begin_step(r[ip]).0);
    assert forall|a: int, b: int|
        0 <= a < r1.len() && 0 <= b < r1.len() && a != b implies #[trigger] r1[a].id
        != #[trigger] r1[b].id by {
        assert(r1[a].id == r[a].id);
        assert(r1[b].id == r[b].id);
    }
    lemma_index_of(r1, q, iq);
}

/// After a call ends in any way that keeps the guest's memory (a result,
/// an error of the provider, a recoverable trap, or a result that nobody
/// waits for because its caller timed out), the provider stays loaded and
/// ready: the next call is queued rather than refused, and a call starts;
/// with nothing queued before it, the next call is the one that starts.
/// For a `Registry`, `lemma_wf_ids_unique` gives the uniqueness this needs.
pub proof fn lemma_fault_isolated(r: Seq<InstanceView>, id: i64, next: u64)
    requires
        ids_unique(r),
        registered(r, id),
        r[index_of(r, id)].state == InstanceState::Executing,
    ensures
        ({
            let i = index_of(r, id);
            let r1 = r.update(i, finish_step(r[i], false));
            &&& registered(r1, id)
            &&& index_of(r1, id) == i
            &&& r1[i].state == InstanceState::Ready
            &&& begin_step(enqueue_step(r1[i], next)).1 is Some
            &&& r[i].queue.len() == 0 ==> begin_step(enqueue_step(r1[i], next)).1 == Some(next)
        }),
{
    let i = index_of(r, id);
    assert(0 <= i < r.len() && r[i].id == id);
    let r1 = r.update(i, finish_step(r[i], false));
    assert forall|a: int, b: int|
        0 <= a < r1.len() && 0 <= b < r1.len() && a != b implies #[trigger] r1[a].id
        != #[trigger] r1[b].id by {
        assert(r1[a].id == r[a].id);
        assert(r1[b].id == r[b].id);
    }
    lemma_index_of(r1, id, i);
    if r[i].queue.len() == 0 {
        assert(enqueue_step(r1[i], next).queue =~= seq![next]);
    }
}

/// For a registry: calls to two different providers run side by side.
pub proof fn lemma_registry_providers_independent(reg: &Registry, p: i64, q: i64)
    requires
        reg.wf(),
        p != q,
        registered(reg@, p),
        registered(reg@, q),
        reg@[index_of(reg@, p)].state == InstanceState::Ready,
        reg@[index_of(reg@, p)].queue.len() > 0,
        reg@[index_of(reg@, q)].state == InstanceState::Ready,
        reg@[index_of(reg@, q)].queue.len() > 0,
    ensures
        ({
            let r = reg@;
            let ip = index_of(r, p);
            let iq = index_of(r, q);
            let r1 = r.update(ip, begin_step(r[ip]).0);
            let r2 = r1.update(index_of(r1, q), begin_step(r1[index_of(r1, q)]).0);
            &&& index_of(r1, q) == iq
            &&& begin_step(r[ip]).1 is Some
            &&& begin_step(r1[iq]).1 is Some
            &&& r2[ip].state == InstanceState::Executing
            &&& r2[iq].state == InstanceState::Executing
        }),
{
    reg.lemma_wf_ids_unique();
    lemma_providers_independent(reg@, p, q);
}

/// For a registry: after a running call of provider `id` ends without
/// losing the guest's memory (a trap it recovers from, or a result whose
/// caller has timed out), the provider stays loaded and ready and the next
/// call starts.
pub proof fn lemma_registry_recovers(reg: &Registry, id: i64, next: u64)
    requires
        reg.wf(),
        registered(reg@, id),
        reg@[index_of(reg@, id)].state == InstanceState::Executing,
    ensures
        ({
            let r = reg@;
            let i = index_of(r, id);
            let r1 = r.update(i, finish_step(r[i], false));
            &&& registered(r1, id)
            &&& index_of(r1, id) == i
            &&& r1[i].state == InstanceState::Ready
            &&& begin_step(enqueue_step(r1[i], next)).1 is Some
            &&& r[i].queue.len() == 0 ==> begin_step(enqueue_step(r1[i], next)).1 == Some(next)
        }),
{
    reg.lemma_wf_ids_unique();
    lemma_fault_isolated(reg@, id, next);
}

} // verus!
