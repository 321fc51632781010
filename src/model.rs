use vstd::prelude::*;
use crate::destroy_queue::DestroyQueue;
use crate::registry::Registry;
use crate::staging::{as_entry_key, entry_key, lemma_filter_keeps_keys_distinct, ParameterStaging};

verus! {

broadcast use vstd::seq_lib::group_seq_properties;

/// Where a model stands in building its GPU resource. Construction is
/// attempted at most once: `Constructing` and `Failed` never go back.
pub enum Realization<G> {
    Unrealized,
    Constructing,
    Realized { resource: G, slot_count: u32 },
    Failed,
}

/// One graphics call that a draw pass asks the render thread to make, on the
/// model's realized resource.
#[derive(Debug, PartialEq)]
pub enum DrawStep<M, V> {
    /// Put `material` into `slot`.
    AssignMaterial { slot: u32, material: M },
    /// Copy the material in `slot`, write `value` under `name` onto the copy,
    /// and put the copy into `slot`. The material that was there is not
    /// written to, so another object sharing it does not see the change.
    SetParameter { slot: u32, name: String, value: V },
    /// Draw the model at its place in space.
    Submit,
}

pub open spec fn assign_step<M, V>(r: (u32, M)) -> DrawStep<M, V> {
    DrawStep::AssignMaterial { slot: r.0, material: r.1 }
}

pub open spec fn parameter_step<M, V>(e: (u32, String, V)) -> DrawStep<M, V> {
    DrawStep::SetParameter { slot: e.0, name: e.1, value: e.2 }
}

pub open spec fn as_assign_step<M, V>() -> spec_fn((u32, M)) -> DrawStep<M, V> {
    |r: (u32, M)| assign_step(r)
}

pub open spec fn as_parameter_step<M, V>() -> spec_fn((u32, String, V)) -> DrawStep<M, V> {
    |e: (u32, String, V)| parameter_step(e)
}

pub(crate) proof fn lemma_filter_map_push<A, B>(s: Seq<A>, x: A, p: spec_fn(A) -> bool, f: spec_fn(A) -> B)
    ensures
        s.push(x).filter(p).map_values(f) == if p(x) {
            s.filter(p).map_values(f).push(f(x))
        } else {
            s.filter(p).map_values(f)
        },
{
    s.lemma_filter_push(x, p);
    if p(x) {
        assert(s.filter(p).push(x).map_values(f) =~= s.filter(p).map_values(f).push(f(x)));
    }
}

pub open spec fn replacement_fits<M>(slot_count: u32) -> spec_fn((u32, M)) -> bool {
    |r: (u32, M)| r.0 < slot_count
}

pub open spec fn parameter_fits<V>(slot_count: u32) -> spec_fn((u32, String, V)) -> bool {
    |e: (u32, String, V)| e.0 < slot_count
}

/// The replacement assignments that a draw pass makes: those whose slot exists,
/// first in first out.
pub open spec fn replacement_steps<M, V>(reps: Seq<(u32, M)>, slot_count: u32) -> Seq<
    DrawStep<M, V>,
> {
    reps.filter(replacement_fits(slot_count)).map_values(as_assign_step())
}

/// The copy-on-write parameter writes that a draw pass makes: those whose slot
/// exists.
pub open spec fn parameter_steps<M, V>(params: Seq<(u32, String, V)>, slot_count: u32) -> Seq<
    DrawStep<M, V>,
> {
    params.filter(parameter_fits(slot_count)).map_values(as_parameter_step())
}

/// A full draw pass of a realized model: replacements, then parameter writes,
/// then the draw itself.
pub open spec fn draw_plan<M, V>(
    reps: Seq<(u32, M)>,
    params: Seq<(u32, String, V)>,
    slot_count: u32,
) -> Seq<DrawStep<M, V>> {
    replacement_steps(reps, slot_count) + parameter_steps(params, slot_count) + seq![
        DrawStep::Submit,
    ]
}

/// Every model in a directory snapshot keeps its staging well formed.
pub open spec fn models_wf<G, M, V>(members: Seq<(u64, Model<G, M, V>)>) -> bool {
    forall|i: int| 0 <= i < members.len() ==> (#[trigger] members[i]).1.wf()
}

/// A 3D model: the path of its asset, fixed at creation, a GPU resource built
/// from it on the render thread, and the mutations that clients have staged
/// for it.
pub struct Model<G, M, V> {
    enabled: bool,
    model_path: Option<String>,
    realization: Realization<G>,
    parameters: ParameterStaging<V>,
    replacements: Vec<(u32, M)>,
}

impl<G, M, V> Model<G, M, V> {
    pub closed spec fn is_enabled(&self) -> bool {
        self.enabled
    }

    pub closed spec fn path(&self) -> Option<Seq<char>> {
        match self.model_path {
            Some(p) => Some(p@),
            None => None,
        }
    }

    pub closed spec fn state(&self) -> Realization<G> {
        self.realization
    }

    pub closed spec fn parameters(&self) -> ParameterStaging<V> {
        self.parameters
    }

    /// Replacement assignments waiting, first in first out.
    pub closed spec fn replacements(&self) -> Seq<(u32, M)> {
        self.replacements@
    }

    pub open spec fn wf(&self) -> bool {
        self.parameters().wf()
    }

    /// A model for the asset at `model_path`, or for a resource that could not
    /// be resolved (`None`). It is enabled and unrealized, with nothing staged.
    pub fn new(model_path: Option<String>) -> (r: Self)
        ensures
            r.wf(),
            r.is_enabled(),
            r.path() == (match model_path {
                Some(p) => Some(p@),
                None => None,
            }),
            r.state() is Unrealized,
            r.parameters().entries().len() == 0,
            r.replacements().len() == 0,
    {
        Model {
            enabled: true,
            model_path,
            realization: Realization::Unrealized,
            parameters: ParameterStaging::new(),
            replacements: Vec::new(),
        }
    }

    /// Publishes a new model in `registry` and returns its handle.
    pub fn add_to(registry: &mut Registry<Self>, model_path: Option<String>) -> (id: u64)
        requires
            old(registry).wf(),
            old(registry).next_handle() < u64::MAX,
            models_wf(old(registry).members()),
        ensures
            final(registry).wf(),
            id == old(registry).next_handle(),
            !old(registry).contains(id),
            final(registry).members().len() == old(registry).members().len() + 1,
            final(registry).members().drop_last() == old(registry).members(),
            final(registry).members().last().0 == id,
            final(registry).members().last().1.state() is Unrealized,
            final(registry).members().last().1.is_enabled(),
            final(registry).members().last().1.path() == (match model_path {
                Some(p) => Some(p@),
                None => None,
            }),
            models_wf(final(registry).members()),
    {
        let m = Model::new(model_path);
        let ghost before = registry.members();
        let id = registry.add(m);
        proof {
            assert(registry.members().drop_last() =~= before);
            assert forall|i: int| 0 <= i < registry.members().len() implies (
            #[trigger] registry.members()[i]).1.wf() by {
                if i < before.len() {
                    assert(registry.members()[i] == before[i]);
                }
            }
        }
        id
    }

    pub fn set_enabled(&mut self, enabled: bool)
        ensures
            final(self).is_enabled() == enabled,
            final(self).path() == old(self).path(),
            final(self).state() == old(self).state(),
            final(self).parameters() == old(self).parameters(),
            final(self).replacements() == old(self).replacements(),
    {
        self.enabled = enabled;
    }

    pub fn enabled(&self) -> (r: bool)
        ensures
            r == self.is_enabled(),
    {
        self.enabled
    }

    /// Stages a write of `value` to parameter `name` of the material in
    /// `slot`; a waiting write to the same slot and name is replaced.
    pub fn set_material_parameter(&mut self, slot: u32, name: String, value: V)
        requires
            old(self).wf(),
        ensures
            final(self).wf(),
            final(self).parameters().staged() == old(self).parameters().staged().insert(
                (slot, name@),
                value,
            ),
            final(self).is_enabled() == old(self).is_enabled(),
            final(self).path() == old(self).path(),
            final(self).state() == old(self).state(),
            final(self).replacements() == old(self).replacements(),
    {
        self.parameters.set(slot, name, value);
    }

    /// Queues `material` to be put into `slot` at the next draw pass.
    pub fn replace_material(&mut self, slot: u32, material: M)
        ensures
            final(self).replacements() == old(self).replacements().push((slot, material)),
            final(self).is_enabled() == old(self).is_enabled(),
            final(self).path() == old(self).path(),
            final(self).state() == old(self).state(),
            final(self).parameters() == old(self).parameters(),
    {
        self.replacements.push((slot, material));
    }

    pub open spec fn slot_count(&self) -> u32 {
        match self.state() {
            Realization::Realized { slot_count, .. } => slot_count,
            _ => 0,
        }
    }

    /// What a draw pass leaves of `prev`: a realized model has used up all its
    /// staged mutations; any other keeps them for later.
    pub open spec fn drawn_from(&self, prev: &Self) -> bool {
        &&& self.wf()
        &&& self.is_enabled() == prev.is_enabled()
        &&& self.path() == prev.path()
        &&& self.state() == prev.state()
        &&& if prev.state() is Realized {
            &&& self.parameters().entries().len() == 0
            &&& self.replacements().len() == 0
        } else {
            &&& self.parameters() == prev.parameters()
            &&& self.replacements() == prev.replacements()
        }
    }

    /// The graphics calls a draw pass on `prev` asks for.
    pub open spec fn plan_of(prev: &Self) -> Seq<DrawStep<M, V>> {
        if prev.state() is Realized {
            draw_plan(prev.replacements(), prev.parameters().entries(), prev.slot_count())
        } else {
            Seq::empty()
        }
    }

    pub fn is_constructing(&self) -> (r: bool)
        ensures
            r == self.state() is Constructing,
    {
        match self.realization {
            Realization::Constructing => true,
            _ => false,
        }
    }

    pub fn is_realized(&self) -> (r: bool)
        ensures
            r == self.state() is Realized,
    {
        match self.realization {
            Realization::Realized { .. } => true,
            _ => false,
        }
    }

    /// The built GPU resource, once there is one.
    pub fn resource(&self) -> (r: Option<&G>)
        ensures
            r is Some <==> self.state() is Realized,
            r is Some ==> *r->0 == self.state()->resource,
    {
        match &self.realization {
            Realization::Realized { resource, .. } => Some(resource),
            _ => None,
        }
    }

    /// Starts building the GPU resource. On an unrealized model this returns
    /// the asset path to build from, and the model waits for the outcome; with
    /// no path the model fails at once. On any other model it returns nothing:
    /// construction is attempted at most once.
    pub fn begin_realization(&mut self) -> (r: Option<String>)
        requires
            old(self).wf(),
        ensures
            final(self).wf(),
            final(self).is_enabled() == old(self).is_enabled(),
            final(self).path() == old(self).path(),
            final(self).parameters() == old(self).parameters(),
            final(self).replacements() == old(self).replacements(),
            old(self).state() is Unrealized && old(self).path() is Some ==> r is Some && r->0@
                == old(self).path()->0 && final(self).state() is Constructing,
            old(self).state() is Unrealized && old(self).path() is None ==> r is None
                && final(self).state() is Failed,
            !(old(self).state() is Unrealized) ==> r is None && final(self).state() == old(
                self,
            ).state(),
    {
        match self.realization {
            Realization::Unrealized => {
                match &self.model_path {
                    Some(p) => {
                        let path = p.clone();
                        self.realization = Realization::Constructing;
                        Some(path)
                    },
                    None => {
                        self.realization = Realization::Failed;
                        None
                    },
                }
            },
            _ => None,
        }
    }

    /// Records how construction went: the resource built and how many
    /// material slots it has, or `None` when it could not be built, after
    /// which the model is skipped for good.
    pub fn finish_realization(&mut self, outcome: Option<(G, u32)>)
        requires
            old(self).wf(),
            old(self).state() is Constructing,
        ensures
            final(self).wf(),
            final(self).is_enabled() == old(self).is_enabled(),
            final(self).path() == old(self).path(),
            final(self).parameters() == old(self).parameters(),
            final(self).replacements() == old(self).replacements(),
            final(self).state() == (match outcome {
                Some((resource, slot_count)) => Realization::Realized { resource, slot_count },
                None => Realization::Failed,
            }),
    {
        match outcome {
            Some((resource, slot_count)) => {
                self.realization = Realization::Realized { resource, slot_count };
            },
            None => {
                self.realization = Realization::Failed;
            },
        }
    }

    /// One draw pass. A realized model applies its queued replacements whose
    /// slot exists, in order, then its staged parameter writes whose slot
    /// exists, each as a copy-on-write, then draws; both stagings are emptied,
    /// whatever became of each entry. A model that is not realized issues no
    /// calls and keeps what is staged.
    pub fn draw(&mut self) -> (r: Vec<DrawStep<M, V>>)
        requires
            old(self).wf(),
        ensures
            final(self).drawn_from(old(self)),
            r@ == Self::plan_of(old(self)),
    {
        let n: u32 = match &self.realization {
            Realization::Realized { slot_count, .. } => *slot_count,
            _ => {
                return Vec::new();
            },
        };
        let mut reps: Vec<(u32, M)> = Vec::new();
        std::mem::swap(&mut reps, &mut self.replacements);
        let ghost all_reps = reps@;
        let mut out: Vec<DrawStep<M, V>> = Vec::new();
        let ghost mut k: int = 0;
        while reps.len() > 0
            invariant
                0 <= k <= all_reps.len(),
                reps@ == all_reps.subrange(k, all_reps.len() as int),
                out@ == replacement_steps::<M, V>(all_reps.subrange(0, k), n),
            decreases reps.len(),
        {
            let r = reps.remove(0);
            proof {
                assert(all_reps.subrange(0, k + 1) =~= all_reps.subrange(0, k).push(r));
                lemma_filter_map_push(
                    all_reps.subrange(0, k),
                    r,
                    replacement_fits::<M>(n),
                    as_assign_step::<M, V>(),
                );
                k = k + 1;
            }
            let (slot, material) = r;
            if slot < n {
                out.push(DrawStep::AssignMaterial { slot, material });
            }
            proof {
                assert(reps@ =~= all_reps.subrange(k, all_reps.len() as int));
            }
        }
        proof {
            assert(all_reps.subrange(0, k) =~= all_reps);
        }
        let ghost rep_out = out@;
        let mut params = self.parameters.take_all();
        let ghost all_params = params@;
        let mut par_out: Vec<DrawStep<M, V>> = Vec::new();
        let ghost mut j: int = 0;
        while params.len() > 0
            invariant
                0 <= j <= all_params.len(),
                params@ == all_params.subrange(j, all_params.len() as int),
                par_out@ == parameter_steps::<M, V>(all_params.subrange(0, j), n),
            decreases params.len(),
        {
            let e = params.remove(0);
            proof {
                assert(all_params.subrange(0, j + 1) =~= all_params.subrange(0, j).push(e));
                lemma_filter_map_push(
                    all_params.subrange(0, j),
                    e,
                    parameter_fits::<V>(n),
                    as_parameter_step::<M, V>(),
                );
                j = j + 1;
            }
            let (slot, name, value) = e;
            if slot < n {
                par_out.push(DrawStep::SetParameter { slot, name, value });
            }
            proof {
                assert(params@ =~= all_params.subrange(j, all_params.len() as int));
            }
        }
        proof {
            assert(all_params.subrange(0, j) =~= all_params);
        }
        out.append(&mut par_out);
        out.push(DrawStep::Submit);
        proof {
            assert(out@ =~= Self::plan_of(old(self)));
        }
        out
    }

    /// Gives up the model; its GPU resource, if it was built, is handed back
    /// for deferred teardown.
    pub fn into_resource(self) -> (r: Option<G>)
        ensures
            r is Some <==> self.state() is Realized,
            r is Some ==> r->0 == self.state()->resource,
    {
        match self.realization {
            Realization::Realized { resource, .. } => Some(resource),
            _ => None,
        }
    }
}

/// What one frame's realization pass leaves of a model: an enabled one has
/// begun realization, a disabled one is untouched.
pub open spec fn realization_begun<G, M, V>(new: Model<G, M, V>, prev: Model<G, M, V>) -> bool {
    &&& new.wf()
    &&& new.is_enabled() == prev.is_enabled()
    &&& new.path() == prev.path()
    &&& new.parameters() == prev.parameters()
    &&& new.replacements() == prev.replacements()
    &&& if prev.is_enabled() && prev.state() is Unrealized {
        new.state() == if prev.path() is Some {
            Realization::<G>::Constructing
        } else {
            Realization::<G>::Failed
        }
    } else {
        new.state() == prev.state()
    }
}

/// Whether a realization pass asks to build this member.
pub open spec fn wants_construction<G, M, V>() -> spec_fn((u64, Model<G, M, V>)) -> bool {
    |e: (u64, Model<G, M, V>)|
        e.1.is_enabled() && e.1.state() is Unrealized && e.1.path() is Some
}

pub open spec fn as_request<G, M, V>() -> spec_fn((u64, Model<G, M, V>)) -> (u64, Seq<char>) {
    |e: (u64, Model<G, M, V>)| (e.0, e.1.path()->0)
}

/// The builds a realization pass over `members` asks for, in directory order.
pub open spec fn construction_requests<G, M, V>(members: Seq<(u64, Model<G, M, V>)>) -> Seq<
    (u64, Seq<char>),
> {
    members.filter(wants_construction()).map_values(as_request())
}

pub open spec fn request_view(r: Seq<(u64, String)>) -> Seq<(u64, Seq<char>)> {
    r.map_values(|q: (u64, String)| (q.0, q.1@))
}

/// The realization half of a frame: every enabled model that has not tried
/// yet begins realization, and the asset paths to build are handed out with
/// the models' handles.
pub fn begin_realizations<G, M, V>(registry: &mut Registry<Model<G, M, V>>) -> (r: Vec<
    (u64, String),
>)
    requires
        old(registry).wf(),
        models_wf(old(registry).members()),
    ensures
        final(registry).wf(),
        models_wf(final(registry).members()),
        final(registry).ids() == old(registry).ids(),
        final(registry).next_handle() == old(registry).next_handle(),
        forall|i: int|
            0 <= i < old(registry).members().len() ==> realization_begun(
                #[trigger] final(registry).members()[i].1,
                old(registry).members()[i].1,
            ),
        request_view(r@) == construction_requests(old(registry).members()),
{
    let ghost old_members = registry.members();
    let mut out: Vec<(u64, String)> = Vec::new();
    let mut i: usize = 0;
    while i < registry.len()
        invariant
            registry.wf(),
            0 <= i <= registry.members().len(),
            registry.members().len() == old_members.len(),
            registry.next_handle() == old(registry).next_handle(),
            old_members == old(registry).members(),
            forall|k: int| 0 <= k < old_members.len() ==> (#[trigger] registry.members()[k]).0 == old_members[k].0,
            forall|k: int|
                0 <= k < i ==> realization_begun(#[trigger] registry.members()[k].1, old_members[k].1),
            forall|k: int| i <= k < old_members.len() ==> #[trigger] registry.members()[k] == old_members[k],
            models_wf(old_members),
            request_view(out@) == construction_requests(old_members.subrange(0, i as int)),
        decreases registry.members().len() - i,
    {
        let ghost before = registry.members();
        let id = registry.id_at(i);
        let ghost out_before = out@;
        let m = registry.member_mut(i);
        if m.enabled() {
            let path = m.begin_realization();
            match path {
                Some(p) => {
                    out.push((id, p));
                    proof {
                        assert(request_view(out@) =~= request_view(out_before).push((id, p@)));
                    }
                }
                None => {}
            }
        }
        proof {
            let prev = old_members[i as int];
            assert(old_members.subrange(0, i + 1) =~= old_members.subrange(0, i as int).push(prev));
            lemma_filter_map_push(
                old_members.subrange(0, i as int),
                prev,
                wants_construction::<G, M, V>(),
                as_request::<G, M, V>(),
            );
        }
        i = i + 1;
        proof {
            assert(registry.ids() =~= before.map_values(|e: (u64, Model<G, M, V>)| e.0));
        }
    }
    proof {
        assert(old_members.subrange(0, i as int) =~= old_members);
        assert(registry.ids() =~= old(registry).ids());
    }
    out
}

/// Hands the outcome of building the model under `id` to it. Where that
/// model is gone, or no longer waits, a built resource goes to `queue` for
/// teardown instead.
pub fn finish_realization_of<G, M, V>(
    registry: &mut Registry<Model<G, M, V>>,
    queue: &mut DestroyQueue<G>,
    id: u64,
    outcome: Option<(G, u32)>,
)
    requires
        old(registry).wf(),
        models_wf(old(registry).members()),
    ensures
        final(registry).wf(),
        models_wf(final(registry).members()),
        final(registry).ids() == old(registry).ids(),
        final(registry).next_handle() == old(registry).next_handle(),
        forall|i: int|
            0 <= i < old(registry).members().len() && (#[trigger] old(registry).members()[i]).0 == id
                && old(registry).members()[i].1.state() is Constructing ==> {
                let prev = old(registry).members()[i].1;
                let m = final(registry).members()[i].1;
                &&& final(registry).members() == old(registry).members().update(i, (id, m))
                &&& m.is_enabled() == prev.is_enabled()
                &&& m.path() == prev.path()
                &&& m.parameters() == prev.parameters()
                &&& m.replacements() == prev.replacements()
                &&& m.state() == (match outcome {
                    Some((resource, slot_count)) => Realization::Realized { resource, slot_count },
                    None => Realization::Failed,
                })
                &&& final(queue).pending() == old(queue).pending()
            },
        (forall|i: int|
            0 <= i < old(registry).members().len() && old(registry).members()[i].0 == id
                ==> !(old(registry).members()[i].1.state() is Constructing)) ==> {
            &&& final(registry).members() == old(registry).members()
            &&& final(queue).pending() == match outcome {
                Some((resource, _)) => old(queue).pending().push(resource),
                None => old(queue).pending(),
            }
        },
{
    let ghost old_members = registry.members();
    match registry.position(id) {
        Some(i) => {
            if registry.member(i).is_constructing() {
                let m = registry.member_mut(i);
                m.finish_realization(outcome);
                proof {
                    assert forall|k: int|
                        0 <= k < old_members.len() && old_members[k].0 == id implies k == i by {
                        assert(old(registry).ids()[k] == old(registry).ids()[i as int]);
                    }
                    assert(registry.ids() =~= old(registry).ids());
                    assert forall|k: int| 0 <= k < registry.members().len() implies (
                    #[trigger] registry.members()[k]).1.wf() by {
                        if k != i {
                            assert(registry.members()[k] == old_members[k]);
                        }
                    }
                }
                return;
            }
            proof {
                assert forall|k: int|
                    0 <= k < old_members.len() && old_members[k].0 == id implies !(
                    old_members[k].1.state() is Constructing) by {
                    assert(old(registry).ids()[k] == id && old(registry).ids()[i as int] == id);
                }
            }
        },
        None => {
            proof {
                assert forall|k: int|
                    0 <= k < old_members.len() && old_members[k].0 == id implies !(
                    old_members[k].1.state() is Constructing) by {
                    assert(old(registry).ids()[k] == id);
                }
            }
        },
    }
    match outcome {
        Some((resource, _)) => queue.add(resource),
        None => {},
    }
}

/// How a draw pass over the directory treats one member: an enabled one is
/// drawn, a disabled one is left as it was and asks for nothing.
pub open spec fn drawn_member<G, M, V>(
    prev: (u64, Model<G, M, V>),
    now: (u64, Model<G, M, V>),
    result: (u64, Vec<DrawStep<M, V>>),
) -> bool {
    &&& result.0 == prev.0
    &&& if prev.1.is_enabled() {
        &&& result.1@ == Model::plan_of(&prev.1)
        &&& now.1.drawn_from(&prev.1)
    } else {
        &&& result.1@.len() == 0
        &&& now.1 == prev.1
    }
}

/// The drawing half of a frame: every enabled model takes one draw pass.
/// The result holds, for each member in directory order, its handle and the
/// graphics calls it asks for (none for a disabled one, which keeps what is
/// staged for when it is enabled again).
pub fn draw_all<G, M, V>(registry: &mut Registry<Model<G, M, V>>) -> (r: Vec<
    (u64, Vec<DrawStep<M, V>>),
>)
    requires
        old(registry).wf(),
        models_wf(old(registry).members()),
    ensures
        final(registry).wf(),
        models_wf(final(registry).members()),
        final(registry).ids() == old(registry).ids(),
        final(registry).next_handle() == old(registry).next_handle(),
        r@.len() == old(registry).members().len(),
        forall|i: int|
            0 <= i < r@.len() ==> drawn_member(
                old(registry).members()[i],
                final(registry).members()[i],
                #[trigger] r@[i],
            ),
{
    let ghost old_members = registry.members();
    let mut out: Vec<(u64, Vec<DrawStep<M, V>>)> = Vec::new();
    let mut i: usize = 0;
    while i < registry.len()
        invariant
            registry.wf(),
            0 <= i <= registry.members().len(),
            registry.members().len() == old_members.len(),
            registry.next_handle() == old(registry).next_handle(),
            old_members == old(registry).members(),
            out@.len() == i,
            forall|k: int|
                0 <= k < old_members.len() ==> (#[trigger] registry.members()[k]).0
                    == old_members[k].0,
            forall|k: int|
                0 <= k < i ==> drawn_member(old_members[k], registry.members()[k], #[trigger] out@[k]),
            forall|k: int|
                i <= k < old_members.len() ==> #[trigger] registry.members()[k] == old_members[k],
            models_wf(old_members),
        decreases registry.members().len() - i,
    {
        let ghost before = registry.members();
        let id = registry.id_at(i);
        let m = registry.member_mut(i);
        let steps = if m.enabled() {
            m.draw()
        } else {
            Vec::new()
        };
        let ghost out_before = out@;
        out.push((id, steps));
        proof {
            assert forall|k: int| 0 <= k < i + 1 implies drawn_member(
                old_members[k],
                registry.members()[k],
                #[trigger] out@[k],
            ) by {
                if k < i {
                    assert(out@[k] == out_before[k]);
                    assert(registry.members()[k] == before[k]);
                }
            }
        }
        i = i + 1;
        proof {
            assert(registry.ids() =~= before.map_values(|e: (u64, Model<G, M, V>)| e.0));
        }
    }
    proof {
        assert(registry.ids() =~= old(registry).ids());
        assert forall|k: int| 0 <= k < registry.members().len() implies (
        #[trigger] registry.members()[k]).1.wf() by {
            assert(drawn_member(old_members[k], registry.members()[k], out@[k]));
            assert(old_members[k].1.wf());
        }
    }
    out
}

/// Drops the model under `id` from the directory. A GPU resource it had
/// built is not torn down here: it goes to `queue`, for the render thread to
/// destroy at its next drain.
pub fn retire<G, M, V>(
    registry: &mut Registry<Model<G, M, V>>,
    queue: &mut DestroyQueue<G>,
    id: u64,
) -> (r: bool)
    requires
        old(registry).wf(),
        models_wf(old(registry).members()),
    ensures
        final(registry).wf(),
        models_wf(final(registry).members()),
        r == old(registry).contains(id),
        !final(registry).contains(id),
        !r ==> final(registry).members() == old(registry).members() && final(queue).pending()
            == old(queue).pending(),
        r ==> exists|i: int|
            {
                let prev = old(registry).members()[i].1;
                let queued = final(queue).pending();
                &&& 0 <= i < old(registry).members().len()
                &&& (#[trigger] old(registry).members()[i]).0 == id
                &&& final(registry).members() == old(registry).members().remove(i)
                &&& queued == if prev.state() is Realized {
                    old(queue).pending().push(prev.state()->resource)
                } else {
                    old(queue).pending()
                }
            },
{
    let ghost old_members = registry.members();
    match registry.remove(id) {
        Some(m) => {
            let ghost gone = m;
            proof {
                let i = choose|i: int|
                    0 <= i < old_members.len() && old_members[i] == (id, gone)
                        && registry.members() == old_members.remove(i);
                assert forall|k: int| 0 <= k < registry.members().len() implies (
                #[trigger] registry.members()[k]).1.wf() by {
                    if k < i {
                        assert(registry.members()[k] == old_members[k]);
                    } else {
                        assert(registry.members()[k] == old_members[k + 1]);
                    }
                }
            }
            match m.into_resource() {
                Some(g) => queue.add(g),
                None => {},
            }
            true
        },
        None => false,
    }
}

/// The staging a sequence of parameter writes to `key` leaves, one after the
/// other, starting from `staged`.
pub open spec fn after_writes<V>(
    staged: Map<(u32, Seq<char>), V>,
    key: (u32, Seq<char>),
    values: Seq<V>,
) -> Map<(u32, Seq<char>), V>
    decreases values.len(),
{
    if values.len() == 0 {
        staged
    } else {
        after_writes(staged, key, values.drop_last()).insert(key, values.last())
    }
}

/// However many writes to one slot and parameter name arrive before a draw
/// pass, the value left staged for that key is the last one written.
pub proof fn lemma_last_parameter_write_wins<V>(
    staged: Map<(u32, Seq<char>), V>,
    key: (u32, Seq<char>),
    values: Seq<V>,
)
    requires
        values.len() > 0,
    ensures
        after_writes(staged, key, values).contains_key(key),
        after_writes(staged, key, values)[key] == values.last(),
{
}

/// A draw pass writes to each slot and parameter name at most once, and no
/// value but the one staged for it.
pub proof fn lemma_draw_applies_only_staged_values<G, M, V>(m: Model<G, M, V>)
    requires
        m.wf(),
    ensures
        forall|a: int, b: int|
            0 <= a < Model::plan_of(&m).len() && 0 <= b < Model::plan_of(&m).len() && (
            #[trigger] Model::plan_of(&m)[a]) is SetParameter && (#[trigger] Model::plan_of(
                &m,
            )[b]) is SetParameter && Model::plan_of(&m)[a]->SetParameter_slot == Model::plan_of(
                &m,
            )[b]->SetParameter_slot && Model::plan_of(&m)[a]->SetParameter_name@ == Model::plan_of(
                &m,
            )[b]->SetParameter_name@ ==> a == b,
        forall|j: int|
            0 <= j < Model::plan_of(&m).len() && (#[trigger] Model::plan_of(&m)[j]) is SetParameter
                ==> {
                let step = Model::plan_of(&m)[j];
                let key = (step->SetParameter_slot, step->SetParameter_name@);
                &&& m.parameters().staged().contains_key(key)
                &&& step->SetParameter_value == m.parameters().staged()[key]
            },
{
    if m.state() is Realized {
        let n = m.slot_count();
        let entries = m.parameters().entries();
        let reps: Seq<DrawStep<M, V>> = replacement_steps(m.replacements(), n);
        let pars: Seq<DrawStep<M, V>> = parameter_steps(entries, n);
        let kept = entries.filter(parameter_fits::<V>(n));
        let plan = Model::plan_of(&m);
        assert(plan == reps + pars + seq![DrawStep::<M, V>::Submit]);
        lemma_filter_keeps_keys_distinct(entries, parameter_fits::<V>(n));
        let kept_keys = kept.map_values(as_entry_key::<V>());
        assert forall|j: int| 0 <= j < plan.len() && (#[trigger] plan[j]) is SetParameter implies reps.len()
            <= j < reps.len() + pars.len() && plan[j] == parameter_step::<M, V>(kept[j - reps.len()]) by {
            if j < reps.len() {
                let r = m.replacements().filter(replacement_fits::<M>(n))[j];
                assert(plan[j] == reps[j]);
                assert(reps[j] == assign_step::<M, V>(r));
            } else if j < reps.len() + pars.len() {
                assert(plan[j] == pars[j - reps.len()]);
            } else {
                assert(plan[j] == DrawStep::<M, V>::Submit);
            }
        }
        assert forall|a: int, b: int|
            0 <= a < plan.len() && 0 <= b < plan.len() && (#[trigger] plan[a]) is SetParameter && (
            #[trigger] plan[b]) is SetParameter && plan[a]->SetParameter_slot
                == plan[b]->SetParameter_slot && plan[a]->SetParameter_name@
                == plan[b]->SetParameter_name@ implies a == b by {
            let ia = a - reps.len();
            let ib = b - reps.len();
            assert(kept_keys[ia] == entry_key(kept[ia]));
            assert(kept_keys[ib] == entry_key(kept[ib]));
            assert(kept_keys[ia] == kept_keys[ib]);
        }
        assert forall|j: int|
            0 <= j < plan.len() && (#[trigger] plan[j]) is SetParameter implies {
            let step = plan[j];
            let key = (step->SetParameter_slot, step->SetParameter_name@);
            &&& m.parameters().staged().contains_key(key)
            &&& step->SetParameter_value == m.parameters().staged()[key]
        } by {
            if j < reps.len() {
                let r = m.replacements().filter(replacement_fits::<M>(n))[j];
                assert(plan[j] == reps[j]);
                assert(reps[j] == assign_step::<M, V>(r));
            } else if j < reps.len() + pars.len() {
                let jj = j - reps.len();
                let e = kept[jj];
                assert(plan[j] == pars[jj]);
                assert(pars[jj] == parameter_step::<M, V>(e));
                assert(kept.contains(e));
                entries.lemma_filter_contains_rev(parameter_fits::<V>(n), e);
                assert(entries.contains(e));
                let idx = choose|idx: int| 0 <= idx < entries.len() && entries[idx] == e;
                let keys = m.parameters().keys();
                assert(keys[idx] == entry_key(e));
                assert(keys.contains(entry_key(e)));
                let at = keys.index_of(entry_key(e));
                assert(0 <= at < keys.len() && keys[at] == entry_key(e));
                assert(at == idx);
            } else {
                assert(plan[j] == DrawStep::<M, V>::Submit);
            }
        }
    }
}

/// A draw pass on a realized model takes every queued replacement once, in
/// order, asks to apply those whose slot exists, and leaves none queued,
/// whatever became of each.
pub proof fn lemma_replacements_consumed_once<G, M, V>(prev: Model<G, M, V>, now: Model<G, M, V>)
    requires
        prev.wf(),
        prev.state() is Realized,
        now.drawn_from(&prev),
    ensures
        now.replacements().len() == 0,
        Model::plan_of(&prev).subrange(0, replacement_steps::<M, V>(prev.replacements(), prev.slot_count()).len() as int)
            == replacement_steps::<M, V>(prev.replacements(), prev.slot_count()),
        replacement_steps::<M, V>(prev.replacements(), prev.slot_count()) == prev.replacements().filter(
            replacement_fits::<M>(prev.slot_count()),
        ).map_values(as_assign_step::<M, V>()),
{
    let reps: Seq<DrawStep<M, V>> = replacement_steps(prev.replacements(), prev.slot_count());
    assert(Model::plan_of(&prev).subrange(0, reps.len() as int) =~= reps);
}

} // verus!
