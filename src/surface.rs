use vstd::prelude::*;
use crate::delta::Delta;
use crate::destroy_queue::DestroyQueue;
use crate::model::{models_wf, Model};
use crate::registry::Registry;

verus! {

broadcast use vstd::seq_lib::group_seq_properties;

pub open spec fn targets_model(id: u64) -> spec_fn((u64, u32)) -> bool {
    |p: (u64, u32)| p.0 == id
}

pub open spec fn as_slot() -> spec_fn((u64, u32)) -> u32 {
    |p: (u64, u32)| p.1
}

/// The slots, in order, that the applications in `pending` target on the
/// model under `id`.
pub open spec fn slots_for(pending: Seq<(u64, u32)>, id: u64) -> Seq<u32> {
    pending.filter(targets_model(id)).map_values(as_slot())
}

/// `now` is `prev` with a replacement queued for each of `slots`, in order,
/// each a clone of `material`.
pub open spec fn received<G, M: Clone, V>(
    prev: Model<G, M, V>,
    now: Model<G, M, V>,
    slots: Seq<u32>,
    material: M,
) -> bool {
    let n = prev.replacements().len();
    &&& now.wf() == prev.wf()
    &&& now.is_enabled() == prev.is_enabled()
    &&& now.path() == prev.path()
    &&& now.state() == prev.state()
    &&& now.parameters() == prev.parameters()
    &&& now.replacements().len() == n + slots.len()
    &&& now.replacements().subrange(0, n as int) == prev.replacements()
    &&& forall|j: int|
        0 <= j < slots.len() ==> (#[trigger] now.replacements()[n + j]).0 == slots[j]
            && cloned(material, now.replacements()[n + j].1)
}

/// A compositor surface as the render thread sees it: a texture and a
/// material built once, a render-ordering offset written by clients and
/// passed on only when it changes, and requests to lend its material to
/// models.
pub struct CoreSurface<T, M> {
    texture: Option<T>,
    material: Option<M>,
    material_offset: Delta<u32>,
    pending_material_applications: Vec<(u64, u32)>,
    mapped_size: Option<(u32, u32)>,
}

impl<T, M: Clone> CoreSurface<T, M> {
    pub closed spec fn texture_of(&self) -> Option<T> {
        self.texture
    }

    pub closed spec fn material_of(&self) -> Option<M> {
        self.material
    }

    pub closed spec fn offset(&self) -> Delta<u32> {
        self.material_offset
    }

    /// Models (by handle) and slots waiting to receive this surface's
    /// material, in the order asked.
    pub closed spec fn pending(&self) -> Seq<(u64, u32)> {
        self.pending_material_applications@
    }

    pub closed spec fn size_of(&self) -> Option<(u32, u32)> {
        self.mapped_size
    }

    /// The texture and the material are built together, or not at all.
    pub open spec fn wf(&self) -> bool {
        self.texture_of() is Some == self.material_of() is Some
    }

    pub fn new() -> (r: Self)
        ensures
            r.wf(),
            r.texture_of() is None,
            r.material_of() is None,
            r.offset().current() == 0,
            r.offset().observed() == 0,
            r.pending().len() == 0,
            r.size_of() is None,
    {
        CoreSurface {
            texture: None,
            material: None,
            material_offset: Delta::new(0),
            pending_material_applications: Vec::new(),
            mapped_size: None,
        }
    }

    /// Sets the render-ordering offset of the surface's material.
    pub fn set_material_offset(&mut self, material_offset: u32)
        ensures
            final(self).offset().current() == material_offset,
            final(self).offset().observed() == old(self).offset().observed(),
            final(self).texture_of() == old(self).texture_of(),
            final(self).material_of() == old(self).material_of(),
            final(self).pending() == old(self).pending(),
            final(self).size_of() == old(self).size_of(),
    {
        self.material_offset.set(material_offset);
    }

    /// Asks for this surface's material to be put into `material_idx` of the
    /// model under `model`, at the next frame that has content.
    pub fn apply_material(&mut self, model: u64, material_idx: u32)
        ensures
            final(self).pending() == old(self).pending().push((model, material_idx)),
            final(self).offset() == old(self).offset(),
            final(self).texture_of() == old(self).texture_of(),
            final(self).material_of() == old(self).material_of(),
            final(self).size_of() == old(self).size_of(),
    {
        self.pending_material_applications.push((model, material_idx));
    }

    /// The size of the content last processed, once there was some.
    pub fn size(&self) -> (r: Option<(u32, u32)>)
        ensures
            r == self.size_of(),
    {
        self.mapped_size
    }

    /// Whether the texture and material still have to be built.
    pub fn needs_resources(&self) -> (r: bool)
        requires
            self.wf(),
        ensures
            r == self.texture_of() is None,
    {
        self.texture.is_none()
    }

    /// Takes the texture and material just built. They are built once: if the
    /// surface has them already, the new ones are handed back.
    pub fn install_resources(&mut self, texture: T, material: M) -> (r: Option<(T, M)>)
        requires
            old(self).wf(),
        ensures
            final(self).wf(),
            final(self).offset() == old(self).offset(),
            final(self).pending() == old(self).pending(),
            final(self).size_of() == old(self).size_of(),
            old(self).texture_of() is None ==> r is None,
            old(self).texture_of() is None ==> final(self).texture_of() == Some(texture),
            old(self).texture_of() is None ==> final(self).material_of() == Some(material),
            old(self).texture_of() is Some ==> r == Some((texture, material)),
            old(self).texture_of() is Some ==> final(self).texture_of() == old(self).texture_of(),
            old(self).texture_of() is Some ==> final(self).material_of() == old(self).material_of(),
    {
        if self.texture.is_none() {
            self.texture = Some(texture);
            self.material = Some(material);
            None
        } else {
            Some((texture, material))
        }
    }

    pub fn texture(&self) -> (r: Option<&T>)
        ensures
            r is Some <==> self.texture_of() is Some,
            r is Some ==> *r->0 == self.texture_of()->0,
    {
        match &self.texture {
            Some(t) => Some(t),
            None => None,
        }
    }

    pub fn material(&self) -> (r: Option<&M>)
        ensures
            r is Some <==> self.material_of() is Some,
            r is Some ==> *r->0 == self.material_of()->0,
    {
        match &self.material {
            Some(m) => Some(m),
            None => None,
        }
    }

    /// Lends this surface's material to the models that asked for it: each
    /// waiting application that names a live model queues a clone of the
    /// material as a replacement for its slot; one whose model is gone is
    /// dropped. Nothing waits afterwards.
    pub fn apply_surface_materials<G, V>(&mut self, models: &mut Registry<Model<G, M, V>>)
        requires
            old(self).material_of() is Some,
            old(models).wf(),
            models_wf(old(models).members()),
        ensures
            final(self).pending().len() == 0,
            final(self).offset() == old(self).offset(),
            final(self).texture_of() == old(self).texture_of(),
            final(self).material_of() == old(self).material_of(),
            final(self).size_of() == old(self).size_of(),
            final(models).wf(),
            models_wf(final(models).members()),
            final(models).ids() == old(models).ids(),
            final(models).next_handle() == old(models).next_handle(),
            forall|k: int|
                0 <= k < old(models).members().len() ==> received(
                    old(models).members()[k].1,
                    #[trigger] final(models).members()[k].1,
                    slots_for(old(self).pending(), old(models).members()[k].0),
                    old(self).material_of()->0,
                ),
    {
        let ghost old_members = models.members();
        let ghost pending = self.pending_material_applications@;
        proof {
            assert forall|k: int| 0 <= k < old_members.len() implies received(
                old_members[k].1,
                #[trigger] models.members()[k].1,
                slots_for(pending.subrange(0, 0), old_members[k].0),
                self.material_of()->0,
            ) by {
                let r = old_members[k].1.replacements();
                assert(slots_for(pending.subrange(0, 0), old_members[k].0) =~= Seq::<u32>::empty());
                assert(r.subrange(0, r.len() as int) =~= r);
            }
        }
        let mut i: usize = 0;
        while i < self.pending_material_applications.len()
            invariant
                self == old(self),
                pending == self.pending(),
                self.material_of() is Some,
                models.wf(),
                0 <= i <= pending.len(),
                models.members().len() == old_members.len(),
                models.next_handle() == old(models).next_handle(),
                old_members == old(models).members(),
                models_wf(old_members),
                forall|k: int|
                    0 <= k < old_members.len() ==> (#[trigger] models.members()[k]).0
                        == old_members[k].0,
                forall|k: int|
                    0 <= k < old_members.len() ==> received(
                        old_members[k].1,
                        #[trigger] models.members()[k].1,
                        slots_for(pending.subrange(0, i as int), old_members[k].0),
                        self.material_of()->0,
                    ),
            decreases pending.len() - i,
        {
            let (model, slot) = self.pending_material_applications[i];
            let ghost before = models.members();
            let ghost ids_before = models.ids();
            proof {
                assert(pending.subrange(0, i + 1) =~= pending.subrange(0, i as int).push(
                    (model, slot),
                ));
                assert forall|k: int| 0 <= k < old_members.len() implies slots_for(
                    pending.subrange(0, i + 1),
                    old_members[k].0,
                ) == if model == old_members[k].0 {
                    slots_for(pending.subrange(0, i as int), old_members[k].0).push(slot)
                } else {
                    slots_for(pending.subrange(0, i as int), old_members[k].0)
                } by {
                    crate::model::lemma_filter_map_push(
                        pending.subrange(0, i as int),
                        (model, slot),
                        targets_model(old_members[k].0),
                        as_slot(),
                    );
                }
            }
            match models.position(model) {
                Some(pos) => {
                    let material = match &self.material {
                        Some(m) => m.clone(),
                        None => {
                            return;
                        },
                    };
                    let m = models.member_mut(pos);
                    m.replace_material(slot, material);
                    proof {
                        assert forall|k: int| 0 <= k < old_members.len() implies received(
                            old_members[k].1,
                            #[trigger] models.members()[k].1,
                            slots_for(pending.subrange(0, i + 1), old_members[k].0),
                            self.material_of()->0,
                        ) by {
                            let prev = old_members[k].1;
                            let n = prev.replacements().len();
                            let sl = slots_for(pending.subrange(0, i as int), old_members[k].0);
                            if k == pos {
                                let now = models.members()[k].1;
                                assert(now.replacements() == before[k].1.replacements().push(
                                    (slot, material),
                                ));
                                assert(now.replacements().subrange(0, n as int)
                                    =~= before[k].1.replacements().subrange(0, n as int));
                                assert forall|j: int|
                                    0 <= j < sl.len() + 1 implies (#[trigger] now.replacements()[n
                                    + j]).0 == sl.push(slot)[j] && cloned(
                                    self.material_of()->0,
                                    now.replacements()[n + j].1,
                                ) by {
                                    if j < sl.len() {
                                        assert(now.replacements()[n + j] == before[k].1.replacements()[n
                                            + j]);
                                    }
                                }
                            } else {
                                assert(models.members()[k] == before[k]);
                                assert(ids_before[k] != ids_before[pos as int]);
                            }
                        }
                        assert(models.ids() =~= before.map_values(
                            |e: (u64, Model<G, M, V>)| e.0,
                        ));
                        assert forall|k: int| 0 <= k < models.members().len() implies (
                        #[trigger] models.members()[k]).1.wf() by {
                            assert(received(
                                old_members[k].1,
                                models.members()[k].1,
                                slots_for(pending.subrange(0, i + 1), old_members[k].0),
                                self.material_of()->0,
                            ));
                        }
                    }
                },
                None => {
                    proof {
                        assert forall|k: int| 0 <= k < old_members.len() implies model
                            != old_members[k].0 by {
                            assert(models.ids()[k] == old_members[k].0);
                        }
                    }
                },
            }
            i = i + 1;
        }
        proof {
            assert(pending.subrange(0, i as int) =~= pending);
            assert(models.ids() =~= old(models).ids());
            assert forall|k: int| 0 <= k < models.members().len() implies (
            #[trigger] models.members()[k]).1.wf() by {
                assert(received(
                    old_members[k].1,
                    models.members()[k].1,
                    slots_for(pending, old_members[k].0),
                    self.material_of()->0,
                ));
            }
        }
        self.pending_material_applications.clear();
    }

    /// One frame of the surface. `content` is the size of the content the
    /// client has committed, or `None` when there is none yet. Without
    /// content, or before the texture and material are built, nothing changes
    /// and nothing is asked. Otherwise the size is recorded, the models that
    /// asked for the material receive it, and the result is the new
    /// render-ordering offset to set on the material, only when it changed
    /// since it was last set.
    pub fn process<G, V>(
        &mut self,
        content: Option<(u32, u32)>,
        models: &mut Registry<Model<G, M, V>>,
    ) -> (r: Option<u32>)
        requires
            old(self).wf(),
            old(models).wf(),
            models_wf(old(models).members()),
        ensures
            final(self).wf(),
            final(models).wf(),
            models_wf(final(models).members()),
            final(models).ids() == old(models).ids(),
            final(self).texture_of() == old(self).texture_of(),
            final(self).material_of() == old(self).material_of(),
            old(self).material_of() is None || content is None ==> {
                &&& r is None
                &&& *final(self) == *old(self)
                &&& *final(models) == *old(models)
            },
            old(self).material_of() is Some && content is Some ==> {
                &&& final(self).size_of() == content
                &&& final(self).pending().len() == 0
                &&& final(self).offset().current() == old(self).offset().current()
                &&& r == if old(self).offset().changed() {
                    Some(old(self).offset().current())
                } else {
                    None::<u32>
                }
                &&& final(self).offset().observed() == if old(self).offset().changed() {
                    old(self).offset().current()
                } else {
                    old(self).offset().observed()
                }
                &&& forall|k: int|
                    0 <= k < old(models).members().len() ==> received(
                        old(models).members()[k].1,
                        #[trigger] final(models).members()[k].1,
                        slots_for(old(self).pending(), old(models).members()[k].0),
                        old(self).material_of()->0,
                    )
            },
    {
        if self.material.is_none() {
            return None;
        }
        let size = match content {
            Some(size) => size,
            None => {
                return None;
            },
        };
        self.mapped_size = Some(size);
        let r = self.material_offset.delta();
        self.apply_surface_materials(models);
        r
    }

    /// Gives up the surface's texture and material, when built.
    pub fn into_resources(self) -> (r: (Option<T>, Option<M>))
        ensures
            r == (self.texture_of(), self.material_of()),
    {
        (self.texture, self.material)
    }
}

/// Drops the surface under `id` from the directory. Its texture and material,
/// if built, go to their destroy queues rather than being torn down here.
pub fn retire_surface<T, M: Clone>(
    surfaces: &mut Registry<CoreSurface<T, M>>,
    textures: &mut DestroyQueue<T>,
    materials: &mut DestroyQueue<M>,
    id: u64,
) -> (r: bool)
    requires
        old(surfaces).wf(),
    ensures
        final(surfaces).wf(),
        r == old(surfaces).contains(id),
        !final(surfaces).contains(id),
        !r ==> final(surfaces).members() == old(surfaces).members(),
        !r ==> final(textures).pending() == old(textures).pending(),
        !r ==> final(materials).pending() == old(materials).pending(),
        r ==> exists|i: int|
            {
                let prev = old(surfaces).members()[i].1;
                &&& 0 <= i < old(surfaces).members().len()
                &&& (#[trigger] old(surfaces).members()[i]).0 == id
                &&& final(surfaces).members() == old(surfaces).members().remove(i)
                &&& final(textures).pending() == match prev.texture_of() {
                    Some(t) => old(textures).pending().push(t),
                    None => old(textures).pending(),
                }
                &&& final(materials).pending() == match prev.material_of() {
                    Some(m) => old(materials).pending().push(m),
                    None => old(materials).pending(),
                }
            },
{
    match surfaces.remove(id) {
        Some(s) => {
            let (t, m) = s.into_resources();
            match t {
                Some(t) => textures.add(t),
                None => {},
            }
            match m {
                Some(m) => materials.add(m),
                None => {},
            }
            true
        },
        None => false,
    }
}

} // verus!
