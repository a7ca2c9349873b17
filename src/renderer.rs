use vstd::prelude::*;
use crate::material::{attribute_names_unique, compiled_from, first_attribute, LightConfiguration, LookupSteps, Material, MaterialInstance, ShaderError, needs_compile};

verus! {

/// A renderable object: its material instance, its vertex buffers and its vertex count.
pub struct Drawable<T, B> {
    pub material: MaterialInstance<T>,
    pub buffers: B,
    pub vertex_count: i32,
}

/// One step of a frame, for the device to carry out in order.
#[derive(Copy, Clone, PartialEq, Eq, Structural, Debug)]
pub enum RenderCommand {
    /// Activate the program of this material and push the view-projection
    /// matrix and its shared uniforms.
    UseMaterial(usize),
    /// Push this drawable's instance uniforms, bind its buffers and draw it.
    Draw(usize),
}

/// The drawables of the buckets, bucket after bucket.
pub open spec fn flatten(bs: Seq<(usize, Seq<usize>)>) -> Seq<usize>
    decreases bs.len(),
{
    if bs.len() == 0 {
        Seq::empty()
    } else {
        flatten(bs.drop_last()) + bs.last().1
    }
}

/// `i` is the first bucket of `bs` keyed `k`.
pub open spec fn is_first_bucket(bs: Seq<(usize, Seq<usize>)>, k: usize, i: int) -> bool {
    &&& 0 <= i < bs.len()
    &&& bs[i].0 == k
    &&& forall|j: int| 0 <= j < i ==> bs[j].0 != k
}

pub open spec fn has_bucket(bs: Seq<(usize, Seq<usize>)>, k: usize) -> bool {
    exists|i: int| 0 <= i < bs.len() && bs[i].0 == k
}

/// Owns the materials, the registered drawables and the buckets that group
/// drawables by material, and orders a frame's draw calls.
pub struct Renderer<P, T, B> {
    materials: Vec<Material<P, T>>,
    drawables: Vec<Drawable<T, B>>,
    mesh_repository: Vec<(usize, Vec<usize>)>,
}

impl<P, T, B> Renderer<P, T, B> {
    pub closed spec fn spec_materials(&self) -> Seq<Material<P, T>> {
        self.materials@
    }

    pub closed spec fn spec_drawable_count(&self) -> nat {
        self.drawables@.len()
    }

    /// The material key of drawable `d`: its parent material's index.
    pub closed spec fn key_of(&self, d: int) -> usize {
        self.drawables@[d].material.spec_parent()
    }

    pub open spec fn transparent_of(&self, d: int) -> bool {
        self.spec_materials()[self.key_of(d) as int].spec_transparent()
    }

    /// The buckets: each material key with its drawables in order of registration.
    pub closed spec fn buckets(&self) -> Seq<(usize, Seq<usize>)> {
        self.mesh_repository@.map_values(|b: (usize, Vec<usize>)| (b.0, b.1@))
    }

    pub closed spec fn wf(&self) -> bool {
        &&& forall|d: int| 0 <= d < self.drawables@.len() ==> #[trigger] self.key_of(d) < self.materials@.len()
        &&& forall|i: int, k: int|
            0 <= i < self.buckets().len() && 0 <= k < self.buckets()[i].1.len() ==> {
                let d = #[trigger] self.buckets()[i].1[k];
                &&& 0 <= d < self.drawables@.len()
                &&& self.key_of(d as int) == self.buckets()[i].0
            }
        &&& forall|i: int, j: int| 0 <= i < j < self.buckets().len() ==> self.buckets()[i].0 != self.buckets()[j].0
    }

    /// The drawables of `s` whose transparency is `want`, in order.
    pub open spec fn keep(&self, s: Seq<usize>, want: bool) -> Seq<usize>
        decreases s.len(),
    {
        if s.len() == 0 {
            Seq::empty()
        } else if self.transparent_of(s.last() as int) == want {
            self.keep(s.drop_last(), want).push(s.last())
        } else {
            self.keep(s.drop_last(), want)
        }
    }

    /// The draw order: every opaque drawable, then every transparent one, each
    /// group in bucket order.
    pub open spec fn draw_order(&self) -> Seq<usize> {
        self.keep(flatten(self.buckets()), false) + self.keep(flatten(self.buckets()), true)
    }

    /// The commands for drawing `s` in order: a material switch before the
    /// first drawable and wherever the material key changes, then a draw per drawable.
    pub open spec fn plan(&self, s: Seq<usize>) -> Seq<RenderCommand>
        decreases s.len(),
    {
        if s.len() == 0 {
            Seq::empty()
        } else {
            let d = s.last();
            let switch = s.len() == 1 || self.key_of(d as int) != self.key_of(s[s.len() - 2] as int);
            self.plan(s.drop_last()) + if switch {
                seq![RenderCommand::UseMaterial(self.key_of(d as int)), RenderCommand::Draw(d)]
            } else {
                seq![RenderCommand::Draw(d)]
            }
        }
    }

    /// Registers a drawable: its material instance's locations are marked looked up
    /// (the result says which lookups the device must perform), and it is appended
    /// to the bucket of its material, which is created the first time the material
    /// is seen. Registering the same object twice draws it twice.
    #[verifier::loop_isolation(false)]
    pub fn register_mesh(&mut self, drawable: Drawable<T, B>) -> (r: (usize, LookupSteps))
        requires
            old(self).wf(),
            drawable.material.spec_parent() < old(self).spec_materials().len(),
            old(self).spec_drawable_count() < usize::MAX,
        ensures
            final(self).wf(),
            r.0 == old(self).spec_drawable_count(),
            final(self).spec_drawable_count() == old(self).spec_drawable_count() + 1,
            final(self).key_of(r.0 as int) == drawable.material.spec_parent(),
            forall|d: int| 0 <= d < old(self).spec_drawable_count() ==> #[trigger] final(self).key_of(d) == old(self).key_of(d),
            ({
                let k = drawable.material.spec_parent();
                let m0 = old(self).spec_materials()[k as int];
                &&& r.1.parent == !m0.spec_lookup_done()
                &&& r.1.instance == !drawable.material.is_resolved(&m0)
                &&& final(self).spec_materials().len() == old(self).spec_materials().len()
                &&& final(self).spec_materials()[k as int].spec_lookup_done()
                &&& final(self).spec_materials()[k as int].same_but_lookup(&m0)
                &&& forall|j: int| 0 <= j < old(self).spec_materials().len() && j != k ==> final(self).spec_materials()[j]
                    == old(self).spec_materials()[j]
                &&& forall|i: int| is_first_bucket(old(self).buckets(), k, i) ==> final(self).buckets() == old(self).buckets().update(
                    i,
                    (k, old(self).buckets()[i].1.push(r.0)),
                )
                &&& !has_bucket(old(self).buckets(), k) ==> final(self).buckets() == old(self).buckets().push((k, seq![r.0]))
            }),
    {
        let mut drawable = drawable;
        let k = drawable.material.get_parent();
        let steps = drawable.material.lookup_locations(&mut self.materials[k]);
        let idx = self.drawables.len();
        self.drawables.push(drawable);
        proof {
            assert(self.materials@.len() == old(self).materials@.len());
            assert(forall|j: int| 0 <= j < old(self).materials@.len() && j != k ==> self.materials@[j] == old(self).materials@[j]);
            assert(self.key_of(idx as int) == k);
            assert forall|d: int| 0 <= d < idx implies #[trigger] self.key_of(d) == old(self).key_of(d) by {
                assert(self.drawables@[d] == old(self).drawables@[d]);
            }
        }
        let ghost b0 = self.buckets();
        proof {
            assert(b0 == old(self).buckets());
        }
        let ghost s1 = *self;
        let mut i: usize = 0;
        while i < self.mesh_repository.len()
            invariant
                i <= self.mesh_repository.len(),
                self.drawables == s1.drawables,
                self.materials == s1.materials,
                self.mesh_repository == old(self).mesh_repository,
                b0 == self.buckets(),
                forall|j: int| 0 <= j < i ==> b0[j].0 != k,
            decreases self.mesh_repository.len() - i,
        {
            if self.mesh_repository[i].0 == k {
                self.mesh_repository[i].1.push(idx);
                proof {
                    assert(self.buckets() =~= b0.update(i as int, (k, b0[i as int].1.push(idx))));
                    assert forall|j: int| is_first_bucket(b0, k, j) implies self.buckets() == b0.update(j, (k, b0[j].1.push(idx))) by {
                        assert(j == i);
                    }
                    self.lemma_register_wf(*old(self), idx, i as int);
                }
                return (idx, steps);
            }
            i += 1;
        }
        let mut v: Vec<usize> = Vec::new();
        v.push(idx);
        self.mesh_repository.push((k, v));
        proof {
            assert(v@ =~= seq![idx]);
            assert(self.buckets() =~= b0.push((k, seq![idx])));
            assert(forall|j: int| 0 <= j < b0.len() ==> b0[j].0 != k);
            self.lemma_register_wf(*old(self), idx, -1);
        }
        (idx, steps)
    }

    proof fn lemma_same_drawables(&self, o: Self)
        requires
            o.wf(),
            self.drawables == o.drawables,
            self.mesh_repository == o.mesh_repository,
            self.materials@.len() >= o.materials@.len(),
        ensures
            self.wf(),
    {
        assert(self.buckets() == o.buckets());
        assert forall|d: int| 0 <= d < self.drawables@.len() implies #[trigger] self.key_of(d) < self.materials@.len() by {
            assert(o.key_of(d) < o.materials@.len());
        }
    }

    proof fn lemma_register_wf(&self, o: Self, idx: usize, bi: int)
        requires
            o.wf(),
            idx == o.drawables@.len(),
            self.drawables@.len() == idx + 1,
            self.materials@.len() == o.materials@.len(),
            forall|d: int| 0 <= d < idx ==> #[trigger] self.key_of(d) == o.key_of(d),
            self.key_of(idx as int) < self.materials@.len(),
            0 <= bi < o.buckets().len() ==> self.buckets() == o.buckets().update(bi, (self.key_of(idx as int), o.buckets()[bi].1.push(idx)))
                && o.buckets()[bi].0 == self.key_of(idx as int),
            !(0 <= bi < o.buckets().len()) ==> self.buckets() == o.buckets().push((self.key_of(idx as int), seq![idx]))
                && forall|j: int| 0 <= j < o.buckets().len() ==> o.buckets()[j].0 != self.key_of(idx as int),
        ensures
            self.wf(),
    {
        assert forall|d: int| 0 <= d < self.drawables@.len() implies #[trigger] self.key_of(d) < self.materials@.len() by {
            if d < idx {
                assert(o.key_of(d) < o.materials@.len());
            }
        }
        let ob = o.buckets();
        assert forall|i: int, j: int| 0 <= i < j < self.buckets().len() implies self.buckets()[i].0 != self.buckets()[j].0 by {
            if j < ob.len() {
                assert(self.buckets()[i].0 == ob[i].0 && self.buckets()[j].0 == ob[j].0);
            } else {
                assert(self.buckets()[i].0 == ob[i].0);
            }
        }
        assert forall|i: int, k: int| 0 <= i < self.buckets().len() && 0 <= k < self.buckets()[i].1.len() implies {
            let d = #[trigger] self.buckets()[i].1[k];
            &&& 0 <= d < self.drawables@.len()
            &&& self.key_of(d as int) == self.buckets()[i].0
        } by {
            if i < ob.len() && k < ob[i].1.len() {
                assert(self.buckets()[i].1[k] == ob[i].1[k]);
                assert(ob[i].1[k] < idx);
            }
        }
    }

    proof fn lemma_keep_push(&self, s: Seq<usize>, x: usize, want: bool)
        ensures
            self.keep(s.push(x), want) == if self.transparent_of(x as int) == want {
                self.keep(s, want).push(x)
            } else {
                self.keep(s, want)
            },
    {
        assert(s.push(x).drop_last() =~= s);
    }

    /// The registered drawables in draw order: all opaque ones, then all
    /// transparent ones, each group in bucket order.
    pub fn sort_objects(&self) -> (r: Vec<usize>)
        requires
            self.wf(),
        ensures
            r@ == self.draw_order(),
            forall|j: int| 0 <= j < r@.len() ==> #[trigger] r@[j] < self.spec_drawable_count(),
    {
        let mut opaque: Vec<usize> = Vec::new();
        let mut transparent: Vec<usize> = Vec::new();
        let ghost bs = self.buckets();
        let mut b: usize = 0;
        proof {
            assert(bs.subrange(0, 0) =~= Seq::<(usize, Seq<usize>)>::empty());
        }
        while b < self.mesh_repository.len()
            invariant
                self.wf(),
                bs == self.buckets(),
                b <= self.mesh_repository.len(),
                opaque@ == self.keep(flatten(bs.subrange(0, b as int)), false),
                transparent@ == self.keep(flatten(bs.subrange(0, b as int)), true),
                forall|j: int| 0 <= j < opaque@.len() ==> #[trigger] opaque@[j] < self.drawables@.len(),
                forall|j: int| 0 <= j < transparent@.len() ==> #[trigger] transparent@[j] < self.drawables@.len(),
            decreases self.mesh_repository.len() - b,
        {
            let ghost pre = flatten(bs.subrange(0, b as int));
            let ghost bucket = bs[b as int].1;
            let mut k: usize = 0;
            proof {
                assert(pre + bucket.subrange(0, 0) =~= pre);
            }
            while k < self.mesh_repository[b].1.len()
                invariant
                    self.wf(),
                    bs == self.buckets(),
                    b < self.mesh_repository.len(),
                    bucket == bs[b as int].1,
                    bucket == self.mesh_repository@[b as int].1@,
                    k <= bucket.len(),
                    opaque@ == self.keep(pre + bucket.subrange(0, k as int), false),
                    transparent@ == self.keep(pre + bucket.subrange(0, k as int), true),
                    forall|j: int| 0 <= j < opaque@.len() ==> #[trigger] opaque@[j] < self.drawables@.len(),
                    forall|j: int| 0 <= j < transparent@.len() ==> #[trigger] transparent@[j] < self.drawables@.len(),
                decreases bucket.len() - k,
            {
                let d = self.mesh_repository[b].1[k];
                proof {
                    assert(bs[b as int].1[k as int] == d);
                    assert(self.key_of(d as int) < self.materials@.len());
                    assert(pre + bucket.subrange(0, k + 1) =~= (pre + bucket.subrange(0, k as int)).push(d));
                    self.lemma_keep_push(pre + bucket.subrange(0, k as int), d, false);
                    self.lemma_keep_push(pre + bucket.subrange(0, k as int), d, true);
                }
                if self.materials[self.drawables[d].material.get_parent()].is_transparent() {
                    transparent.push(d);
                } else {
                    opaque.push(d);
                }
                k += 1;
            }
            proof {
                assert(bs.subrange(0, b + 1).drop_last() =~= bs.subrange(0, b as int));
                assert(bucket.subrange(0, bucket.len() as int) =~= bucket);
            }
            b += 1;
        }
        proof {
            assert(bs.subrange(0, b as int) =~= bs);
        }
        opaque.append(&mut transparent);
        opaque
    }

    /// The commands of a frame: the draw order of `sort_objects`, with one
    /// material switch wherever the material key changes and one draw per drawable.
    pub fn render_objects(&self) -> (r: Vec<RenderCommand>)
        requires
            self.wf(),
        ensures
            r@ == self.plan(self.draw_order()),
    {
        let order = self.sort_objects();
        let mut out: Vec<RenderCommand> = Vec::new();
        let mut i: usize = 0;
        proof {
            assert(order@.subrange(0, 0) =~= Seq::<usize>::empty());
        }
        while i < order.len()
            invariant
                self.wf(),
                i <= order.len(),
                forall|j: int| 0 <= j < order@.len() ==> #[trigger] order@[j] < self.drawables@.len(),
                out@ == self.plan(order@.subrange(0, i as int)),
            decreases order.len() - i,
        {
            let d = order[i];
            let key = self.drawables[d].material.get_parent();
            let ghost s = order@.subrange(0, i + 1);
            proof {
                assert(s.drop_last() =~= order@.subrange(0, i as int));
                assert(s.last() == d);
                if i > 0 {
                    assert(s[s.len() - 2] == order@[i - 1]);
                }
            }
            let ghost out0 = out@;
            if i == 0 || key != self.drawables[order[i - 1]].material.get_parent() {
                out.push(RenderCommand::UseMaterial(key));
                out.push(RenderCommand::Draw(d));
                proof {
                    assert(out@ =~= out0 + seq![RenderCommand::UseMaterial(key), RenderCommand::Draw(d)]);
                }
            } else {
                out.push(RenderCommand::Draw(d));
                proof {
                    assert(out@ =~= out0 + seq![RenderCommand::Draw(d)]);
                }
            }
            i += 1;
        }
        proof {
            assert(order@.subrange(0, i as int) =~= order@);
        }
        out
    }

    pub fn new() -> (r: Self)
        ensures
            r.wf(),
            r.spec_materials().len() == 0,
            r.spec_drawable_count() == 0,
            r.buckets().len() == 0,
    {
        let r = Renderer { materials: Vec::new(), drawables: Vec::new(), mesh_repository: Vec::new() };
        proof {
            assert(r.buckets() =~= Seq::<(usize, Seq<usize>)>::empty());
        }
        r
    }

    /// Adds a material to the arena and returns its index.
    pub fn add_material(&mut self, m: Material<P, T>) -> (i: usize)
        requires
            old(self).wf(),
            old(self).spec_materials().len() < usize::MAX,
        ensures
            final(self).wf(),
            i == old(self).spec_materials().len(),
            final(self).spec_materials() == old(self).spec_materials().push(m),
            final(self).buckets() == old(self).buckets(),
            final(self).spec_drawable_count() == old(self).spec_drawable_count(),
            forall|d: int| 0 <= d < old(self).spec_drawable_count() ==> #[trigger] final(self).key_of(d) == old(self).key_of(d),
    {
        let i = self.materials.len();
        self.materials.push(m);
        proof {
            self.lemma_same_drawables(*old(self));
        }
        i
    }

    pub fn material_count(&self) -> (r: usize)
        ensures
            r == self.spec_materials().len(),
    {
        self.materials.len()
    }

    pub fn drawable_count(&self) -> (r: usize)
        ensures
            r == self.spec_drawable_count(),
    {
        self.drawables.len()
    }

    pub fn get_material(&self, i: usize) -> (r: &Material<P, T>)
        requires
            i < self.spec_materials().len(),
        ensures
            *r == self.spec_materials()[i as int],
    {
        &self.materials[i]
    }

    pub fn get_drawable(&self, d: usize) -> (r: &Drawable<T, B>)
        requires
            d < self.spec_drawable_count(),
        ensures
            r.material.spec_parent() == self.key_of(d as int),
    {
        &self.drawables[d]
    }

    /// Whether material `i` has to be (re)built for `light_config`.
    pub fn should_compile(&self, i: usize, light_config: &LightConfiguration) -> (r: bool)
        requires
            i < self.spec_materials().len(),
        ensures
            r == needs_compile(self.spec_materials()[i as int], *light_config),
    {
        self.materials[i].should_compile(light_config)
    }

    /// The sources to build material `i` from for `light_config`.
    pub fn prepare_sources(&self, i: usize, light_config: &LightConfiguration) -> (r: (String, String))
        requires
            i < self.spec_materials().len(),
        ensures
            r.0@ == crate::material::light_substituted(self.spec_materials()[i as int].spec_vertex(), *light_config),
            r.1@ == crate::material::light_substituted(self.spec_materials()[i as int].spec_fragment(), *light_config),
    {
        self.materials[i].prepare_sources(light_config)
    }

    /// Records in material `i` the location of attribute `name`, unless it has one.
    pub fn register_attribute_location(&mut self, i: usize, name: &str, location: i32)
        requires
            old(self).wf(),
            i < old(self).spec_materials().len(),
        ensures
            final(self).wf(),
            final(self).spec_materials().len() == old(self).spec_materials().len(),
            forall|j: int| 0 <= j < old(self).spec_materials().len() && j != i ==> final(self).spec_materials()[j] == old(self).spec_materials()[j],
            ({
                let m0 = old(self).spec_materials()[i as int];
                let m1 = final(self).spec_materials()[i as int];
                &&& first_attribute(m0.spec_attributes(), name@) is Some ==> m1 == m0
                &&& first_attribute(m0.spec_attributes(), name@) is None ==> first_attribute(m1.spec_attributes(), name@) == Some(location)
                &&& forall|n: Seq<char>| n != name@ ==> first_attribute(m1.spec_attributes(), n) == first_attribute(m0.spec_attributes(), n)
                &&& attribute_names_unique(m0.spec_attributes()) ==> attribute_names_unique(m1.spec_attributes())
                &&& m1.spec_uniforms() == m0.spec_uniforms()
                &&& m1.spec_program() == m0.spec_program()
                &&& m1.spec_lookup_done() == m0.spec_lookup_done()
            }),
            final(self).buckets() == old(self).buckets(),
            final(self).spec_drawable_count() == old(self).spec_drawable_count(),
            forall|d: int| 0 <= d < old(self).spec_drawable_count() ==> #[trigger] final(self).key_of(d) == old(self).key_of(d),
    {
        self.materials[i].register_new_attribute_location(name, location);
        proof {
            self.lemma_same_drawables(*old(self));
        }
    }

    /// Installs in material `i` the program that the device built for it.
    pub fn compile_material(&mut self, i: usize, built: Result<P, ShaderError>, light_config: &LightConfiguration) -> (r: Result<
        (),
        ShaderError,
    >)
        requires
            old(self).wf(),
            i < old(self).spec_materials().len(),
        ensures
            final(self).wf(),
            final(self).spec_materials().len() == old(self).spec_materials().len(),
            forall|j: int| 0 <= j < old(self).spec_materials().len() && j != i ==> final(self).spec_materials()[j] == old(self).spec_materials()[j],
            built matches Err(e) ==> final(self).spec_materials()[i as int] == old(self).spec_materials()[i as int] && r == Err::<(), ShaderError>(e),
            built matches Ok(p) ==> r is Ok && compiled_from(final(self).spec_materials()[i as int], old(self).spec_materials()[i as int], p, *light_config),
            final(self).buckets() == old(self).buckets(),
            final(self).spec_drawable_count() == old(self).spec_drawable_count(),
            forall|d: int| 0 <= d < old(self).spec_drawable_count() ==> #[trigger] final(self).key_of(d) == old(self).key_of(d),
    {
        let r = self.materials[i].compile(built, light_config);
        proof {
            self.lemma_same_drawables(*old(self));
        }
        r
    }
}

} // verus!
