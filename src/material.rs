use vstd::prelude::*;
use crate::shader_text::{chars_of, contains_exec, contains_text, decimal, decimal_chars, replace_all, replaced, string_of};

verus! {

/// The number of lights of each kind that a shader is compiled for.
#[derive(Copy, Clone, PartialEq, Eq, Structural, Debug)]
pub struct LightConfiguration {
    pub directional: usize,
    pub point: usize,
    pub spot: usize,
}

/// Why a shader program could not be built; each carries the device's diagnostic.
#[derive(Clone, PartialEq, Eq, Debug)]
pub enum ShaderError {
    /// A vertex or fragment stage failed to compile.
    Stage(String),
    /// Both stages compiled but the program failed to link.
    Link(String),
}

/// A named shader input, with the texture unit it is bound to if it is a texture.
pub struct Uniform<T> {
    pub name: String,
    pub value: T,
    pub texture_index: Option<u32>,
}

impl<T> Uniform<T> {
    pub fn new(name: String, value: T, texture_index: Option<u32>) -> (u: Uniform<T>)
        ensures
            u.name == name,
            u.value == value,
            u.texture_index == texture_index,
    {
        Uniform { name, value, texture_index }
    }
}

/// `i` is the first position of `us` whose uniform is named `name`.
pub open spec fn is_first_match<T>(us: Seq<Uniform<T>>, name: Seq<char>, i: int) -> bool {
    &&& 0 <= i < us.len()
    &&& us[i].name@ == name
    &&& forall|j: int| 0 <= j < i ==> us[j].name@ != name
}

pub open spec fn has_name<T>(us: Seq<Uniform<T>>, name: Seq<char>) -> bool {
    exists|i: int| 0 <= i < us.len() && us[i].name@ == name
}

/// `us` with `u` in place of the first uniform of the same name, or with `u`
/// appended when there is none.
pub open spec fn upserted<T>(us: Seq<Uniform<T>>, u: Uniform<T>, r: Seq<Uniform<T>>) -> bool {
    &&& forall|i: int| is_first_match(us, u.name@, i) ==> r == us.update(i, u)
    &&& !has_name(us, u.name@) ==> r == us.push(u)
}

/// The names of the uniforms of `us` that are bound to a texture unit, with that unit.
pub open spec fn texture_entries<T>(us: Seq<Uniform<T>>) -> Seq<(Seq<char>, u32)>
    decreases us.len(),
{
    if us.len() == 0 {
        Seq::empty()
    } else {
        let rest = texture_entries(us.drop_last());
        match us.last().texture_index {
            Some(t) => rest.push((us.last().name@, t)),
            None => rest,
        }
    }
}

/// Replaces the uniform named like `u` in `us`, or appends `u`.
pub fn upsert_uniform<T>(us: &mut Vec<Uniform<T>>, u: Uniform<T>)
    ensures
        upserted(old(us)@, u, final(us)@),
{
    let mut i: usize = 0;
    while i < us.len()
        invariant
            us@ == old(us)@,
            i <= us.len(),
            forall|j: int| 0 <= j < i ==> us@[j].name@ != u.name@,
        decreases us.len() - i,
    {
        if us[i].name == u.name {
            let ghost o = us@;
            us[i] = u;
            proof {
                assert forall|k: int| is_first_match(o, u.name@, k) implies us@ == o.update(k, u) by {
                    assert(k == i);
                }
            }
            return;
        }
        i += 1;
    }
    us.push(u);
}

/// Upserts each uniform of `batch` in turn.
pub fn upsert_all<T>(us: &mut Vec<Uniform<T>>, batch: Vec<Uniform<T>>)
    ensures
        exists|steps: Seq<Seq<Uniform<T>>>| {
            &&& steps.len() == batch@.len() + 1
            &&& steps[0] == old(us)@
            &&& steps.last() == final(us)@
            &&& forall|k: int| 0 <= k < batch@.len() ==> upserted(#[trigger] steps[k], batch@[k], steps[k + 1])
        },
{
    let ghost b = batch@;
    let ghost mut steps: Seq<Seq<Uniform<T>>> = seq![us@];
    let mut batch = batch;
    let total = batch.len();
    let mut n: usize = 0;
    while batch.len() > 0
        invariant
            batch@.len() + n == b.len(),
            b.len() == total,
            batch@ == b.subrange(n as int, b.len() as int),
            steps.len() == n + 1,
            steps[0] == old(us)@,
            steps.last() == us@,
            forall|k: int| 0 <= k < n ==> upserted(#[trigger] steps[k], b[k], steps[k + 1]),
        decreases batch@.len(),
    {
        let u = batch.remove(0);
        proof {
            assert(u == b[n as int]);
        }
        let ghost prev = steps;
        upsert_uniform(us, u);
        proof {
            steps = steps.push(us@);
            assert forall|k: int| 0 <= k < n + 1 implies upserted(#[trigger] steps[k], b[k], steps[k + 1]) by {
                if k < n {
                    assert(steps[k] == prev[k] && steps[k + 1] == prev[k + 1]);
                }
            }
            assert(batch@ =~= b.subrange(n + 1, b.len() as int));
        }
        n += 1;
    }
}


/// The token whose presence in a shader source makes a material lit.
pub open spec fn lighting_marker() -> Seq<char> {
    "Light"@
}

/// `s` with the light-count placeholders replaced by the counts of `c`; a
/// shader's own `#define` of a count is commented out first.
pub open spec fn light_substituted(s: Seq<char>, c: LightConfiguration) -> Seq<char> {
    let s1 = replaced(s, "#define NUM_DIR_LIGHTS"@, "//"@);
    let s2 = replaced(s1, "#define NUM_POINT_LIGHTS"@, "//"@);
    let s3 = replaced(s2, "#define NUM_SPOT_LIGHTS"@, "//"@);
    let s4 = replaced(s3, "NUM_DIR_LIGHTS"@, decimal(c.directional as nat));
    let s5 = replaced(s4, "NUM_POINT_LIGHTS"@, decimal(c.point as nat));
    replaced(s5, "NUM_SPOT_LIGHTS"@, decimal(c.spot as nat))
}

/// The light-count placeholders of `shader` replaced by the counts of `light_config`.
pub fn replace_light_constants(shader: &str, light_config: &LightConfiguration) -> (r: String)
    ensures
        r@ == light_substituted(shader@, *light_config),
{
    let s0 = chars_of(shader);
    let comment = chars_of("//");
    let s1 = replace_all(&s0, &chars_of("#define NUM_DIR_LIGHTS"), &comment);
    let s2 = replace_all(&s1, &chars_of("#define NUM_POINT_LIGHTS"), &comment);
    let s3 = replace_all(&s2, &chars_of("#define NUM_SPOT_LIGHTS"), &comment);
    let s4 = replace_all(&s3, &chars_of("NUM_DIR_LIGHTS"), &decimal_chars(light_config.directional));
    let s5 = replace_all(&s4, &chars_of("NUM_POINT_LIGHTS"), &decimal_chars(light_config.point));
    let s6 = replace_all(&s5, &chars_of("NUM_SPOT_LIGHTS"), &decimal_chars(light_config.spot));
    proof {
        let c = *light_config;
        assert(s1@ == replaced(shader@, "#define NUM_DIR_LIGHTS"@, "//"@));
        assert(s4@ == replaced(s3@, "NUM_DIR_LIGHTS"@, decimal(c.directional as nat)));
        assert(s6@ == light_substituted(shader@, c));
    }
    string_of(&s6)
}

/// `m` is `m0` with program `p` installed for `c`: the configuration is
/// recorded, the generation advanced, the attribute cache emptied and the
/// locations due for lookup; sources, flags, uniforms and id are kept.
pub open spec fn compiled_from<P, T>(m: Material<P, T>, m0: Material<P, T>, p: P, c: LightConfiguration) -> bool {
    &&& m.spec_program() == Some(p)
    &&& m.spec_light_config() == c
    &&& !m.spec_lookup_done()
    &&& m.spec_generation() == (if m0.spec_generation() == u64::MAX { 0 } else { (m0.spec_generation() + 1) as u64 })
    &&& m.spec_transparent() == m0.spec_transparent()
    &&& m.spec_lit() == m0.spec_lit()
    &&& m.spec_vertex() == m0.spec_vertex()
    &&& m.spec_fragment() == m0.spec_fragment()
    &&& m.spec_uniforms() == m0.spec_uniforms()
    &&& m.spec_id() == m0.spec_id()
    &&& m.spec_attributes().len() == 0
    &&& attribute_names_unique(m.spec_attributes())
}

/// Whether `m` has to be (re)built for `c`: it has no program yet, or it is lit
/// and was built for other light counts.
pub open spec fn needs_compile<P, T>(m: Material<P, T>, c: LightConfiguration) -> bool {
    m.spec_program() is None || (m.spec_lit() && c != m.spec_light_config())
}

/// The first entry of `v` named `name`, if any.
pub open spec fn first_attribute(v: Seq<(String, i32)>, name: Seq<char>) -> Option<i32>
    decreases v.len(),
{
    if v.len() == 0 {
        None
    } else if v[0].0@ == name {
        Some(v[0].1)
    } else {
        first_attribute(v.drop_first(), name)
    }
}

/// No two recorded attributes share a name.
pub open spec fn attribute_names_unique(v: Seq<(String, i32)>) -> bool {
    forall|i: int, j: int| 0 <= i < j < v.len() ==> v[i].0@ != v[j].0@
}

proof fn lemma_first_attribute_none(v: Seq<(String, i32)>, n: Seq<char>)
    requires
        first_attribute(v, n) is None,
    ensures
        forall|i: int| 0 <= i < v.len() ==> v[i].0@ != n,
    decreases v.len(),
{
    if v.len() > 0 {
        lemma_first_attribute_none(v.drop_first(), n);
        assert forall|i: int| 0 <= i < v.len() implies v[i].0@ != n by {
            if i > 0 {
                assert(v[i] == v.drop_first()[i - 1]);
            }
        }
    }
}

proof fn lemma_first_attribute_push(v: Seq<(String, i32)>, x: (String, i32), n: Seq<char>)
    ensures
        first_attribute(v.push(x), n) == (if first_attribute(v, n) is Some { first_attribute(v, n) } else if x.0@ == n {
            Some(x.1)
        } else {
            None
        }),
    decreases v.len(),
{
    if v.len() > 0 {
        assert(v.push(x).drop_first() =~= v.drop_first().push(x));
        assert(v.push(x)[0] == v[0]);
        lemma_first_attribute_push(v.drop_first(), x, n);
    } else {
        assert(v.push(x).drop_first() =~= Seq::<(String, i32)>::empty());
        assert(v.push(x)[0] == x);
        assert(first_attribute(Seq::<(String, i32)>::empty(), n) is None);
    }
}

fn find_attribute(v: &Vec<(String, i32)>, name: &String) -> (r: Option<i32>)
    ensures
        r == first_attribute(v@, name@),
{
    let mut i: usize = 0;
    proof {
        assert(v@.subrange(0, v@.len() as int) =~= v@);
    }
    while i < v.len()
        invariant
            i <= v.len(),
            first_attribute(v@, name@) == first_attribute(v@.subrange(i as int, v@.len() as int), name@),
        decreases v.len() - i,
    {
        proof {
            assert(v@.subrange(i as int, v@.len() as int).drop_first() =~= v@.subrange(i + 1, v@.len() as int));
        }
        if v[i].0 == *name {
            return Some(v[i].1);
        }
        i += 1;
    }
    None
}

/// A compiled shader program, the uniforms shared by all of its instances, and
/// what it was last compiled for.
pub struct Material<P, T> {
    program: Option<P>,
    opaque: bool,
    lit: bool,
    vertex_shader: String,
    fragment_shader: String,
    attribute_locations: Vec<(String, i32)>,
    shared_uniforms: Vec<Uniform<T>>,
    id: String,
    light_configuration: LightConfiguration,
    lookup_done: bool,
    generation: u64,
}

impl<P, T> Material<P, T> {
    pub closed spec fn spec_program(&self) -> Option<P> {
        self.program
    }

    pub closed spec fn spec_transparent(&self) -> bool {
        !self.opaque
    }

    pub closed spec fn spec_lit(&self) -> bool {
        self.lit
    }

    pub closed spec fn spec_vertex(&self) -> Seq<char> {
        self.vertex_shader@
    }

    pub closed spec fn spec_fragment(&self) -> Seq<char> {
        self.fragment_shader@
    }

    pub closed spec fn spec_attributes(&self) -> Seq<(String, i32)> {
        self.attribute_locations@
    }

    pub closed spec fn spec_uniforms(&self) -> Seq<Uniform<T>> {
        self.shared_uniforms@
    }

    pub closed spec fn spec_id(&self) -> Seq<char> {
        self.id@
    }

    pub closed spec fn spec_light_config(&self) -> LightConfiguration {
        self.light_configuration
    }

    pub closed spec fn spec_lookup_done(&self) -> bool {
        self.lookup_done
    }

    /// How many times a program has been installed, modulo 2^64.
    pub closed spec fn spec_generation(&self) -> u64 {
        self.generation
    }

    /// Everything but the lookup flag is as in `o`.
    pub open spec fn same_but_lookup(&self, o: &Self) -> bool {
        &&& self.spec_program() == o.spec_program()
        &&& self.spec_transparent() == o.spec_transparent()
        &&& self.spec_lit() == o.spec_lit()
        &&& self.spec_vertex() == o.spec_vertex()
        &&& self.spec_fragment() == o.spec_fragment()
        &&& self.spec_attributes() == o.spec_attributes()
        &&& self.spec_uniforms() == o.spec_uniforms()
        &&& self.spec_id() == o.spec_id()
        &&& self.spec_light_config() == o.spec_light_config()
        &&& self.spec_generation() == o.spec_generation()
    }

    /// Everything but the transparency is as in `o`.
    pub open spec fn same_but_transparency(&self, o: &Self) -> bool {
        &&& self.spec_program() == o.spec_program()
        &&& self.spec_lit() == o.spec_lit()
        &&& self.spec_vertex() == o.spec_vertex()
        &&& self.spec_fragment() == o.spec_fragment()
        &&& self.spec_attributes() == o.spec_attributes()
        &&& self.spec_uniforms() == o.spec_uniforms()
        &&& self.spec_id() == o.spec_id()
        &&& self.spec_light_config() == o.spec_light_config()
        &&& self.spec_lookup_done() == o.spec_lookup_done()
        &&& self.spec_generation() == o.spec_generation()
    }

    /// Everything but the uniforms is as in `o`.
    pub open spec fn same_but_uniforms(&self, o: &Self) -> bool {
        &&& self.spec_program() == o.spec_program()
        &&& self.spec_transparent() == o.spec_transparent()
        &&& self.spec_lit() == o.spec_lit()
        &&& self.spec_vertex() == o.spec_vertex()
        &&& self.spec_fragment() == o.spec_fragment()
        &&& self.spec_attributes() == o.spec_attributes()
        &&& self.spec_id() == o.spec_id()
        &&& self.spec_light_config() == o.spec_light_config()
        &&& self.spec_lookup_done() == o.spec_lookup_done()
        &&& self.spec_generation() == o.spec_generation()
    }

    /// A material for the two sources, opaque and not compiled yet; it is lit
    /// when either source mentions the lighting marker.
    pub fn new(vert: &str, frag: &str, id: &str) -> (m: Self)
        ensures
            m.spec_program() is None,
            !m.spec_transparent(),
            m.spec_lit() == (contains_text(vert@, lighting_marker()) || contains_text(frag@, lighting_marker())),
            m.spec_vertex() == vert@,
            m.spec_fragment() == frag@,
            m.spec_attributes().len() == 0,
            attribute_names_unique(m.spec_attributes()),
            m.spec_uniforms().len() == 0,
            m.spec_id() == id@,
            m.spec_light_config() == (LightConfiguration { directional: 0, point: 0, spot: 0 }),
            !m.spec_lookup_done(),
            m.spec_generation() == 0,
    {
        let marker = chars_of("Light");
        let lit = contains_exec(&chars_of(vert), &marker) || contains_exec(&chars_of(frag), &marker);
        Material {
            program: None,
            opaque: true,
            lit,
            vertex_shader: vert.to_owned(),
            fragment_shader: frag.to_owned(),
            attribute_locations: Vec::new(),
            shared_uniforms: Vec::new(),
            id: id.to_owned(),
            light_configuration: LightConfiguration { directional: 0, point: 0, spot: 0 },
            lookup_done: false,
            generation: 0,
        }
    }

    /// The vertex and fragment sources to build for `light_config`.
    pub fn prepare_sources(&self, light_config: &LightConfiguration) -> (r: (String, String))
        ensures
            r.0@ == light_substituted(self.spec_vertex(), *light_config),
            r.1@ == light_substituted(self.spec_fragment(), *light_config),
    {
        (
            replace_light_constants(self.vertex_shader.as_str(), light_config),
            replace_light_constants(self.fragment_shader.as_str(), light_config),
        )
    }

    /// Installs the program that the device built from `prepare_sources(light_config)`.
    /// On success the configuration is recorded, the cached attribute locations
    /// are dropped and the locations must be looked up again; on failure the material is left as it was and the error returned.
    pub fn compile(&mut self, built: Result<P, ShaderError>, light_config: &LightConfiguration) -> (r: Result<(), ShaderError>)
        ensures
            match built {
                Ok(p) => r is Ok && compiled_from(*final(self), *old(self), p, *light_config),
                Err(e) => r == Err::<(), ShaderError>(e) && *final(self) == *old(self),
            },
    {
        match built {
            Ok(p) => {
                self.program = Some(p);
                self.light_configuration = *light_config;
                self.lookup_done = false;
                self.attribute_locations = Vec::new();
                self.generation = if self.generation == u64::MAX { 0 } else { self.generation + 1 };
                Ok(())
            },
            Err(e) => Err(e),
        }
    }

    /// Whether the program has to be (re)built for `light_config`.
    pub fn should_compile(&self, light_config: &LightConfiguration) -> (r: bool)
        ensures
            r == needs_compile(*self, *light_config),
    {
        self.program.is_none() || (self.lit && *light_config != self.light_configuration)
    }

    /// Records the location of attribute `name` unless one is recorded already.
    pub fn register_new_attribute_location(&mut self, name: &str, location: i32)
        ensures
            first_attribute(old(self).spec_attributes(), name@) is Some ==> *final(self) == *old(self),
            first_attribute(old(self).spec_attributes(), name@) is None ==> first_attribute(final(self).spec_attributes(), name@)
                == Some(location),
            forall|n: Seq<char>| n != name@ ==> first_attribute(final(self).spec_attributes(), n) == first_attribute(
                old(self).spec_attributes(),
                n,
            ),
            attribute_names_unique(old(self).spec_attributes()) ==> attribute_names_unique(final(self).spec_attributes()),
            final(self).spec_uniforms() == old(self).spec_uniforms(),
            final(self).spec_program() == old(self).spec_program(),
            final(self).spec_lookup_done() == old(self).spec_lookup_done(),
    {
        let owned = name.to_owned();
        if find_attribute(&self.attribute_locations, &owned).is_none() {
            let ghost v0 = self.attribute_locations@;
            self.attribute_locations.push((owned, location));
            proof {
                lemma_first_attribute_none(v0, owned@);
                assert forall|i: int, j: int| 0 <= i < j < self.attribute_locations@.len()
                    && attribute_names_unique(v0) implies self.attribute_locations@[i].0@ != self.attribute_locations@[j].0@ by {
                    if j == v0.len() {
                        assert(self.attribute_locations@[i] == v0[i]);
                    } else {
                        assert(self.attribute_locations@[i] == v0[i] && self.attribute_locations@[j] == v0[j]);
                    }
                }
                assert forall|n: Seq<char>| #![auto] first_attribute(v0.push((owned, location)), n)
                    == (if first_attribute(v0, n) is Some { first_attribute(v0, n) } else if owned@ == n { Some(location) } else { None }) by {
                    lemma_first_attribute_push(v0, (owned, location), n);
                }
            }
        }
    }

    /// The recorded location of attribute `name`.
    pub fn get_attribute_location(&self, name: &str) -> (r: Option<i32>)
        ensures
            r == first_attribute(self.spec_attributes(), name@),
    {
        let owned = name.to_owned();
        find_attribute(&self.attribute_locations, &owned)
    }

    /// Whether the device has to be asked for this program's locations now;
    /// afterwards they count as looked up until the next compile.
    pub fn lookup_locations(&mut self) -> (r: bool)
        ensures
            r == !old(self).spec_lookup_done(),
            final(self).spec_lookup_done(),
            final(self).same_but_lookup(&*old(self)),
            old(self).spec_lookup_done() ==> *final(self) == *old(self),
    {
        if self.lookup_done {
            return false;
        }
        self.lookup_done = true;
        true
    }

    pub fn set_transparent(&mut self, transparent: bool)
        ensures
            final(self).spec_transparent() == transparent,
            final(self).same_but_transparency(&*old(self)),
    {
        self.opaque = !transparent;
    }

    pub fn is_transparent(&self) -> (r: bool)
        ensures
            r == self.spec_transparent(),
    {
        !self.opaque
    }

    /// Sets each uniform of `uniforms` in turn.
    pub fn push_uniforms(&mut self, uniforms: Vec<Uniform<T>>)
        ensures
            final(self).same_but_uniforms(&*old(self)),
            exists|steps: Seq<Seq<Uniform<T>>>| {
                &&& steps.len() == uniforms@.len() + 1
                &&& steps[0] == old(self).spec_uniforms()
                &&& steps.last() == final(self).spec_uniforms()
                &&& forall|k: int| 0 <= k < uniforms@.len() ==> upserted(#[trigger] steps[k], uniforms@[k], steps[k + 1])
            },
    {
        upsert_all(&mut self.shared_uniforms, uniforms);
    }

    /// Replaces the shared uniform of the same name, or appends it.
    pub fn set_uniform(&mut self, uniform_to_set: Uniform<T>)
        ensures
            final(self).same_but_uniforms(&*old(self)),
            upserted(old(self).spec_uniforms(), uniform_to_set, final(self).spec_uniforms()),
    {
        upsert_uniform(&mut self.shared_uniforms, uniform_to_set);
    }

    pub fn get_uniforms(&self) -> (r: &Vec<Uniform<T>>)
        ensures
            r@ == self.spec_uniforms(),
    {
        &self.shared_uniforms
    }

    pub fn get_program(&self) -> (r: &Option<P>)
        ensures
            *r == self.spec_program(),
    {
        &self.program
    }

    pub fn get_id(&self) -> (r: &str)
        ensures
            r@ == self.spec_id(),
    {
        self.id.as_str()
    }

    pub fn get_generation(&self) -> (r: u64)
        ensures
            r == self.spec_generation(),
    {
        self.generation
    }

    pub fn is_lookup_done(&self) -> (r: bool)
        ensures
            r == self.spec_lookup_done(),
    {
        self.lookup_done
    }

    /// The shared uniforms bound to a texture unit, by name, in order; the
    /// others are left out.
    pub fn get_texture_indexes(&self) -> (r: Vec<(String, u32)>)
        ensures
            r@.len() == texture_entries(self.spec_uniforms()).len(),
            forall|k: int| 0 <= k < r@.len() ==> (#[trigger] r@[k]).0@ == texture_entries(self.spec_uniforms())[k].0
                && r@[k].1 == texture_entries(self.spec_uniforms())[k].1,
    {
        let mut r: Vec<(String, u32)> = Vec::new();
        let mut i: usize = 0;
        while i < self.shared_uniforms.len()
            invariant
                i <= self.shared_uniforms.len(),
                r@.len() == texture_entries(self.shared_uniforms@.subrange(0, i as int)).len(),
                forall|k: int| 0 <= k < r@.len() ==> (#[trigger] r@[k]).0@ == texture_entries(self.shared_uniforms@.subrange(0, i as int))[k].0
                    && r@[k].1 == texture_entries(self.shared_uniforms@.subrange(0, i as int))[k].1,
            decreases self.shared_uniforms.len() - i,
        {
            proof {
                assert(self.shared_uniforms@.subrange(0, i + 1).drop_last() =~= self.shared_uniforms@.subrange(0, i as int));
            }
            if let Some(t) = self.shared_uniforms[i].texture_index {
                r.push((self.shared_uniforms[i].name.clone(), t));
            }
            i += 1;
        }
        proof {
            assert(self.shared_uniforms@.subrange(0, i as int) =~= self.shared_uniforms@);
        }
        r
    }
}

/// Which location lookups the device has to perform, parent first.
#[derive(Copy, Clone, PartialEq, Eq, Structural, Debug)]
pub struct LookupSteps {
    /// The parent material's attributes, shared uniforms and global uniforms.
    pub parent: bool,
    /// The instance's own uniforms, against the parent's program.
    pub instance: bool,
}

/// A per-drawable view of a shared material (named by its index in the
/// material arena), with uniforms of its own.
pub struct MaterialInstance<T> {
    parent_material: usize,
    uniforms: Vec<Uniform<T>>,
    id: String,
    resolved_generation: Option<u64>,
}

impl<T> MaterialInstance<T> {
    pub closed spec fn spec_parent(&self) -> usize {
        self.parent_material
    }

    pub closed spec fn spec_uniforms(&self) -> Seq<Uniform<T>> {
        self.uniforms@
    }

    pub closed spec fn spec_id(&self) -> Seq<char> {
        self.id@
    }

    /// The parent generation that the instance's locations were resolved against.
    pub closed spec fn spec_resolved(&self) -> Option<u64> {
        self.resolved_generation
    }

    /// The instance's locations are current for `parent`'s program.
    pub open spec fn is_resolved<P>(&self, parent: &Material<P, T>) -> bool {
        parent.spec_lookup_done() && self.spec_resolved() == Some(parent.spec_generation())
    }

    pub fn new(parent_material: usize, id: &str) -> (m: Self)
        ensures
            m.spec_parent() == parent_material,
            m.spec_uniforms().len() == 0,
            m.spec_id() == id@,
            m.spec_resolved() is None,
    {
        MaterialInstance { parent_material, uniforms: Vec::new(), id: id.to_owned(), resolved_generation: None }
    }

    /// Marks the parent's and then the instance's locations as looked up, and
    /// says which of the two lookups the device has to perform now. Once both are
    /// current, nothing more is asked until the parent is compiled again.
    pub fn lookup_locations<P>(&mut self, parent: &mut Material<P, T>) -> (r: LookupSteps)
        ensures
            r.parent == !old(parent).spec_lookup_done(),
            r.instance == !old(self).is_resolved(&*old(parent)),
            r.parent ==> r.instance,
            final(parent).spec_lookup_done(),
            final(parent).same_but_lookup(&*old(parent)),
            final(self).is_resolved(&*final(parent)),
            old(self).is_resolved(&*old(parent)) ==> *final(self) == *old(self) && *final(parent) == *old(parent),
            final(self).spec_parent() == old(self).spec_parent(),
            final(self).spec_uniforms() == old(self).spec_uniforms(),
            final(self).spec_id() == old(self).spec_id(),
    {
        let current = match self.resolved_generation {
            Some(g) => parent.is_lookup_done() && g == parent.get_generation(),
            None => false,
        };
        let parent_needed = parent.lookup_locations();
        if !current {
            self.resolved_generation = Some(parent.get_generation());
        }
        LookupSteps { parent: parent_needed, instance: !current }
    }

    /// Sets each uniform of `uniforms` in turn.
    pub fn push_uniforms(&mut self, uniforms: Vec<Uniform<T>>)
        ensures
            final(self).spec_parent() == old(self).spec_parent(),
            final(self).spec_id() == old(self).spec_id(),
            final(self).spec_resolved() == old(self).spec_resolved(),
            exists|steps: Seq<Seq<Uniform<T>>>| {
                &&& steps.len() == uniforms@.len() + 1
                &&& steps[0] == old(self).spec_uniforms()
                &&& steps.last() == final(self).spec_uniforms()
                &&& forall|k: int| 0 <= k < uniforms@.len() ==> upserted(#[trigger] steps[k], uniforms@[k], steps[k + 1])
            },
    {
        upsert_all(&mut self.uniforms, uniforms);
    }

    /// Whether the parent material is transparent.
    pub fn is_transparent<P>(&self, parent: &Material<P, T>) -> (r: bool)
        ensures
            r == parent.spec_transparent(),
    {
        parent.is_transparent()
    }

    /// Replaces the instance's uniform of the same name, or appends it.
    pub fn set_uniform(&mut self, uniform_to_set: Uniform<T>)
        ensures
            final(self).spec_parent() == old(self).spec_parent(),
            final(self).spec_id() == old(self).spec_id(),
            final(self).spec_resolved() == old(self).spec_resolved(),
            upserted(old(self).spec_uniforms(), uniform_to_set, final(self).spec_uniforms()),
    {
        upsert_uniform(&mut self.uniforms, uniform_to_set);
    }

    /// Sets a uniform shared by every instance of the parent material.
    pub fn set_parent_uniform<P>(&mut self, parent: &mut Material<P, T>, uniform_to_set: Uniform<T>)
        ensures
            *final(self) == *old(self),
            final(parent).same_but_uniforms(&*old(parent)),
            upserted(old(parent).spec_uniforms(), uniform_to_set, final(parent).spec_uniforms()),
    {
        parent.set_uniform(uniform_to_set);
    }

    /// The index of the parent material in the material arena.
    pub fn get_parent(&self) -> (r: usize)
        ensures
            r == self.spec_parent(),
    {
        self.parent_material
    }

    pub fn get_id(&self) -> (r: &str)
        ensures
            r@ == self.spec_id(),
    {
        self.id.as_str()
    }

    /// The id of the parent material.
    pub fn get_parent_id<P>(&self, parent: &Material<P, T>) -> (r: String)
        ensures
            r@ == parent.spec_id(),
    {
        parent.get_id().to_owned()
    }

    pub fn get_uniforms(&self) -> (r: &Vec<Uniform<T>>)
        ensures
            r@ == self.spec_uniforms(),
    {
        &self.uniforms
    }
}

/// Setting a uniform whose name is already present replaces it in place: the
/// set keeps its size and order, and only that entry changes. A new name is
/// appended at the end.
pub proof fn lemma_set_uniform_upserts<T>(us: Seq<Uniform<T>>, u: Uniform<T>, r: Seq<Uniform<T>>)
    requires
        upserted(us, u, r),
    ensures
        has_name(us, u.name@) ==> r.len() == us.len() && exists|i: int| 0 <= i < us.len() && us[i].name@ == u.name@ && r[i] == u
            && forall|j: int| 0 <= j < us.len() && j != i ==> r[j] == us[j],
        !has_name(us, u.name@) ==> r.len() == us.len() + 1 && r.last() == u && r.subrange(0, us.len() as int) == us,
{
    if has_name(us, u.name@) {
        let i = choose|i: int| 0 <= i < us.len() && us[i].name@ == u.name@;
        lemma_first_match_exists(us, u.name@, i);
        let f = choose|f: int| is_first_match(us, u.name@, f);
        assert(r == us.update(f, u));
        assert(0 <= f < us.len() && us[f].name@ == u.name@ && r[f] == u && forall|j: int| 0 <= j < us.len() && j != f ==> r[j] == us[j]);
    } else {
        assert(r.subrange(0, us.len() as int) =~= us);
    }
}

proof fn lemma_first_match_exists<T>(us: Seq<Uniform<T>>, name: Seq<char>, i: int)
    requires
        0 <= i < us.len(),
        us[i].name@ == name,
    ensures
        exists|f: int| is_first_match(us, name, f),
    decreases i,
{
    if exists|j: int| 0 <= j < i && us[j].name@ == name {
        let j = choose|j: int| 0 <= j < i && us[j].name@ == name;
        lemma_first_match_exists(us, name, j);
    } else {
        assert(is_first_match(us, name, i));
    }
}

/// Right after a successful compile for a configuration, the material does not
/// ask to be compiled again for that configuration; a lit material asks again
/// for a configuration whose counts differ, and an unlit one never does.
pub proof fn lemma_compile_settles<P, T>(before: Material<P, T>, after: Material<P, T>, p: P, c: LightConfiguration, d: LightConfiguration)
    requires
        compiled_from(after, before, p, c),
    ensures
        !needs_compile(after, c),
        before.spec_lit() && d != c ==> needs_compile(after, d),
        !before.spec_lit() ==> !needs_compile(after, d),
{
}

} // verus!
