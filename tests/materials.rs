use wtvr3d::material::{replace_light_constants, LightConfiguration, LookupSteps, Material, MaterialInstance, ShaderError, Uniform};

const LIT_VERT: &str = "attribute vec3 a_position;\nuniform Light u_lights[NUM_DIR_LIGHTS];\nvoid main() {}";
const PLAIN_FRAG: &str = "void main() { gl_FragColor = vec4(1.0); }";

fn config(d: usize, p: usize, s: usize) -> LightConfiguration {
    LightConfiguration { directional: d, point: p, spot: s }
}

fn names(m: &Material<u32, i32>) -> Vec<String> {
    m.get_uniforms().iter().map(|u| u.name.clone()).collect()
}

#[test]
fn light_constants_are_substituted() {
    let src = "#define NUM_DIR_LIGHTS 4\nLight d[NUM_DIR_LIGHTS]; Light p[NUM_POINT_LIGHTS]; Light s[NUM_SPOT_LIGHTS];";
    let out = replace_light_constants(src, &config(2, 13, 0));
    assert_eq!(out, "// 4\nLight d[2]; Light p[13]; Light s[0];");
}

#[test]
fn lit_is_inferred_from_either_source() {
    let lit: Material<u32, i32> = Material::new(LIT_VERT, PLAIN_FRAG, "lit");
    let plain: Material<u32, i32> = Material::new(PLAIN_FRAG, PLAIN_FRAG, "plain");
    let lit_frag: Material<u32, i32> = Material::new(PLAIN_FRAG, "uniform Light l;", "lit2");
    assert!(lit.should_compile(&config(0, 0, 0)));
    assert_eq!(lit.get_id(), "lit");
    assert!(lit.get_program().is_none());
    assert!(!lit.is_transparent());
    let mut a = lit;
    let mut b = plain;
    let mut c = lit_frag;
    a.compile(Ok(1), &config(1, 0, 0)).unwrap();
    b.compile(Ok(2), &config(1, 0, 0)).unwrap();
    c.compile(Ok(3), &config(1, 0, 0)).unwrap();
    assert!(a.should_compile(&config(2, 0, 0)));
    assert!(!b.should_compile(&config(2, 0, 0)));
    assert!(c.should_compile(&config(1, 1, 0)));
}

#[test]
fn should_compile_settles_after_compile() {
    let mut m: Material<u32, i32> = Material::new(LIT_VERT, PLAIN_FRAG, "m");
    let cfg = config(1, 2, 3);
    assert!(m.should_compile(&cfg));
    assert_eq!(m.compile(Ok(7), &cfg), Ok(()));
    assert!(!m.should_compile(&cfg));
    assert!(m.should_compile(&config(1, 2, 4)));
    assert!(m.should_compile(&config(0, 2, 3)));
    assert_eq!(*m.get_program(), Some(7));
}

#[test]
fn unlit_material_never_recompiles() {
    let mut m: Material<u32, i32> = Material::new(PLAIN_FRAG, PLAIN_FRAG, "m");
    m.compile(Ok(7), &config(0, 0, 0)).unwrap();
    assert!(!m.should_compile(&config(5, 5, 5)));
}

#[test]
fn failed_compile_keeps_the_previous_program() {
    let mut m: Material<u32, i32> = Material::new(LIT_VERT, PLAIN_FRAG, "m");
    assert_eq!(m.compile(Err(ShaderError::Stage("bad".to_string())), &config(1, 0, 0)), Err(ShaderError::Stage("bad".to_string())));
    assert!(m.get_program().is_none());
    m.compile(Ok(1), &config(1, 0, 0)).unwrap();
    assert!(m.lookup_locations());
    assert_eq!(m.compile(Err(ShaderError::Link("link".to_string())), &config(2, 0, 0)), Err(ShaderError::Link("link".to_string())));
    assert_eq!(*m.get_program(), Some(1));
    assert!(m.is_lookup_done());
    assert!(m.should_compile(&config(2, 0, 0)));
    assert!(!m.should_compile(&config(1, 0, 0)));
}

#[test]
fn prepared_sources_carry_the_counts() {
    let m: Material<u32, i32> = Material::new(LIT_VERT, "NUM_SPOT_LIGHTS", "m");
    let (v, f) = m.prepare_sources(&config(3, 0, 5));
    assert_eq!(v, "attribute vec3 a_position;\nuniform Light u_lights[3];\nvoid main() {}");
    assert_eq!(f, "5");
}

#[test]
fn set_uniform_replaces_in_place_or_appends() {
    let mut m: Material<u32, i32> = Material::new(PLAIN_FRAG, PLAIN_FRAG, "m");
    m.set_uniform(Uniform::new("a".to_string(), 1, None));
    m.set_uniform(Uniform::new("b".to_string(), 2, None));
    m.set_uniform(Uniform::new("c".to_string(), 3, None));
    m.set_uniform(Uniform::new("b".to_string(), 20, None));
    assert_eq!(names(&m), vec!["a", "b", "c"]);
    assert_eq!(m.get_uniforms()[1].value, 20);
    m.set_uniform(Uniform::new("d".to_string(), 4, None));
    assert_eq!(names(&m), vec!["a", "b", "c", "d"]);
}

#[test]
fn push_uniforms_sets_each_in_turn() {
    let mut m: Material<u32, i32> = Material::new(PLAIN_FRAG, PLAIN_FRAG, "m");
    m.push_uniforms(vec![
        Uniform::new("x".to_string(), 1, None),
        Uniform::new("y".to_string(), 2, None),
        Uniform::new("x".to_string(), 3, None),
    ]);
    assert_eq!(names(&m), vec!["x", "y"]);
    assert_eq!(m.get_uniforms()[0].value, 3);
}

#[test]
fn texture_indexes_skip_unbound_uniforms() {
    let mut m: Material<u32, i32> = Material::new(PLAIN_FRAG, PLAIN_FRAG, "m");
    m.push_uniforms(vec![
        Uniform::new("albedo".to_string(), 0, Some(0)),
        Uniform::new("tint".to_string(), 0, None),
        Uniform::new("normal".to_string(), 0, Some(3)),
    ]);
    assert_eq!(m.get_texture_indexes(), vec![("albedo".to_string(), 0), ("normal".to_string(), 3)]);
}

#[test]
fn attribute_locations_are_recorded_once() {
    let mut m: Material<u32, i32> = Material::new(PLAIN_FRAG, PLAIN_FRAG, "m");
    assert_eq!(m.get_attribute_location("a_position"), None);
    m.register_new_attribute_location("a_position", 2);
    m.register_new_attribute_location("a_position", 5);
    m.register_new_attribute_location("a_normal", 1);
    assert_eq!(m.get_attribute_location("a_position"), Some(2));
    assert_eq!(m.get_attribute_location("a_normal"), Some(1));
}

#[test]
fn transparency_setter() {
    let mut m: Material<u32, i32> = Material::new(PLAIN_FRAG, PLAIN_FRAG, "m");
    m.set_transparent(true);
    assert!(m.is_transparent());
    m.set_transparent(false);
    assert!(!m.is_transparent());
}

#[test]
fn instance_lookup_resolves_parent_first_then_nothing() {
    let mut parent: Material<u32, i32> = Material::new(PLAIN_FRAG, PLAIN_FRAG, "parent");
    parent.compile(Ok(1), &config(0, 0, 0)).unwrap();
    let mut inst: MaterialInstance<i32> = MaterialInstance::new(0, "inst");
    assert_eq!(inst.lookup_locations(&mut parent), LookupSteps { parent: true, instance: true });
    assert!(parent.is_lookup_done());
    assert_eq!(inst.lookup_locations(&mut parent), LookupSteps { parent: false, instance: false });
    let mut other: MaterialInstance<i32> = MaterialInstance::new(0, "other");
    assert_eq!(other.lookup_locations(&mut parent), LookupSteps { parent: false, instance: true });
    parent.compile(Ok(2), &config(0, 0, 0)).unwrap();
    assert_eq!(inst.lookup_locations(&mut parent), LookupSteps { parent: true, instance: true });
}

#[test]
fn instance_uniforms_and_parent_uniforms_are_separate() {
    let mut parent: Material<u32, i32> = Material::new(PLAIN_FRAG, PLAIN_FRAG, "parent");
    let mut inst: MaterialInstance<i32> = MaterialInstance::new(0, "inst");
    inst.set_uniform(Uniform::new("color".to_string(), 1, None));
    inst.push_uniforms(vec![Uniform::new("color".to_string(), 2, None), Uniform::new("size".to_string(), 3, None)]);
    inst.set_parent_uniform(&mut parent, Uniform::new("time".to_string(), 9, None));
    assert_eq!(inst.get_uniforms().len(), 2);
    assert_eq!(inst.get_uniforms()[0].value, 2);
    assert_eq!(names(&parent), vec!["time"]);
    assert_eq!(inst.get_parent(), 0);
    assert_eq!(inst.get_id(), "inst");
    assert_eq!(inst.get_parent_id(&parent), "parent");
    parent.set_transparent(true);
    assert!(inst.is_transparent(&parent));
}

#[test]
fn recompiling_drops_cached_attribute_locations() {
    let mut m: Material<u32, i32> = Material::new(LIT_VERT, PLAIN_FRAG, "m");
    m.compile(Ok(1), &config(1, 0, 0)).unwrap();
    m.register_new_attribute_location("a_position", 2);
    assert!(m.lookup_locations());
    assert!(!m.lookup_locations());
    m.compile(Ok(2), &config(2, 0, 0)).unwrap();
    assert_eq!(m.get_attribute_location("a_position"), None);
    assert!(!m.is_lookup_done());
    assert_eq!(m.get_generation(), 2);
}
