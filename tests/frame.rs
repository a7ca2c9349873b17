use wtvr3d::lighting::{classify, LightKind, LightRepository, LightSource, LightingSystem};
use wtvr3d::material::{Material, MaterialInstance};
use wtvr3d::renderer::{Drawable, RenderCommand, Renderer};

#[derive(Copy, Clone, Debug, PartialEq)]
struct Light {
    color: [f32; 3],
    intensity: f32,
}

fn blend(acc: Light, l: Light) -> Light {
    let mut color = [0.0f32; 3];
    for k in 0..3 {
        color[k] = acc.color[k] * acc.intensity + l.color[k] * l.intensity;
    }
    Light { color, intensity: acc.intensity + l.intensity }
}

fn zero_light() -> Light {
    Light { color: [0.0, 0.0, 0.0], intensity: 0.0 }
}

type Source = LightSource<Light, u8, u16, u32>;

fn source(light: Light, transform: Option<u8>, direction: Option<u16>, cone: Option<u32>) -> Source {
    LightSource { light, transform, direction, cone, enabled: true }
}

fn white() -> Light {
    Light { color: [1.0, 1.0, 1.0], intensity: 0.5 }
}

#[test]
fn classification_follows_the_components() {
    assert_eq!(classify(true, false, false), Some(LightKind::Directional));
    assert_eq!(classify(true, true, false), Some(LightKind::Directional));
    assert_eq!(classify(false, true, false), Some(LightKind::Point));
    assert_eq!(classify(true, true, true), Some(LightKind::Spot));
    assert_eq!(classify(false, false, false), Some(LightKind::Ambient));
    assert_eq!(classify(true, false, true), None);
    assert_eq!(classify(false, true, true), None);
}

#[test]
fn two_ambient_lights_add_up() {
    let red = Light { color: [1.0, 0.0, 0.0], intensity: 1.0 };
    let blue = Light { color: [0.0, 0.0, 1.0], intensity: 1.0 };
    let sources = vec![source(red, None, None, None), source(blue, None, None, None)];
    let mut repo: LightRepository<Light, u8, u16, u32> = LightRepository::new();
    LightingSystem.run(&sources, &mut repo, zero_light(), blend);
    let amb = repo.ambiant.unwrap();
    assert_eq!(amb.intensity, 2.0);
    assert_eq!(amb.color, [1.0, 0.0, 1.0]);
}

#[test]
fn lights_are_sorted_by_kind_and_rebuilt_each_frame() {
    let sources = vec![
        source(white(), None, Some(1), None),
        source(white(), Some(2), None, None),
        source(white(), Some(3), Some(4), Some(5)),
        source(white(), None, Some(6), Some(7)),
        LightSource { light: white(), transform: None, direction: Some(8), cone: None, enabled: false },
        source(white(), Some(9), None, None),
    ];
    let mut repo: LightRepository<Light, u8, u16, u32> = LightRepository::new();
    LightingSystem.run(&sources, &mut repo, zero_light(), blend);
    assert_eq!(repo.directional.iter().map(|d| d.1).collect::<Vec<_>>(), vec![1]);
    assert_eq!(repo.point.iter().map(|p| p.1).collect::<Vec<_>>(), vec![2, 9]);
    assert_eq!(repo.spot.iter().map(|s| (s.1, s.2, s.3)).collect::<Vec<_>>(), vec![(3, 4, 5)]);
    assert!(repo.ambiant.is_none());
    let cfg = repo.configuration();
    assert_eq!((cfg.directional, cfg.point, cfg.spot), (1, 2, 1));
    LightingSystem.run(&vec![source(white(), None, None, None)], &mut repo, zero_light(), blend);
    assert!(repo.directional.is_empty() && repo.point.is_empty() && repo.spot.is_empty());
    assert_eq!(repo.ambiant, Some(Light { color: [0.5, 0.5, 0.5], intensity: 0.5 }));
}

fn drawable(parent: usize, name: &str, count: i32) -> Drawable<i32, ()> {
    Drawable { material: MaterialInstance::new(parent, name), buffers: (), vertex_count: count }
}

#[test]
fn opaque_batches_come_before_transparent_ones() {
    let mut r: Renderer<u32, i32, ()> = Renderer::new();
    let mut b: Material<u32, i32> = Material::new("v", "f", "B");
    b.set_transparent(true);
    let mat_b = r.add_material(b);
    let mat_a = r.add_material(Material::new("v", "f", "A"));
    let (t, steps_t) = r.register_mesh(drawable(mat_b, "t", 3));
    let (o1, steps_1) = r.register_mesh(drawable(mat_a, "o1", 6));
    let (o2, steps_2) = r.register_mesh(drawable(mat_a, "o2", 9));
    assert!(steps_t.parent && steps_t.instance);
    assert!(steps_1.parent && steps_1.instance);
    assert!(!steps_2.parent && steps_2.instance);
    assert_eq!(r.sort_objects(), vec![o1, o2, t]);
    assert_eq!(
        r.render_objects(),
        vec![
            RenderCommand::UseMaterial(mat_a),
            RenderCommand::Draw(o1),
            RenderCommand::Draw(o2),
            RenderCommand::UseMaterial(mat_b),
            RenderCommand::Draw(t),
        ]
    );
    assert_eq!(r.get_drawable(o2).vertex_count, 9);
}

#[test]
fn registering_twice_draws_twice_and_empty_frame_draws_nothing() {
    let mut r: Renderer<u32, i32, ()> = Renderer::new();
    assert!(r.render_objects().is_empty());
    let m = r.add_material(Material::new("v", "f", "M"));
    let a = r.register_mesh(drawable(m, "a", 3)).0;
    let b = r.register_mesh(drawable(m, "a", 3)).0;
    assert_eq!(r.render_objects(), vec![RenderCommand::UseMaterial(m), RenderCommand::Draw(a), RenderCommand::Draw(b)]);
}

#[test]
fn renderer_compiles_materials_for_the_light_counts() {
    let mut r: Renderer<u32, i32, ()> = Renderer::new();
    let m = r.add_material(Material::new("uniform Light l[NUM_POINT_LIGHTS];", "f", "M"));
    let mut repo: LightRepository<Light, u8, u16, u32> = LightRepository::new();
    LightingSystem.run(&vec![source(white(), Some(1), None, None)], &mut repo, zero_light(), blend);
    let cfg = repo.configuration();
    assert!(r.should_compile(m, &cfg));
    let (v, _) = r.prepare_sources(m, &cfg);
    assert_eq!(v, "uniform Light l[1];");
    assert_eq!(r.compile_material(m, Ok(42), &cfg), Ok(()));
    assert!(!r.should_compile(m, &cfg));
    assert_eq!(*r.get_material(m).get_program(), Some(42));
}

#[test]
fn renderer_records_attribute_locations_per_material() {
    let mut r: Renderer<u32, i32, ()> = Renderer::new();
    let m = r.add_material(Material::new("v", "f", "M"));
    let n = r.add_material(Material::new("v", "f", "N"));
    r.register_attribute_location(m, "a_position", 0);
    r.register_attribute_location(m, "a_position", 7);
    assert_eq!(r.get_material(m).get_attribute_location("a_position"), Some(0));
    assert_eq!(r.get_material(n).get_attribute_location("a_position"), None);
    assert_eq!(r.material_count(), 2);
    assert_eq!(r.drawable_count(), 0);
}
