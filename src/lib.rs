pub mod lighting;
pub mod links;
pub mod material;
pub mod renderer;
pub mod shader_text;
pub mod transform;
