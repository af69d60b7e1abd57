//! Verified core of a small scene / asset toolkit.
pub mod store;
pub mod wire;
pub mod hierarchy;
pub mod skin_file;
pub mod mesh_file;
pub mod mesh_proofs;
pub mod texgen;
pub mod graph;
pub mod fingerprint;
pub mod texg_file;
pub mod texg_proofs;
pub mod texture;
pub mod material;
pub mod material_file;
pub mod mat_proofs;
pub mod settings;
pub mod skinning;
pub mod debug_view;
pub mod hud;
pub mod hair_rng;
pub mod gltf_load;
pub mod hud_font;
pub mod gpu_params;
pub mod hair_layout;
pub mod regions;
pub mod weld;
pub mod eval_plan;
pub mod bind_plan;

use vstd::prelude::*;

verus! {

} // verus!
