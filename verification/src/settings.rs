//! Small renderer-facing option types: camera projection, gizmo modes, animation
//! channel targets, hair presets, screen-space AO, shadow filtering, FXAA, HUD output.
use vstd::prelude::*;

verus! {

/// Camera projection.
#[derive(Clone, Copy, Debug, PartialEq, Eq, Structural)]
pub enum Projection {
    Perspective,
    Orthographic,
}

impl Default for Projection {
    fn default() -> (r: Self)
        ensures
            r == Projection::Perspective,
    {
        Projection::Perspective
    }
}

/// What the transform gizmo edits.
#[derive(Clone, Copy, Debug, PartialEq, Eq, Structural)]
pub enum GizmoMode {
    Translate,
    Rotate,
    Scale,
}

/// Gizmo handle: an axis, a translate plane, or uniform scale.
#[derive(Clone, Copy, Debug, PartialEq, Eq, Structural)]
pub enum GizmoAxis {
    X,
    Y,
    Z,
    Xy,
    Yz,
    Zx,
    Uniform,
}

/// The node property an animation channel drives.
pub enum AnimPath {
    Translation,
    Rotation,
    Scale,
}

/// Easing preset of a hair curve.
#[derive(Clone, Copy, Debug, PartialEq, Eq, Structural)]
pub enum HairCurvePreset {
    Linear,
    EaseIn,
    EaseOut,
    EaseInOut,
    Custom,
}

/// Hair card geometry.
#[derive(Clone, Copy, Debug, PartialEq, Eq, Structural)]
pub enum HairShape {
    Ribbon,
    Tube,
}

/// Strand styling applied along each hair.
#[derive(Clone, Copy, Debug, PartialEq, Eq, Structural)]
pub enum HairStyle {
    Straight,
    Roll,
    Curl,
    Wave,
    Crimp,
    Coil,
    Braid,
}

impl Default for HairStyle {
    fn default() -> (r: Self)
        ensures
            r == HairStyle::Straight,
    {
        HairStyle::Straight
    }
}

/// Screen-space ambient occlusion algorithm.
#[derive(Clone, Copy, Debug, PartialEq, Eq, Structural)]
pub enum AoMethod {
    Ssao,
    Gtao,
}

impl Default for AoMethod {
    fn default() -> (r: Self)
        ensures
            r == AoMethod::Gtao,
    {
        AoMethod::Gtao
    }
}

/// Shadow map filtering.
#[derive(Clone, Copy, Debug, PartialEq, Eq, Structural)]
pub enum ShadowFilter {
    Pcf,
    Pcss,
}

impl Default for ShadowFilter {
    fn default() -> (r: Self)
        ensures
            r == ShadowFilter::Pcss,
    {
        ShadowFilter::Pcss
    }
}

/// Fast approximate anti-aliasing switch.
#[derive(Clone, Debug)]
pub struct FxaaSettings {
    pub enabled: bool,
}

/// What the HUD consumed this frame.
#[derive(Clone, Debug)]
pub struct HudOutput {
    pub want_capture_mouse: bool,
    pub want_capture_keyboard: bool,
}

impl Default for HudOutput {
    fn default() -> (r: Self)
        ensures
            !r.want_capture_mouse && !r.want_capture_keyboard,
    {
        HudOutput { want_capture_mouse: false, want_capture_keyboard: false }
    }
}

/// Baked hair card textures: one RGBA albedo per layer, roughness, normal.
pub struct HairMaps {
    pub width: u32,
    pub height: u32,
    pub albedos: Vec<Vec<u8>>,
    pub roughness: Vec<u8>,
    pub normal: Vec<u8>,
}

} // verus!
