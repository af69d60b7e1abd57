//! Which internal buffer the visualizer presents.
use vstd::prelude::*;

verus! {

/// A debug view of the renderer's buffers.
#[derive(Clone, Copy, Debug, PartialEq, Eq, Structural, Hash)]
pub enum DebugView {
    Final,
    SceneColor,
    Normals,
    Roughness,
    Metallic,
    Depth,
    Ao,
    ContactShadow,
    Ssgi,
    Ssr,
    Albedo,
    DofCoc,
    Dof,
    Velocity,
}

impl Default for DebugView {
    fn default() -> (r: Self)
        ensures
            r == DebugView::Final,
    {
        DebugView::Final
    }
}

pub open spec fn view_label(v: DebugView) -> Seq<char> {
    match v {
        DebugView::Final => "Final"@,
        DebugView::SceneColor => "Scene color"@,
        DebugView::Normals => "Normals"@,
        DebugView::Roughness => "Roughness"@,
        DebugView::Metallic => "Metallic"@,
        DebugView::Depth => "Depth"@,
        DebugView::Ao => "AO"@,
        DebugView::ContactShadow => "Contact shadow"@,
        DebugView::Ssgi => "SSGI"@,
        DebugView::Ssr => "SSR"@,
        DebugView::Albedo => "Albedo"@,
        DebugView::DofCoc => "DOF CoC"@,
        DebugView::Dof => "DOF"@,
        DebugView::Velocity => "Velocity"@,
    }
}

/// The shader-side code of a view (declaration order).
pub open spec fn view_code(v: DebugView) -> u32 {
    match v {
        DebugView::Final => 0,
        DebugView::SceneColor => 1,
        DebugView::Normals => 2,
        DebugView::Roughness => 3,
        DebugView::Metallic => 4,
        DebugView::Depth => 5,
        DebugView::Ao => 6,
        DebugView::ContactShadow => 7,
        DebugView::Ssgi => 8,
        DebugView::Ssr => 9,
        DebugView::Albedo => 10,
        DebugView::DofCoc => 11,
        DebugView::Dof => 12,
        DebugView::Velocity => 13,
    }
}

impl DebugView {
    /// Every view, in declaration order.
    pub const ALL: [DebugView; 14] = [
        DebugView::Final,
        DebugView::SceneColor,
        DebugView::Normals,
        DebugView::Roughness,
        DebugView::Metallic,
        DebugView::Depth,
        DebugView::Ao,
        DebugView::ContactShadow,
        DebugView::Ssgi,
        DebugView::Ssr,
        DebugView::Albedo,
        DebugView::DofCoc,
        DebugView::Dof,
        DebugView::Velocity,
    ];

    pub fn label(self) -> (r: &'static str)
        ensures
            r@ == view_label(self),
    {
        match self {
            DebugView::Final => "Final",
            DebugView::SceneColor => "Scene color",
            DebugView::Normals => "Normals",
            DebugView::Roughness => "Roughness",
            DebugView::Metallic => "Metallic",
            DebugView::Depth => "Depth",
            DebugView::Ao => "AO",
            DebugView::ContactShadow => "Contact shadow",
            DebugView::Ssgi => "SSGI",
            DebugView::Ssr => "SSR",
            DebugView::Albedo => "Albedo",
            DebugView::DofCoc => "DOF CoC",
            DebugView::Dof => "DOF",
            DebugView::Velocity => "Velocity",
        }
    }

    pub fn as_u32(self) -> (r: u32)
        ensures
            r == view_code(self),
    {
        match self {
            DebugView::Final => 0,
            DebugView::SceneColor => 1,
            DebugView::Normals => 2,
            DebugView::Roughness => 3,
            DebugView::Metallic => 4,
            DebugView::Depth => 5,
            DebugView::Ao => 6,
            DebugView::ContactShadow => 7,
            DebugView::Ssgi => 8,
            DebugView::Ssr => 9,
            DebugView::Albedo => 10,
            DebugView::DofCoc => 11,
            DebugView::Dof => 12,
            DebugView::Velocity => 13,
        }
    }
}

/// Distinct views have distinct codes, all below 14.
pub proof fn law_view_codes_distinct(a: DebugView, b: DebugView)
    ensures
        view_code(a) < 14,
        a != b ==> view_code(a) != view_code(b),
{
}

/// `ALL` lists every view once, in the order of their codes.
pub proof fn law_all_in_code_order(i: int)
    requires
        0 <= i < 14,
    ensures
        view_code(DebugView::ALL@[i]) == i,
{
    assert(DebugView::ALL@ =~= seq![
        DebugView::Final,
        DebugView::SceneColor,
        DebugView::Normals,
        DebugView::Roughness,
        DebugView::Metallic,
        DebugView::Depth,
        DebugView::Ao,
        DebugView::ContactShadow,
        DebugView::Ssgi,
        DebugView::Ssr,
        DebugView::Albedo,
        DebugView::DofCoc,
        DebugView::Dof,
        DebugView::Velocity,
    ]);
}

} // verus!
