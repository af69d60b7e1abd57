//! How skinned vertices blend joint transforms.
use vstd::prelude::*;

verus! {

/// Linear blend of matrices, or dual-quaternion blend.
#[derive(Clone, Copy, Debug, PartialEq, Eq, Structural)]
pub enum SkinningMode {
    LinearBlend,
    DualQuat,
}

impl Default for SkinningMode {
    fn default() -> (r: Self)
        ensures
            r == SkinningMode::LinearBlend,
    {
        SkinningMode::LinearBlend
    }
}

pub open spec fn skinning_label(m: SkinningMode) -> Seq<char> {
    match m {
        SkinningMode::LinearBlend => "LBS"@,
        SkinningMode::DualQuat => "DQS"@,
    }
}

/// The other mode.
pub open spec fn other_mode(m: SkinningMode) -> SkinningMode {
    match m {
        SkinningMode::LinearBlend => SkinningMode::DualQuat,
        SkinningMode::DualQuat => SkinningMode::LinearBlend,
    }
}

impl SkinningMode {
    pub fn label(self) -> (r: &'static str)
        ensures
            r@ == skinning_label(self),
    {
        match self {
            SkinningMode::LinearBlend => "LBS",
            SkinningMode::DualQuat => "DQS",
        }
    }

    /// Cycles to the other mode.
    pub fn next(self) -> (r: SkinningMode)
        ensures
            r == other_mode(self),
    {
        match self {
            SkinningMode::LinearBlend => SkinningMode::DualQuat,
            SkinningMode::DualQuat => SkinningMode::LinearBlend,
        }
    }
}

/// Cycling always changes the mode, and cycling twice comes back.
pub proof fn law_next_cycles(m: SkinningMode)
    ensures
        other_mode(m) != m,
        other_mode(other_mode(m)) == m,
{
}

} // verus!
