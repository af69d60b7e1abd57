//! The integer side of a node's GPU parameter block: which shader operation runs, its
//! variant, iteration count, flags, and the clamped counts that the shader reads as
//! floats. The floating-point parameters are filled in beside these by the renderer.
use vstd::prelude::*;
use crate::graph::{NodeRecord, NodeRecordView};
use crate::texg_file::node_wf;
use crate::texgen::{
    NodeKind, noise_code, noise_of, noise_from, noise_kind, blend_code, blend_of, blend_from,
    blend_kind, gradient_code, gradient_of, grad_from, grad_u8, slope_code, slope_of, slope_from,
    slope_u8, shape_code, shape_of, shape_from, shape_u8,
};

verus! {

/// Integer parameters of one node dispatch. `scale_count`, `f1_count` and `f5_count` are
/// integer settings that land in float slots of the block (`None`: the slot keeps its
/// default).
#[derive(Clone, Copy, Debug, PartialEq, Eq, Structural)]
pub struct GpuCodes {
    pub op: u32,
    pub kind: u32,
    pub octaves: u32,
    pub flags: u32,
    pub scale_count: Option<i32>,
    pub f1_count: Option<i32>,
    pub f5_count: Option<i32>,
}

/// A four-byte field read as the `i32` it holds.
pub open spec fn word_int(w: u32) -> int {
    (w as i32) as int
}

pub open spec fn clamp_int(x: int, lo: int, hi: int) -> int {
    if x < lo {
        lo
    } else if x > hi {
        hi
    } else {
        x
    }
}

/// A one-byte field read back from its word.
pub open spec fn tag_byte(w: u32) -> u8 {
    (w % 256) as u8
}

pub open spec fn base_codes(op: u32) -> GpuCodes {
    GpuCodes {
        op,
        kind: 0,
        octaves: 1,
        flags: 0,
        scale_count: None,
        f1_count: None,
        f5_count: None,
    }
}

/// The integer parameters of a node, by kind. Field positions are those of the node
/// record: head 6 noise type, 8 octaves, 10 tileable, 13 blend mode, 23 gradient mode,
/// 31 curvature radius; tail 1 line count, 13 slope samples, 14 slope mode, 18/19 tile
/// counts, 26/27 brick counts, 36 shape kind, 39 sides, 45 transform tiling, 46/47
/// sampler counts.
pub open spec fn gpu_codes_of(n: NodeRecordView) -> GpuCodes {
    let h = n.head;
    let t = n.tail;
    match n.kind {
        NodeKind::Noise => GpuCodes {
            kind: noise_code(noise_of(tag_byte(h[6]))) as u32,
            octaves: clamp_int(word_int(h[8]), 1, 8) as u32,
            flags: if h[10] != 0 {
                1
            } else {
                0
            },
            ..base_codes(0)
        },
        NodeKind::Color => base_codes(1),
        NodeKind::Gradient => GpuCodes {
            kind: gradient_code(gradient_of(tag_byte(h[23]))) as u32,
            ..base_codes(2)
        },
        NodeKind::Lines => GpuCodes {
            scale_count: Some(clamp_int(word_int(t[1]), 1, 64) as i32),
            ..base_codes(3)
        },
        NodeKind::Checker => base_codes(4),
        NodeKind::Tile => GpuCodes {
            octaves: clamp_int(word_int(t[18]), 1, 32) as u32,
            kind: clamp_int(word_int(t[19]), 1, 32) as u32,
            ..base_codes(5)
        },
        NodeKind::Bricks => GpuCodes {
            scale_count: Some(clamp_int(word_int(t[26]), 1, 64) as i32),
            f5_count: Some(clamp_int(word_int(t[27]), 1, 64) as i32),
            ..base_codes(6)
        },
        NodeKind::Invert => base_codes(7),
        NodeKind::Levels => base_codes(8),
        NodeKind::GrayToColor => base_codes(9),
        NodeKind::ColorToGray => base_codes(10),
        NodeKind::ColorRamp => base_codes(11),
        NodeKind::Blend => GpuCodes {
            kind: blend_code(blend_of(tag_byte(h[13]))) as u32,
            ..base_codes(12)
        },
        NodeKind::HeightToNormal => base_codes(13),
        NodeKind::Curvature => GpuCodes {
            f1_count: Some(
                (if word_int(h[31]) < 1 {
                    1
                } else {
                    word_int(h[31])
                }) as i32,
            ),
            ..base_codes(22)
        },
        NodeKind::Distort => base_codes(14),
        NodeKind::Warp => base_codes(15),
        NodeKind::DirectionalWarp => base_codes(16),
        NodeKind::Blur => base_codes(17),
        NodeKind::SlopeBlur => GpuCodes {
            octaves: clamp_int(word_int(t[13]), 1, 32) as u32,
            kind: slope_code(slope_of(tag_byte(t[14]))) as u32,
            ..base_codes(20)
        },
        NodeKind::Shape => GpuCodes {
            kind: shape_code(shape_of(tag_byte(t[36]))) as u32,
            octaves: clamp_int(word_int(t[39]), 3, 16) as u32,
            ..base_codes(23)
        },
        NodeKind::Transform => GpuCodes {
            flags: if t[45] != 0 {
                1
            } else {
                0
            },
            ..base_codes(24)
        },
        NodeKind::TileSampler => GpuCodes {
            octaves: clamp_int(word_int(t[46]), 1, 32) as u32,
            kind: clamp_int(word_int(t[47]), 1, 32) as u32,
            ..base_codes(25)
        },
        NodeKind::FloodFill => base_codes(0),
        NodeKind::Output => base_codes(0),
    }
}

fn word_i32(w: u32) -> (r: i32)
    ensures
        r == word_int(w),
{
    w as i32
}

fn clamp_i32(x: i32, lo: i32, hi: i32) -> (r: i32)
    requires
        lo <= hi,
    ensures
        r == clamp_int(x as int, lo as int, hi as int),
{
    if x < lo {
        lo
    } else if x > hi {
        hi
    } else {
        x
    }
}

fn clamp_u32(x: i32, lo: i32, hi: i32) -> (r: u32)
    requires
        0 <= lo <= hi,
    ensures
        r as int == clamp_int(x as int, lo as int, hi as int),
{
    clamp_i32(x, lo, hi) as u32
}

fn tag_of(w: u32) -> (r: u8)
    ensures
        r == tag_byte(w),
{
    (w % 256) as u8
}

fn base(op: u32) -> (r: GpuCodes)
    ensures
        r == base_codes(op),
{
    GpuCodes {
        op,
        kind: 0,
        octaves: 1,
        flags: 0,
        scale_count: None,
        f1_count: None,
        f5_count: None,
    }
}

/// The integer parameters the GPU evaluator packs for one node: operation number,
/// variant code, iteration count and flags, and the clamped integer settings it stores
/// in float slots.
pub fn gpu_codes(n: &NodeRecord) -> (r: GpuCodes)
    requires
        node_wf(n.view()),
    ensures
        r == gpu_codes_of(n.view()),
{
    let h = &n.head;
    let t = &n.tail;
    match n.kind {
        NodeKind::Noise => GpuCodes {
            kind: noise_kind(noise_from(tag_of(h[6]))),
            octaves: clamp_u32(word_i32(h[8]), 1, 8),
            flags: if h[10] != 0 {
                1
            } else {
                0
            },
            ..base(0)
        },
        NodeKind::Color => base(1),
        NodeKind::Gradient => GpuCodes { kind: grad_u8(grad_from(tag_of(h[23]))) as u32, ..base(2) },
        NodeKind::Lines => GpuCodes {
            scale_count: Some(clamp_i32(word_i32(t[1]), 1, 64)),
            ..base(3)
        },
        NodeKind::Checker => base(4),
        NodeKind::Tile => GpuCodes {
            octaves: clamp_u32(word_i32(t[18]), 1, 32),
            kind: clamp_u32(word_i32(t[19]), 1, 32),
            ..base(5)
        },
        NodeKind::Bricks => GpuCodes {
            scale_count: Some(clamp_i32(word_i32(t[26]), 1, 64)),
            f5_count: Some(clamp_i32(word_i32(t[27]), 1, 64)),
            ..base(6)
        },
        NodeKind::Invert => base(7),
        NodeKind::Levels => base(8),
        NodeKind::GrayToColor => base(9),
        NodeKind::ColorToGray => base(10),
        NodeKind::ColorRamp => base(11),
        NodeKind::Blend => GpuCodes { kind: blend_kind(blend_from(tag_of(h[13]))), ..base(12) },
        NodeKind::HeightToNormal => base(13),
        NodeKind::Curvature => {
            let r = word_i32(h[31]);
            GpuCodes {
                f1_count: Some(
                    if r < 1 {
                        1
                    } else {
                        r
                    },
                ),
                ..base(22)
            }
        },
        NodeKind::Distort => base(14),
        NodeKind::Warp => base(15),
        NodeKind::DirectionalWarp => base(16),
        NodeKind::Blur => base(17),
        NodeKind::SlopeBlur => GpuCodes {
            octaves: clamp_u32(word_i32(t[13]), 1, 32),
            kind: slope_u8(slope_from(tag_of(t[14]))) as u32,
            ..base(20)
        },
        NodeKind::Shape => GpuCodes {
            kind: shape_u8(shape_from(tag_of(t[36]))) as u32,
            octaves: clamp_u32(word_i32(t[39]), 3, 16),
            ..base(23)
        },
        NodeKind::Transform => GpuCodes {
            flags: if t[45] != 0 {
                1
            } else {
                0
            },
            ..base(24)
        },
        NodeKind::TileSampler => GpuCodes {
            octaves: clamp_u32(word_i32(t[46]), 1, 32),
            kind: clamp_u32(word_i32(t[47]), 1, 32),
            ..base(25)
        },
        NodeKind::FloodFill => base(0),
        NodeKind::Output => base(0),
    }
}

/// A node-record word read as a signed integer and clamped to `lo..=hi`.
pub open spec fn signed_word_clamped(w: u32, lo: int, hi: int) -> int {
    let x = (w as i32) as int;
    if x < lo {
        lo
    } else if x > hi {
        hi
    } else {
        x
    }
}

/// Where each count the GPU pass uses comes from, for every node: a tile grid's `octaves`
/// is its x amount (tail 18) and its `kind` its y amount (tail 19), each clamped to
/// 1..=32, and likewise for the tile sampler (tail 46, 47); bricks and lines pass their
/// counts (tail 26, 27; tail 1) clamped to 1..=64; slope blur its sample count (tail 13,
/// 1..=32); a shape its side count (tail 39, 3..=16); noise its octaves (head 8, 1..=8); and
/// curvature its radius (head 31, at least 1). Every kind has its own operation number.
pub proof fn law_gpu_codes_read_their_counts(n: NodeRecordView)
    ensures
        ({
            let c = gpu_codes_of(n);
            let h = n.head;
            let t = n.tail;
            &&& n.kind == NodeKind::Tile ==> c.op == 5 && c.octaves == signed_word_clamped(t[18], 1, 32)
                && c.kind == signed_word_clamped(t[19], 1, 32)
            &&& n.kind == NodeKind::TileSampler ==> c.op == 25 && c.octaves == signed_word_clamped(
                t[46],
                1,
                32,
            ) && c.kind == signed_word_clamped(t[47], 1, 32)
            &&& n.kind == NodeKind::Bricks ==> c.op == 6 && c.scale_count == Some(
                signed_word_clamped(t[26], 1, 64) as i32,
            ) && c.f5_count == Some(signed_word_clamped(t[27], 1, 64) as i32)
            &&& n.kind == NodeKind::Lines ==> c.op == 3 && c.scale_count == Some(
                signed_word_clamped(t[1], 1, 64) as i32,
            )
            &&& n.kind == NodeKind::SlopeBlur ==> c.op == 20 && c.octaves == signed_word_clamped(
                t[13],
                1,
                32,
            )
            &&& n.kind == NodeKind::Shape ==> c.op == 23 && c.octaves == signed_word_clamped(t[39], 3, 16)
            &&& n.kind == NodeKind::Noise ==> c.op == 0 && c.octaves == signed_word_clamped(h[8], 1, 8)
            &&& n.kind == NodeKind::Curvature ==> c.op == 22 && c.f1_count == Some(
                (if (h[31] as i32) < 1 {
                    1
                } else {
                    h[31] as i32
                }),
            )
            &&& n.kind == NodeKind::Color ==> c.op == 1
            &&& n.kind == NodeKind::Gradient ==> c.op == 2
            &&& n.kind == NodeKind::Checker ==> c.op == 4
            &&& n.kind == NodeKind::Invert ==> c.op == 7
            &&& n.kind == NodeKind::Levels ==> c.op == 8
            &&& n.kind == NodeKind::GrayToColor ==> c.op == 9
            &&& n.kind == NodeKind::ColorToGray ==> c.op == 10
            &&& n.kind == NodeKind::ColorRamp ==> c.op == 11
            &&& n.kind == NodeKind::Blend ==> c.op == 12
            &&& n.kind == NodeKind::HeightToNormal ==> c.op == 13
            &&& n.kind == NodeKind::Distort ==> c.op == 14
            &&& n.kind == NodeKind::Warp ==> c.op == 15
            &&& n.kind == NodeKind::DirectionalWarp ==> c.op == 16
            &&& n.kind == NodeKind::Blur ==> c.op == 17
            &&& n.kind == NodeKind::Transform ==> c.op == 24 && c.flags == (if t[45] != 0 {
                1u32
            } else {
                0u32
            })
        }),
{
}

/// Which word each node's variant code and flags come from: noise type (head 6) and its
/// tileable flag (head 10), gradient mode (head 23), blend mode (head 13), slope blur mode
/// (tail 14), shape kind (tail 36).
pub proof fn law_gpu_codes_read_their_modes(n: NodeRecordView)
    ensures
        ({
            let c = gpu_codes_of(n);
            let h = n.head;
            let t = n.tail;
            &&& n.kind == NodeKind::Noise ==> c.kind == noise_code(noise_of(tag_byte(h[6]))) && c.flags == (
            if h[10] != 0 {
                1u32
            } else {
                0u32
            })
            &&& n.kind == NodeKind::Gradient ==> c.kind == gradient_code(gradient_of(tag_byte(h[23])))
            &&& n.kind == NodeKind::Blend ==> c.kind == blend_code(blend_of(tag_byte(h[13])))
            &&& n.kind == NodeKind::SlopeBlur ==> c.kind == slope_code(slope_of(tag_byte(t[14])))
            &&& n.kind == NodeKind::Shape ==> c.kind == shape_code(shape_of(tag_byte(t[36])))
        }),
{
}

} // verus!
