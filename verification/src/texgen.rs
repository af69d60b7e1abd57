//! Node kinds of the procedural texture graph and the small enums its nodes carry,
//! with their stable one-byte codes and display labels.
use vstd::prelude::*;

verus! {

/// What a graph node computes.
#[derive(Clone, Copy, Debug, PartialEq, Eq, Structural)]
pub enum NodeKind {
    Output,
    Color,
    Noise,
    Blend,
    Gradient,
    Levels,
    HeightToNormal,
    Curvature,
    GrayToColor,
    ColorToGray,
    ColorRamp,
    Lines,
    Distort,
    Checker,
    Tile,
    Bricks,
    FloodFill,
    Invert,
    Warp,
    DirectionalWarp,
    Blur,
    SlopeBlur,
    Shape,
    Transform,
    TileSampler,
}

/// The stable byte code of a node kind (declaration order).
pub open spec fn node_kind_code(k: NodeKind) -> u8 {
    match k {
        NodeKind::Output => 0,
        NodeKind::Color => 1,
        NodeKind::Noise => 2,
        NodeKind::Blend => 3,
        NodeKind::Gradient => 4,
        NodeKind::Levels => 5,
        NodeKind::HeightToNormal => 6,
        NodeKind::Curvature => 7,
        NodeKind::GrayToColor => 8,
        NodeKind::ColorToGray => 9,
        NodeKind::ColorRamp => 10,
        NodeKind::Lines => 11,
        NodeKind::Distort => 12,
        NodeKind::Checker => 13,
        NodeKind::Tile => 14,
        NodeKind::Bricks => 15,
        NodeKind::FloodFill => 16,
        NodeKind::Invert => 17,
        NodeKind::Warp => 18,
        NodeKind::DirectionalWarp => 19,
        NodeKind::Blur => 20,
        NodeKind::SlopeBlur => 21,
        NodeKind::Shape => 22,
        NodeKind::Transform => 23,
        NodeKind::TileSampler => 24,
    }
}

/// The node kind with byte code `b`, if any.
pub open spec fn node_kind_from_u8(b: u8) -> Option<NodeKind> {
    if b == 0 {
        Some(NodeKind::Output)
    } else if b == 1 {
        Some(NodeKind::Color)
    } else if b == 2 {
        Some(NodeKind::Noise)
    } else if b == 3 {
        Some(NodeKind::Blend)
    } else if b == 4 {
        Some(NodeKind::Gradient)
    } else if b == 5 {
        Some(NodeKind::Levels)
    } else if b == 6 {
        Some(NodeKind::HeightToNormal)
    } else if b == 7 {
        Some(NodeKind::Curvature)
    } else if b == 8 {
        Some(NodeKind::GrayToColor)
    } else if b == 9 {
        Some(NodeKind::ColorToGray)
    } else if b == 10 {
        Some(NodeKind::ColorRamp)
    } else if b == 11 {
        Some(NodeKind::Lines)
    } else if b == 12 {
        Some(NodeKind::Distort)
    } else if b == 13 {
        Some(NodeKind::Checker)
    } else if b == 14 {
        Some(NodeKind::Tile)
    } else if b == 15 {
        Some(NodeKind::Bricks)
    } else if b == 16 {
        Some(NodeKind::FloodFill)
    } else if b == 17 {
        Some(NodeKind::Invert)
    } else if b == 18 {
        Some(NodeKind::Warp)
    } else if b == 19 {
        Some(NodeKind::DirectionalWarp)
    } else if b == 20 {
        Some(NodeKind::Blur)
    } else if b == 21 {
        Some(NodeKind::SlopeBlur)
    } else if b == 22 {
        Some(NodeKind::Shape)
    } else if b == 23 {
        Some(NodeKind::Transform)
    } else if b == 24 {
        Some(NodeKind::TileSampler)
    } else {
        None
    }
}

/// The title shown on a node.
pub open spec fn node_title(k: NodeKind) -> Seq<char> {
    match k {
        NodeKind::Output => "Output"@,
        NodeKind::Color => "Color"@,
        NodeKind::Noise => "Noise"@,
        NodeKind::Blend => "Blend"@,
        NodeKind::Gradient => "Gradient"@,
        NodeKind::Levels => "Levels"@,
        NodeKind::HeightToNormal => "Height → Normal"@,
        NodeKind::Curvature => "Curvature"@,
        NodeKind::GrayToColor => "Gray → Color"@,
        NodeKind::ColorToGray => "Color → Gray"@,
        NodeKind::ColorRamp => "Color Ramp"@,
        NodeKind::Lines => "Lines"@,
        NodeKind::Distort => "Distort"@,
        NodeKind::Checker => "Checker"@,
        NodeKind::Tile => "Tile Generator"@,
        NodeKind::Bricks => "Bricks"@,
        NodeKind::FloodFill => "Flood Fill"@,
        NodeKind::Invert => "Invert"@,
        NodeKind::Warp => "Warp"@,
        NodeKind::DirectionalWarp => "Directional Warp"@,
        NodeKind::Blur => "Blur"@,
        NodeKind::SlopeBlur => "Slope Blur"@,
        NodeKind::Shape => "Shape"@,
        NodeKind::Transform => "Transform"@,
        NodeKind::TileSampler => "Tile Sampler"@,
    }
}

impl NodeKind {
    pub fn title(self) -> (r: &'static str)
        ensures
            r@ == node_title(self),
    {
        match self {
            NodeKind::Output => "Output",
            NodeKind::Color => "Color",
            NodeKind::Noise => "Noise",
            NodeKind::Blend => "Blend",
            NodeKind::Gradient => "Gradient",
            NodeKind::Levels => "Levels",
            NodeKind::HeightToNormal => "Height → Normal",
            NodeKind::Curvature => "Curvature",
            NodeKind::GrayToColor => "Gray → Color",
            NodeKind::ColorToGray => "Color → Gray",
            NodeKind::ColorRamp => "Color Ramp",
            NodeKind::Lines => "Lines",
            NodeKind::Distort => "Distort",
            NodeKind::Checker => "Checker",
            NodeKind::Tile => "Tile Generator",
            NodeKind::Bricks => "Bricks",
            NodeKind::FloodFill => "Flood Fill",
            NodeKind::Invert => "Invert",
            NodeKind::Warp => "Warp",
            NodeKind::DirectionalWarp => "Directional Warp",
            NodeKind::Blur => "Blur",
            NodeKind::SlopeBlur => "Slope Blur",
            NodeKind::Shape => "Shape",
            NodeKind::Transform => "Transform",
            NodeKind::TileSampler => "Tile Sampler",
        }
    }

    /// Every node but the output node can be deleted.
    pub fn can_delete(self) -> (r: bool)
        ensures
            r == (self != NodeKind::Output),
    {
        match self {
            NodeKind::Output => false,
            _ => true,
        }
    }

    /// Every node but the output node shows a preview.
    pub fn has_preview(self) -> (r: bool)
        ensures
            r == (self != NodeKind::Output),
    {
        match self {
            NodeKind::Output => false,
            _ => true,
        }
    }

    /// The parameterless converters have no inspector.
    pub fn has_inspector(self) -> (r: bool)
        ensures
            r == !(self == NodeKind::GrayToColor || self == NodeKind::ColorToGray || self
                == NodeKind::Invert),
    {
        match self {
            NodeKind::GrayToColor | NodeKind::ColorToGray | NodeKind::Invert => false,
            _ => true,
        }
    }

    pub fn to_u8(self) -> (r: u8)
        ensures
            r == node_kind_code(self),
    {
        match self {
            NodeKind::Output => 0,
            NodeKind::Color => 1,
            NodeKind::Noise => 2,
            NodeKind::Blend => 3,
            NodeKind::Gradient => 4,
            NodeKind::Levels => 5,
            NodeKind::HeightToNormal => 6,
            NodeKind::Curvature => 7,
            NodeKind::GrayToColor => 8,
            NodeKind::ColorToGray => 9,
            NodeKind::ColorRamp => 10,
            NodeKind::Lines => 11,
            NodeKind::Distort => 12,
            NodeKind::Checker => 13,
            NodeKind::Tile => 14,
            NodeKind::Bricks => 15,
            NodeKind::FloodFill => 16,
            NodeKind::Invert => 17,
            NodeKind::Warp => 18,
            NodeKind::DirectionalWarp => 19,
            NodeKind::Blur => 20,
            NodeKind::SlopeBlur => 21,
            NodeKind::Shape => 22,
            NodeKind::Transform => 23,
            NodeKind::TileSampler => 24,
        }
    }

    pub fn from_u8(id: u8) -> (r: Option<NodeKind>)
        ensures
            r == node_kind_from_u8(id),
    {
        match id {
            0 => Some(NodeKind::Output),
            1 => Some(NodeKind::Color),
            2 => Some(NodeKind::Noise),
            3 => Some(NodeKind::Blend),
            4 => Some(NodeKind::Gradient),
            5 => Some(NodeKind::Levels),
            6 => Some(NodeKind::HeightToNormal),
            7 => Some(NodeKind::Curvature),
            8 => Some(NodeKind::GrayToColor),
            9 => Some(NodeKind::ColorToGray),
            10 => Some(NodeKind::ColorRamp),
            11 => Some(NodeKind::Lines),
            12 => Some(NodeKind::Distort),
            13 => Some(NodeKind::Checker),
            14 => Some(NodeKind::Tile),
            15 => Some(NodeKind::Bricks),
            16 => Some(NodeKind::FloodFill),
            17 => Some(NodeKind::Invert),
            18 => Some(NodeKind::Warp),
            19 => Some(NodeKind::DirectionalWarp),
            20 => Some(NodeKind::Blur),
            21 => Some(NodeKind::SlopeBlur),
            22 => Some(NodeKind::Shape),
            23 => Some(NodeKind::Transform),
            24 => Some(NodeKind::TileSampler),
            _ => None,
        }
    }
}

/// A node kind survives its byte code, and a byte that decodes to a kind is that kind's
/// code: the codes are exactly `0..=24`, one per kind.
pub proof fn law_node_kind_code_roundtrip(k: NodeKind, b: u8)
    ensures
        node_kind_from_u8(node_kind_code(k)) == Some(k),
        node_kind_from_u8(b) matches Some(k2) ==> node_kind_code(k2) == b,
        node_kind_from_u8(b) is Some <==> b <= 24,
{
}

/// How a blend node combines its inputs.
#[derive(Clone, Copy, Debug, PartialEq, Eq, Structural)]
pub enum BlendMode {
    Mix,
    Multiply,
    Add,
    Overlay,
    Screen,
    Divide,
    Subtract,
    Difference,
    Darken,
    Lighten,
}

pub open spec fn blend_label(m: BlendMode) -> Seq<char> {
    match m {
        BlendMode::Mix => "Mix"@,
        BlendMode::Multiply => "Multiply"@,
        BlendMode::Add => "Add"@,
        BlendMode::Overlay => "Overlay"@,
        BlendMode::Screen => "Screen"@,
        BlendMode::Divide => "Divide"@,
        BlendMode::Subtract => "Subtract"@,
        BlendMode::Difference => "Difference"@,
        BlendMode::Darken => "Darken"@,
        BlendMode::Lighten => "Lighten"@,
    }
}

impl BlendMode {
    pub fn label(self) -> (r: &'static str)
        ensures
            r@ == blend_label(self),
    {
        match self {
            BlendMode::Mix => "Mix",
            BlendMode::Multiply => "Multiply",
            BlendMode::Add => "Add",
            BlendMode::Overlay => "Overlay",
            BlendMode::Screen => "Screen",
            BlendMode::Divide => "Divide",
            BlendMode::Subtract => "Subtract",
            BlendMode::Difference => "Difference",
            BlendMode::Darken => "Darken",
            BlendMode::Lighten => "Lighten",
        }
    }
}

/// Direction of a gradient node.
#[derive(Clone, Copy, Debug, PartialEq, Eq, Structural)]
pub enum GradientMode {
    Linear,
    Radial,
}

pub open spec fn gradient_label(m: GradientMode) -> Seq<char> {
    match m {
        GradientMode::Linear => "Linear"@,
        GradientMode::Radial => "Radial"@,
    }
}

impl GradientMode {
    pub fn label(self) -> (r: &'static str)
        ensures
            r@ == gradient_label(self),
    {
        match self {
            GradientMode::Linear => "Linear",
            GradientMode::Radial => "Radial",
        }
    }
}

/// Noise family of a noise node.
#[derive(Clone, Copy, Debug, PartialEq, Eq, Structural)]
pub enum NoiseType {
    Value,
    Perlin,
    Voronoi,
    VoronoiEdge,
    Gauss,
    Cloud,
    Anisotropic,
}

/// What a slope-blur node keeps along the slope.
#[derive(Clone, Copy, Debug, PartialEq, Eq, Structural)]
pub enum SlopeBlurMode {
    Blur,
    Min,
    Max,
}

/// Outline drawn by a shape node.
#[derive(Clone, Copy, Debug, PartialEq, Eq, Structural)]
pub enum ShapeKind {
    Rectangle,
    Circle,
    Triangle,
    NGon,
}

pub open spec fn noise_code(t: NoiseType) -> u8 {
    match t {
        NoiseType::Value => 0,
        NoiseType::Perlin => 1,
        NoiseType::Voronoi => 2,
        NoiseType::VoronoiEdge => 3,
        NoiseType::Gauss => 4,
        NoiseType::Cloud => 5,
        NoiseType::Anisotropic => 6,
    }
}

/// Unknown codes read as `Value`.
pub open spec fn noise_of(b: u8) -> NoiseType {
    if b == 1 {
        NoiseType::Perlin
    } else if b == 2 {
        NoiseType::Voronoi
    } else if b == 3 {
        NoiseType::VoronoiEdge
    } else if b == 4 {
        NoiseType::Gauss
    } else if b == 5 {
        NoiseType::Cloud
    } else if b == 6 {
        NoiseType::Anisotropic
    } else {
        NoiseType::Value
    }
}

pub open spec fn blend_code(m: BlendMode) -> u8 {
    match m {
        BlendMode::Mix => 0,
        BlendMode::Multiply => 1,
        BlendMode::Add => 2,
        BlendMode::Overlay => 3,
        BlendMode::Screen => 4,
        BlendMode::Divide => 5,
        BlendMode::Subtract => 6,
        BlendMode::Difference => 7,
        BlendMode::Darken => 8,
        BlendMode::Lighten => 9,
    }
}

/// Unknown codes read as `Mix`.
pub open spec fn blend_of(b: u8) -> BlendMode {
    if b == 1 {
        BlendMode::Multiply
    } else if b == 2 {
        BlendMode::Add
    } else if b == 3 {
        BlendMode::Overlay
    } else if b == 4 {
        BlendMode::Screen
    } else if b == 5 {
        BlendMode::Divide
    } else if b == 6 {
        BlendMode::Subtract
    } else if b == 7 {
        BlendMode::Difference
    } else if b == 8 {
        BlendMode::Darken
    } else if b == 9 {
        BlendMode::Lighten
    } else {
        BlendMode::Mix
    }
}

pub open spec fn gradient_code(m: GradientMode) -> u8 {
    match m {
        GradientMode::Linear => 0,
        GradientMode::Radial => 1,
    }
}

/// Only code 1 reads as `Radial`.
pub open spec fn gradient_of(b: u8) -> GradientMode {
    if b == 1 {
        GradientMode::Radial
    } else {
        GradientMode::Linear
    }
}

pub open spec fn slope_code(m: SlopeBlurMode) -> u8 {
    match m {
        SlopeBlurMode::Blur => 0,
        SlopeBlurMode::Min => 1,
        SlopeBlurMode::Max => 2,
    }
}

/// Unknown codes read as `Blur`.
pub open spec fn slope_of(b: u8) -> SlopeBlurMode {
    if b == 1 {
        SlopeBlurMode::Min
    } else if b == 2 {
        SlopeBlurMode::Max
    } else {
        SlopeBlurMode::Blur
    }
}

pub open spec fn shape_code(k: ShapeKind) -> u8 {
    match k {
        ShapeKind::Rectangle => 0,
        ShapeKind::Circle => 1,
        ShapeKind::Triangle => 2,
        ShapeKind::NGon => 3,
    }
}

/// Unknown codes read as `Rectangle`.
pub open spec fn shape_of(b: u8) -> ShapeKind {
    if b == 1 {
        ShapeKind::Circle
    } else if b == 2 {
        ShapeKind::Triangle
    } else if b == 3 {
        ShapeKind::NGon
    } else {
        ShapeKind::Rectangle
    }
}

pub fn noise_u8(t: NoiseType) -> (r: u8)
    ensures
        r == noise_code(t),
{
    match t {
        NoiseType::Value => 0,
        NoiseType::Perlin => 1,
        NoiseType::Voronoi => 2,
        NoiseType::VoronoiEdge => 3,
        NoiseType::Gauss => 4,
        NoiseType::Cloud => 5,
        NoiseType::Anisotropic => 6,
    }
}

pub fn noise_from(id: u8) -> (r: NoiseType)
    ensures
        r == noise_of(id),
{
    match id {
        1 => NoiseType::Perlin,
        2 => NoiseType::Voronoi,
        3 => NoiseType::VoronoiEdge,
        4 => NoiseType::Gauss,
        5 => NoiseType::Cloud,
        6 => NoiseType::Anisotropic,
        _ => NoiseType::Value,
    }
}

pub fn blend_u8(m: BlendMode) -> (r: u8)
    ensures
        r == blend_code(m),
{
    match m {
        BlendMode::Mix => 0,
        BlendMode::Multiply => 1,
        BlendMode::Add => 2,
        BlendMode::Overlay => 3,
        BlendMode::Screen => 4,
        BlendMode::Divide => 5,
        BlendMode::Subtract => 6,
        BlendMode::Difference => 7,
        BlendMode::Darken => 8,
        BlendMode::Lighten => 9,
    }
}

pub fn blend_from(id: u8) -> (r: BlendMode)
    ensures
        r == blend_of(id),
{
    match id {
        1 => BlendMode::Multiply,
        2 => BlendMode::Add,
        3 => BlendMode::Overlay,
        4 => BlendMode::Screen,
        5 => BlendMode::Divide,
        6 => BlendMode::Subtract,
        7 => BlendMode::Difference,
        8 => BlendMode::Darken,
        9 => BlendMode::Lighten,
        _ => BlendMode::Mix,
    }
}

pub fn grad_u8(m: GradientMode) -> (r: u8)
    ensures
        r == gradient_code(m),
{
    match m {
        GradientMode::Linear => 0,
        GradientMode::Radial => 1,
    }
}

pub fn grad_from(id: u8) -> (r: GradientMode)
    ensures
        r == gradient_of(id),
{
    if id == 1 {
        GradientMode::Radial
    } else {
        GradientMode::Linear
    }
}

pub fn slope_u8(m: SlopeBlurMode) -> (r: u8)
    ensures
        r == slope_code(m),
{
    match m {
        SlopeBlurMode::Blur => 0,
        SlopeBlurMode::Min => 1,
        SlopeBlurMode::Max => 2,
    }
}

pub fn slope_from(id: u8) -> (r: SlopeBlurMode)
    ensures
        r == slope_of(id),
{
    match id {
        1 => SlopeBlurMode::Min,
        2 => SlopeBlurMode::Max,
        _ => SlopeBlurMode::Blur,
    }
}

pub fn shape_u8(k: ShapeKind) -> (r: u8)
    ensures
        r == shape_code(k),
{
    match k {
        ShapeKind::Rectangle => 0,
        ShapeKind::Circle => 1,
        ShapeKind::Triangle => 2,
        ShapeKind::NGon => 3,
    }
}

pub fn shape_from(id: u8) -> (r: ShapeKind)
    ensures
        r == shape_of(id),
{
    match id {
        1 => ShapeKind::Circle,
        2 => ShapeKind::Triangle,
        3 => ShapeKind::NGon,
        _ => ShapeKind::Rectangle,
    }
}

/// Each parameter enum survives its byte code; a byte outside the codes reads as the
/// enum's first variant.
pub proof fn law_param_codes_roundtrip(
    t: NoiseType,
    m: BlendMode,
    g: GradientMode,
    s: SlopeBlurMode,
    k: ShapeKind,
    b: u8,
)
    ensures
        noise_of(noise_code(t)) == t,
        blend_of(blend_code(m)) == m,
        gradient_of(gradient_code(g)) == g,
        slope_of(slope_code(s)) == s,
        shape_of(shape_code(k)) == k,
        b > 6 ==> noise_of(b) == NoiseType::Value,
        b > 9 ==> blend_of(b) == BlendMode::Mix,
        b != 1 ==> gradient_of(b) == GradientMode::Linear,
        b > 2 ==> slope_of(b) == SlopeBlurMode::Blur,
        b > 3 ==> shape_of(b) == ShapeKind::Rectangle,
{
}

/// The noise family code the GPU evaluator reads.
pub fn noise_kind(k: NoiseType) -> (r: u32)
    ensures
        r == noise_code(k) as u32,
{
    noise_u8(k) as u32
}

/// The blend mode code the GPU evaluator reads.
pub fn blend_kind(m: BlendMode) -> (r: u32)
    ensures
        r == blend_code(m) as u32,
{
    blend_u8(m) as u32
}

/// Node kinds whose output is a color image.
pub open spec fn outputs_color(k: NodeKind) -> bool {
    k == NodeKind::Color || k == NodeKind::Blend || k == NodeKind::HeightToNormal || k
        == NodeKind::GrayToColor || k == NodeKind::ColorRamp
}

pub fn is_color_source(k: NodeKind) -> (r: bool)
    ensures
        r == outputs_color(k),
{
    match k {
        NodeKind::Color | NodeKind::Blend | NodeKind::HeightToNormal | NodeKind::GrayToColor
        | NodeKind::ColorRamp => true,
        _ => false,
    }
}

} // verus!
