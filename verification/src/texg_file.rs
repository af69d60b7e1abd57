//! The `TEXG` payload: a procedural texture graph (bake resolution, id serial, output
//! node id, node records, links). Node parameters are carried as raw fields: one-byte
//! fields (enum tags, flags) and four-byte fields (`f32` bit patterns, `i32`s).
use vstd::prelude::*;
use vstd::utf8::*;
use crate::wire::{
    le32, le64, bytes16, bytes32, bytes64, get_u16, get_u32, get_u64, utf8_string,
    put_u16, put_u32, put_u64, put_bytes, string_bytes, le16, words32_bytes, put_words32,
};
use crate::texgen::{
    node_kind_from_u8, node_kind_code, noise_code, noise_of, blend_code, blend_of, gradient_code, gradient_of,
    slope_code, slope_of, shape_code, shape_of,
};
use crate::material::{height_code, height_of};
use crate::graph::{
    TexLink, TexLinkView, NodeRecord, NodeRecordView, TexGraph, TexGraphView, has_node,
    nodes_view, links_view, find_node,
};

verus! {

/// Why a `TEXG` payload was rejected.
#[derive(Debug, Clone, PartialEq, Eq)]
pub enum TexGraphBytesError {
    Truncated,
    UnsupportedVersion(u32),
    BadUtf8,
    UnknownNodeKind(u8),
    NoOutput,
}

/// Field codes. `FIELD_WORD` is a four-byte little-endian word (an `f32` bit pattern or
/// an `i32`); the others are one byte holding an enum code or a flag, which reads back
/// normalized (an unknown code as the enum's first variant, a flag as 0 or 1).
pub const FIELD_WORD: u8 = 4;
pub const FIELD_NOISE: u8 = 10;
pub const FIELD_FLAG: u8 = 11;
pub const FIELD_BLEND: u8 = 12;
pub const FIELD_GRADIENT: u8 = 13;
pub const FIELD_SLOPE: u8 = 14;
pub const FIELD_SHAPE: u8 = 15;
pub const FIELD_HEIGHT: u8 = 16;

/// Codes of the fixed node fields before the color ramp: position, color, noise
/// settings, blend settings, gradient mode, levels, normal strength, curvature.
pub open spec fn head_codes() -> Seq<u8> {
    seq![
        4u8, 4, 4, 4, 4, 4, 10, 4, 4, 4, 11, 4, 4, 12, 4, 4, 4, 4, 4, 4, 4, 4, 4, 13, 4, 4, 4, 4,
        4, 4, 4, 4,
    ]
}

/// Codes of the fixed node fields after the color ramp: lines, distort, warps, blur,
/// slope blur, checker, tiles, bricks, flood fill, shape, transform, tile sampler,
/// tessellation and height mode.
pub open spec fn tail_codes() -> Seq<u8> {
    seq![
        4u8, 4, 4, 4, 4, 4, 4, 4, 4, 4, 4, 4, 4, 4, 14, 4, 4, 4, 4, 4, 4, 4, 4, 4, 4, 4, 4, 4, 4,
        4, 4, 4, 4, 4, 4, 4, 15, 4, 4, 4, 4, 4, 4, 4, 4, 11, 4, 4, 4, 4, 4, 4, 4, 4, 16,
    ]
}

/// Bytes a field of code `c` takes.
pub open spec fn field_width(c: u8) -> int {
    if c == FIELD_WORD {
        4
    } else {
        1
    }
}

/// The normalized value of a one-byte field.
pub open spec fn tag_value(c: u8, b: u8) -> u32 {
    if c == FIELD_NOISE {
        noise_code(noise_of(b)) as u32
    } else if c == FIELD_BLEND {
        blend_code(blend_of(b)) as u32
    } else if c == FIELD_GRADIENT {
        gradient_code(gradient_of(b)) as u32
    } else if c == FIELD_SLOPE {
        slope_code(slope_of(b)) as u32
    } else if c == FIELD_SHAPE {
        shape_code(shape_of(b)) as u32
    } else if c == FIELD_HEIGHT {
        height_code(height_of(b)) as u32
    } else if b != 0 {
        1
    } else {
        0
    }
}

/// Bake recipe: the graph plus the bake resolution.
pub struct TexGraphFile {
    pub resolution: u32,
    pub graph: TexGraph,
}

pub struct TexGraphFileView {
    pub resolution: u32,
    pub graph: TexGraphView,
}

impl TexGraphFile {
    pub open spec fn view(&self) -> TexGraphFileView {
        TexGraphFileView { resolution: self.resolution, graph: self.graph.view() }
    }
}

/// A u16-length-prefixed UTF-8 string at `pos`.
pub open spec fn texg_str(p: Seq<u8>, pos: int) -> Result<(Seq<char>, int), TexGraphBytesError> {
    if p.len() - pos < 2 {
        Err(TexGraphBytesError::Truncated)
    } else {
        let n = le16(p, pos);
        if p.len() - (pos + 2) < n {
            Err(TexGraphBytesError::Truncated)
        } else if !valid_utf8(p.subrange(pos + 2, pos + 2 + n)) {
            Err(TexGraphBytesError::BadUtf8)
        } else {
            Ok((decode_utf8(p.subrange(pos + 2, pos + 2 + n)), pos + 2 + n))
        }
    }
}

/// One field of code `c` at `pos`.
pub open spec fn field_at(p: Seq<u8>, pos: int, c: u8) -> u32 {
    if c == FIELD_WORD {
        le32(p, pos) as u32
    } else {
        tag_value(c, p[pos])
    }
}

/// Fields `i..` of `codes` read from `pos`: values and end offset, `None` when the input
/// ends first.
pub open spec fn texg_fields(p: Seq<u8>, pos: int, codes: Seq<u8>, i: int, acc: Seq<u32>) -> Option<
    (Seq<u32>, int),
>
    decreases codes.len() - i,
{
    if i < 0 || i >= codes.len() {
        Some((acc, pos))
    } else if p.len() - pos < field_width(codes[i]) {
        None
    } else {
        texg_fields(p, pos + field_width(codes[i]), codes, i + 1, acc.push(field_at(p, pos, codes[i])))
    }
}

/// `k` four-byte words at `pos`.
pub open spec fn texg_words(p: Seq<u8>, pos: int, k: int) -> Option<(Seq<u32>, int)> {
    if p.len() - pos < 4 * k {
        None
    } else {
        Some((Seq::new(k as nat, |j: int| le32(p, pos + 4 * j) as u32), pos + 4 * k))
    }
}

/// A node record at `pos`.
pub open spec fn texg_node(p: Seq<u8>, pos: int) -> Result<(NodeRecordView, int), TexGraphBytesError> {
    if p.len() - pos < 1 {
        Err(TexGraphBytesError::Truncated)
    } else {
        match node_kind_from_u8(p[pos]) {
            None => Err(TexGraphBytesError::UnknownNodeKind(p[pos])),
            Some(kind) => match texg_str(p, pos + 1) {
                Err(e) => Err(e),
                Ok((id, q1)) => match texg_fields(p, q1, head_codes(), 0, Seq::empty()) {
                    None => Err(TexGraphBytesError::Truncated),
                    Some((head, q2)) => if p.len() - q2 < 2 {
                        Err(TexGraphBytesError::Truncated)
                    } else {
                        match texg_words(p, q2 + 2, 5 * le16(p, q2)) {
                            None => Err(TexGraphBytesError::Truncated),
                            Some((colors, q3)) => if p.len() - q3 < 2 {
                                Err(TexGraphBytesError::Truncated)
                            } else {
                                match texg_words(p, q3 + 2, 2 * le16(p, q3)) {
                                    None => Err(TexGraphBytesError::Truncated),
                                    Some((opacities, q4)) => match texg_fields(
                                        p,
                                        q4,
                                        tail_codes(),
                                        0,
                                        Seq::empty(),
                                    ) {
                                        None => Err(TexGraphBytesError::Truncated),
                                        Some((tail, q5)) => Ok(
                                            (
                                                NodeRecordView {
                                                    kind,
                                                    id,
                                                    head,
                                                    colors,
                                                    opacities,
                                                    tail,
                                                },
                                                q5,
                                            ),
                                        ),
                                    },
                                }
                            },
                        }
                    },
                },
            },
        }
    }
}

/// `k` more node records from `pos`.
pub open spec fn texg_nodes(p: Seq<u8>, pos: int, k: nat, acc: Seq<NodeRecordView>) -> Result<
    (Seq<NodeRecordView>, int),
    TexGraphBytesError,
>
    decreases k,
{
    if k == 0 {
        Ok((acc, pos))
    } else {
        match texg_node(p, pos) {
            Err(e) => Err(e),
            Ok((n, q)) => texg_nodes(p, q, (k - 1) as nat, acc.push(n)),
        }
    }
}

/// A link record: four strings (from node, from port, to node, to port).
pub open spec fn texg_link(p: Seq<u8>, pos: int) -> Result<(TexLinkView, int), TexGraphBytesError> {
    match texg_str(p, pos) {
        Err(e) => Err(e),
        Ok((a, q1)) => match texg_str(p, q1) {
            Err(e) => Err(e),
            Ok((b, q2)) => match texg_str(p, q2) {
                Err(e) => Err(e),
                Ok((c, q3)) => match texg_str(p, q3) {
                    Err(e) => Err(e),
                    Ok((d, q4)) => Ok(
                        (TexLinkView { from_node: a, from_port: b, to_node: c, to_port: d }, q4),
                    ),
                },
            },
        },
    }
}

/// `k` more link records from `pos`.
pub open spec fn texg_links(p: Seq<u8>, pos: int, k: nat, acc: Seq<TexLinkView>) -> Result<
    (Seq<TexLinkView>, int),
    TexGraphBytesError,
>
    decreases k,
{
    if k == 0 {
        Ok((acc, pos))
    } else {
        match texg_link(p, pos) {
            Err(e) => Err(e),
            Ok((l, q)) => texg_links(p, q, (k - 1) as nat, acc.push(l)),
        }
    }
}

/// The bake resolution is kept within 64..=2048.
pub open spec fn clamp_resolution(r: u32) -> u32 {
    if r < 64 {
        64
    } else if r > 2048 {
        2048
    } else {
        r
    }
}

/// What a `TEXG` payload decodes to: version 1, resolution (clamped), id serial, output
/// id, node records, links; the payload must end exactly after the last link, and some
/// node must carry the output id.
#[verifier::opaque]
pub open spec fn texg_decode(p: Seq<u8>) -> Result<TexGraphFileView, TexGraphBytesError> {
    if p.len() < 4 {
        Err(TexGraphBytesError::Truncated)
    } else if le32(p, 0) != 1 {
        Err(TexGraphBytesError::UnsupportedVersion(le32(p, 0) as u32))
    } else if p.len() < 16 {
        Err(TexGraphBytesError::Truncated)
    } else {
        let resolution = clamp_resolution(le32(p, 4) as u32);
        let next = le64(p, 8) as u64;
        match texg_str(p, 16) {
            Err(e) => Err(e),
            Ok((output_id, q1)) => if p.len() - q1 < 4 {
                Err(TexGraphBytesError::Truncated)
            } else {
                match texg_nodes(p, q1 + 4, le32(p, q1) as nat, Seq::empty()) {
                    Err(e) => Err(e),
                    Ok((nodes, q2)) => if p.len() - q2 < 4 {
                        Err(TexGraphBytesError::Truncated)
                    } else {
                        match texg_links(p, q2 + 4, le32(p, q2) as nat, Seq::empty()) {
                            Err(e) => Err(e),
                            Ok((links, q3)) => if q3 != p.len() {
                                Err(TexGraphBytesError::Truncated)
                            } else if !has_node(nodes, output_id) {
                                Err(TexGraphBytesError::NoOutput)
                            } else {
                                Ok(
                                    TexGraphFileView {
                                        resolution,
                                        graph: TexGraphView { nodes, links, output_id, next },
                                    },
                                )
                            },
                        }
                    },
                }
            },
        }
    }
}

// ---------------------------------------------------------------------------------------
// Exec decoding
// ---------------------------------------------------------------------------------------
fn head_codes_exec() -> (r: Vec<u8>)
    ensures
        r@ == head_codes(),
{
    let r = vec![
        4u8, 4, 4, 4, 4, 4, 10, 4, 4, 4, 11, 4, 4, 12, 4, 4, 4, 4, 4, 4, 4, 4, 4, 13, 4, 4, 4, 4,
        4, 4, 4, 4,
    ];
    assert(r@ =~= head_codes());
    r
}

fn tail_codes_exec() -> (r: Vec<u8>)
    ensures
        r@ == tail_codes(),
{
    let r = vec![
        4u8, 4, 4, 4, 4, 4, 4, 4, 4, 4, 4, 4, 4, 4, 14, 4, 4, 4, 4, 4, 4, 4, 4, 4, 4, 4, 4, 4, 4,
        4, 4, 4, 4, 4, 4, 4, 15, 4, 4, 4, 4, 4, 4, 4, 4, 11, 4, 4, 4, 4, 4, 4, 4, 4, 16,
    ];
    assert(r@ =~= tail_codes());
    r
}

/// The normalized value of a one-byte field.
fn read_tag(c: u8, b: u8) -> (r: u32)
    ensures
        r == tag_value(c, b),
{
    if c == FIELD_NOISE {
        crate::texgen::noise_u8(crate::texgen::noise_from(b)) as u32
    } else if c == FIELD_BLEND {
        crate::texgen::blend_u8(crate::texgen::blend_from(b)) as u32
    } else if c == FIELD_GRADIENT {
        crate::texgen::grad_u8(crate::texgen::grad_from(b)) as u32
    } else if c == FIELD_SLOPE {
        crate::texgen::slope_u8(crate::texgen::slope_from(b)) as u32
    } else if c == FIELD_SHAPE {
        crate::texgen::shape_u8(crate::texgen::shape_from(b)) as u32
    } else if c == FIELD_HEIGHT {
        crate::material::height_u8(crate::material::height_from(b)) as u32
    } else if b != 0 {
        1
    } else {
        0
    }
}

fn read_str(p: &[u8], pos: usize) -> (r: Result<(String, usize), TexGraphBytesError>)
    requires
        pos <= p@.len(),
    ensures
        match texg_str(p@, pos as int) {
            Ok((s, q)) => r matches Ok(x) && x.0@ == s && x.1 == q,
            Err(e) => r matches Err(e2) && e2 == e,
        },
        r matches Ok(x) ==> x.1 <= p@.len(),
{
    if p.len() - pos < 2 {
        return Err(TexGraphBytesError::Truncated);
    }
    let n = get_u16(p, pos) as usize;
    if p.len() - (pos + 2) < n {
        return Err(TexGraphBytesError::Truncated);
    }
    match utf8_string(&p[pos + 2..pos + 2 + n]) {
        Some(s) => {
            proof {
                encode_utf8_decode_utf8(s@);
            }
            Ok((s, pos + 2 + n))
        },
        None => Err(TexGraphBytesError::BadUtf8),
    }
}

fn read_fields(p: &[u8], pos: usize, codes: &Vec<u8>) -> (r: Option<(Vec<u32>, usize)>)
    requires
        pos <= p@.len(),
    ensures
        match texg_fields(p@, pos as int, codes@, 0, Seq::empty()) {
            Some((v, q)) => r matches Some(x) && x.0@ == v && x.1 == q,
            None => r is None,
        },
        r matches Some(x) ==> x.1 <= p@.len(),
{
    let mut out: Vec<u32> = Vec::new();
    let mut q = pos;
    let mut i: usize = 0;
    while i < codes.len()
        invariant
            q <= p@.len(),
            i <= codes@.len(),
            texg_fields(p@, pos as int, codes@, 0, Seq::empty()) == texg_fields(
                p@,
                q as int,
                codes@,
                i as int,
                out@,
            ),
        decreases codes@.len() - i,
    {
        let c = codes[i];
        let w: usize = if c == FIELD_WORD {
            4
        } else {
            1
        };
        if p.len() - q < w {
            return None;
        }
        let v = if c == FIELD_WORD {
            get_u32(p, q)
        } else {
            read_tag(c, p[q])
        };
        out.push(v);
        q = q + w;
        i += 1;
    }
    Some((out, q))
}

fn read_words(p: &[u8], pos: usize, k: usize) -> (r: Option<(Vec<u32>, usize)>)
    requires
        pos <= p@.len(),
    ensures
        match texg_words(p@, pos as int, k as int) {
            Some((v, q)) => r matches Some(x) && x.0@ == v && x.1 == q,
            None => r is None,
        },
        r matches Some(x) ==> x.1 <= p@.len(),
{
    let avail = p.len() - pos;
    if avail / 4 < k {
        assert(avail < 4 * k) by (nonlinear_arith)
            requires
                avail / 4 < k,
        ;
        return None;
    }
    assert(4 * k <= avail) by (nonlinear_arith)
        requires
            k <= avail / 4,
    ;
    let mut out: Vec<u32> = Vec::new();
    let mut j: usize = 0;
    let plen = p.len();
    while j < k
        invariant
            plen == p@.len(),
            pos + 4 * k <= p@.len(),
            j <= k,
            out@ == Seq::new(j as nat, |i: int| le32(p@, pos + 4 * i) as u32),
        decreases k - j,
    {
        assert(4 * j < 4 * k);
        out.push(get_u32(p, pos + 4 * j));
        j += 1;
        assert(out@ =~= Seq::new(j as nat, |i: int| le32(p@, pos + 4 * i) as u32));
    }
    Some((out, pos + 4 * k))
}

fn read_node(p: &[u8], pos: usize) -> (r: Result<(NodeRecord, usize), TexGraphBytesError>)
    requires
        pos <= p@.len(),
    ensures
        match texg_node(p@, pos as int) {
            Ok((n, q)) => r matches Ok(x) && x.0.view() == n && x.1 == q,
            Err(e) => r matches Err(e2) && e2 == e,
        },
        r matches Ok(x) ==> x.1 <= p@.len(),
{
    if p.len() - pos < 1 {
        return Err(TexGraphBytesError::Truncated);
    }
    let kind = match crate::texgen::NodeKind::from_u8(p[pos]) {
        Some(k) => k,
        None => {
            return Err(TexGraphBytesError::UnknownNodeKind(p[pos]));
        },
    };
    let (id, q1) = read_str(p, pos + 1)?;
    let hc = head_codes_exec();
    let (head, q2) = match read_fields(p, q1, &hc) {
        Some(x) => x,
        None => {
            return Err(TexGraphBytesError::Truncated);
        },
    };
    if p.len() - q2 < 2 {
        return Err(TexGraphBytesError::Truncated);
    }
    let n_col = get_u16(p, q2) as usize;
    let (colors, q3) = match read_words(p, q2 + 2, 5 * n_col) {
        Some(x) => x,
        None => {
            return Err(TexGraphBytesError::Truncated);
        },
    };
    if p.len() - q3 < 2 {
        return Err(TexGraphBytesError::Truncated);
    }
    let n_op = get_u16(p, q3) as usize;
    let (opacities, q4) = match read_words(p, q3 + 2, 2 * n_op) {
        Some(x) => x,
        None => {
            return Err(TexGraphBytesError::Truncated);
        },
    };
    let tc = tail_codes_exec();
    let (tail, q5) = match read_fields(p, q4, &tc) {
        Some(x) => x,
        None => {
            return Err(TexGraphBytesError::Truncated);
        },
    };
    Ok((NodeRecord { kind, id, head, colors, opacities, tail }, q5))
}

fn read_link(p: &[u8], pos: usize) -> (r: Result<(TexLink, usize), TexGraphBytesError>)
    requires
        pos <= p@.len(),
    ensures
        match texg_link(p@, pos as int) {
            Ok((l, q)) => r matches Ok(x) && x.0.view() == l && x.1 == q,
            Err(e) => r matches Err(e2) && e2 == e,
        },
        r matches Ok(x) ==> x.1 <= p@.len(),
{
    let (a, q1) = read_str(p, pos)?;
    let (b, q2) = read_str(p, q1)?;
    let (c, q3) = read_str(p, q2)?;
    let (d, q4) = read_str(p, q3)?;
    Ok((TexLink { from_node: a, from_port: b, to_node: c, to_port: d }, q4))
}

impl TexGraphFile {
    /// Decodes a `TEXG` payload.
    pub fn from_bytes(p: &[u8]) -> (r: Result<TexGraphFile, TexGraphBytesError>)
        ensures
            match texg_decode(p@) {
                Ok(v) => r matches Ok(f) && f.view() == v,
                Err(e) => r matches Err(e2) && e2 == e,
            },
    {
        reveal(texg_decode);
        if p.len() < 4 {
            return Err(TexGraphBytesError::Truncated);
        }
        let version = get_u32(p, 0);
        if version != 1 {
            return Err(TexGraphBytesError::UnsupportedVersion(version));
        }
        if p.len() < 16 {
            return Err(TexGraphBytesError::Truncated);
        }
        let raw_res = get_u32(p, 4);
        let resolution = if raw_res < 64 {
            64
        } else if raw_res > 2048 {
            2048
        } else {
            raw_res
        };
        let next = get_u64(p, 8);
        let (output_id, q1) = read_str(p, 16)?;
        if p.len() - q1 < 4 {
            return Err(TexGraphBytesError::Truncated);
        }
        let n_nodes = get_u32(p, q1);
        let mut nodes: Vec<NodeRecord> = Vec::new();
        let mut q = q1 + 4;
        let mut i: u32 = 0;
        assert(nodes_view(nodes@) =~= Seq::<NodeRecordView>::empty());
        let ghost full = texg_nodes(p@, q1 + 4, n_nodes as nat, Seq::empty());
        assert(match full {
            Err(e) => texg_decode(p@) == Err::<TexGraphFileView, TexGraphBytesError>(e),
            Ok(_) => true,
        });
        while i < n_nodes
            invariant
                full == texg_nodes(p@, q1 + 4, n_nodes as nat, Seq::empty()),
                match full {
                    Err(e) => texg_decode(p@) == Err::<TexGraphFileView, TexGraphBytesError>(e),
                    Ok(_) => true,
                },
                q <= p@.len(),
                i <= n_nodes,
                texg_nodes(p@, q1 + 4, n_nodes as nat, Seq::empty()) == texg_nodes(
                    p@,
                    q as int,
                    (n_nodes - i) as nat,
                    nodes_view(nodes@),
                ),
            decreases n_nodes - i,
        {
            let ghost acc = nodes_view(nodes@);
            let (n, nq) = match read_node(p, q) {
                Ok(x) => x,
                Err(e) => {
                    assert(texg_node(p@, q as int) == Err::<(NodeRecordView, int), _>(e));
                    return Err(e);
                },
            };
            nodes.push(n);
            q = nq;
            i += 1;
            assert(nodes_view(nodes@) =~= acc.push(n.view()));
        }
        let q2 = q;
        if p.len() - q2 < 4 {
            return Err(TexGraphBytesError::Truncated);
        }
        let n_links = get_u32(p, q2);
        let mut links: Vec<TexLink> = Vec::new();
        let mut q = q2 + 4;
        let mut i: u32 = 0;
        assert(links_view(links@) =~= Seq::<TexLinkView>::empty());
        let ghost full = texg_links(p@, q2 + 4, n_links as nat, Seq::empty());
        assert(match full {
            Err(e) => texg_decode(p@) == Err::<TexGraphFileView, TexGraphBytesError>(e),
            Ok(_) => true,
        });
        while i < n_links
            invariant
                full == texg_links(p@, q2 + 4, n_links as nat, Seq::empty()),
                match full {
                    Err(e) => texg_decode(p@) == Err::<TexGraphFileView, TexGraphBytesError>(e),
                    Ok(_) => true,
                },
                q <= p@.len(),
                i <= n_links,
                texg_links(p@, q2 + 4, n_links as nat, Seq::empty()) == texg_links(
                    p@,
                    q as int,
                    (n_links - i) as nat,
                    links_view(links@),
                ),
            decreases n_links - i,
        {
            let ghost acc = links_view(links@);
            let (l, nq) = match read_link(p, q) {
                Ok(x) => x,
                Err(e) => {
                    assert(texg_link(p@, q as int) == Err::<(TexLinkView, int), _>(e));
                    return Err(e);
                },
            };
            links.push(l);
            q = nq;
            i += 1;
            assert(links_view(links@) =~= acc.push(l.view()));
        }
        if q != p.len() {
            return Err(TexGraphBytesError::Truncated);
        }
        match TexGraph::from_decoded(nodes, links, output_id, next) {
            Ok(graph) => Ok(TexGraphFile { resolution, graph }),
            Err(e) => Err(e),
        }
    }
}

// ---------------------------------------------------------------------------------------
// Encoding
// ---------------------------------------------------------------------------------------
/// A u16-length-prefixed string: at most 65535 bytes are kept, longer strings are cut.
pub open spec fn str_bytes(s: Seq<char>) -> Seq<u8> {
    let b = encode_utf8(s);
    let n = if b.len() > 65535 {
        65535
    } else {
        b.len() as int
    };
    bytes16(n) + b.take(n)
}

/// One field as written: a little-endian word, or the low byte.
pub open spec fn field_bytes(c: u8, v: u32) -> Seq<u8> {
    if c == FIELD_WORD {
        bytes32(v as int)
    } else {
        seq![(v % 256) as u8]
    }
}

/// Fields `0..i` as written.
pub open spec fn fields_bytes(vals: Seq<u32>, codes: Seq<u8>, i: int) -> Seq<u8>
    decreases i,
{
    if i <= 0 {
        Seq::empty()
    } else {
        fields_bytes(vals, codes, i - 1) + field_bytes(codes[i - 1], vals[i - 1])
    }
}

/// The stop count written for `words` words of `per` words each (at most 65535).
pub open spec fn stop_count(words: int, per: int) -> int {
    if words / per > 65535 {
        65535
    } else {
        words / per
    }
}

/// A node has one field per code and whole stops.
pub open spec fn node_wf(n: NodeRecordView) -> bool {
    &&& n.head.len() == head_codes().len()
    &&& n.tail.len() == tail_codes().len()
    &&& n.colors.len() % 5 == 0
    &&& n.opacities.len() % 2 == 0
}

/// A node record as written: kind code, id, head fields, color stops (count, words),
/// opacity stops (count, words), tail fields.
#[verifier::opaque]
pub open spec fn node_bytes(n: NodeRecordView) -> Seq<u8> {
    seq![node_kind_code(n.kind)] + str_bytes(n.id) + fields_bytes(n.head, head_codes(), 32)
        + bytes16(stop_count(n.colors.len() as int, 5)) + words32_bytes(n.colors) + bytes16(
        stop_count(n.opacities.len() as int, 2),
    ) + words32_bytes(n.opacities) + fields_bytes(n.tail, tail_codes(), 55)
}

pub open spec fn nodes_bytes(ns: Seq<NodeRecordView>) -> Seq<u8>
    decreases ns.len(),
{
    if ns.len() == 0 {
        Seq::empty()
    } else {
        nodes_bytes(ns.drop_last()) + node_bytes(ns.last())
    }
}

pub open spec fn link_bytes(l: TexLinkView) -> Seq<u8> {
    str_bytes(l.from_node) + str_bytes(l.from_port) + str_bytes(l.to_node) + str_bytes(l.to_port)
}

pub open spec fn links_bytes(ls: Seq<TexLinkView>) -> Seq<u8>
    decreases ls.len(),
{
    if ls.len() == 0 {
        Seq::empty()
    } else {
        links_bytes(ls.drop_last()) + link_bytes(ls.last())
    }
}

/// What `to_bytes` writes: version 1, resolution (0 written as 1), id serial, output id,
/// node count and nodes, link count and links.
pub open spec fn texg_encode(f: TexGraphFileView) -> Seq<u8> {
    bytes32(1) + bytes32(if f.resolution == 0 {
        1
    } else {
        f.resolution as int
    }) + bytes64(f.graph.next as int) + str_bytes(f.graph.output_id) + bytes32(
        f.graph.nodes.len() as int,
    ) + nodes_bytes(f.graph.nodes) + bytes32(f.graph.links.len() as int) + links_bytes(
        f.graph.links,
    )
}

/// Appends a u16-length-prefixed string.
fn put_str(out: &mut Vec<u8>, s: &String)
    ensures
        final(out)@ == old(out)@ + str_bytes(s@),
{
    let b = string_bytes(s);
    let n: usize = if b.len() > 65535 {
        65535
    } else {
        b.len()
    };
    put_u16(out, n as u16);
    put_bytes(out, &b[0..n]);
    assert(b@.subrange(0, n as int) =~= encode_utf8(s@).take(n as int));
    assert(final(out)@ =~= old(out)@ + str_bytes(s@));
}

fn put_fields(out: &mut Vec<u8>, vals: &Vec<u32>, codes: &Vec<u8>)
    requires
        vals@.len() == codes@.len(),
    ensures
        final(out)@ == old(out)@ + fields_bytes(vals@, codes@, codes@.len() as int),
{
    let ghost start = out@;
    let mut i: usize = 0;
    while i < codes.len()
        invariant
            i <= codes@.len(),
            vals@.len() == codes@.len(),
            out@ == start + fields_bytes(vals@, codes@, i as int),
        decreases codes@.len() - i,
    {
        if codes[i] == FIELD_WORD {
            put_u32(out, vals[i]);
        } else {
            out.push((vals[i] % 256) as u8);
        }
        i += 1;
        assert(out@ =~= start + fields_bytes(vals@, codes@, i as int));
    }
}

#[verifier::spinoff_prover]
#[verifier::rlimit(40)]
fn put_node(out: &mut Vec<u8>, n: &NodeRecord)
    requires
        node_wf(n.view()),
    ensures
        final(out)@ == old(out)@ + node_bytes(n.view()),
{
    let ghost start = out@;
    let ghost nv = n.view();
    out.push(n.kind.to_u8());
    put_str(out, &n.id);
    let hc = head_codes_exec();
    put_fields(out, &n.head, &hc);
    let ghost front = out@;
    assert(front =~= start + (seq![node_kind_code(nv.kind)] + str_bytes(nv.id) + fields_bytes(
        nv.head,
        head_codes(),
        32,
    )));
    let nc = n.colors.len() / 5;
    put_u16(out, if nc > 65535 { 65535 } else { nc as u16 });
    put_words32(out, n.colors.as_slice());
    let no = n.opacities.len() / 2;
    put_u16(out, if no > 65535 { 65535 } else { no as u16 });
    put_words32(out, n.opacities.as_slice());
    let tc = tail_codes_exec();
    put_fields(out, &n.tail, &tc);
    assert(out@ =~= front + (bytes16(stop_count(nv.colors.len() as int, 5)) + words32_bytes(
        nv.colors,
    ) + bytes16(stop_count(nv.opacities.len() as int, 2)) + words32_bytes(nv.opacities)
        + fields_bytes(nv.tail, tail_codes(), 55)));
    assert(out@ =~= start + node_bytes(nv)) by {
        reveal(node_bytes);
    }
}

fn put_link(out: &mut Vec<u8>, l: &TexLink)
    ensures
        final(out)@ == old(out)@ + link_bytes(l.view()),
{
    let ghost start = out@;
    put_str(out, &l.from_node);
    put_str(out, &l.from_port);
    put_str(out, &l.to_node);
    put_str(out, &l.to_port);
    assert(out@ =~= start + link_bytes(l.view()));
}

/// Whether a node record has the field counts a `TEXG` node has (whole color and opacity
/// stops).
pub fn node_is_wf(n: &NodeRecord) -> (r: bool)
    ensures
        r == node_wf(n.view()),
{
    n.head.len() == head_codes_exec().len() && n.tail.len() == tail_codes_exec().len()
        && n.colors.len() % 5 == 0 && n.opacities.len() % 2 == 0
}

impl TexGraphFile {
    /// Whether `to_bytes` can encode the graph: node and link counts fit 32 bits and every
    /// node is well formed.
    pub fn sizes_ok(&self) -> (r: bool)
        ensures
            r == (self.graph.nodes@.len() <= u32::MAX && self.graph.links@.len() <= u32::MAX
                && forall|i: int|
                0 <= i < self.graph.nodes@.len() ==> node_wf(#[trigger] self.graph.nodes@[i].view())),
    {
        if self.graph.nodes.len() as u64 > 0xffff_ffff || self.graph.links.len() as u64 > 0xffff_ffff {
            return false;
        }
        let mut i: usize = 0;
        while i < self.graph.nodes.len()
            invariant
                i <= self.graph.nodes@.len(),
                forall|j: int| 0 <= j < i ==> node_wf(#[trigger] self.graph.nodes@[j].view()),
            decreases self.graph.nodes@.len() - i,
        {
            if !node_is_wf(&self.graph.nodes[i]) {
                return false;
            }
            i += 1;
        }
        true
    }
}

impl TexGraphFile {
    /// Encodes the graph as a `TEXG` payload.
    pub fn to_bytes(&self) -> (r: Vec<u8>)
        requires
            self.graph.nodes@.len() <= u32::MAX,
            self.graph.links@.len() <= u32::MAX,
            forall|i: int|
                0 <= i < self.graph.nodes@.len() ==> node_wf(#[trigger] self.graph.nodes@[i].view()),
        ensures
            r@ == texg_encode(self.view()),
    {
        let mut o: Vec<u8> = Vec::new();
        put_u32(&mut o, 1);
        put_u32(&mut o, if self.resolution == 0 { 1 } else { self.resolution });
        put_u64(&mut o, self.graph.next);
        put_str(&mut o, &self.graph.output_id);
        put_u32(&mut o, self.graph.nodes.len() as u32);
        let ghost before_nodes = o@;
        let ghost nv = nodes_view(self.graph.nodes@);
        let mut i: usize = 0;
        while i < self.graph.nodes.len()
            invariant
                i <= self.graph.nodes@.len(),
                nv == nodes_view(self.graph.nodes@),
                forall|i: int|
                    0 <= i < self.graph.nodes@.len() ==> node_wf(
                        #[trigger] self.graph.nodes@[i].view(),
                    ),
                o@ == before_nodes + nodes_bytes(nv.take(i as int)),
            decreases self.graph.nodes@.len() - i,
        {
            put_node(&mut o, &self.graph.nodes[i]);
            i += 1;
            assert(nv.take(i as int).drop_last() =~= nv.take(i - 1));
            assert(o@ =~= before_nodes + nodes_bytes(nv.take(i as int)));
        }
        assert(nv.take(i as int) =~= nv);
        put_u32(&mut o, self.graph.links.len() as u32);
        let ghost before_links = o@;
        let ghost lv = links_view(self.graph.links@);
        let mut j: usize = 0;
        while j < self.graph.links.len()
            invariant
                j <= self.graph.links@.len(),
                lv == links_view(self.graph.links@),
                o@ == before_links + links_bytes(lv.take(j as int)),
            decreases self.graph.links@.len() - j,
        {
            put_link(&mut o, &self.graph.links[j]);
            j += 1;
            assert(lv.take(j as int).drop_last() =~= lv.take(j - 1));
            assert(o@ =~= before_links + links_bytes(lv.take(j as int)));
        }
        assert(lv.take(j as int) =~= lv);
        assert(o@ =~= texg_encode(self.view()));
        o
    }
}

} // verus!
