//! The `MAT ` blob: a material recipe (PBR factors, subsurface, alpha cutout, hair
//! shading, texture ids by slot or by UDIM tile, and an optional procedural graph) as
//! tagged chunks. Factors are carried as IEEE-754 bit patterns (`u32` per `f32`).
use vstd::prelude::*;
use vstd::utf8::*;
use crate::wire::{
    le16, le32, pad4, run_chunks, get_u16, get_u32, utf8_string, read_chunk,
    lemma_run_chunks_unfold, lemma_chunk_progress, bytes32, zeros, words32_bytes, put_u16,
    put_u32, put_words32, write_chunk, pad_to_4, bytes16, words32, lemma_words32_roundtrip,
    lemma_words32_bytes_len, fourcc,
};
use crate::texg_file::{
    TexGraphFile, TexGraphFileView, TexGraphBytesError, texg_decode, texg_encode, str_bytes,
    node_wf,
};
use crate::skin_file::{put_chunk, blob_header};
use crate::store::{Handle, Store};
use crate::texture::Texture;
use crate::material::MaterialMaps;

verus! {

pub const MAT_MAGIC: u32 = 0x2054414d;

pub const MAT_VERSION: u16 = 1;

pub const TAG_PBR: u32 = 0x20524250;

pub const TAG_SSS: u32 = 0x20535353;

pub const TAG_CUT: u32 = 0x20545543;

pub const TAG_HAIR: u32 = 0x52494148;

pub const TAG_ALB: u32 = 0x20424c41;

pub const TAG_NRM: u32 = 0x204d524e;

pub const TAG_MR: u32 = 0x2020524d;

pub const TAG_UALB: u32 = 0x424c4155;

pub const TAG_UNRM: u32 = 0x4d524e55;

pub const TAG_UMR: u32 = 0x20524d55;

pub const TAG_TEXG: u32 = 0x47584554;

/// Bit pattern of `1.0f32`.
pub const ONE: u32 = 0x3f800000;

/// Why a `MAT ` blob was rejected.
#[derive(Debug, Clone, PartialEq, Eq)]
pub enum MaterialBytesError {
    Truncated,
    BadMagic,
    UnsupportedVersion(u16),
    Quantized,
    Duplicate(&'static str),
    MixedMaps,
    SizeMismatch,
    BadUtf8,
    NotProcedural,
    Graph(TexGraphBytesError),
}

/// Dual-specular hair shading parameters, as `f32` bit patterns.
#[derive(Clone, Copy, Debug)]
pub struct HairShading {
    pub primary_shift: u32,
    pub secondary_shift: u32,
    pub primary_exponent: u32,
    pub secondary_exponent: u32,
    pub secondary_tint: [u32; 3],
    pub secondary_strength: u32,
    pub tip_fade: u32,
    pub soft_blend: bool,
    pub cutout_fringe: u32,
}

impl HairShading {
    /// Shifts 0.345 / 0.46, exponents 1400 / 188, white tint, strength 0.24, no tip
    /// fade, hard cutout with fringe 0.85.
    pub fn default_shading() -> (r: HairShading)
        ensures
            r == hair_default(),
    {
        HairShading {
            primary_shift: 0x3eb0a3d7,
            secondary_shift: 0x3eeb851f,
            primary_exponent: 0x44af0000,
            secondary_exponent: 0x433c0000,
            secondary_tint: [ONE, ONE, ONE],
            secondary_strength: 0x3e75c28f,
            tip_fade: 0,
            soft_blend: false,
            cutout_fringe: 0x3f59999a,
        }
    }
}

pub open spec fn hair_default() -> HairShading {
    HairShading {
        primary_shift: 0x3eb0a3d7,
        secondary_shift: 0x3eeb851f,
        primary_exponent: 0x44af0000,
        secondary_exponent: 0x433c0000,
        secondary_tint: [ONE, ONE, ONE],
        secondary_strength: 0x3e75c28f,
        tip_fade: 0,
        soft_blend: false,
        cutout_fringe: 0x3f59999a,
    }
}

/// The shading path a material is drawn with.
#[derive(Clone, Copy, Debug)]
pub enum ShadingModel {
    Standard,
    Hair(HairShading),
}

/// Texture slots of a recipe: catalog ids, one per slot or per UDIM tile.
#[allow(inconsistent_fields)]
pub enum MaterialFileMaps {
    Single { albedo: Option<String>, normal: Option<String>, metallic_roughness: Option<String> },
    Udim {
        albedo: Vec<(u32, String)>,
        normal: Vec<(u32, String)>,
        metallic_roughness: Vec<(u32, String)>,
    },
}

#[allow(inconsistent_fields)]
pub enum MapsView {
    Single {
        albedo: Option<Seq<char>>,
        normal: Option<Seq<char>>,
        metallic_roughness: Option<Seq<char>>,
    },
    Udim {
        albedo: Seq<(u32, Seq<char>)>,
        normal: Seq<(u32, Seq<char>)>,
        metallic_roughness: Seq<(u32, Seq<char>)>,
    },
}

pub open spec fn opt_view(s: Option<String>) -> Option<Seq<char>> {
    match s {
        Some(x) => Some(x@),
        None => None,
    }
}

pub open spec fn tiles_view(t: Seq<(u32, String)>) -> Seq<(u32, Seq<char>)> {
    t.map_values(|e: (u32, String)| (e.0, e.1@))
}

impl MaterialFileMaps {
    pub open spec fn view(&self) -> MapsView {
        match self {
            MaterialFileMaps::Single { albedo, normal, metallic_roughness } => MapsView::Single {
                albedo: opt_view(*albedo),
                normal: opt_view(*normal),
                metallic_roughness: opt_view(*metallic_roughness),
            },
            MaterialFileMaps::Udim { albedo, normal, metallic_roughness } => MapsView::Udim {
                albedo: tiles_view(albedo@),
                normal: tiles_view(normal@),
                metallic_roughness: tiles_view(metallic_roughness@),
            },
        }
    }
}

/// A material recipe. Texture slots are catalog ids, not handles; `graph`, when set,
/// is baked instead of resolving the ids.
pub struct MaterialFile {
    pub albedo: [u32; 4],
    pub metallic: u32,
    pub roughness: u32,
    pub sss_strength: u32,
    pub sss_color: [u32; 3],
    pub sss_curvature: u32,
    pub alpha_cutoff: u32,
    pub shading_model: ShadingModel,
    pub maps: MaterialFileMaps,
    pub graph: Option<TexGraphFile>,
}

pub struct MaterialFileView {
    pub albedo: Seq<u32>,
    pub metallic: u32,
    pub roughness: u32,
    pub sss_strength: u32,
    pub sss_color: Seq<u32>,
    pub sss_curvature: u32,
    pub alpha_cutoff: u32,
    pub shading_model: ShadingModel,
    pub maps: MapsView,
    pub graph: Option<TexGraphFileView>,
}

pub open spec fn graph_view(g: Option<TexGraphFile>) -> Option<TexGraphFileView> {
    match g {
        Some(x) => Some(x.view()),
        None => None,
    }
}

impl MaterialFile {
    pub open spec fn view(&self) -> MaterialFileView {
        MaterialFileView {
            albedo: self.albedo@,
            metallic: self.metallic,
            roughness: self.roughness,
            sss_strength: self.sss_strength,
            sss_color: self.sss_color@,
            sss_curvature: self.sss_curvature,
            alpha_cutoff: self.alpha_cutoff,
            shading_model: self.shading_model,
            maps: self.maps.view(),
            graph: graph_view(self.graph),
        }
    }
}

/// The recipe of the default material: white albedo, metallic 0, roughness 0.5, no
/// subsurface (tint (1, 0.35, 0.2), curvature 0.3), opaque, standard shading, no maps.
pub open spec fn material_default() -> MaterialFileView {
    MaterialFileView {
        albedo: seq![ONE, ONE, ONE, ONE],
        metallic: 0,
        roughness: 0x3f000000,
        sss_strength: 0,
        sss_color: seq![ONE, 0x3eb33333, 0x3e4ccccd],
        sss_curvature: 0x3e99999a,
        alpha_cutoff: 0,
        shading_model: ShadingModel::Standard,
        maps: MapsView::Single { albedo: None, normal: None, metallic_roughness: None },
        graph: None,
    }
}

impl MaterialFile {
    pub fn default_file() -> (r: MaterialFile)
        ensures
            r.view() == material_default(),
    {
        let r = MaterialFile {
            albedo: [ONE, ONE, ONE, ONE],
            metallic: 0,
            roughness: 0x3f000000,
            sss_strength: 0,
            sss_color: [ONE, 0x3eb33333, 0x3e4ccccd],
            sss_curvature: 0x3e99999a,
            alpha_cutoff: 0,
            shading_model: ShadingModel::Standard,
            maps: MaterialFileMaps::Single { albedo: None, normal: None, metallic_roughness: None },
            graph: None,
        };
        assert(r.albedo@ =~= seq![ONE, ONE, ONE, ONE]);
        assert(r.sss_color@ =~= seq![ONE, 0x3eb33333, 0x3e4ccccd]);
        r
    }

    /// The recipe bakes a procedural graph.
    pub fn is_procedural(&self) -> (r: bool)
        ensures
            r == self.graph is Some,
    {
        self.graph.is_some()
    }
}

// ---------------------------------------------------------------------------------------
// Decoding, as a specification
// ---------------------------------------------------------------------------------------
/// `n` little-endian words at the start of a payload (extra bytes are ignored).
pub open spec fn mat_words(p: Seq<u8>, n: int) -> Result<Seq<u32>, MaterialBytesError> {
    if p.len() < 4 * n {
        Err(MaterialBytesError::SizeMismatch)
    } else {
        Ok(Seq::new(n as nat, |i: int| le32(p, 4 * i) as u32))
    }
}

/// A texture id: u16 byte length, then UTF-8 bytes (extra bytes are ignored).
pub open spec fn mat_id(p: Seq<u8>) -> Result<Seq<char>, MaterialBytesError> {
    if p.len() < 2 {
        Err(MaterialBytesError::Truncated)
    } else if p.len() < 2 + le16(p, 0) {
        Err(MaterialBytesError::SizeMismatch)
    } else if !valid_utf8(p.subrange(2, 2 + le16(p, 0))) {
        Err(MaterialBytesError::BadUtf8)
    } else {
        Ok(decode_utf8(p.subrange(2, 2 + le16(p, 0))))
    }
}

/// Hair shading: ten words, then a flag word whose bit 0 is `soft_blend`; exactly 44
/// bytes.
pub open spec fn mat_hair(p: Seq<u8>) -> Result<HairShading, MaterialBytesError> {
    if p.len() != 44 {
        Err(MaterialBytesError::SizeMismatch)
    } else {
        Ok(
            HairShading {
                primary_shift: le32(p, 0) as u32,
                secondary_shift: le32(p, 4) as u32,
                primary_exponent: le32(p, 8) as u32,
                secondary_exponent: le32(p, 12) as u32,
                secondary_tint: [le32(p, 16) as u32, le32(p, 20) as u32, le32(p, 24) as u32],
                secondary_strength: le32(p, 28) as u32,
                tip_fade: le32(p, 32) as u32,
                cutout_fringe: le32(p, 36) as u32,
                soft_blend: le32(p, 40) % 2 == 1,
            },
        )
    }
}

/// `k` more UDIM tiles from `pos`: u32 tile number, u16 id length, id bytes, then zero
/// padding to a multiple of 4 within the payload.
pub open spec fn mat_tiles_from(p: Seq<u8>, pos: int, k: nat, acc: Seq<(u32, Seq<char>)>) -> Result<
    (Seq<(u32, Seq<char>)>, int),
    MaterialBytesError,
>
    decreases k,
{
    if k == 0 {
        Ok((acc, pos))
    } else if p.len() - pos < 6 {
        Err(MaterialBytesError::Truncated)
    } else {
        let n = le16(p, pos + 4);
        let e = pos + 6 + n;
        if p.len() - (pos + 6) < n {
            Err(MaterialBytesError::Truncated)
        } else if !valid_utf8(p.subrange(pos + 6, e)) {
            Err(MaterialBytesError::BadUtf8)
        } else if p.len() - e < pad4(e) {
            Err(MaterialBytesError::Truncated)
        } else {
            mat_tiles_from(
                p,
                e + pad4(e),
                (k - 1) as nat,
                acc.push((le32(p, pos) as u32, decode_utf8(p.subrange(pos + 6, e)))),
            )
        }
    }
}

/// A UDIM tile list: u32 count, then the tiles, filling the payload exactly.
pub open spec fn mat_udim(p: Seq<u8>) -> Result<Seq<(u32, Seq<char>)>, MaterialBytesError> {
    if p.len() < 4 {
        Err(MaterialBytesError::Truncated)
    } else {
        match mat_tiles_from(p, 4, le32(p, 0) as nat, Seq::empty()) {
            Err(e) => Err(e),
            Ok((t, end)) => if end != p.len() {
                Err(MaterialBytesError::SizeMismatch)
            } else {
                Ok(t)
            },
        }
    }
}

/// Decoder state between chunks.
pub struct MatScan {
    pub file: MaterialFileView,
    pub saw_pbr: bool,
    pub saw_sss: bool,
    pub saw_cut: bool,
    pub saw_hair: bool,
    pub saw_alb: bool,
    pub saw_nrm: bool,
    pub saw_mr: bool,
    pub saw_ualb: bool,
    pub saw_unrm: bool,
    pub saw_umr: bool,
    pub saw_texg: bool,
    pub alb: Option<Seq<char>>,
    pub nrm: Option<Seq<char>>,
    pub mr: Option<Seq<char>>,
    pub ualb: Seq<(u32, Seq<char>)>,
    pub unrm: Seq<(u32, Seq<char>)>,
    pub umr: Seq<(u32, Seq<char>)>,
    pub used_single: bool,
    pub used_udim: bool,
}

pub open spec fn mat_scan_init() -> MatScan {
    MatScan {
        file: material_default(),
        saw_pbr: false,
        saw_sss: false,
        saw_cut: false,
        saw_hair: false,
        saw_alb: false,
        saw_nrm: false,
        saw_mr: false,
        saw_ualb: false,
        saw_unrm: false,
        saw_umr: false,
        saw_texg: false,
        alb: None,
        nrm: None,
        mr: None,
        ualb: Seq::empty(),
        unrm: Seq::empty(),
        umr: Seq::empty(),
        used_single: false,
        used_udim: false,
    }
}

/// Material factor chunks: `PBR `, `SSS `, `CUT `, `HAIR`.
#[verifier::opaque]
pub open spec fn mat_step_factor(st: MatScan, tag: u32, p: Seq<u8>) -> Result<MatScan, MaterialBytesError> {
    if tag == TAG_PBR {
        if st.saw_pbr {
            Err(MaterialBytesError::Duplicate("PBR"))
        } else {
            match mat_words(p, 6) {
                Err(e) => Err(e),
                Ok(w) => Ok(
                    MatScan {
                        file: MaterialFileView {
                            albedo: w.take(4),
                            metallic: w[4],
                            roughness: w[5],
                            ..st.file
                        },
                        saw_pbr: true,
                        ..st
                    },
                ),
            }
        }
    } else if tag == TAG_SSS {
        if st.saw_sss {
            Err(MaterialBytesError::Duplicate("SSS"))
        } else {
            match mat_words(p, 5) {
                Err(e) => Err(e),
                Ok(w) => Ok(
                    MatScan {
                        file: MaterialFileView {
                            sss_strength: w[0],
                            sss_color: w.subrange(1, 4),
                            sss_curvature: w[4],
                            ..st.file
                        },
                        saw_sss: true,
                        ..st
                    },
                ),
            }
        }
    } else if tag == TAG_CUT {
        if st.saw_cut {
            Err(MaterialBytesError::Duplicate("CUT"))
        } else {
            match mat_words(p, 1) {
                Err(e) => Err(e),
                Ok(w) => Ok(
                    MatScan {
                        file: MaterialFileView { alpha_cutoff: w[0], ..st.file },
                        saw_cut: true,
                        ..st
                    },
                ),
            }
        }
    } else if tag == TAG_HAIR {
        if st.saw_hair {
            Err(MaterialBytesError::Duplicate("HAIR"))
        } else {
            match mat_hair(p) {
                Err(e) => Err(e),
                Ok(h) => Ok(
                    MatScan {
                        file: MaterialFileView { shading_model: ShadingModel::Hair(h), ..st.file },
                        saw_hair: true,
                        ..st
                    },
                ),
            }
        }
    } else {
        Ok(st)
    }
}

/// Single-slot texture id chunks: `ALB `, `NRM `, `MR  `.
#[verifier::opaque]
pub open spec fn mat_step_slot(st: MatScan, tag: u32, p: Seq<u8>) -> Result<MatScan, MaterialBytesError> {
    if tag == TAG_ALB {
        if st.saw_alb {
            Err(MaterialBytesError::Duplicate("ALB"))
        } else {
            match mat_id(p) {
                Err(e) => Err(e),
                Ok(s) => Ok(MatScan { alb: Some(s), saw_alb: true, used_single: true, ..st }),
            }
        }
    } else if tag == TAG_NRM {
        if st.saw_nrm {
            Err(MaterialBytesError::Duplicate("NRM"))
        } else {
            match mat_id(p) {
                Err(e) => Err(e),
                Ok(s) => Ok(MatScan { nrm: Some(s), saw_nrm: true, used_single: true, ..st }),
            }
        }
    } else if tag == TAG_MR {
        if st.saw_mr {
            Err(MaterialBytesError::Duplicate("MR"))
        } else {
            match mat_id(p) {
                Err(e) => Err(e),
                Ok(s) => Ok(MatScan { mr: Some(s), saw_mr: true, used_single: true, ..st }),
            }
        }
    } else {
        Ok(st)
    }
}

/// UDIM tile set chunks: `UALB`, `UNRM`, `UMR `.
#[verifier::opaque]
pub open spec fn mat_step_udim(st: MatScan, tag: u32, p: Seq<u8>) -> Result<MatScan, MaterialBytesError> {
    if tag == TAG_UALB {
        if st.saw_ualb {
            Err(MaterialBytesError::Duplicate("UALB"))
        } else {
            match mat_udim(p) {
                Err(e) => Err(e),
                Ok(t) => Ok(MatScan { ualb: t, saw_ualb: true, used_udim: true, ..st }),
            }
        }
    } else if tag == TAG_UNRM {
        if st.saw_unrm {
            Err(MaterialBytesError::Duplicate("UNRM"))
        } else {
            match mat_udim(p) {
                Err(e) => Err(e),
                Ok(t) => Ok(MatScan { unrm: t, saw_unrm: true, used_udim: true, ..st }),
            }
        }
    } else if tag == TAG_UMR {
        if st.saw_umr {
            Err(MaterialBytesError::Duplicate("UMR"))
        } else {
            match mat_udim(p) {
                Err(e) => Err(e),
                Ok(t) => Ok(MatScan { umr: t, saw_umr: true, used_udim: true, ..st }),
            }
        }
    } else {
        Ok(st)
    }
}

/// The procedural graph chunk `TEXG`.
#[verifier::opaque]
pub open spec fn mat_step_graph(st: MatScan, tag: u32, p: Seq<u8>) -> Result<MatScan, MaterialBytesError> {
    if tag == TAG_TEXG {
        if st.saw_texg {
            Err(MaterialBytesError::Duplicate("TEXG"))
        } else {
            match texg_decode(p) {
                Err(e) => Err(MaterialBytesError::Graph(e)),
                Ok(g) => Ok(
                    MatScan {
                        file: MaterialFileView { graph: Some(g), ..st.file },
                        saw_texg: true,
                        ..st
                    },
                ),
            }
        }
    } else {
        Ok(st)
    }
}

/// Decodes one chunk into the scan state; a tag seen twice is an error, an unknown tag
/// is skipped.
#[verifier::opaque]
pub open spec fn mat_step(st: MatScan, tag: u32, p: Seq<u8>) -> Result<MatScan, MaterialBytesError> {
    if tag == TAG_PBR || tag == TAG_SSS || tag == TAG_CUT || tag == TAG_HAIR {
        mat_step_factor(st, tag, p)
    } else if tag == TAG_ALB || tag == TAG_NRM || tag == TAG_MR {
        mat_step_slot(st, tag, p)
    } else if tag == TAG_UALB || tag == TAG_UNRM || tag == TAG_UMR {
        mat_step_udim(st, tag, p)
    } else if tag == TAG_TEXG {
        mat_step_graph(st, tag, p)
    } else {
        Ok(st)
    }
}

pub open spec fn mat_stepper() -> spec_fn(MatScan, u32, Seq<u8>) -> Result<MatScan, MaterialBytesError> {
    |st: MatScan, tag: u32, p: Seq<u8>| mat_step(st, tag, p)
}

/// The maps a finished scan settles on: the UDIM sets when any UDIM chunk was read,
/// else the single slots.
pub open spec fn scan_maps(st: MatScan) -> MapsView {
    if st.used_udim {
        MapsView::Udim { albedo: st.ualb, normal: st.unrm, metallic_roughness: st.umr }
    } else {
        MapsView::Single { albedo: st.alb, normal: st.nrm, metallic_roughness: st.mr }
    }
}

/// What a `MAT ` blob decodes to: header checks (length, magic, version, no quantized
/// flag), then the chunks in order over the default recipe; single and UDIM map chunks
/// may not be mixed.
#[verifier::opaque]
pub open spec fn mat_decode(bytes: Seq<u8>) -> Result<MaterialFileView, MaterialBytesError> {
    if bytes.len() < 8 {
        Err(MaterialBytesError::Truncated)
    } else if le32(bytes, 0) != MAT_MAGIC {
        Err(MaterialBytesError::BadMagic)
    } else if le16(bytes, 4) != MAT_VERSION {
        Err(MaterialBytesError::UnsupportedVersion(le16(bytes, 4) as u16))
    } else if le16(bytes, 6) % 2 == 1 {
        Err(MaterialBytesError::Quantized)
    } else {
        match run_chunks(mat_stepper(), MaterialBytesError::Truncated, bytes, 8, mat_scan_init()) {
            Err(e) => Err(e),
            Ok(st) => if st.used_single && st.used_udim {
                Err(MaterialBytesError::MixedMaps)
            } else {
                Ok(MaterialFileView { maps: scan_maps(st), ..st.file })
            },
        }
    }
}

// ---------------------------------------------------------------------------------------
// Decoding
// ---------------------------------------------------------------------------------------
fn read_mat_words(p: &[u8], n: usize) -> (r: Result<Vec<u32>, MaterialBytesError>)
    requires
        n <= 16,
    ensures
        match mat_words(p@, n as int) {
            Ok(w) => r matches Ok(v) && v@ == w,
            Err(e) => r matches Err(e2) && e2 == e,
        },
{
    if p.len() < 4 * n {
        return Err(MaterialBytesError::SizeMismatch);
    }
    let mut out: Vec<u32> = Vec::new();
    let mut i: usize = 0;
    while i < n
        invariant
            n <= 16,
            4 * n <= p@.len(),
            i <= n,
            out@ == Seq::new(i as nat, |j: int| le32(p@, 4 * j) as u32),
        decreases n - i,
    {
        out.push(get_u32(p, 4 * i));
        i += 1;
        assert(out@ =~= Seq::new(i as nat, |j: int| le32(p@, 4 * j) as u32));
    }
    Ok(out)
}

fn read_id(p: &[u8]) -> (r: Result<String, MaterialBytesError>)
    ensures
        match mat_id(p@) {
            Ok(s) => r matches Ok(x) && x@ == s,
            Err(e) => r matches Err(e2) && e2 == e,
        },
{
    if p.len() < 2 {
        return Err(MaterialBytesError::Truncated);
    }
    let n = get_u16(p, 0) as usize;
    if p.len() - 2 < n {
        return Err(MaterialBytesError::SizeMismatch);
    }
    match utf8_string(&p[2..2 + n]) {
        Some(s) => {
            proof {
                encode_utf8_decode_utf8(s@);
            }
            Ok(s)
        },
        None => Err(MaterialBytesError::BadUtf8),
    }
}

fn read_hair(p: &[u8]) -> (r: Result<HairShading, MaterialBytesError>)
    ensures
        match mat_hair(p@) {
            Ok(h) => r matches Ok(x) && x == h,
            Err(e) => r matches Err(e2) && e2 == e,
        },
{
    if p.len() != 44 {
        return Err(MaterialBytesError::SizeMismatch);
    }
    let flags = get_u32(p, 40);
    Ok(
        HairShading {
            primary_shift: get_u32(p, 0),
            secondary_shift: get_u32(p, 4),
            primary_exponent: get_u32(p, 8),
            secondary_exponent: get_u32(p, 12),
            secondary_tint: [get_u32(p, 16), get_u32(p, 20), get_u32(p, 24)],
            secondary_strength: get_u32(p, 28),
            tip_fade: get_u32(p, 32),
            cutout_fringe: get_u32(p, 36),
            soft_blend: flags % 2 == 1,
        },
    )
}

fn read_udim(p: &[u8]) -> (r: Result<Vec<(u32, String)>, MaterialBytesError>)
    ensures
        match mat_udim(p@) {
            Ok(t) => r matches Ok(v) && tiles_view(v@) == t,
            Err(e) => r matches Err(e2) && e2 == e,
        },
{
    if p.len() < 4 {
        return Err(MaterialBytesError::Truncated);
    }
    let count = get_u32(p, 0);
    let mut tiles: Vec<(u32, String)> = Vec::new();
    let mut pos: usize = 4;
    let mut i: u32 = 0;
    assert(tiles_view(tiles@) =~= Seq::<(u32, Seq<char>)>::empty());
    while i < count
        invariant
            4 <= pos <= p@.len(),
            i <= count,
            count == le32(p@, 0),
            mat_tiles_from(p@, 4, count as nat, Seq::empty()) == mat_tiles_from(
                p@,
                pos as int,
                (count - i) as nat,
                tiles_view(tiles@),
            ),
        decreases count - i,
    {
        let ghost acc = tiles_view(tiles@);
        if p.len() - pos < 6 {
            return Err(MaterialBytesError::Truncated);
        }
        let udim = get_u32(p, pos);
        let n = get_u16(p, pos + 4) as usize;
        if p.len() - (pos + 6) < n {
            return Err(MaterialBytesError::Truncated);
        }
        let e = pos + 6 + n;
        let id = match utf8_string(&p[pos + 6..e]) {
            Some(s) => s,
            None => {
                return Err(MaterialBytesError::BadUtf8);
            },
        };
        proof {
            encode_utf8_decode_utf8(id@);
        }
        let pad = (4 - e % 4) % 4;
        if p.len() - e < pad {
            return Err(MaterialBytesError::Truncated);
        }
        tiles.push((udim, id));
        pos = e + pad;
        i += 1;
        assert(tiles_view(tiles@) =~= acc.push((udim, decode_utf8(p@.subrange(e - n, e as int)))));
    }
    if pos != p.len() {
        return Err(MaterialBytesError::SizeMismatch);
    }
    Ok(tiles)
}

/// Exec form of the scan state.
struct MatParts {
    file: MaterialFile,
    saw_pbr: bool,
    saw_sss: bool,
    saw_cut: bool,
    saw_hair: bool,
    saw_alb: bool,
    saw_nrm: bool,
    saw_mr: bool,
    saw_ualb: bool,
    saw_unrm: bool,
    saw_umr: bool,
    saw_texg: bool,
    alb: Option<String>,
    nrm: Option<String>,
    mr: Option<String>,
    ualb: Vec<(u32, String)>,
    unrm: Vec<(u32, String)>,
    umr: Vec<(u32, String)>,
    used_single: bool,
    used_udim: bool,
}

impl MatParts {
    spec fn view(&self) -> MatScan {
        MatScan {
            file: MaterialFileView { maps: material_default().maps, ..self.file.view() },
            saw_pbr: self.saw_pbr,
            saw_sss: self.saw_sss,
            saw_cut: self.saw_cut,
            saw_hair: self.saw_hair,
            saw_alb: self.saw_alb,
            saw_nrm: self.saw_nrm,
            saw_mr: self.saw_mr,
            saw_ualb: self.saw_ualb,
            saw_unrm: self.saw_unrm,
            saw_umr: self.saw_umr,
            saw_texg: self.saw_texg,
            alb: opt_view(self.alb),
            nrm: opt_view(self.nrm),
            mr: opt_view(self.mr),
            ualb: tiles_view(self.ualb@),
            unrm: tiles_view(self.unrm@),
            umr: tiles_view(self.umr@),
            used_single: self.used_single,
            used_udim: self.used_udim,
        }
    }
}

#[verifier::rlimit(80)]
fn step_factor(st: &mut MatParts, tag: u32, p: &[u8]) -> (r: Result<(), MaterialBytesError>)
    ensures
        match mat_step_factor(old(st)@, tag, p@) {
            Ok(s2) => r is Ok && final(st)@ == s2,
            Err(e) => r matches Err(e2) && e2 == e,
        },
{
    reveal(mat_step_factor);
    if tag == TAG_PBR {
        if st.saw_pbr {
            return Err(MaterialBytesError::Duplicate("PBR"));
        }
        let w = match read_mat_words(p, 6) {
            Ok(w) => w,
            Err(e) => {
                return Err(e);
            },
        };
        st.file.albedo = [w[0], w[1], w[2], w[3]];
        st.file.metallic = w[4];
        st.file.roughness = w[5];
        st.saw_pbr = true;
        assert(st.file.albedo@ =~= w@.take(4));
        Ok(())
    } else if tag == TAG_SSS {
        if st.saw_sss {
            return Err(MaterialBytesError::Duplicate("SSS"));
        }
        let w = match read_mat_words(p, 5) {
            Ok(w) => w,
            Err(e) => {
                return Err(e);
            },
        };
        st.file.sss_strength = w[0];
        st.file.sss_color = [w[1], w[2], w[3]];
        st.file.sss_curvature = w[4];
        st.saw_sss = true;
        assert(st.file.sss_color@ =~= w@.subrange(1, 4));
        Ok(())
    } else if tag == TAG_CUT {
        if st.saw_cut {
            return Err(MaterialBytesError::Duplicate("CUT"));
        }
        let w = match read_mat_words(p, 1) {
            Ok(w) => w,
            Err(e) => {
                return Err(e);
            },
        };
        st.file.alpha_cutoff = w[0];
        st.saw_cut = true;
        Ok(())
    } else if tag == TAG_HAIR {
        if st.saw_hair {
            return Err(MaterialBytesError::Duplicate("HAIR"));
        }
        let h = match read_hair(p) {
            Ok(h) => h,
            Err(e) => {
                return Err(e);
            },
        };
        st.file.shading_model = ShadingModel::Hair(h);
        st.saw_hair = true;
        Ok(())
    } else {
        Ok(())
    }
}

#[verifier::rlimit(60)]
fn step_slot(st: &mut MatParts, tag: u32, p: &[u8]) -> (r: Result<(), MaterialBytesError>)
    ensures
        match mat_step_slot(old(st)@, tag, p@) {
            Ok(s2) => r is Ok && final(st)@ == s2,
            Err(e) => r matches Err(e2) && e2 == e,
        },
{
    reveal(mat_step_slot);
    if tag == TAG_ALB {
        if st.saw_alb {
            return Err(MaterialBytesError::Duplicate("ALB"));
        }
        let s = match read_id(p) {
            Ok(s) => s,
            Err(e) => {
                return Err(e);
            },
        };
        st.alb = Some(s);
        st.saw_alb = true;
        st.used_single = true;
        Ok(())
    } else if tag == TAG_NRM {
        if st.saw_nrm {
            return Err(MaterialBytesError::Duplicate("NRM"));
        }
        let s = match read_id(p) {
            Ok(s) => s,
            Err(e) => {
                return Err(e);
            },
        };
        st.nrm = Some(s);
        st.saw_nrm = true;
        st.used_single = true;
        Ok(())
    } else if tag == TAG_MR {
        if st.saw_mr {
            return Err(MaterialBytesError::Duplicate("MR"));
        }
        let s = match read_id(p) {
            Ok(s) => s,
            Err(e) => {
                return Err(e);
            },
        };
        st.mr = Some(s);
        st.saw_mr = true;
        st.used_single = true;
        Ok(())
    } else {
        Ok(())
    }
}

#[verifier::rlimit(60)]
fn step_udim(st: &mut MatParts, tag: u32, p: &[u8]) -> (r: Result<(), MaterialBytesError>)
    ensures
        match mat_step_udim(old(st)@, tag, p@) {
            Ok(s2) => r is Ok && final(st)@ == s2,
            Err(e) => r matches Err(e2) && e2 == e,
        },
{
    reveal(mat_step_udim);
    if tag == TAG_UALB {
        if st.saw_ualb {
            return Err(MaterialBytesError::Duplicate("UALB"));
        }
        let t = match read_udim(p) {
            Ok(t) => t,
            Err(e) => {
                return Err(e);
            },
        };
        st.ualb = t;
        st.saw_ualb = true;
        st.used_udim = true;
        Ok(())
    } else if tag == TAG_UNRM {
        if st.saw_unrm {
            return Err(MaterialBytesError::Duplicate("UNRM"));
        }
        let t = match read_udim(p) {
            Ok(t) => t,
            Err(e) => {
                return Err(e);
            },
        };
        st.unrm = t;
        st.saw_unrm = true;
        st.used_udim = true;
        Ok(())
    } else if tag == TAG_UMR {
        if st.saw_umr {
            return Err(MaterialBytesError::Duplicate("UMR"));
        }
        let t = match read_udim(p) {
            Ok(t) => t,
            Err(e) => {
                return Err(e);
            },
        };
        st.umr = t;
        st.saw_umr = true;
        st.used_udim = true;
        Ok(())
    } else {
        Ok(())
    }
}

#[verifier::rlimit(40)]
fn step_graph(st: &mut MatParts, tag: u32, p: &[u8]) -> (r: Result<(), MaterialBytesError>)
    ensures
        match mat_step_graph(old(st)@, tag, p@) {
            Ok(s2) => r is Ok && final(st)@ == s2,
            Err(e) => r matches Err(e2) && e2 == e,
        },
{
    reveal(mat_step_graph);
    if tag == TAG_TEXG {
        if st.saw_texg {
            return Err(MaterialBytesError::Duplicate("TEXG"));
        }
        let g = match TexGraphFile::from_bytes(p) {
            Ok(g) => g,
            Err(e) => {
                return Err(MaterialBytesError::Graph(e));
            },
        };
        st.file.graph = Some(g);
        st.saw_texg = true;
        Ok(())
    } else {
        Ok(())
    }
}

fn mat_step_exec(st: &mut MatParts, tag: u32, p: &[u8]) -> (r: Result<(), MaterialBytesError>)
    ensures
        match mat_step(old(st)@, tag, p@) {
            Ok(s2) => r is Ok && final(st)@ == s2,
            Err(e) => r matches Err(e2) && e2 == e,
        },
{
    reveal(mat_step);
    if tag == TAG_PBR || tag == TAG_SSS || tag == TAG_CUT || tag == TAG_HAIR {
        step_factor(st, tag, p)
    } else if tag == TAG_ALB || tag == TAG_NRM || tag == TAG_MR {
        step_slot(st, tag, p)
    } else if tag == TAG_UALB || tag == TAG_UNRM || tag == TAG_UMR {
        step_udim(st, tag, p)
    } else if tag == TAG_TEXG {
        step_graph(st, tag, p)
    } else {
        Ok(())
    }
}

impl MaterialFile {
    /// Decodes a `MAT ` blob.
    pub fn from_bytes(bytes: &[u8]) -> (r: Result<MaterialFile, MaterialBytesError>)
        ensures
            match mat_decode(bytes@) {
                Ok(v) => r matches Ok(f) && f.view() == v,
                Err(e) => r matches Err(e2) && e2 == e,
            },
    {
        reveal(mat_decode);
        if bytes.len() < 8 {
            return Err(MaterialBytesError::Truncated);
        }
        if get_u32(bytes, 0) != MAT_MAGIC {
            return Err(MaterialBytesError::BadMagic);
        }
        let version = get_u16(bytes, 4);
        if version != MAT_VERSION {
            return Err(MaterialBytesError::UnsupportedVersion(version));
        }
        let flags = get_u16(bytes, 6);
        if flags % 2 == 1 {
            return Err(MaterialBytesError::Quantized);
        }
        let mut st = MatParts {
            file: MaterialFile::default_file(),
            saw_pbr: false,
            saw_sss: false,
            saw_cut: false,
            saw_hair: false,
            saw_alb: false,
            saw_nrm: false,
            saw_mr: false,
            saw_ualb: false,
            saw_unrm: false,
            saw_umr: false,
            saw_texg: false,
            alb: None,
            nrm: None,
            mr: None,
            ualb: Vec::new(),
            unrm: Vec::new(),
            umr: Vec::new(),
            used_single: false,
            used_udim: false,
        };
        assert(tiles_view(st.ualb@) =~= Seq::<(u32, Seq<char>)>::empty());
        assert(tiles_view(st.unrm@) =~= Seq::<(u32, Seq<char>)>::empty());
        assert(tiles_view(st.umr@) =~= Seq::<(u32, Seq<char>)>::empty());
        assert(st@ == mat_scan_init());
        let mut pos: usize = 8;
        while pos < bytes.len()
            invariant
                8 <= pos <= bytes@.len(),
                le32(bytes@, 0) == MAT_MAGIC,
                le16(bytes@, 4) == MAT_VERSION,
                le16(bytes@, 6) % 2 == 0,
                run_chunks(mat_stepper(), MaterialBytesError::Truncated, bytes@, 8, mat_scan_init())
                    == run_chunks(mat_stepper(), MaterialBytesError::Truncated, bytes@, pos as int, st@),
            decreases bytes@.len() - pos,
        {
            proof {
                lemma_run_chunks_unfold(
                    mat_stepper(),
                    MaterialBytesError::Truncated,
                    bytes@,
                    pos as int,
                    st@,
                );
            }
            let (tag, start, len, next) = match read_chunk(bytes, pos) {
                Some(c) => c,
                None => {
                    proof {
                        reveal(mat_decode);
                    }
                    return Err(MaterialBytesError::Truncated);
                },
            };
            proof {
                lemma_chunk_progress(bytes@, pos as int);
            }
            let payload = &bytes[start..start + len];
            let ghost before = st@;
            assert(payload@ == bytes@.subrange(start as int, start + len));
            match mat_step_exec(&mut st, tag, payload) {
                Ok(()) => {},
                Err(e) => {
                    assert(mat_step(before, tag, payload@) == Err::<MatScan, MaterialBytesError>(e));
                    proof {
                        reveal(mat_decode);
                    }
                    return Err(e);
                },
            }
            pos = next;
        }
        if st.used_single && st.used_udim {
            return Err(MaterialBytesError::MixedMaps);
        }
        let mut file = st.file;
        if st.used_udim {
            file.maps = MaterialFileMaps::Udim { albedo: st.ualb, normal: st.unrm, metallic_roughness: st.umr };
        } else {
            file.maps = MaterialFileMaps::Single { albedo: st.alb, normal: st.nrm, metallic_roughness: st.mr };
        }
        Ok(file)
    }
}

// ---------------------------------------------------------------------------------------
// Encoding
// ---------------------------------------------------------------------------------------
/// The `f32` with these bits compares greater than `0.0`: positive, finite or infinite,
/// not NaN.
pub open spec fn f32_positive(b: u32) -> bool {
    0 < b && b <= 0x7f800000
}

/// A UDIM payload as written, `count` first, then the tiles, each padded to 4 bytes.
pub open spec fn udim_prefix(count: u32, t: Seq<(u32, Seq<char>)>) -> Seq<u8>
    decreases t.len(),
{
    if t.len() == 0 {
        bytes32(count as int)
    } else {
        let pre = udim_prefix(count, t.drop_last());
        let e = bytes32(t.last().0 as int) + str_bytes(t.last().1);
        pre + e + zeros(pad4((pre.len() + e.len()) as int))
    }
}

pub open spec fn udim_payload(t: Seq<(u32, Seq<char>)>) -> Seq<u8> {
    udim_prefix(t.len() as u32, t)
}

pub open spec fn hair_words(h: HairShading) -> Seq<u32> {
    seq![
        h.primary_shift,
        h.secondary_shift,
        h.primary_exponent,
        h.secondary_exponent,
        h.secondary_tint[0],
        h.secondary_tint[1],
        h.secondary_tint[2],
        h.secondary_strength,
        h.tip_fade,
        h.cutout_fringe,
        if h.soft_blend {
            1u32
        } else {
            0u32
        },
    ]
}

/// A texture-id chunk, written only for a non-empty id.
pub open spec fn put_slot(out: Seq<u8>, tag: u32, id: Option<Seq<char>>) -> Seq<u8> {
    match id {
        Some(s) => if s.len() > 0 {
            put_chunk(out, tag, str_bytes(s))
        } else {
            out
        },
        None => out,
    }
}

/// A UDIM chunk, written only for a non-empty tile set.
pub open spec fn put_tiles(out: Seq<u8>, tag: u32, t: Seq<(u32, Seq<char>)>) -> Seq<u8> {
    if t.len() == 0 {
        out
    } else {
        put_chunk(out, tag, udim_payload(t))
    }
}

/// The header and the factor chunks: `PBR `; `SSS ` when the strength is positive;
/// `CUT ` when the cutoff is positive; `HAIR` for hair shading.
pub open spec fn put_factors(f: MaterialFileView) -> Seq<u8> {
    let o1 = put_chunk(
        blob_header(MAT_MAGIC),
        TAG_PBR,
        words32_bytes(f.albedo + seq![f.metallic, f.roughness]),
    );
    let o2 = if f32_positive(f.sss_strength) {
        put_chunk(
            o1,
            TAG_SSS,
            words32_bytes(seq![f.sss_strength] + f.sss_color + seq![f.sss_curvature]),
        )
    } else {
        o1
    };
    let o3 = if f32_positive(f.alpha_cutoff) {
        put_chunk(o2, TAG_CUT, words32_bytes(seq![f.alpha_cutoff]))
    } else {
        o2
    };
    match f.shading_model {
        ShadingModel::Hair(h) => put_chunk(o3, TAG_HAIR, words32_bytes(hair_words(h))),
        ShadingModel::Standard => o3,
    }
}

/// What `to_bytes` writes: the header; `PBR `; `SSS ` when the strength is positive;
/// `CUT ` when the cutoff is positive; `HAIR` for hair shading; the map chunks; `TEXG`
/// for a procedural graph.
#[verifier::opaque]
pub open spec fn mat_encode(f: MaterialFileView) -> Seq<u8> {
    let o4 = put_factors(f);
    let o5 = match f.maps {
        MapsView::Single { albedo, normal, metallic_roughness } => put_slot(
            put_slot(put_slot(o4, TAG_ALB, albedo), TAG_NRM, normal),
            TAG_MR,
            metallic_roughness,
        ),
        MapsView::Udim { albedo, normal, metallic_roughness } => put_tiles(
            put_tiles(put_tiles(o4, TAG_UALB, albedo), TAG_UNRM, normal),
            TAG_UMR,
            metallic_roughness,
        ),
    };
    match f.graph {
        Some(g) => put_chunk(o5, TAG_TEXG, texg_encode(g)),
        None => o5,
    }
}

/// Each chunk payload fits its 32-bit length field, and a graph can be written.
pub open spec fn mat_sizes_ok(f: &MaterialFile) -> bool {
    &&& match &f.maps {
        MaterialFileMaps::Udim { albedo, normal, metallic_roughness } => {
            &&& albedo@.len() <= u32::MAX && udim_payload(tiles_view(albedo@)).len() <= u32::MAX
            &&& normal@.len() <= u32::MAX && udim_payload(tiles_view(normal@)).len() <= u32::MAX
            &&& metallic_roughness@.len() <= u32::MAX && udim_payload(
                tiles_view(metallic_roughness@),
            ).len() <= u32::MAX
        },
        MaterialFileMaps::Single { .. } => true,
    }
    &&& match &f.graph {
        Some(g) => {
            &&& g.graph.nodes@.len() <= u32::MAX
            &&& g.graph.links@.len() <= u32::MAX
            &&& forall|i: int|
                0 <= i < g.graph.nodes@.len() ==> node_wf(#[trigger] g.graph.nodes@[i].view())
            &&& texg_encode(g.view()).len() <= u32::MAX
        },
        None => true,
    }
}

fn put_id_payload(out: &mut Vec<u8>, s: &String)
    ensures
        final(out)@ == old(out)@ + str_bytes(s@),
{
    let b = crate::wire::string_bytes(s);
    let n: usize = if b.len() > 65535 {
        65535
    } else {
        b.len()
    };
    put_u16(out, n as u16);
    crate::wire::put_bytes(out, &b[0..n]);
    assert(b@.subrange(0, n as int) =~= vstd::utf8::encode_utf8(s@).take(n as int));
    assert(final(out)@ =~= old(out)@ + str_bytes(s@));
}

fn write_slot(out: &mut Vec<u8>, tag: u32, id: &Option<String>)
    requires
        old(out)@.len() % 4 == 0,
    ensures
        final(out)@ == put_slot(old(out)@, tag, opt_view(*id)),
        final(out)@.len() % 4 == 0,
{
    match id {
        Some(s) => {
            if !s.as_str().is_empty() {
                let mut p: Vec<u8> = Vec::new();
                put_id_payload(&mut p, s);
                assert(p@ =~= str_bytes(s@));
                proof {
                    lemma_chunk_aligned(out@, tag, p@);
                }
                write_chunk(out, tag, p.as_slice());
            }
        },
        None => {},
    }
}

fn build_udim(tiles: &Vec<(u32, String)>) -> (r: Vec<u8>)
    requires
        tiles@.len() <= u32::MAX,
    ensures
        r@ == udim_payload(tiles_view(tiles@)),
{
    let ghost tv = tiles_view(tiles@);
    let mut p: Vec<u8> = Vec::new();
    put_u32(&mut p, tiles.len() as u32);
    let mut i: usize = 0;
    assert(tv.take(0) =~= Seq::<(u32, Seq<char>)>::empty());
    while i < tiles.len()
        invariant
            i <= tiles@.len(),
            tiles@.len() <= u32::MAX,
            tv == tiles_view(tiles@),
            p@ == udim_prefix(tiles@.len() as u32, tv.take(i as int)),
        decreases tiles@.len() - i,
    {
        let ghost pre = p@;
        put_u32(&mut p, tiles[i].0);
        put_id_payload(&mut p, &tiles[i].1);
        pad_to_4(&mut p);
        i += 1;
        proof {
            let t = tv.take(i as int);
            assert(t.drop_last() =~= tv.take(i - 1));
            assert(t.last() == (tiles@[i - 1].0, tiles@[i - 1].1@));
            let e = bytes32(t.last().0 as int) + str_bytes(t.last().1);
            assert(pre + bytes32(tiles@[i - 1].0 as int) + str_bytes(tiles@[i - 1].1@) =~= pre + e);
        }
        assert(p@ =~= udim_prefix(tiles@.len() as u32, tv.take(i as int)));
    }
    assert(tv.take(i as int) =~= tv);
    p
}

fn write_tiles(out: &mut Vec<u8>, tag: u32, tiles: &Vec<(u32, String)>)
    requires
        old(out)@.len() % 4 == 0,
        tiles@.len() <= u32::MAX,
        udim_payload(tiles_view(tiles@)).len() <= u32::MAX,
    ensures
        final(out)@ == put_tiles(old(out)@, tag, tiles_view(tiles@)),
        final(out)@.len() % 4 == 0,
{
    if tiles.len() > 0 {
        let p = build_udim(tiles);
        proof {
            lemma_chunk_aligned(out@, tag, p@);
        }
        write_chunk(out, tag, p.as_slice());
    }
}

proof fn lemma_chunk_aligned(out: Seq<u8>, tag: u32, payload: Seq<u8>)
    requires
        out.len() % 4 == 0,
        payload.len() <= u32::MAX,
    ensures
        put_chunk(out, tag, payload).len() % 4 == 0,
{
    crate::wire::lemma_chunk_at_appended(out, tag, payload);
}

/// Whether a tile list fits a `UDIM` chunk.
fn tiles_fit(tiles: &Vec<(u32, String)>) -> (r: bool)
    ensures
        r == (tiles@.len() <= u32::MAX && udim_payload(tiles_view(tiles@)).len() <= u32::MAX),
{
    if tiles.len() as u64 > 0xffff_ffff {
        return false;
    }
    let p = build_udim(tiles);
    p.len() as u64 <= 0xffff_ffff
}

impl MaterialFile {
    /// Whether the recipe fits the format's 32-bit length fields, so that `to_bytes` can
    /// encode it.
    pub fn sizes_ok(&self) -> (r: bool)
        ensures
            r == mat_sizes_ok(self),
    {
        let maps_ok = match &self.maps {
            MaterialFileMaps::Udim { albedo, normal, metallic_roughness } => tiles_fit(albedo)
                && tiles_fit(normal) && tiles_fit(metallic_roughness),
            MaterialFileMaps::Single { .. } => true,
        };
        let graph_ok = match &self.graph {
            Some(g) => {
                if g.sizes_ok() {
                    let gb = g.to_bytes();
                    gb.len() as u64 <= 0xffff_ffff
                } else {
                    false
                }
            },
            None => true,
        };
        maps_ok && graph_ok
    }

    /// Encodes the recipe as a `MAT ` blob.
    pub fn to_bytes(&self) -> (r: Vec<u8>)
        requires
            mat_sizes_ok(self),
        ensures
            r@ == mat_encode(self.view()),
    {
        reveal(mat_encode);
        let mut out: Vec<u8> = Vec::new();
        put_u32(&mut out, MAT_MAGIC);
        put_u16(&mut out, 1);
        put_u16(&mut out, 0);
        assert(out@ =~= blob_header(MAT_MAGIC));
        let pw: Vec<u32> = vec![
            self.albedo[0],
            self.albedo[1],
            self.albedo[2],
            self.albedo[3],
            self.metallic,
            self.roughness,
        ];
        assert(pw@ =~= self.albedo@ + seq![self.metallic, self.roughness]);
        let mut pbr: Vec<u8> = Vec::new();
        put_words32(&mut pbr, pw.as_slice());
        proof {
            crate::wire::lemma_words32_bytes_len(pw@);
            lemma_chunk_aligned(out@, TAG_PBR, pbr@);
        }
        write_chunk(&mut out, TAG_PBR, pbr.as_slice());
        if self.sss_strength > 0 && self.sss_strength <= 0x7f800000 {
            let sw: Vec<u32> = vec![
                self.sss_strength,
                self.sss_color[0],
                self.sss_color[1],
                self.sss_color[2],
                self.sss_curvature,
            ];
            assert(sw@ =~= seq![self.sss_strength] + self.sss_color@ + seq![self.sss_curvature]);
            let mut sss: Vec<u8> = Vec::new();
            put_words32(&mut sss, sw.as_slice());
            proof {
                crate::wire::lemma_words32_bytes_len(sw@);
                lemma_chunk_aligned(out@, TAG_SSS, sss@);
            }
            write_chunk(&mut out, TAG_SSS, sss.as_slice());
        }
        if self.alpha_cutoff > 0 && self.alpha_cutoff <= 0x7f800000 {
            let cw: Vec<u32> = vec![self.alpha_cutoff];
            assert(cw@ =~= seq![self.alpha_cutoff]);
            let mut cut: Vec<u8> = Vec::new();
            put_words32(&mut cut, cw.as_slice());
            proof {
                crate::wire::lemma_words32_bytes_len(cw@);
                lemma_chunk_aligned(out@, TAG_CUT, cut@);
            }
            write_chunk(&mut out, TAG_CUT, cut.as_slice());
        }
        match self.shading_model {
            ShadingModel::Hair(h) => {
                let ws: Vec<u32> = vec![
                    h.primary_shift,
                    h.secondary_shift,
                    h.primary_exponent,
                    h.secondary_exponent,
                    h.secondary_tint[0],
                    h.secondary_tint[1],
                    h.secondary_tint[2],
                    h.secondary_strength,
                    h.tip_fade,
                    h.cutout_fringe,
                    if h.soft_blend {
                        1u32
                    } else {
                        0u32
                    },
                ];
                assert(ws@ =~= hair_words(h));
                let mut hp: Vec<u8> = Vec::new();
                put_words32(&mut hp, ws.as_slice());
                proof {
                    crate::wire::lemma_words32_bytes_len(ws@);
                    lemma_chunk_aligned(out@, TAG_HAIR, hp@);
                }
                write_chunk(&mut out, TAG_HAIR, hp.as_slice());
            },
            ShadingModel::Standard => {},
        }
        proof {
            reveal(mat_encode);
        }
        match &self.maps {
            MaterialFileMaps::Single { albedo, normal, metallic_roughness } => {
                write_slot(&mut out, TAG_ALB, albedo);
                write_slot(&mut out, TAG_NRM, normal);
                write_slot(&mut out, TAG_MR, metallic_roughness);
            },
            MaterialFileMaps::Udim { albedo, normal, metallic_roughness } => {
                write_tiles(&mut out, TAG_UALB, albedo);
                write_tiles(&mut out, TAG_UNRM, normal);
                write_tiles(&mut out, TAG_UMR, metallic_roughness);
            },
        }
        match &self.graph {
            Some(g) => {
                let gb = g.to_bytes();
                proof {
                    lemma_chunk_aligned(out@, TAG_TEXG, gb@);
                }
                write_chunk(&mut out, TAG_TEXG, gb.as_slice());
            },
            None => {},
        }
        out
    }
}

// ---------------------------------------------------------------------------------------
// Referenced texture ids
// ---------------------------------------------------------------------------------------
pub open spec fn opt_ids(o: Option<Seq<char>>) -> Seq<Seq<char>> {
    match o {
        Some(s) => seq![s],
        None => Seq::empty(),
    }
}

pub open spec fn tile_ids(t: Seq<(u32, Seq<char>)>) -> Seq<Seq<char>> {
    t.map_values(|e: (u32, Seq<char>)| e.1)
}

/// Every id the maps name, in slot order (albedo, normal, metallic-roughness).
pub open spec fn map_ids(m: MapsView) -> Seq<Seq<char>> {
    match m {
        MapsView::Single { albedo, normal, metallic_roughness } => opt_ids(albedo) + opt_ids(
            normal,
        ) + opt_ids(metallic_roughness),
        MapsView::Udim { albedo, normal, metallic_roughness } => tile_ids(albedo) + tile_ids(
            normal,
        ) + tile_ids(metallic_roughness),
    }
}

/// `seen` followed by the non-empty ids of `ids` not met before, first occurrence first.
pub open spec fn distinct_ids(seen: Seq<Seq<char>>, ids: Seq<Seq<char>>) -> Seq<Seq<char>>
    decreases ids.len(),
{
    if ids.len() == 0 {
        seen
    } else {
        let next = if ids[0].len() > 0 && !seen.contains(ids[0]) {
            seen.push(ids[0])
        } else {
            seen
        };
        distinct_ids(next, ids.drop_first())
    }
}

pub open spec fn strs_view<'a>(v: Seq<&'a str>) -> Seq<Seq<char>> {
    v.map_values(|s: &'a str| s@)
}

fn contains_str<'a>(v: &Vec<&'a str>, x: &'a str) -> (r: bool)
    ensures
        r == strs_view(v@).contains(x@),
{
    let mut i: usize = 0;
    while i < v.len()
        invariant
            i <= v@.len(),
            forall|j: int| 0 <= j < i ==> v@[j]@ != x@,
        decreases v@.len() - i,
    {
        if crate::graph::str_eq(v[i], x) {
            assert(strs_view(v@)[i as int] == x@);
            return true;
        }
        i += 1;
    }
    proof {
        if strs_view(v@).contains(x@) {
            let k = choose|k: int| 0 <= k < strs_view(v@).len() && strs_view(v@)[k] == x@;
            assert(v@[k]@ == x@);
        }
    }
    false
}

/// Adds a non-empty id not listed yet.
fn push_id<'a>(out: &mut Vec<&'a str>, id: &'a str)
    ensures
        strs_view(final(out)@) == (if id@.len() > 0 && !strs_view(old(out)@).contains(id@) {
            strs_view(old(out)@).push(id@)
        } else {
            strs_view(old(out)@)
        }),
{
    if id.is_empty() || contains_str(out, id) {
        return;
    }
    let ghost before = strs_view(out@);
    out.push(id);
    assert(strs_view(out@) =~= before.push(id@));
}

impl MaterialFile {
    /// The texture catalog ids this recipe references: albedo, normal, then
    /// metallic-roughness ids, each once, empty ids left out.
    pub fn texture_ids(&self) -> (r: Vec<&str>)
        ensures
            strs_view(r@) == distinct_ids(Seq::empty(), map_ids(self.maps.view())),
    {
        let mut all: Vec<&str> = Vec::new();
        match &self.maps {
            MaterialFileMaps::Single { albedo, normal, metallic_roughness } => {
                match albedo {
                    Some(s) => all.push(s.as_str()),
                    None => {},
                }
                match normal {
                    Some(s) => all.push(s.as_str()),
                    None => {},
                }
                match metallic_roughness {
                    Some(s) => all.push(s.as_str()),
                    None => {},
                }
                assert(strs_view(all@) =~= map_ids(self.maps.view()));
            },
            MaterialFileMaps::Udim { albedo, normal, metallic_roughness } => {
                push_tile_ids(&mut all, albedo);
                push_tile_ids(&mut all, normal);
                push_tile_ids(&mut all, metallic_roughness);
                assert(strs_view(all@) =~= map_ids(self.maps.view()));
            },
        }
        let ghost ids = strs_view(all@);
        let mut out: Vec<&str> = Vec::new();
        let mut i: usize = 0;
        assert(ids.skip(0) =~= ids);
        assert(strs_view(out@) =~= Seq::<Seq<char>>::empty());
        while i < all.len()
            invariant
                i <= all@.len(),
                ids == strs_view(all@),
                distinct_ids(Seq::empty(), ids) == distinct_ids(strs_view(out@), ids.skip(i as int)),
            decreases all@.len() - i,
        {
            assert(ids.skip(i as int)[0] == all@[i as int]@);
            assert(ids.skip(i as int).drop_first() =~= ids.skip(i + 1));
            push_id(&mut out, all[i]);
            i += 1;
        }
        out
    }
}

fn push_tile_ids<'a>(all: &mut Vec<&'a str>, tiles: &'a Vec<(u32, String)>)
    ensures
        strs_view(final(all)@) == strs_view(old(all)@) + tile_ids(tiles_view(tiles@)),
{
    let ghost start = strs_view(all@);
    let mut i: usize = 0;
    while i < tiles.len()
        invariant
            i <= tiles@.len(),
            strs_view(all@) == start + tile_ids(tiles_view(tiles@)).take(i as int),
        decreases tiles@.len() - i,
    {
        assert(tile_ids(tiles_view(tiles@))[i as int] == tiles@[i as int].1@);
        let t = tiles[i].1.as_str();
        let ghost before = strs_view(all@);
        all.push(t);
        assert(strs_view(all@) =~= before.push(t@));
        assert(tile_ids(tiles_view(tiles@)).take(i + 1) =~= tile_ids(tiles_view(tiles@)).take(
            i as int,
        ).push(tiles@[i as int].1@));
        i += 1;
        assert(strs_view(all@) =~= start + tile_ids(tiles_view(tiles@)).take(i as int));
    }
    assert(tile_ids(tiles_view(tiles@)).take(i as int) =~= tile_ids(tiles_view(tiles@)));
}

/// Appending one more chunk with an unknown tag to a well-framed blob changes nothing of
/// what it decodes to.
pub proof fn law_material_unknown_chunk_skipped(bytes: Seq<u8>, tag: u32, payload: Seq<u8>)
    requires
        bytes.len() >= 8,
        bytes.len() % 4 == 0,
        crate::wire::well_framed(bytes, 8),
        payload.len() <= u32::MAX,
        tag != TAG_PBR && tag != TAG_SSS && tag != TAG_CUT && tag != TAG_HAIR && tag != TAG_ALB
            && tag != TAG_NRM && tag != TAG_MR && tag != TAG_UALB && tag != TAG_UNRM && tag
            != TAG_UMR && tag != TAG_TEXG,
    ensures
        mat_decode(put_chunk(bytes, tag, payload)) == mat_decode(bytes),
{
    let all = put_chunk(bytes, tag, payload);
    reveal(mat_decode);
    reveal(mat_step);
    assert(all.subrange(0, 8) =~= bytes.subrange(0, 8));
    assert(all[0] == bytes[0] && all[1] == bytes[1] && all[2] == bytes[2] && all[3] == bytes[3]);
    assert(all[4] == bytes[4] && all[5] == bytes[5] && all[6] == bytes[6] && all[7] == bytes[7]);
    crate::wire::lemma_run_chunks_append(
        mat_stepper(),
        MaterialBytesError::Truncated,
        bytes,
        8,
        mat_scan_init(),
        tag,
        payload,
    );
}

// ---------------------------------------------------------------------------------------
// From runtime texture handles to catalog ids
// ---------------------------------------------------------------------------------------
/// The catalog id a slot handle stands for: the texture's id when the handle is live and
/// the id is not empty.
pub open spec fn slot_id(textures: Store<Texture>, h: Option<Handle<Texture>>) -> Option<Seq<char>> {
    match h {
        None => None,
        Some(h) => match textures.lookup(h) {
            None => None,
            Some(t) => if t.id@.len() == 0 {
                None
            } else {
                Some(t.id@)
            },
        },
    }
}

/// The UDIM tiles whose handle is live and names a texture with a non-empty id, as
/// `(udim, id)`, in order.
pub open spec fn named_tiles(textures: Store<Texture>, tiles: Seq<(u32, Handle<Texture>)>) -> Seq<
    (u32, Seq<char>),
>
    decreases tiles.len(),
{
    if tiles.len() == 0 {
        Seq::empty()
    } else {
        let rest = named_tiles(textures, tiles.drop_last());
        match slot_id(textures, Some(tiles.last().1)) {
            Some(id) => rest.push((tiles.last().0, id)),
            None => rest,
        }
    }
}

pub fn id_of(textures: &Store<Texture>, h: Option<Handle<Texture>>) -> (r: Option<String>)
    ensures
        opt_view(r) == slot_id(*textures, h),
{
    let h = match h {
        Some(h) => h,
        None => {
            return None;
        },
    };
    match textures.get(h) {
        Some(tex) => {
            if tex.id.as_str().is_empty() {
                None
            } else {
                Some(tex.id.clone())
            }
        },
        None => None,
    }
}

pub fn udim_ids(textures: &Store<Texture>, tiles: &[(u32, Handle<Texture>)]) -> (r: Vec<(u32, String)>)
    ensures
        tiles_view(r@) == named_tiles(*textures, tiles@),
{
    let mut out: Vec<(u32, String)> = Vec::new();
    let mut i: usize = 0;
    assert(tiles_view(out@) =~= named_tiles(*textures, tiles@.take(0)));
    while i < tiles.len()
        invariant
            i <= tiles@.len(),
            tiles_view(out@) == named_tiles(*textures, tiles@.take(i as int)),
        decreases tiles@.len() - i,
    {
        let (udim, h) = tiles[i];
        let ghost before = tiles_view(out@);
        assert(tiles@.take(i + 1).drop_last() =~= tiles@.take(i as int));
        match id_of(textures, Some(h)) {
            Some(id) => {
                out.push((udim, id));
                assert(tiles_view(out@) =~= before.push((udim, id@)));
            },
            None => {},
        }
        i += 1;
    }
    assert(tiles@.take(i as int) =~= tiles@);
    out
}

/// The catalog ids a material's maps stand for.
pub open spec fn file_maps_of(textures: Store<Texture>, maps: MaterialMaps) -> MapsView {
    match maps {
        MaterialMaps::Single { albedo, normal, metallic_roughness } => MapsView::Single {
            albedo: slot_id(textures, albedo),
            normal: slot_id(textures, normal),
            metallic_roughness: slot_id(textures, metallic_roughness),
        },
        MaterialMaps::Udim { albedo, normal, metallic_roughness } => MapsView::Udim {
            albedo: named_tiles(textures, albedo@),
            normal: named_tiles(textures, normal@),
            metallic_roughness: named_tiles(textures, metallic_roughness@),
        },
    }
}

/// The recipe maps of a material: texture handles replaced by catalog ids (handles that
/// do not resolve, or resolve to an unnamed texture, are left out).
pub fn file_maps(maps: &MaterialMaps, textures: &Store<Texture>) -> (r: MaterialFileMaps)
    ensures
        r.view() == file_maps_of(*textures, *maps),
{
    match maps {
        MaterialMaps::Single { albedo, normal, metallic_roughness } => MaterialFileMaps::Single {
            albedo: id_of(textures, *albedo),
            normal: id_of(textures, *normal),
            metallic_roughness: id_of(textures, *metallic_roughness),
        },
        MaterialMaps::Udim { albedo, normal, metallic_roughness } => MaterialFileMaps::Udim {
            albedo: udim_ids(textures, albedo.as_slice()),
            normal: udim_ids(textures, normal.as_slice()),
            metallic_roughness: udim_ids(textures, metallic_roughness.as_slice()),
        },
    }
}

// ---------------------------------------------------------------------------------------
// The ids a recipe references
// ---------------------------------------------------------------------------------------
/// `id` is named by one of the three slots (albedo, normal, metallic-roughness): as the
/// slot's texture, or as the texture of one of its UDIM tiles.
pub open spec fn slot_names(m: MapsView, id: Seq<char>) -> bool {
    match m {
        MapsView::Single { albedo, normal, metallic_roughness } => albedo == Some(id) || normal
            == Some(id) || metallic_roughness == Some(id),
        MapsView::Udim { albedo, normal, metallic_roughness } => (exists|i: int|
            0 <= i < albedo.len() && (#[trigger] albedo[i]).1 == id) || (exists|i: int|
            0 <= i < normal.len() && (#[trigger] normal[i]).1 == id) || (exists|i: int|
            0 <= i < metallic_roughness.len() && (#[trigger] metallic_roughness[i]).1 == id),
    }
}

proof fn lemma_distinct_ids(seen: Seq<Seq<char>>, ids: Seq<Seq<char>>)
    requires
        seen.no_duplicates(),
    ensures
        distinct_ids(seen, ids).no_duplicates(),
        forall|x: Seq<char>|
            #[trigger] distinct_ids(seen, ids).contains(x) <==> (seen.contains(x) || (x.len() > 0
                && ids.contains(x))),
    decreases ids.len(),
{
    if ids.len() > 0 {
        let next = if ids[0].len() > 0 && !seen.contains(ids[0]) {
            seen.push(ids[0])
        } else {
            seen
        };
        assert(next.no_duplicates()) by {
            if ids[0].len() > 0 && !seen.contains(ids[0]) {
                assert forall|i: int, j: int| 0 <= i < next.len() && 0 <= j < next.len() && i != j
                    implies next[i] != next[j] by {
                    if i == seen.len() {
                        assert(seen.contains(next[j]) ==> true);
                        assert(next[j] == seen[j]);
                    } else if j == seen.len() {
                        assert(next[i] == seen[i]);
                    }
                }
            }
        }
        lemma_distinct_ids(next, ids.drop_first());
        let d = ids.drop_first();
        assert(distinct_ids(seen, ids) == distinct_ids(next, d));
        assert forall|x: Seq<char>| #[trigger] distinct_ids(seen, ids).contains(x) <==> (seen.contains(x)
            || (x.len() > 0 && ids.contains(x))) by {
            assert(next.contains(x) <==> (seen.contains(x) || (ids[0].len() > 0 && !seen.contains(
                ids[0],
            ) && x == ids[0]))) by {
                if ids[0].len() > 0 && !seen.contains(ids[0]) {
                    if next.contains(x) {
                        let j = choose|j: int| 0 <= j < next.len() && next[j] == x;
                        if j < seen.len() {
                            assert(seen[j] == x);
                        }
                    }
                    if seen.contains(x) {
                        let j = choose|j: int| 0 <= j < seen.len() && seen[j] == x;
                        assert(next[j] == x);
                    }
                    if x == ids[0] {
                        assert(next[seen.len() as int] == x);
                    }
                }
            }
            assert(ids.contains(x) <==> (x == ids[0] || d.contains(x))) by {
                if ids.contains(x) && x != ids[0] {
                    let j = choose|j: int| 0 <= j < ids.len() && ids[j] == x;
                    assert(d[j - 1] == x);
                }
                if d.contains(x) {
                    let j = choose|j: int| 0 <= j < d.len() && d[j] == x;
                    assert(ids[j + 1] == x);
                }
                if x == ids[0] {
                    assert(ids[0] == x);
                }
            }
            assert(distinct_ids(next, d).contains(x) <==> (next.contains(x) || (x.len() > 0
                && d.contains(x))));
        }
    }
}

proof fn lemma_tile_ids_contain(t: Seq<(u32, Seq<char>)>, id: Seq<char>)
    ensures
        tile_ids(t).contains(id) <==> exists|i: int| 0 <= i < t.len() && (#[trigger] t[i]).1 == id,
{
    if tile_ids(t).contains(id) {
        let j = choose|j: int| 0 <= j < tile_ids(t).len() && tile_ids(t)[j] == id;
        assert(t[j].1 == id);
    }
    if exists|i: int| 0 <= i < t.len() && (#[trigger] t[i]).1 == id {
        let i = choose|i: int| 0 <= i < t.len() && (#[trigger] t[i]).1 == id;
        assert(tile_ids(t)[i] == id);
    }
}

proof fn lemma_concat_contains(a: Seq<Seq<char>>, b: Seq<Seq<char>>, x: Seq<char>)
    ensures
        (a + b).contains(x) <==> (a.contains(x) || b.contains(x)),
{
    if (a + b).contains(x) {
        let j = choose|j: int| 0 <= j < (a + b).len() && (a + b)[j] == x;
        if j < a.len() {
            assert(a[j] == x);
        } else {
            assert(b[j - a.len()] == x);
        }
    }
    if a.contains(x) {
        let j = choose|j: int| 0 <= j < a.len() && a[j] == x;
        assert((a + b)[j] == x);
    }
    if b.contains(x) {
        let j = choose|j: int| 0 <= j < b.len() && b[j] == x;
        assert((a + b)[a.len() + j] == x);
    }
}

/// What `texture_ids` lists: exactly the non-empty ids that any of the three slots
/// (albedo, normal, metallic-roughness) names, single or UDIM, each once.
pub proof fn law_texture_ids_are_the_slots_ids(m: MapsView)
    ensures
        distinct_ids(Seq::empty(), map_ids(m)).no_duplicates(),
        forall|id: Seq<char>|
            #[trigger] distinct_ids(Seq::empty(), map_ids(m)).contains(id) <==> (id.len() > 0
                && slot_names(m, id)),
{
    lemma_distinct_ids(Seq::empty(), map_ids(m));
    assert forall|id: Seq<char>|
        #[trigger] distinct_ids(Seq::empty(), map_ids(m)).contains(id) <==> (id.len() > 0
            && slot_names(m, id)) by {
        match m {
            MapsView::Single { albedo, normal, metallic_roughness } => {
                lemma_concat_contains(opt_ids(albedo) + opt_ids(normal), opt_ids(metallic_roughness), id);
                lemma_concat_contains(opt_ids(albedo), opt_ids(normal), id);
                if opt_ids(albedo).contains(id) {
                    let j = choose|j: int| 0 <= j < opt_ids(albedo).len() && opt_ids(albedo)[j] == id;
                }
                if opt_ids(normal).contains(id) {
                    let j = choose|j: int| 0 <= j < opt_ids(normal).len() && opt_ids(normal)[j] == id;
                }
                if opt_ids(metallic_roughness).contains(id) {
                    let j = choose|j: int| 0 <= j < opt_ids(metallic_roughness).len() && opt_ids(metallic_roughness)[j] == id;
                }
                if albedo == Some(id) {
                    assert(opt_ids(albedo)[0] == id);
                }
                if normal == Some(id) {
                    assert(opt_ids(normal)[0] == id);
                }
                if metallic_roughness == Some(id) {
                    assert(opt_ids(metallic_roughness)[0] == id);
                }
            },
            MapsView::Udim { albedo, normal, metallic_roughness } => {
                lemma_concat_contains(tile_ids(albedo) + tile_ids(normal), tile_ids(metallic_roughness), id);
                lemma_concat_contains(tile_ids(albedo), tile_ids(normal), id);
                lemma_tile_ids_contain(albedo, id);
                lemma_tile_ids_contain(normal, id);
                lemma_tile_ids_contain(metallic_roughness, id);
            },
        }
    }
}

/// `texture_ids` keeps slot order: albedo, then normal, then metallic-roughness.
pub proof fn law_texture_ids_in_slot_order(a: Seq<char>, n: Seq<char>, mr: Seq<char>)
    requires
        a.len() > 0 && n.len() > 0 && mr.len() > 0,
        a != n && a != mr && n != mr,
    ensures
        distinct_ids(
            Seq::empty(),
            map_ids(MapsView::Single { albedo: Some(a), normal: Some(n), metallic_roughness: Some(mr) }),
        ) == seq![a, n, mr],
{
    let ids = map_ids(MapsView::Single { albedo: Some(a), normal: Some(n), metallic_roughness: Some(mr) });
    assert(ids =~= seq![a, n, mr]);
    let s0 = Seq::<Seq<char>>::empty();
    let s1 = s0.push(a);
    let s2 = s1.push(n);
    assert(!s0.contains(a));
    assert(!s1.contains(n)) by {
        if s1.contains(n) {
            let j = choose|j: int| 0 <= j < s1.len() && s1[j] == n;
        }
    }
    assert(!s2.contains(mr)) by {
        if s2.contains(mr) {
            let j = choose|j: int| 0 <= j < s2.len() && s2[j] == mr;
        }
    }
    assert(ids.drop_first() =~= seq![n, mr]);
    assert(ids.drop_first().drop_first() =~= seq![mr]);
    assert(ids.drop_first().drop_first().drop_first() =~= Seq::<Seq<char>>::empty());
    assert(distinct_ids(s0, ids) == distinct_ids(s1, ids.drop_first()));
    assert(distinct_ids(s1, ids.drop_first()) == distinct_ids(s2, ids.drop_first().drop_first()));
    assert(distinct_ids(s2, ids.drop_first().drop_first()) == distinct_ids(
        s2.push(mr),
        ids.drop_first().drop_first().drop_first(),
    ));
    assert(s2.push(mr) =~= seq![a, n, mr]);
}

// ---------------------------------------------------------------------------------------
// The layout of the blob's start
// ---------------------------------------------------------------------------------------
/// `y` starts with `x`.
pub open spec fn starts_with(y: Seq<u8>, x: Seq<u8>) -> bool {
    x.len() <= y.len() && forall|i: int| 0 <= i < x.len() ==> #[trigger] y[i] == x[i]
}

proof fn lemma_put_chunk_extends(out: Seq<u8>, tag: u32, p: Seq<u8>)
    ensures
        starts_with(put_chunk(out, tag, p), out),
{
}

proof fn lemma_starts_with_trans(z: Seq<u8>, y: Seq<u8>, x: Seq<u8>)
    requires
        starts_with(z, y),
        starts_with(y, x),
    ensures
        starts_with(z, x),
{
    assert forall|i: int| 0 <= i < x.len() implies #[trigger] z[i] == x[i] by {
        assert(z[i] == y[i]);
    }
}

proof fn lemma_put_slot_extends(out: Seq<u8>, tag: u32, id: Option<Seq<char>>)
    ensures
        starts_with(put_slot(out, tag, id), out),
{
}

proof fn lemma_put_tiles_extends(out: Seq<u8>, tag: u32, t: Seq<(u32, Seq<char>)>)
    ensures
        starts_with(put_tiles(out, tag, t), out),
{
}

spec fn pbr_prefix(f: MaterialFileView) -> Seq<u8> {
    put_chunk(blob_header(MAT_MAGIC), TAG_PBR, words32_bytes(f.albedo + seq![f.metallic, f.roughness]))
}

proof fn lemma_factors_extend(f: MaterialFileView)
    ensures
        starts_with(put_factors(f), pbr_prefix(f)),
{
    let h = blob_header(MAT_MAGIC);
    let o1 = pbr_prefix(f);
    let o2 = if f32_positive(f.sss_strength) {
        put_chunk(o1, TAG_SSS, words32_bytes(seq![f.sss_strength] + f.sss_color + seq![f.sss_curvature]))
    } else {
        o1
    };
    let o3 = if f32_positive(f.alpha_cutoff) {
        put_chunk(o2, TAG_CUT, words32_bytes(seq![f.alpha_cutoff]))
    } else {
        o2
    };
    if f32_positive(f.sss_strength) {
        lemma_put_chunk_extends(o1, TAG_SSS, words32_bytes(seq![f.sss_strength] + f.sss_color + seq![f.sss_curvature]));
    }
    if f32_positive(f.alpha_cutoff) {
        lemma_put_chunk_extends(o2, TAG_CUT, words32_bytes(seq![f.alpha_cutoff]));
    }
    lemma_starts_with_trans(o3, o2, o1);
    match f.shading_model {
        ShadingModel::Hair(hs) => {
            lemma_put_chunk_extends(o3, TAG_HAIR, words32_bytes(hair_words(hs)));
            lemma_starts_with_trans(put_factors(f), o3, o1);
        },
        ShadingModel::Standard => {},
    }
}

proof fn lemma_encode_extends(f: MaterialFileView)
    ensures
        starts_with(mat_encode(f), pbr_prefix(f)),
{
    reveal(mat_encode);
    let o1 = pbr_prefix(f);
    let o4 = put_factors(f);
    lemma_factors_extend(f);
    let o5 = match f.maps {
        MapsView::Single { albedo, normal, metallic_roughness } => put_slot(
            put_slot(put_slot(o4, TAG_ALB, albedo), TAG_NRM, normal),
            TAG_MR,
            metallic_roughness,
        ),
        MapsView::Udim { albedo, normal, metallic_roughness } => put_tiles(
            put_tiles(put_tiles(o4, TAG_UALB, albedo), TAG_UNRM, normal),
            TAG_UMR,
            metallic_roughness,
        ),
    };
    match f.maps {
        MapsView::Single { albedo, normal, metallic_roughness } => {
            let a1 = put_slot(o4, TAG_ALB, albedo);
            let a2 = put_slot(a1, TAG_NRM, normal);
            lemma_put_slot_extends(o4, TAG_ALB, albedo);
            lemma_put_slot_extends(a1, TAG_NRM, normal);
            lemma_put_slot_extends(a2, TAG_MR, metallic_roughness);
            lemma_starts_with_trans(a2, a1, o4);
            lemma_starts_with_trans(o5, a2, o4);
        },
        MapsView::Udim { albedo, normal, metallic_roughness } => {
            let a1 = put_tiles(o4, TAG_UALB, albedo);
            let a2 = put_tiles(a1, TAG_UNRM, normal);
            lemma_put_tiles_extends(o4, TAG_UALB, albedo);
            lemma_put_tiles_extends(a1, TAG_UNRM, normal);
            lemma_put_tiles_extends(a2, TAG_UMR, metallic_roughness);
            lemma_starts_with_trans(a2, a1, o4);
            lemma_starts_with_trans(o5, a2, o4);
        },
    }
    lemma_starts_with_trans(o5, o4, o1);
    match f.graph {
        Some(g) => {
            lemma_put_chunk_extends(o5, TAG_TEXG, texg_encode(g));
            lemma_starts_with_trans(mat_encode(f), o5, o1);
        },
        None => {},
    }
}

/// A `MAT ` blob starts with its header (magic `MAT `, version 1, no flags) and the `PBR `
/// chunk: tag, a 24-byte length, the four albedo words, then metallic, then roughness.
pub proof fn law_mat_blob_starts_with_pbr(f: MaterialFileView)
    requires
        f.albedo.len() == 4,
    ensures
        ({
            let b = mat_encode(f);
            &&& b.len() >= 40
            &&& le32(b, 0) == 0x2054414d
            &&& le16(b, 4) == 1
            &&& le16(b, 6) == 0
            &&& le32(b, 8) == 0x20524250
            &&& le32(b, 12) == 24
            &&& le32(b, 16) == f.albedo[0]
            &&& le32(b, 20) == f.albedo[1]
            &&& le32(b, 24) == f.albedo[2]
            &&& le32(b, 28) == f.albedo[3]
            &&& le32(b, 32) == f.metallic
            &&& le32(b, 36) == f.roughness
        }),
{
    let ws = f.albedo + seq![f.metallic, f.roughness];
    let w = words32_bytes(ws);
    lemma_words32_bytes_len(ws);
    lemma_words32_roundtrip(ws);
    let o1 = pbr_prefix(f);
    lemma_encode_extends(f);
    let b = mat_encode(f);
    let h = blob_header(MAT_MAGIC);
    assert(o1 =~= h + bytes32(TAG_PBR as int) + bytes32(24) + w);
    assert(b[0] == o1[0] && b[1] == o1[1] && b[2] == o1[2] && b[3] == o1[3]);
    assert(b[4] == o1[4] && b[5] == o1[5] && b[6] == o1[6] && b[7] == o1[7]);
    assert(b[8] == o1[8] && b[9] == o1[9] && b[10] == o1[10] && b[11] == o1[11]);
    assert(b[12] == o1[12] && b[13] == o1[13] && b[14] == o1[14] && b[15] == o1[15]);
    assert forall|k: int| 0 <= k < 24 implies #[trigger] b[16 + k] == w[k] by {
        assert(b[16 + k] == o1[16 + k]);
    }
    assert(ws[0] == words32(w)[0] && ws[1] == words32(w)[1] && ws[2] == words32(w)[2]);
    assert(ws[3] == words32(w)[3] && ws[4] == words32(w)[4] && ws[5] == words32(w)[5]);
    assert(le32(b, 16) == le32(w, 0)) by {
        assert(b[16] == w[0] && b[17] == w[1] && b[18] == w[2] && b[19] == w[3]);
    }
    assert(le32(b, 20) == le32(w, 4)) by {
        assert(b[20] == w[4] && b[21] == w[5] && b[22] == w[6] && b[23] == w[7]);
    }
    assert(le32(b, 24) == le32(w, 8)) by {
        assert(b[24] == w[8] && b[25] == w[9] && b[26] == w[10] && b[27] == w[11]);
    }
    assert(le32(b, 28) == le32(w, 12)) by {
        assert(b[28] == w[12] && b[29] == w[13] && b[30] == w[14] && b[31] == w[15]);
    }
    assert(le32(b, 32) == le32(w, 16)) by {
        assert(b[32] == w[16] && b[33] == w[17] && b[34] == w[18] && b[35] == w[19]);
    }
    assert(le32(b, 36) == le32(w, 20)) by {
        assert(b[36] == w[20] && b[37] == w[21] && b[38] == w[22] && b[39] == w[23]);
    }
}

/// The chunks of a `MAT ` blob, by their four-character tags: `PBR `, `SSS ` (strength
/// positive), `CUT ` (cutoff positive), `HAIR` (hair shading), then the maps: `ALB `,
/// `NRM `, `MR  ` for single maps, `UALB`, `UNRM`, `UMR ` for UDIM tile sets, and `TEXG` for
/// a procedural graph, in that order.
pub proof fn law_mat_blob_chunks_in_order(f: MaterialFileView)
    ensures
        ({
            let o1 = put_chunk(
                blob_header(fourcc(77, 65, 84, 32)),
                fourcc(80, 66, 82, 32),
                words32_bytes(f.albedo + seq![f.metallic, f.roughness]),
            );
            let o2 = if f32_positive(f.sss_strength) {
                put_chunk(
                    o1,
                    fourcc(83, 83, 83, 32),
                    words32_bytes(seq![f.sss_strength] + f.sss_color + seq![f.sss_curvature]),
                )
            } else {
                o1
            };
            let o3 = if f32_positive(f.alpha_cutoff) {
                put_chunk(o2, fourcc(67, 85, 84, 32), words32_bytes(seq![f.alpha_cutoff]))
            } else {
                o2
            };
            let o4 = match f.shading_model {
                ShadingModel::Hair(h) => put_chunk(o3, fourcc(72, 65, 73, 82), words32_bytes(hair_words(h))),
                ShadingModel::Standard => o3,
            };
            let o5 = match f.maps {
                MapsView::Single { albedo, normal, metallic_roughness } => put_slot(
                    put_slot(put_slot(o4, fourcc(65, 76, 66, 32), albedo), fourcc(78, 82, 77, 32), normal),
                    fourcc(77, 82, 32, 32),
                    metallic_roughness,
                ),
                MapsView::Udim { albedo, normal, metallic_roughness } => put_tiles(
                    put_tiles(put_tiles(o4, fourcc(85, 65, 76, 66), albedo), fourcc(85, 78, 82, 77), normal),
                    fourcc(85, 77, 82, 32),
                    metallic_roughness,
                ),
            };
            mat_encode(f) == match f.graph {
                Some(g) => put_chunk(o5, fourcc(84, 69, 88, 71), texg_encode(g)),
                None => o5,
            }
        }),
{
    reveal(mat_encode);
    assert(fourcc(77, 65, 84, 32) == MAT_MAGIC);
    assert(fourcc(80, 66, 82, 32) == TAG_PBR);
    assert(fourcc(83, 83, 83, 32) == TAG_SSS);
    assert(fourcc(67, 85, 84, 32) == TAG_CUT);
    assert(fourcc(72, 65, 73, 82) == TAG_HAIR);
    assert(fourcc(65, 76, 66, 32) == TAG_ALB);
    assert(fourcc(78, 82, 77, 32) == TAG_NRM);
    assert(fourcc(77, 82, 32, 32) == TAG_MR);
    assert(fourcc(85, 65, 76, 66) == TAG_UALB);
    assert(fourcc(85, 78, 82, 77) == TAG_UNRM);
    assert(fourcc(85, 77, 82, 32) == TAG_UMR);
    assert(fourcc(84, 69, 88, 71) == TAG_TEXG);
}

} // verus!
