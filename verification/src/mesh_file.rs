//! The `MESH` blob: vertex attribute chunks (positions, normals, tangents, slotted UVs,
//! colors, joints, weights), triangle indices and morph targets. Float data is carried as
//! IEEE-754 bit patterns, flattened (`u32` per `f32`).
use vstd::prelude::*;
use vstd::utf8::*;
use crate::wire::{
    le16, le32, words32, words16, pad4, zeros, bytes16, bytes32, run_chunks, get_u16, get_u32,
    read_words32, read_words16, utf8_string, read_chunk, lemma_run_chunks_unfold,
    lemma_chunk_progress, words32_bytes, words16_bytes, chunk_bytes, put_u16, put_u32,
    put_bytes, put_words32, put_words16, put_zeros, write_chunk, string_bytes,
    lemma_words32_bytes_len, lemma_words16_bytes_len, lemma_run_chunks_append, well_framed,
};
use crate::skin_file::{note_count, put_chunk, blob_header};

verus! {

pub const MESH_MAGIC: u32 = 0x4853454d;

pub const TAG_POS: u32 = 0x20534f50;

pub const TAG_NRM: u32 = 0x204d524e;

pub const TAG_UV: u32 = 0x20205655;

pub const TAG_TAN: u32 = 0x204e4154;

pub const TAG_COL: u32 = 0x204c4f43;

pub const TAG_JNT: u32 = 0x20544e4a;

pub const TAG_WGT: u32 = 0x20544757;

pub const TAG_IDX: u32 = 0x20584449;

pub const TAG_MRPH: u32 = 0x4850524d;

/// Highest attribute slot a `MESH` blob may use.
pub const MAX_SLOT: u32 = 255;

/// Why a `MESH` blob was rejected.
#[derive(Debug, Clone, PartialEq, Eq)]
pub enum MeshBytesError {
    Truncated,
    BadMagic,
    UnsupportedVersion(u16),
    Quantized,
    Duplicate(&'static str),
    DuplicateSlot { channel: &'static str, slot: u32 },
    SizeMismatch,
    VertexCountMismatch,
    BadIndices,
    MorphWithoutPositions,
    BadUtf8,
    SlotTooLarge(u32),
}

/// A blend shape: per-vertex position deltas (3 words each) and optional normal deltas.
pub struct MorphData {
    pub name: String,
    pub position_deltas: Vec<u32>,
    pub normal_deltas: Vec<u32>,
}

/// Mathematical content of a [`MorphData`].
pub struct MorphView {
    pub name: Seq<char>,
    pub position_deltas: Seq<u32>,
    pub normal_deltas: Seq<u32>,
}

impl MorphData {
    pub open spec fn view(&self) -> MorphView {
        MorphView {
            name: self.name@,
            position_deltas: self.position_deltas@,
            normal_deltas: self.normal_deltas@,
        }
    }
}

/// Mesh attributes as stored in a `MESH` blob (flattened: positions / normals 3 words
/// per vertex, UVs 2, tangents / colors / weights 4, joints 4 `u16`s).
pub struct MeshData {
    pub positions: Vec<u32>,
    pub normals: Vec<u32>,
    pub uvs: Vec<Vec<u32>>,
    pub tangents: Vec<u32>,
    pub colors: Vec<Vec<u32>>,
    pub joints: Vec<Vec<u16>>,
    pub weights: Vec<Vec<u32>>,
    pub indices: Vec<u32>,
    /// Rest pose when morph targets are present (empty otherwise).
    pub basis_positions: Vec<u32>,
    pub basis_normals: Vec<u32>,
    pub morph_targets: Vec<MorphData>,
    pub morph_weights: Vec<u32>,
}

/// Mathematical content of a [`MeshData`].
pub struct MeshView {
    pub positions: Seq<u32>,
    pub normals: Seq<u32>,
    pub uvs: Seq<Seq<u32>>,
    pub tangents: Seq<u32>,
    pub colors: Seq<Seq<u32>>,
    pub joints: Seq<Seq<u16>>,
    pub weights: Seq<Seq<u32>>,
    pub indices: Seq<u32>,
    pub basis_positions: Seq<u32>,
    pub basis_normals: Seq<u32>,
    pub morph_targets: Seq<MorphView>,
    pub morph_weights: Seq<u32>,
}

impl MeshData {
    pub open spec fn view(&self) -> MeshView {
        MeshView {
            positions: self.positions@,
            normals: self.normals@,
            uvs: self.uvs@.map_values(|c: Vec<u32>| c@),
            tangents: self.tangents@,
            colors: self.colors@.map_values(|c: Vec<u32>| c@),
            joints: self.joints@.map_values(|c: Vec<u16>| c@),
            weights: self.weights@.map_values(|c: Vec<u32>| c@),
            indices: self.indices@,
            basis_positions: self.basis_positions@,
            basis_normals: self.basis_normals@,
            morph_targets: self.morph_targets@.map_values(|m: MorphData| m.view()),
            morph_weights: self.morph_weights@,
        }
    }
}

/// Decoder state between chunks.
pub struct MeshScan {
    pub mesh: MeshView,
    pub saw_pos: bool,
    pub saw_nrm: bool,
    pub saw_tan: bool,
    pub saw_idx: bool,
    pub n_verts: Option<u32>,
}

pub open spec fn empty_mesh_view() -> MeshView {
    MeshView {
        positions: Seq::empty(),
        normals: Seq::empty(),
        uvs: Seq::empty(),
        tangents: Seq::empty(),
        colors: Seq::empty(),
        joints: Seq::empty(),
        weights: Seq::empty(),
        indices: Seq::empty(),
        basis_positions: Seq::empty(),
        basis_normals: Seq::empty(),
        morph_targets: Seq::empty(),
        morph_weights: Seq::empty(),
    }
}

pub open spec fn mesh_scan_init() -> MeshScan {
    MeshScan {
        mesh: empty_mesh_view(),
        saw_pos: false,
        saw_nrm: false,
        saw_tan: false,
        saw_idx: false,
        n_verts: None,
    }
}

/// `count` then exactly `count * stride` bytes.
pub open spec fn mesh_unslotted(p: Seq<u8>, stride: int) -> Result<(u32, Seq<u8>), MeshBytesError> {
    if p.len() < 4 {
        Err(MeshBytesError::Truncated)
    } else if p.len() != 4 + le32(p, 0) * stride {
        Err(MeshBytesError::SizeMismatch)
    } else {
        Ok((le32(p, 0) as u32, p.subrange(4, p.len() as int)))
    }
}

/// `slot`, `count`, then exactly `count * stride` bytes; slots above 255 are rejected.
pub open spec fn mesh_slotted(p: Seq<u8>, stride: int) -> Result<
    (u32, u32, Seq<u8>),
    MeshBytesError,
> {
    if p.len() < 8 {
        Err(MeshBytesError::Truncated)
    } else if le32(p, 0) > MAX_SLOT {
        Err(MeshBytesError::SlotTooLarge(le32(p, 0) as u32))
    } else if p.len() != 8 + le32(p, 4) * stride {
        Err(MeshBytesError::SizeMismatch)
    } else {
        Ok((le32(p, 0) as u32, le32(p, 4) as u32, p.subrange(8, p.len() as int)))
    }
}

/// Stores a column at `slot`, growing the column list with empty columns as needed;
/// `None` when the slot already holds data.
pub open spec fn put_column<T>(cols: Seq<Seq<T>>, slot: int, data: Seq<T>) -> Option<Seq<Seq<T>>> {
    let grown = if cols.len() <= slot {
        cols + Seq::new((slot + 1 - cols.len()) as nat, |i: int| Seq::<T>::empty())
    } else {
        cols
    };
    if grown[slot].len() != 0 {
        None
    } else {
        Some(grown.update(slot, data))
    }
}

/// A `MRPH` payload: u16 name length, UTF-8 name, zero padding to a multiple of 4, u32
/// flags (bit 0: normal deltas present), u32 count, `count` position deltas, then
/// `count` normal deltas when flagged.
pub open spec fn mesh_morph(p: Seq<u8>) -> Result<MorphView, MeshBytesError> {
    if p.len() < 2 {
        Err(MeshBytesError::Truncated)
    } else {
        let n = le16(p, 0);
        if p.len() - 2 < n {
            Err(MeshBytesError::Truncated)
        } else if !valid_utf8(p.subrange(2, 2 + n)) {
            Err(MeshBytesError::BadUtf8)
        } else {
            let at = 2 + n + pad4(2 + n);
            if p.len() - (2 + n) < pad4(2 + n) {
                Err(MeshBytesError::Truncated)
            } else if p.len() - at < 4 {
                Err(MeshBytesError::Truncated)
            } else if p.len() - (at + 4) < 4 {
                Err(MeshBytesError::Truncated)
            } else {
                let flags = le32(p, at);
                let count = le32(p, at + 4);
                let has_nrm = flags % 2 == 1;
                let expected = at + 8 + count * 12 + if has_nrm {
                    count * 12
                } else {
                    0
                };
                if p.len() != expected {
                    Err(MeshBytesError::SizeMismatch)
                } else {
                    Ok(
                        MorphView {
                            name: decode_utf8(p.subrange(2, 2 + n)),
                            position_deltas: words32(p.subrange(at + 8, at + 8 + count * 12)),
                            normal_deltas: if has_nrm {
                                words32(p.subrange(at + 8 + count * 12, at + 8 + count * 24))
                            } else {
                                Seq::empty()
                            },
                        },
                    )
                }
            }
        }
    }
}

/// An unslotted float attribute chunk (`POS `, `NRM `, `TAN `).
pub open spec fn mesh_attr(n_verts: Option<u32>, p: Seq<u8>, stride: int) -> Result<
    (Seq<u32>, Option<u32>),
    MeshBytesError,
> {
    match mesh_unslotted(p, stride) {
        Err(e) => Err(e),
        Ok((count, body)) => match note_count(n_verts, count) {
            None => Err(MeshBytesError::VertexCountMismatch),
            Some(n) => Ok((words32(body), n)),
        },
    }
}

/// A slotted attribute chunk of 32-bit words (`UV  `, `COL `, `WGT `).
pub open spec fn mesh_column(
    n_verts: Option<u32>,
    cols: Seq<Seq<u32>>,
    p: Seq<u8>,
    stride: int,
    channel: &'static str,
) -> Result<(Seq<Seq<u32>>, Option<u32>), MeshBytesError> {
    match mesh_slotted(p, stride) {
        Err(e) => Err(e),
        Ok((slot, count, body)) => match note_count(n_verts, count) {
            None => Err(MeshBytesError::VertexCountMismatch),
            Some(n) => match put_column(cols, slot as int, words32(body)) {
                None => Err(MeshBytesError::DuplicateSlot { channel: channel, slot: slot }),
                Some(c) => Ok((c, n)),
            },
        },
    }
}

/// Decodes one chunk into the scan state; unknown tags are skipped.
#[verifier::opaque]
pub open spec fn mesh_step(st: MeshScan, tag: u32, p: Seq<u8>) -> Result<MeshScan, MeshBytesError> {
    if tag == TAG_POS {
        if st.saw_pos {
            Err(MeshBytesError::Duplicate("POS"))
        } else {
            match mesh_attr(st.n_verts, p, 12) {
                Err(e) => Err(e),
                Ok((v, n)) => Ok(
                    MeshScan {
                        mesh: MeshView { positions: v, ..st.mesh },
                        saw_pos: true,
                        n_verts: n,
                        ..st
                    },
                ),
            }
        }
    } else if tag == TAG_NRM {
        if st.saw_nrm {
            Err(MeshBytesError::Duplicate("NRM"))
        } else {
            match mesh_attr(st.n_verts, p, 12) {
                Err(e) => Err(e),
                Ok((v, n)) => Ok(
                    MeshScan {
                        mesh: MeshView { normals: v, ..st.mesh },
                        saw_nrm: true,
                        n_verts: n,
                        ..st
                    },
                ),
            }
        }
    } else if tag == TAG_TAN {
        if st.saw_tan {
            Err(MeshBytesError::Duplicate("TAN"))
        } else {
            match mesh_attr(st.n_verts, p, 16) {
                Err(e) => Err(e),
                Ok((v, n)) => Ok(
                    MeshScan {
                        mesh: MeshView { tangents: v, ..st.mesh },
                        saw_tan: true,
                        n_verts: n,
                        ..st
                    },
                ),
            }
        }
    } else if tag == TAG_IDX {
        if st.saw_idx {
            Err(MeshBytesError::Duplicate("IDX"))
        } else {
            match mesh_unslotted(p, 4) {
                Err(e) => Err(e),
                Ok((count, body)) => if count % 3 != 0 {
                    Err(MeshBytesError::BadIndices)
                } else {
                    Ok(
                        MeshScan {
                            mesh: MeshView { indices: words32(body), ..st.mesh },
                            saw_idx: true,
                            ..st
                        },
                    )
                },
            }
        }
    } else if tag == TAG_UV {
        match mesh_column(st.n_verts, st.mesh.uvs, p, 8, "UV") {
            Err(e) => Err(e),
            Ok((c, n)) => Ok(MeshScan { mesh: MeshView { uvs: c, ..st.mesh }, n_verts: n, ..st }),
        }
    } else if tag == TAG_COL {
        match mesh_column(st.n_verts, st.mesh.colors, p, 16, "COL") {
            Err(e) => Err(e),
            Ok((c, n)) => Ok(
                MeshScan { mesh: MeshView { colors: c, ..st.mesh }, n_verts: n, ..st },
            ),
        }
    } else if tag == TAG_WGT {
        match mesh_column(st.n_verts, st.mesh.weights, p, 16, "WGT") {
            Err(e) => Err(e),
            Ok((c, n)) => Ok(
                MeshScan { mesh: MeshView { weights: c, ..st.mesh }, n_verts: n, ..st },
            ),
        }
    } else if tag == TAG_JNT {
        match mesh_slotted(p, 8) {
            Err(e) => Err(e),
            Ok((slot, count, body)) => match note_count(st.n_verts, count) {
                None => Err(MeshBytesError::VertexCountMismatch),
                Some(n) => match put_column(st.mesh.joints, slot as int, words16(body)) {
                    None => Err(MeshBytesError::DuplicateSlot { channel: "JNT", slot: slot }),
                    Some(c) => Ok(
                        MeshScan { mesh: MeshView { joints: c, ..st.mesh }, n_verts: n, ..st },
                    ),
                },
            },
        }
    } else if tag == TAG_MRPH {
        match mesh_morph(p) {
            Err(e) => Err(e),
            Ok(m) => match note_count(st.n_verts, (m.position_deltas.len() / 3) as u32) {
                None => Err(MeshBytesError::VertexCountMismatch),
                Some(n) => Ok(
                    MeshScan {
                        mesh: MeshView {
                            morph_targets: st.mesh.morph_targets.push(m),
                            ..st.mesh
                        },
                        n_verts: n,
                        ..st
                    },
                ),
            },
        }
    } else {
        Ok(st)
    }
}

pub open spec fn mesh_stepper() -> spec_fn(MeshScan, u32, Seq<u8>) -> Result<MeshScan, MeshBytesError> {
    |st: MeshScan, tag: u32, p: Seq<u8>| mesh_step(st, tag, p)
}

/// Every index addresses a vertex (there must be vertices if there are indices).
pub open spec fn indices_ok(indices: Seq<u32>, n_verts: Option<u32>) -> bool {
    match n_verts {
        Some(n) => forall|k: int| 0 <= k < indices.len() ==> #[trigger] indices[k] < n,
        None => indices.len() == 0,
    }
}

/// The mesh built after the last chunk: with morph targets the positions become the rest
/// pose, normals too (or `(0, 1, 0)` per vertex when the normal count differs), and every
/// morph weight starts at `0.0`.
pub open spec fn mesh_finish(st: MeshScan) -> Result<MeshView, MeshBytesError> {
    let m = st.mesh;
    if m.morph_targets.len() != 0 && m.positions.len() == 0 {
        Err(MeshBytesError::MorphWithoutPositions)
    } else if !indices_ok(m.indices, st.n_verts) {
        Err(MeshBytesError::BadIndices)
    } else {
        let morphs = m.morph_targets.len() != 0;
        Ok(
            MeshView {
                basis_positions: if morphs {
                    m.positions
                } else {
                    Seq::empty()
                },
                basis_normals: if !morphs {
                    Seq::empty()
                } else if m.normals.len() == m.positions.len() {
                    m.normals
                } else {
                    up_normals(m.positions.len() as int)
                },
                morph_weights: Seq::new(m.morph_targets.len(), |i: int| 0u32),
                ..m
            },
        )
    }
}

/// `(0.0, 1.0, 0.0)` for each of `len / 3` vertices (`1.0f32` is `0x3f800000`).
pub open spec fn up_normals(len: int) -> Seq<u32> {
    Seq::new(
        len as nat,
        |i: int|
            if i % 3 == 1 {
                0x3f800000u32
            } else {
                0u32
            },
    )
}

/// What a `MESH` blob decodes to. Tangents are those stored in the blob (a mesh without
/// them gets computed ones from the caller).
#[verifier::opaque]
pub open spec fn mesh_decode(bytes: Seq<u8>) -> Result<MeshView, MeshBytesError> {
    if bytes.len() < 8 {
        Err(MeshBytesError::Truncated)
    } else if le32(bytes, 0) != MESH_MAGIC {
        Err(MeshBytesError::BadMagic)
    } else if le16(bytes, 4) != 1 {
        Err(MeshBytesError::UnsupportedVersion(le16(bytes, 4) as u16))
    } else if le16(bytes, 6) % 2 == 1 {
        Err(MeshBytesError::Quantized)
    } else {
        match run_chunks(mesh_stepper(), MeshBytesError::Truncated, bytes, 8, mesh_scan_init()) {
            Err(e) => Err(e),
            Ok(st) => mesh_finish(st),
        }
    }
}

// ---------------------------------------------------------------------------------------
// Exec decoding
// ---------------------------------------------------------------------------------------
struct MeshParts {
    mesh: MeshData,
    saw_pos: bool,
    saw_nrm: bool,
    saw_tan: bool,
    saw_idx: bool,
    n_verts: Option<u32>,
}

impl MeshParts {
    spec fn view(&self) -> MeshScan {
        MeshScan {
            mesh: self.mesh.view(),
            saw_pos: self.saw_pos,
            saw_nrm: self.saw_nrm,
            saw_tan: self.saw_tan,
            saw_idx: self.saw_idx,
            n_verts: self.n_verts,
        }
    }
}

fn note_count_exec(n: Option<u32>, count: u32) -> (r: Option<Option<u32>>)
    ensures
        r == note_count(n, count),
{
    if count == 0 {
        return Some(n);
    }
    match n {
        None => Some(Some(count)),
        Some(v) => if v == count {
            Some(n)
        } else {
            None
        },
    }
}

fn read_unslotted(p: &[u8], stride: u64) -> (r: Result<(u32, &[u8]), MeshBytesError>)
    requires
        stride <= 64,
    ensures
        match mesh_unslotted(p@, stride as int) {
            Ok((c, b)) => r matches Ok(x) && x.0 == c && x.1@ == b,
            Err(e) => r == Err::<(u32, &[u8]), MeshBytesError>(e),
        },
{
    if p.len() < 4 {
        return Err(MeshBytesError::Truncated);
    }
    let count = get_u32(p, 0);
    assert(count as u64 * stride <= 0x1_0000_0000 * 64) by (nonlinear_arith)
        requires
            stride <= 64,
            count <= u32::MAX,
    ;
    if p.len() as u64 != 4 + count as u64 * stride {
        return Err(MeshBytesError::SizeMismatch);
    }
    Ok((count, &p[4..p.len()]))
}

fn read_slotted(p: &[u8], stride: u64) -> (r: Result<(u32, u32, &[u8]), MeshBytesError>)
    requires
        stride <= 64,
    ensures
        match mesh_slotted(p@, stride as int) {
            Ok((s, c, b)) => r matches Ok(x) && x.0 == s && x.1 == c && x.2@ == b,
            Err(e) => r == Err::<(u32, u32, &[u8]), MeshBytesError>(e),
        },
{
    if p.len() < 8 {
        return Err(MeshBytesError::Truncated);
    }
    let slot = get_u32(p, 0);
    let count = get_u32(p, 4);
    if slot > MAX_SLOT {
        return Err(MeshBytesError::SlotTooLarge(slot));
    }
    assert(count as u64 * stride <= 0x1_0000_0000 * 64) by (nonlinear_arith)
        requires
            stride <= 64,
            count <= u32::MAX,
    ;
    if p.len() as u64 != 8 + count as u64 * stride {
        return Err(MeshBytesError::SizeMismatch);
    }
    Ok((slot, count, &p[8..p.len()]))
}

fn put_column_exec<T>(cols: &mut Vec<Vec<T>>, slot: u32, data: Vec<T>) -> (r: bool)
    requires
        slot <= MAX_SLOT,
    ensures
        match put_column(old(cols)@.map_values(|c: Vec<T>| c@), slot as int, data@) {
            Some(c) => r && final(cols)@.map_values(|c: Vec<T>| c@) == c,
            None => !r,
        },
{
    let ghost old_view = cols@.map_values(|c: Vec<T>| c@);
    let i = slot as usize;
    let ghost grown = if old_view.len() <= i {
        old_view + Seq::new((i + 1 - old_view.len()) as nat, |k: int| Seq::<T>::empty())
    } else {
        old_view
    };
    while cols.len() <= i
        invariant
            i <= MAX_SLOT,
            old_view.len() <= cols@.len(),
            cols@.len() <= (if old_view.len() <= i {
                i + 1
            } else {
                old_view.len() as int
            }),
            forall|k: int|
                0 <= k < cols@.len() ==> (#[trigger] cols@[k])@ == grown[k],
            grown == (if old_view.len() <= i {
                old_view + Seq::new((i + 1 - old_view.len()) as nat, |k: int| Seq::<T>::empty())
            } else {
                old_view
            }),
            forall|k: int| 0 <= k < old_view.len() ==> (#[trigger] old_view[k]) == old(cols)@[k]@,
        decreases i + 1 - cols@.len(),
    {
        cols.push(Vec::new());
    }
    assert(cols@.map_values(|c: Vec<T>| c@) =~= grown);
    if cols[i].len() != 0 {
        return false;
    }
    cols.set(i, data);
    assert(cols@.map_values(|c: Vec<T>| c@) =~= grown.update(i as int, data@));
    true
}

fn read_morph(p: &[u8]) -> (r: Result<MorphData, MeshBytesError>)
    ensures
        match mesh_morph(p@) {
            Ok(m) => r matches Ok(x) && x.view() == m,
            Err(e) => r matches Err(e2) && e2 == e,
        },
{
    if p.len() < 2 {
        return Err(MeshBytesError::Truncated);
    }
    let n = get_u16(p, 0) as usize;
    if p.len() - 2 < n {
        return Err(MeshBytesError::Truncated);
    }
    let name = match utf8_string(&p[2..2 + n]) {
        Some(s) => s,
        None => {
            return Err(MeshBytesError::BadUtf8);
        },
    };
    proof {
        encode_utf8_decode_utf8(name@);
    }
    let pad = (4 - (2 + n) % 4) % 4;
    if p.len() - (2 + n) < pad {
        return Err(MeshBytesError::Truncated);
    }
    let at = 2 + n + pad;
    if p.len() - at < 4 {
        return Err(MeshBytesError::Truncated);
    }
    if p.len() - (at + 4) < 4 {
        return Err(MeshBytesError::Truncated);
    }
    let flags = get_u32(p, at);
    let count = get_u32(p, at + 4) as u64;
    let has_nrm = flags % 2 == 1;
    let expected: u64 = at as u64 + 8 + count * 12 + if has_nrm {
        count * 12
    } else {
        0
    };
    if p.len() as u64 != expected {
        return Err(MeshBytesError::SizeMismatch);
    }
    let c12 = (count * 12) as usize;
    let pos = read_words32(&p[at + 8..at + 8 + c12]);
    let nrm = if has_nrm {
        read_words32(&p[at + 8 + c12..at + 8 + 2 * c12])
    } else {
        Vec::new()
    };
    let r = MorphData { name, position_deltas: pos, normal_deltas: nrm };
    assert(r.view().normal_deltas =~= mesh_morph(p@)->Ok_0.normal_deltas);
    Ok(r)
}

fn read_attr(n_verts: Option<u32>, p: &[u8], stride: u64) -> (r: Result<(Vec<u32>, Option<u32>), MeshBytesError>)
    requires
        stride <= 64,
    ensures
        match mesh_attr(n_verts, p@, stride as int) {
            Ok((v, n)) => r matches Ok(x) && x.0@ == v && x.1 == n,
            Err(e) => r matches Err(e2) && e2 == e,
        },
{
    let (count, body) = read_unslotted(p, stride)?;
    let n = match note_count_exec(n_verts, count) {
        Some(n) => n,
        None => {
            return Err(MeshBytesError::VertexCountMismatch);
        },
    };
    Ok((read_words32(body), n))
}

fn read_column(
    n_verts: Option<u32>,
    cols: &mut Vec<Vec<u32>>,
    p: &[u8],
    stride: u64,
    channel: &'static str,
) -> (r: Result<Option<u32>, MeshBytesError>)
    requires
        stride <= 64,
    ensures
        match mesh_column(n_verts, old(cols)@.map_values(|c: Vec<u32>| c@), p@, stride as int, channel) {
            Ok((c, n)) => r matches Ok(x) && x == n && final(cols)@.map_values(|c: Vec<u32>| c@) == c,
            Err(e) => r matches Err(e2) && e2 == e,
        },
{
    let (slot, count, body) = read_slotted(p, stride)?;
    let n = match note_count_exec(n_verts, count) {
        Some(n) => n,
        None => {
            return Err(MeshBytesError::VertexCountMismatch);
        },
    };
    let data = read_words32(body);
    if !put_column_exec(cols, slot, data) {
        return Err(MeshBytesError::DuplicateSlot { channel, slot });
    }
    Ok(n)
}

fn mesh_step_exec(st: &mut MeshParts, tag: u32, p: &[u8]) -> (r: Result<(), MeshBytesError>)
    ensures
        match mesh_step(old(st)@, tag, p@) {
            Ok(s2) => r is Ok && final(st)@ == s2,
            Err(e) => r matches Err(e2) && e2 == e,
        },
{
    reveal(mesh_step);
    let ghost s0 = st@;
    if tag == TAG_POS {
        if st.saw_pos {
            return Err(MeshBytesError::Duplicate("POS"));
        }
        let (v, n) = read_attr(st.n_verts, p, 12)?;
        st.mesh.positions = v;
        st.saw_pos = true;
        st.n_verts = n;
        Ok(())
    } else if tag == TAG_NRM {
        if st.saw_nrm {
            return Err(MeshBytesError::Duplicate("NRM"));
        }
        let (v, n) = read_attr(st.n_verts, p, 12)?;
        st.mesh.normals = v;
        st.saw_nrm = true;
        st.n_verts = n;
        Ok(())
    } else if tag == TAG_TAN {
        if st.saw_tan {
            return Err(MeshBytesError::Duplicate("TAN"));
        }
        let (v, n) = read_attr(st.n_verts, p, 16)?;
        st.mesh.tangents = v;
        st.saw_tan = true;
        st.n_verts = n;
        Ok(())
    } else if tag == TAG_IDX {
        if st.saw_idx {
            return Err(MeshBytesError::Duplicate("IDX"));
        }
        let (count, body) = read_unslotted(p, 4)?;
        if count % 3 != 0 {
            return Err(MeshBytesError::BadIndices);
        }
        st.mesh.indices = read_words32(body);
        st.saw_idx = true;
        Ok(())
    } else if tag == TAG_UV {
        let n = read_column(st.n_verts, &mut st.mesh.uvs, p, 8, "UV")?;
        st.n_verts = n;
        Ok(())
    } else if tag == TAG_COL {
        let n = read_column(st.n_verts, &mut st.mesh.colors, p, 16, "COL")?;
        st.n_verts = n;
        Ok(())
    } else if tag == TAG_WGT {
        let n = read_column(st.n_verts, &mut st.mesh.weights, p, 16, "WGT")?;
        st.n_verts = n;
        Ok(())
    } else if tag == TAG_JNT {
        let (slot, count, body) = read_slotted(p, 8)?;
        let n = match note_count_exec(st.n_verts, count) {
            Some(n) => n,
            None => {
                return Err(MeshBytesError::VertexCountMismatch);
            },
        };
        let data = read_words16(body);
        if !put_column_exec(&mut st.mesh.joints, slot, data) {
            return Err(MeshBytesError::DuplicateSlot { channel: "JNT", slot });
        }
        st.n_verts = n;
        Ok(())
    } else if tag == TAG_MRPH {
        let m = read_morph(p)?;
        let cnt = (m.position_deltas.len() / 3) as u32;
        let n = match note_count_exec(st.n_verts, cnt) {
            Some(n) => n,
            None => {
                return Err(MeshBytesError::VertexCountMismatch);
            },
        };
        st.mesh.morph_targets.push(m);
        st.n_verts = n;
        proof {
            assert(st@.mesh.morph_targets =~= s0.mesh.morph_targets.push(m.view()));
        }
        Ok(())
    } else {
        Ok(())
    }
}

fn check_indices(indices: &Vec<u32>, n_verts: Option<u32>) -> (r: bool)
    ensures
        r == indices_ok(indices@, n_verts),
{
    match n_verts {
        Some(n) => {
            let mut k: usize = 0;
            while k < indices.len()
                invariant
                    n_verts == Some(n),
                    k <= indices@.len(),
                    forall|j: int| 0 <= j < k ==> #[trigger] indices@[j] < n,
                decreases indices@.len() - k,
            {
                if indices[k] >= n {
                    assert(!(indices@[k as int] < n));
                    return false;
                }
                k += 1;
            }
            true
        },
        None => indices.len() == 0,
    }
}

fn up_normals_exec(len: usize) -> (r: Vec<u32>)
    ensures
        r@ == up_normals(len as int),
{
    let mut out: Vec<u32> = Vec::new();
    let mut i: usize = 0;
    while i < len
        invariant
            i <= len,
            out@ == up_normals(len as int).take(i as int),
        decreases len - i,
    {
        out.push(if i % 3 == 1 { 0x3f800000u32 } else { 0u32 });
        i += 1;
        assert(out@ =~= up_normals(len as int).take(i as int));
    }
    assert(up_normals(len as int).take(i as int) =~= up_normals(len as int));
    out
}

fn copy_words(v: &Vec<u32>) -> (r: Vec<u32>)
    ensures
        r@ == v@,
{
    let mut out: Vec<u32> = Vec::new();
    let mut i: usize = 0;
    while i < v.len()
        invariant
            i <= v@.len(),
            out@ == v@.take(i as int),
        decreases v@.len() - i,
    {
        out.push(v[i]);
        i += 1;
        assert(out@ =~= v@.take(i as int));
    }
    assert(v@.take(i as int) =~= v@);
    out
}

fn zero_words(n: usize) -> (r: Vec<u32>)
    ensures
        r@ == Seq::new(n as nat, |i: int| 0u32),
{
    let mut out: Vec<u32> = Vec::new();
    let mut i: usize = 0;
    while i < n
        invariant
            i <= n,
            out@ == Seq::new(i as nat, |k: int| 0u32),
        decreases n - i,
    {
        out.push(0);
        i += 1;
        assert(out@ =~= Seq::new(i as nat, |k: int| 0u32));
    }
    out
}

impl MeshData {
    /// Decodes a `MESH` blob. Tangents are the stored ones; when none are stored the
    /// caller computes them from positions, normals, the first UV set and the indices.
    pub fn from_bytes(bytes: &[u8]) -> (r: Result<MeshData, MeshBytesError>)
        ensures
            match mesh_decode(bytes@) {
                Ok(v) => r matches Ok(m) && m.view() == v,
                Err(e) => r matches Err(e2) && e2 == e,
            },
    {
        reveal(mesh_decode);
        if bytes.len() < 8 {
            return Err(MeshBytesError::Truncated);
        }
        if get_u32(bytes, 0) != MESH_MAGIC {
            return Err(MeshBytesError::BadMagic);
        }
        let version = get_u16(bytes, 4);
        if version != 1 {
            return Err(MeshBytesError::UnsupportedVersion(version));
        }
        let flags = get_u16(bytes, 6);
        if flags % 2 == 1 {
            return Err(MeshBytesError::Quantized);
        }
        let mut st = MeshParts {
            mesh: MeshData {
                positions: Vec::new(),
                normals: Vec::new(),
                uvs: Vec::new(),
                tangents: Vec::new(),
                colors: Vec::new(),
                joints: Vec::new(),
                weights: Vec::new(),
                indices: Vec::new(),
                basis_positions: Vec::new(),
                basis_normals: Vec::new(),
                morph_targets: Vec::new(),
                morph_weights: Vec::new(),
            },
            saw_pos: false,
            saw_nrm: false,
            saw_tan: false,
            saw_idx: false,
            n_verts: None,
        };
        assert(st@.mesh.uvs =~= Seq::<Seq<u32>>::empty());
        assert(st@.mesh.colors =~= Seq::<Seq<u32>>::empty());
        assert(st@.mesh.weights =~= Seq::<Seq<u32>>::empty());
        assert(st@.mesh.joints =~= Seq::<Seq<u16>>::empty());
        assert(st@.mesh.morph_targets =~= Seq::<MorphView>::empty());
        assert(st@.mesh == empty_mesh_view());
        let mut pos: usize = 8;
        while pos < bytes.len()
            invariant
                8 <= pos <= bytes@.len(),
                le32(bytes@, 0) == MESH_MAGIC,
                le16(bytes@, 4) == 1,
                le16(bytes@, 6) % 2 == 0,
                run_chunks(mesh_stepper(), MeshBytesError::Truncated, bytes@, 8, mesh_scan_init())
                    == run_chunks(mesh_stepper(), MeshBytesError::Truncated, bytes@, pos as int, st@),
                st@.mesh.basis_positions.len() == 0,
                st@.mesh.basis_normals.len() == 0,
                st@.mesh.morph_weights.len() == 0,
            decreases bytes@.len() - pos,
        {
            proof {
                lemma_run_chunks_unfold(
                    mesh_stepper(),
                    MeshBytesError::Truncated,
                    bytes@,
                    pos as int,
                    st@,
                );
            }
            let (tag, start, len, next) = match read_chunk(bytes, pos) {
                Some(c) => c,
                None => {
                    proof {
                        reveal(mesh_decode);
                    }
                    return Err(MeshBytesError::Truncated);
                },
            };
            proof {
                lemma_chunk_progress(bytes@, pos as int);
            }
            let payload = &bytes[start..start + len];
            let ghost before = st@;
            assert(payload@ == bytes@.subrange(start as int, start + len));
            match mesh_step_exec(&mut st, tag, payload) {
                Ok(()) => {},
                Err(e) => {
                    proof {
                        reveal(mesh_decode);
                    }
                    return Err(e);
                },
            }
            proof {
                reveal(mesh_step);
            }
            pos = next;
        }
        let ghost fin = st@;
        let mut mesh = st.mesh;
        if mesh.morph_targets.len() != 0 && mesh.positions.len() == 0 {
            return Err(MeshBytesError::MorphWithoutPositions);
        }
        if !check_indices(&mesh.indices, st.n_verts) {
            return Err(MeshBytesError::BadIndices);
        }
        if mesh.morph_targets.len() != 0 {
            mesh.basis_positions = copy_words(&mesh.positions);
            mesh.basis_normals = if mesh.normals.len() == mesh.positions.len() {
                copy_words(&mesh.normals)
            } else {
                up_normals_exec(mesh.positions.len())
            };
        }
        mesh.morph_weights = zero_words(mesh.morph_targets.len());
        proof {
            let want = mesh_finish(fin)->Ok_0;
            assert(mesh.view().basis_positions =~= want.basis_positions);
            assert(mesh.view().basis_normals =~= want.basis_normals);
            assert(mesh.view().morph_weights =~= want.morph_weights);
            assert(mesh.view() == want);
        }
        Ok(mesh)
    }
}

// ---------------------------------------------------------------------------------------
// Encoding
// ---------------------------------------------------------------------------------------
/// Attribute lengths come in whole vertices (3, 2 or 4 words each).
pub open spec fn mesh_wf(m: MeshView) -> bool {
    &&& m.positions.len() % 3 == 0
    &&& m.normals.len() % 3 == 0
    &&& m.tangents.len() % 4 == 0
    &&& m.basis_positions.len() % 3 == 0
    &&& m.basis_normals.len() % 3 == 0
    &&& forall|i: int| 0 <= i < m.uvs.len() ==> (#[trigger] m.uvs[i]).len() % 2 == 0
    &&& forall|i: int| 0 <= i < m.colors.len() ==> (#[trigger] m.colors[i]).len() % 4 == 0
    &&& forall|i: int| 0 <= i < m.joints.len() ==> (#[trigger] m.joints[i]).len() % 4 == 0
    &&& forall|i: int| 0 <= i < m.weights.len() ==> (#[trigger] m.weights[i]).len() % 4 == 0
    &&& forall|i: int|
        0 <= i < m.morph_targets.len() ==> (#[trigger] m.morph_targets[i]).position_deltas.len()
            % 3 == 0 && m.morph_targets[i].normal_deltas.len() % 3 == 0
}

/// `n` 32-bit words fit an unslotted chunk: its payload (a count, then the words) stays
/// within the 32-bit payload length.
pub open spec fn fits_unslotted32(n: int) -> bool {
    4 + 4 * n <= u32::MAX
}

/// A slot of `n` entries of `unit` bytes fits a slotted chunk: its payload (slot, count,
/// then the entries) stays within the 32-bit payload length.
pub open spec fn fits_slotted(n: int, unit: int) -> bool {
    8 + unit * n <= u32::MAX
}

/// Sizes that fit the format's 32-bit length fields: every chunk that is written has a
/// payload of at most `u32::MAX` bytes, and slot numbers fit 32 bits.
pub open spec fn mesh_sizes_ok(m: MeshView) -> bool {
    &&& fits_unslotted32(
        if m.basis_positions.len() == 0 {
            m.positions.len() as int
        } else {
            m.basis_positions.len() as int
        },
    )
    &&& fits_unslotted32(
        if m.basis_normals.len() == 0 {
            m.normals.len() as int
        } else {
            m.basis_normals.len() as int
        },
    )
    &&& m.basis_positions.len() == 0 ==> fits_unslotted32(m.tangents.len() as int)
    &&& fits_unslotted32(m.indices.len() as int)
    &&& m.uvs.len() <= u32::MAX
    &&& m.colors.len() <= u32::MAX
    &&& m.joints.len() <= u32::MAX
    &&& m.weights.len() <= u32::MAX
    &&& forall|i: int| 0 <= i < m.uvs.len() ==> fits_slotted((#[trigger] m.uvs[i]).len() as int, 4)
    &&& forall|i: int|
        0 <= i < m.colors.len() ==> fits_slotted((#[trigger] m.colors[i]).len() as int, 4)
    &&& forall|i: int|
        0 <= i < m.joints.len() ==> fits_slotted((#[trigger] m.joints[i]).len() as int, 2)
    &&& forall|i: int|
        0 <= i < m.weights.len() ==> fits_slotted((#[trigger] m.weights[i]).len() as int, 4)
    &&& forall|i: int|
        0 <= i < m.morph_targets.len() ==> morph_payload(#[trigger] m.morph_targets[i]).len()
            <= u32::MAX
}

/// An unslotted chunk with `count` entries (nothing when `count` is 0).
pub open spec fn put_unslotted(out: Seq<u8>, tag: u32, count: int, data: Seq<u8>) -> Seq<u8> {
    if count == 0 {
        out
    } else {
        put_chunk(out, tag, bytes32(count) + data)
    }
}

/// A slotted chunk with `count` entries (nothing when `count` is 0).
pub open spec fn put_slotted(out: Seq<u8>, tag: u32, slot: int, count: int, data: Seq<u8>) -> Seq<u8> {
    if count == 0 {
        out
    } else {
        put_chunk(out, tag, bytes32(slot) + bytes32(count) + data)
    }
}

/// Slotted chunks for columns `i..` of 32-bit words, `w` words per vertex.
pub open spec fn put_columns32(out: Seq<u8>, tag: u32, cols: Seq<Seq<u32>>, w: int, i: int) -> Seq<u8>
    decreases cols.len() - i,
{
    if i < 0 || i >= cols.len() {
        out
    } else {
        put_columns32(
            put_slotted(out, tag, i, cols[i].len() as int / w, words32_bytes(cols[i])),
            tag,
            cols,
            w,
            i + 1,
        )
    }
}

/// Slotted chunks for joint columns `i..` (4 `u16`s per vertex).
pub open spec fn put_columns16(out: Seq<u8>, tag: u32, cols: Seq<Seq<u16>>, i: int) -> Seq<u8>
    decreases cols.len() - i,
{
    if i < 0 || i >= cols.len() {
        out
    } else {
        put_columns16(
            put_slotted(out, tag, i, cols[i].len() as int / 4, words16_bytes(cols[i])),
            tag,
            cols,
            i + 1,
        )
    }
}

/// Vertices a morph target writes: all its position deltas, or as many as have normal
/// deltas too when it has any.
pub open spec fn morph_count(m: MorphView) -> int {
    let np = m.position_deltas.len() / 3;
    let nn = m.normal_deltas.len() / 3;
    if m.normal_deltas.len() != 0 && nn < np {
        nn as int
    } else {
        np as int
    }
}

/// The `MRPH` payload of a morph target.
pub open spec fn morph_payload(m: MorphView) -> Seq<u8> {
    let b = encode_utf8(m.name);
    let n = if b.len() > 65535 {
        65535
    } else {
        b.len() as int
    };
    let has_nrm = m.normal_deltas.len() != 0;
    let c = morph_count(m);
    bytes16(n) + b.take(n) + zeros(pad4(2 + n)) + bytes32(
        if has_nrm {
            1
        } else {
            0
        },
    ) + bytes32(c) + words32_bytes(m.position_deltas.take(3 * c)) + if has_nrm {
        words32_bytes(m.normal_deltas.take(3 * c))
    } else {
        Seq::empty()
    }
}

/// `MRPH` chunks for morph targets `i..`; targets with no deltas to write are skipped.
pub open spec fn put_morphs(out: Seq<u8>, ms: Seq<MorphView>, i: int) -> Seq<u8>
    decreases ms.len() - i,
{
    if i < 0 || i >= ms.len() {
        out
    } else {
        let m = ms[i];
        let skip = (m.position_deltas.len() == 0 && m.normal_deltas.len() == 0) || morph_count(m)
            == 0;
        put_morphs(
            if skip {
                out
            } else {
                put_chunk(out, TAG_MRPH, morph_payload(m))
            },
            ms,
            i + 1,
        )
    }
}

/// What `to_bytes` writes: header, then `POS `/`NRM ` (the rest pose when morph targets
/// are present), UV slots, `TAN ` (only without a rest pose), color, joint and weight
/// slots, `IDX `, and one `MRPH` per morph target. Empty attributes are omitted.
#[verifier::opaque]
pub open spec fn mesh_encode(m: MeshView) -> Seq<u8> {
    let pos = if m.basis_positions.len() == 0 {
        m.positions
    } else {
        m.basis_positions
    };
    let nrm = if m.basis_normals.len() == 0 {
        m.normals
    } else {
        m.basis_normals
    };
    let write_tan = m.basis_positions.len() == 0 && m.tangents.len() != 0;
    let o1 = put_unslotted(blob_header(MESH_MAGIC), TAG_POS, pos.len() as int / 3, words32_bytes(pos));
    let o2 = put_unslotted(o1, TAG_NRM, nrm.len() as int / 3, words32_bytes(nrm));
    let o3 = put_columns32(o2, TAG_UV, m.uvs, 2, 0);
    let o4 = if write_tan {
        put_unslotted(o3, TAG_TAN, m.tangents.len() as int / 4, words32_bytes(m.tangents))
    } else {
        o3
    };
    let o5 = put_columns32(o4, TAG_COL, m.colors, 4, 0);
    let o6 = put_columns16(o5, TAG_JNT, m.joints, 0);
    let o7 = put_columns32(o6, TAG_WGT, m.weights, 4, 0);
    let o8 = put_unslotted(o7, TAG_IDX, m.indices.len() as int, words32_bytes(m.indices));
    put_morphs(o8, m.morph_targets, 0)
}

fn put_unslotted_exec(out: &mut Vec<u8>, tag: u32, count: usize, data: &[u32])
    requires
        count <= u32::MAX,
        fits_unslotted32(data@.len() as int),
    ensures
        final(out)@ == put_unslotted(old(out)@, tag, count as int, words32_bytes(data@)),
{
    if count == 0 {
        return;
    }
    let mut payload: Vec<u8> = Vec::new();
    put_u32(&mut payload, count as u32);
    put_words32(&mut payload, data);
    proof {
        lemma_words32_bytes_len(data@);
    }
    write_chunk(out, tag, payload.as_slice());
}

fn put_slotted_exec(out: &mut Vec<u8>, tag: u32, slot: u32, count: usize, data: &[u8])
    requires
        count <= u32::MAX,
        8 + data@.len() <= u32::MAX,
    ensures
        final(out)@ == put_slotted(old(out)@, tag, slot as int, count as int, data@),
{
    if count == 0 {
        return;
    }
    let mut payload: Vec<u8> = Vec::new();
    put_u32(&mut payload, slot);
    put_u32(&mut payload, count as u32);
    put_bytes(&mut payload, data);
    write_chunk(out, tag, payload.as_slice());
}

fn put_columns32_exec(out: &mut Vec<u8>, tag: u32, cols: &Vec<Vec<u32>>, w: usize)
    requires
        w == 2 || w == 4,
        cols@.len() <= u32::MAX,
        forall|i: int| 0 <= i < cols@.len() ==> fits_slotted((#[trigger] cols@[i])@.len() as int, 4),
    ensures
        final(out)@ == put_columns32(
            old(out)@,
            tag,
            cols@.map_values(|c: Vec<u32>| c@),
            w as int,
            0,
        ),
{
    let ghost cv = cols@.map_values(|c: Vec<u32>| c@);
    let ghost start = out@;
    let mut i: usize = 0;
    while i < cols.len()
        invariant
            w == 2 || w == 4,
            i <= cols@.len(),
            cols@.len() <= u32::MAX,
            forall|i: int|
                0 <= i < cols@.len() ==> fits_slotted((#[trigger] cols@[i])@.len() as int, 4),
            cv == cols@.map_values(|c: Vec<u32>| c@),
            put_columns32(start, tag, cv, w as int, 0) == put_columns32(
                out@,
                tag,
                cv,
                w as int,
                i as int,
            ),
        decreases cols@.len() - i,
    {
        let mut data: Vec<u8> = Vec::new();
        put_words32(&mut data, cols[i].as_slice());
        proof {
            lemma_words32_bytes_len(cols@[i as int]@);
        }
        put_slotted_exec(out, tag, i as u32, cols[i].len() / w, data.as_slice());
        i += 1;
    }
}

fn put_columns16_exec(out: &mut Vec<u8>, tag: u32, cols: &Vec<Vec<u16>>)
    requires
        cols@.len() <= u32::MAX,
        forall|i: int| 0 <= i < cols@.len() ==> fits_slotted((#[trigger] cols@[i])@.len() as int, 2),
    ensures
        final(out)@ == put_columns16(old(out)@, tag, cols@.map_values(|c: Vec<u16>| c@), 0),
{
    let ghost cv = cols@.map_values(|c: Vec<u16>| c@);
    let ghost start = out@;
    let mut i: usize = 0;
    while i < cols.len()
        invariant
            i <= cols@.len(),
            cols@.len() <= u32::MAX,
            forall|i: int|
                0 <= i < cols@.len() ==> fits_slotted((#[trigger] cols@[i])@.len() as int, 2),
            cv == cols@.map_values(|c: Vec<u16>| c@),
            put_columns16(start, tag, cv, 0) == put_columns16(out@, tag, cv, i as int),
        decreases cols@.len() - i,
    {
        let mut data: Vec<u8> = Vec::new();
        crate::wire::put_words16(&mut data, cols[i].as_slice());
        proof {
            lemma_words16_bytes_len(cols@[i as int]@);
        }
        put_slotted_exec(out, tag, i as u32, cols[i].len() / 4, data.as_slice());
        i += 1;
    }
}

fn put_morph_exec(out: &mut Vec<u8>, m: &MorphData)
    requires
        morph_payload(m.view()).len() <= u32::MAX,
    ensures
        final(out)@ == (if (m.view().position_deltas.len() == 0 && m.view().normal_deltas.len()
            == 0) || morph_count(m.view()) == 0 {
            old(out)@
        } else {
            put_chunk(old(out)@, TAG_MRPH, morph_payload(m.view()))
        }),
{
    if m.position_deltas.len() == 0 && m.normal_deltas.len() == 0 {
        return;
    }
    let has_nrm = m.normal_deltas.len() != 0;
    let np = m.position_deltas.len() / 3;
    let nn = m.normal_deltas.len() / 3;
    let count = if has_nrm && nn < np {
        nn
    } else {
        np
    };
    if count == 0 {
        return;
    }
    let b = string_bytes(&m.name);
    let n: usize = if b.len() > 65535 {
        65535
    } else {
        b.len()
    };
    let mut payload: Vec<u8> = Vec::new();
    put_u16(&mut payload, n as u16);
    put_bytes(&mut payload, &b[0..n]);
    put_zeros(&mut payload, (4 - (2 + n) % 4) % 4);
    put_u32(&mut payload, if has_nrm { 1 } else { 0 });
    put_u32(&mut payload, count as u32);
    put_words32(&mut payload, &m.position_deltas.as_slice()[0..3 * count]);
    if has_nrm {
        put_words32(&mut payload, &m.normal_deltas.as_slice()[0..3 * count]);
    }
    proof {
        lemma_words32_bytes_len(m.position_deltas@.take(3 * count));
        lemma_words32_bytes_len(m.normal_deltas@.take(3 * count));
        assert(b@.subrange(0, n as int) =~= encode_utf8(m.name@).take(n as int));
        assert(m.position_deltas@.subrange(0, 3 * count) =~= m.position_deltas@.take(3 * count));
        assert(m.normal_deltas@.subrange(0, 3 * count) =~= m.normal_deltas@.take(3 * count));
        assert(payload@ =~= morph_payload(m.view()));
    }
    write_chunk(out, TAG_MRPH, payload.as_slice());
}

fn put_morphs_exec(out: &mut Vec<u8>, ms: &Vec<MorphData>)
    requires
        forall|i: int| 0 <= i < ms@.len() ==> morph_payload((#[trigger] ms@[i]).view()).len() <= u32::MAX,
    ensures
        final(out)@ == put_morphs(old(out)@, ms@.map_values(|m: MorphData| m.view()), 0),
{
    let ghost mv = ms@.map_values(|m: MorphData| m.view());
    let ghost start = out@;
    let mut i: usize = 0;
    while i < ms.len()
        invariant
            i <= ms@.len(),
            forall|i: int|
                0 <= i < ms@.len() ==> morph_payload((#[trigger] ms@[i]).view()).len() <= u32::MAX,
            mv == ms@.map_values(|m: MorphData| m.view()),
            put_morphs(start, mv, 0) == put_morphs(out@, mv, i as int),
        decreases ms@.len() - i,
    {
        put_morph_exec(out, &ms[i]);
        i += 1;
    }
}

/// The length of a morph target's `MRPH` payload.
fn morph_payload_len(m: &MorphData) -> (r: u128)
    ensures
        r == morph_payload(m.view()).len(),
{
    let b = string_bytes(&m.name);
    let n: u128 = if b.len() > 65535 {
        65535
    } else {
        b.len() as u128
    };
    let has_nrm = m.normal_deltas.len() != 0;
    let np = m.position_deltas.len() / 3;
    let nn = m.normal_deltas.len() / 3;
    let count: u128 = if has_nrm && nn < np {
        nn as u128
    } else {
        np as u128
    };
    let words: u128 = if has_nrm {
        24 * count
    } else {
        12 * count
    };
    proof {
        let c = morph_count(m.view());
        assert(c == count);
        lemma_words32_bytes_len(m.position_deltas@.take(3 * c));
        lemma_words32_bytes_len(m.normal_deltas@.take(3 * c));
    }
    2 + n + (4 - (2 + n) % 4) % 4 + 8 + words
}

/// The morph targets' payloads fit the 32-bit payload length.
fn morphs_fit_exec(ms: &Vec<MorphData>) -> (r: bool)
    ensures
        r == forall|i: int| 0 <= i < ms@.len() ==> morph_payload((#[trigger] ms@[i]).view()).len()
            <= u32::MAX,
{
    let mut i: usize = 0;
    while i < ms.len()
        invariant
            i <= ms@.len(),
            forall|j: int| 0 <= j < i ==> morph_payload((#[trigger] ms@[j]).view()).len() <= u32::MAX,
        decreases ms@.len() - i,
    {
        if morph_payload_len(&ms[i]) > 0xffff_ffff {
            return false;
        }
        i += 1;
    }
    true
}

/// Every column of 32-bit words fits a slotted chunk.
fn cols32_fit(cols: &Vec<Vec<u32>>) -> (r: bool)
    ensures
        r == forall|i: int| 0 <= i < cols@.len() ==> fits_slotted((#[trigger] cols@[i])@.len() as int, 4),
{
    let mut i: usize = 0;
    while i < cols.len()
        invariant
            i <= cols@.len(),
            forall|j: int| 0 <= j < i ==> fits_slotted((#[trigger] cols@[j])@.len() as int, 4),
        decreases cols@.len() - i,
    {
        if cols[i].len() as u64 > 0x3fff_fffd {
            return false;
        }
        i += 1;
    }
    true
}

/// Every column of 16-bit entries fits a slotted chunk.
fn cols16_fit(cols: &Vec<Vec<u16>>) -> (r: bool)
    ensures
        r == forall|i: int| 0 <= i < cols@.len() ==> fits_slotted((#[trigger] cols@[i])@.len() as int, 2),
{
    let mut i: usize = 0;
    while i < cols.len()
        invariant
            i <= cols@.len(),
            forall|j: int| 0 <= j < i ==> fits_slotted((#[trigger] cols@[j])@.len() as int, 2),
        decreases cols@.len() - i,
    {
        if cols[i].len() as u64 > 0x7fff_fffb {
            return false;
        }
        i += 1;
    }
    true
}

proof fn lemma_cols_fit_view<T>(cols: Seq<Vec<T>>, cv: Seq<Seq<T>>, unit: int)
    requires
        cv == cols.map_values(|c: Vec<T>| c@),
    ensures
        (forall|i: int| 0 <= i < cv.len() ==> fits_slotted((#[trigger] cv[i]).len() as int, unit))
            == (forall|i: int| 0 <= i < cols.len() ==> fits_slotted((#[trigger] cols[i])@.len() as int, unit)),
{
    if forall|i: int| 0 <= i < cols.len() ==> fits_slotted((#[trigger] cols[i])@.len() as int, unit) {
        assert forall|i: int| 0 <= i < cv.len() implies fits_slotted((#[trigger] cv[i]).len() as int, unit) by {
            assert(cv[i] == cols[i]@);
        }
    } else {
        let i = choose|i: int| 0 <= i < cols.len() && !fits_slotted((#[trigger] cols[i])@.len() as int, unit);
        assert(cv[i] == cols[i]@);
    }
}

proof fn lemma_morphs_fit_view(ms: Seq<MorphData>, mv: Seq<MorphView>)
    requires
        mv == ms.map_values(|m: MorphData| m.view()),
    ensures
        (forall|i: int| 0 <= i < mv.len() ==> morph_payload(#[trigger] mv[i]).len() <= u32::MAX)
            == (forall|i: int| 0 <= i < ms.len() ==> morph_payload((#[trigger] ms[i]).view()).len()
            <= u32::MAX),
{
    if forall|i: int| 0 <= i < ms.len() ==> morph_payload((#[trigger] ms[i]).view()).len() <= u32::MAX {
        assert forall|i: int| 0 <= i < mv.len() implies morph_payload(#[trigger] mv[i]).len() <= u32::MAX by {
            assert(mv[i] == ms[i].view());
        }
    } else {
        let i = choose|i: int| 0 <= i < ms.len() && !(morph_payload((#[trigger] ms[i]).view()).len() <= u32::MAX);
        assert(mv[i] == ms[i].view());
    }
}

impl MeshData {
    /// Whether the mesh fits the format's 32-bit length fields, so that `to_bytes` can
    /// encode it.
    pub fn sizes_ok(&self) -> (r: bool)
        ensures
            r == mesh_sizes_ok(self.view()),
    {
        let ghost v = self.view();
        let pos = if self.basis_positions.len() == 0 {
            self.positions.len()
        } else {
            self.basis_positions.len()
        };
        let nrm = if self.basis_normals.len() == 0 {
            self.normals.len()
        } else {
            self.basis_normals.len()
        };
        let small = |n: usize| -> (b: bool)
            ensures
                b == fits_unslotted32(n as int),
            { n as u64 <= 0x3fff_fffe };
        let tan_ok = self.basis_positions.len() != 0 || small(self.tangents.len());
        let counts_ok = self.uvs.len() as u64 <= 0xffff_ffff && self.colors.len() as u64
            <= 0xffff_ffff && self.joints.len() as u64 <= 0xffff_ffff && self.weights.len() as u64
            <= 0xffff_ffff;
        let uv_ok = cols32_fit(&self.uvs);
        let col_ok = cols32_fit(&self.colors);
        let jnt_ok = cols16_fit(&self.joints);
        let wgt_ok = cols32_fit(&self.weights);
        let mrph_ok = morphs_fit_exec(&self.morph_targets);
        proof {
            lemma_cols_fit_view(self.uvs@, v.uvs, 4);
            lemma_cols_fit_view(self.colors@, v.colors, 4);
            lemma_cols_fit_view(self.joints@, v.joints, 2);
            lemma_cols_fit_view(self.weights@, v.weights, 4);
            lemma_morphs_fit_view(self.morph_targets@, v.morph_targets);
        }
        let r = small(pos) && small(nrm) && tan_ok && small(self.indices.len()) && counts_ok
            && uv_ok && col_ok && jnt_ok && wgt_ok && mrph_ok;
        r
    }

    /// Encodes as a `MESH` blob.
    pub fn to_bytes(&self) -> (r: Vec<u8>)
        requires
            mesh_sizes_ok(self.view()),
        ensures
            r@ == mesh_encode(self.view()),
    {
        reveal(mesh_encode);
        let ghost v = self.view();
        let mut out: Vec<u8> = Vec::new();
        put_u32(&mut out, MESH_MAGIC);
        put_u16(&mut out, 1);
        put_u16(&mut out, 0);
        assert(out@ =~= blob_header(MESH_MAGIC));
        let pos = if self.basis_positions.len() == 0 {
            &self.positions
        } else {
            &self.basis_positions
        };
        let nrm = if self.basis_normals.len() == 0 {
            &self.normals
        } else {
            &self.basis_normals
        };
        let write_tan = self.basis_positions.len() == 0 && self.tangents.len() != 0;
        put_unslotted_exec(&mut out, TAG_POS, pos.len() / 3, pos.as_slice());
        put_unslotted_exec(&mut out, TAG_NRM, nrm.len() / 3, nrm.as_slice());
        proof {
            assert forall|i: int| 0 <= i < self.uvs@.len() implies fits_slotted(
                (#[trigger] self.uvs@[i])@.len() as int,
                4,
            ) by {
                assert(v.uvs[i] == self.uvs@[i]@);
            }
        }
        put_columns32_exec(&mut out, TAG_UV, &self.uvs, 2);
        if write_tan {
            put_unslotted_exec(&mut out, TAG_TAN, self.tangents.len() / 4, self.tangents.as_slice());
        }
        proof {
            assert forall|i: int| 0 <= i < self.colors@.len() implies fits_slotted(
                (#[trigger] self.colors@[i])@.len() as int,
                4,
            ) by {
                assert(v.colors[i] == self.colors@[i]@);
            }
            assert forall|i: int| 0 <= i < self.joints@.len() implies fits_slotted(
                (#[trigger] self.joints@[i])@.len() as int,
                2,
            ) by {
                assert(v.joints[i] == self.joints@[i]@);
            }
            assert forall|i: int| 0 <= i < self.weights@.len() implies fits_slotted(
                (#[trigger] self.weights@[i])@.len() as int,
                4,
            ) by {
                assert(v.weights[i] == self.weights@[i]@);
            }
            assert forall|i: int| 0 <= i < self.morph_targets@.len() implies morph_payload(
                (#[trigger] self.morph_targets@[i]).view(),
            ).len() <= u32::MAX by {
                assert(v.morph_targets[i] == self.morph_targets@[i].view());
            }
        }
        put_columns32_exec(&mut out, TAG_COL, &self.colors, 4);
        put_columns16_exec(&mut out, TAG_JNT, &self.joints);
        put_columns32_exec(&mut out, TAG_WGT, &self.weights, 4);
        put_unslotted_exec(&mut out, TAG_IDX, self.indices.len(), self.indices.as_slice());
        put_morphs_exec(&mut out, &self.morph_targets);
        out
    }
}

/// Unknown chunks are skipped: appending a chunk with any other tag to a well-framed
/// blob does not change what it decodes to.
pub proof fn law_mesh_unknown_chunk_skipped(bytes: Seq<u8>, tag: u32, payload: Seq<u8>)
    requires
        bytes.len() >= 8,
        bytes.len() % 4 == 0,
        well_framed(bytes, 8),
        payload.len() <= u32::MAX,
        tag != TAG_POS && tag != TAG_NRM && tag != TAG_UV && tag != TAG_TAN && tag != TAG_COL
            && tag != TAG_JNT && tag != TAG_WGT && tag != TAG_IDX && tag != TAG_MRPH,
    ensures
        mesh_decode(put_chunk(bytes, tag, payload)) == mesh_decode(bytes),
{
    reveal(mesh_decode);
    reveal(mesh_step);
    let all = put_chunk(bytes, tag, payload);
    assert(all[0] == bytes[0] && all[1] == bytes[1] && all[2] == bytes[2] && all[3] == bytes[3]);
    assert(all[4] == bytes[4] && all[5] == bytes[5] && all[6] == bytes[6] && all[7] == bytes[7]);
    lemma_run_chunks_append(
        mesh_stepper(),
        MeshBytesError::Truncated,
        bytes,
        8,
        mesh_scan_init(),
        tag,
        payload,
    );
}

/// The layout of a `MESH` blob: the header (magic `MESH`, version 1, no flags), then
/// `POS ` and `NRM ` (vertex count, three words per vertex; the rest pose when there is
/// one), one `UV  ` per UV slot, `TAN ` (without a rest pose), one `COL ` per color slot,
/// one `JNT ` per joint slot, one `WGT ` per weight slot, `IDX ` (index count, then the
/// indices) and one `MRPH` per morph target, in that order.
pub proof fn law_mesh_blob_layout(m: MeshView)
    ensures
        ({
            let fc = |a: u8, b: u8, c: u8, d: u8| crate::wire::fourcc(a, b, c, d);
            let pos = if m.basis_positions.len() == 0 {
                m.positions
            } else {
                m.basis_positions
            };
            let nrm = if m.basis_normals.len() == 0 {
                m.normals
            } else {
                m.basis_normals
            };
            let h = bytes32(fc(77, 69, 83, 72) as int) + bytes16(1) + bytes16(0);
            let o1 = put_unslotted(h, fc(80, 79, 83, 32), pos.len() as int / 3, words32_bytes(pos));
            let o2 = put_unslotted(o1, fc(78, 82, 77, 32), nrm.len() as int / 3, words32_bytes(nrm));
            let o3 = put_columns32(o2, fc(85, 86, 32, 32), m.uvs, 2, 0);
            let o4 = if m.basis_positions.len() == 0 && m.tangents.len() != 0 {
                put_unslotted(o3, fc(84, 65, 78, 32), m.tangents.len() as int / 4, words32_bytes(m.tangents))
            } else {
                o3
            };
            let o5 = put_columns32(o4, fc(67, 79, 76, 32), m.colors, 4, 0);
            let o6 = put_columns16(o5, fc(74, 78, 84, 32), m.joints, 0);
            let o7 = put_columns32(o6, fc(87, 71, 84, 32), m.weights, 4, 0);
            let o8 = put_unslotted(o7, fc(73, 68, 88, 32), m.indices.len() as int, words32_bytes(m.indices));
            mesh_encode(m) == put_morphs(o8, m.morph_targets, 0)
        }),
        TAG_MRPH == crate::wire::fourcc(77, 82, 80, 72),
{
    reveal(mesh_encode);
    assert(crate::wire::fourcc(77, 69, 83, 72) == MESH_MAGIC);
    assert(crate::wire::fourcc(80, 79, 83, 32) == TAG_POS);
    assert(crate::wire::fourcc(78, 82, 77, 32) == TAG_NRM);
    assert(crate::wire::fourcc(85, 86, 32, 32) == TAG_UV);
    assert(crate::wire::fourcc(84, 65, 78, 32) == TAG_TAN);
    assert(crate::wire::fourcc(67, 79, 76, 32) == TAG_COL);
    assert(crate::wire::fourcc(74, 78, 84, 32) == TAG_JNT);
    assert(crate::wire::fourcc(87, 71, 84, 32) == TAG_WGT);
    assert(crate::wire::fourcc(73, 68, 88, 32) == TAG_IDX);
}

} // verus!
