use scenery::mesh_file::{MeshBytesError, MeshData, MorphData};
use scenery::skin_file::{put_name_entry, SkinBytesError, SkinFile};

fn bits(xs: &[f32]) -> Vec<u32> {
    xs.iter().map(|x| x.to_bits()).collect()
}

fn empty_mesh() -> MeshData {
    MeshData {
        positions: vec![],
        normals: vec![],
        uvs: vec![],
        tangents: vec![],
        colors: vec![],
        joints: vec![],
        weights: vec![],
        indices: vec![],
        basis_positions: vec![],
        basis_normals: vec![],
        morph_targets: vec![],
        morph_weights: vec![],
    }
}

fn tri() -> MeshData {
    let mut m = empty_mesh();
    m.positions = bits(&[0.0, 0.0, 0.0, 1.0, 0.0, 0.0, 0.0, 1.0, 0.0]);
    m.normals = bits(&[0.0, 0.0, 1.0, 0.0, 0.0, 1.0, 0.0, 0.0, 1.0]);
    m.uvs = vec![bits(&[0.0, 0.0, 1.0, 0.0, 0.0, 1.0])];
    m.indices = vec![0, 1, 2];
    m
}

fn mesh_err(r: Result<MeshData, MeshBytesError>) -> MeshBytesError {
    match r {
        Err(e) => e,
        Ok(_) => panic!("expected MESH decode error"),
    }
}

fn skin_err(r: Result<SkinFile, SkinBytesError>) -> SkinBytesError {
    match r {
        Err(e) => e,
        Ok(_) => panic!("expected SKIN decode error"),
    }
}

fn identity() -> [u32; 16] {
    let mut m = [0u32; 16];
    for i in 0..4 {
        m[i * 5] = 1.0f32.to_bits();
    }
    m
}

#[test]
fn mesh_empty_roundtrip() {
    let back = MeshData::from_bytes(&empty_mesh().to_bytes()).unwrap();
    assert!(back.positions.is_empty());
    assert!(back.indices.is_empty());
}

#[test]
fn roundtrip_attrs_and_sparse_uv() {
    let mut m = tri();
    m.uvs = vec![vec![], bits(&[0.0, 0.0, 1.0, 0.0, 0.5, 1.0])];
    m.colors = vec![bits(&[1.0, 0.0, 0.0, 1.0, 1.0, 0.0, 0.0, 1.0, 1.0, 0.0, 0.0, 1.0])];
    m.joints = vec![vec![1, 0, 0, 0, 2, 0, 0, 0, 3, 0, 0, 0]];
    m.weights = vec![bits(&[1.0, 0.0, 0.0, 0.0, 1.0, 0.0, 0.0, 0.0, 1.0, 0.0, 0.0, 0.0])];
    let back = MeshData::from_bytes(&m.to_bytes()).unwrap();
    assert_eq!(back.positions, m.positions);
    assert_eq!(back.uvs[1], m.uvs[1]);
    assert!(back.uvs[0].is_empty());
    assert_eq!(back.colors[0], m.colors[0]);
    assert_eq!(back.joints[0], m.joints[0]);
    assert_eq!(back.weights[0], m.weights[0]);
    assert_eq!(back.indices, m.indices);
}

#[test]
fn morph_uses_basis_and_skips_weights() {
    let mut m = tri();
    m.basis_positions = m.positions.clone();
    m.basis_normals = m.normals.clone();
    let mut deltas = bits(&[0.0; 9]);
    deltas[0] = 0.1f32.to_bits();
    m.morph_targets = vec![MorphData { name: "smile".to_string(), position_deltas: deltas, normal_deltas: vec![] }];
    m.morph_weights = vec![1.0f32.to_bits()];
    m.positions[0] = (0.0f32 + 1.0 * 0.1).to_bits();
    assert_ne!(m.positions[0], m.basis_positions[0]);
    let back = MeshData::from_bytes(&m.to_bytes()).unwrap();
    assert_eq!(back.positions, m.basis_positions);
    assert_eq!(back.basis_positions, m.basis_positions);
    assert_eq!(back.morph_targets[0].name, "smile");
    assert_eq!(back.morph_targets[0].position_deltas[0..3].to_vec(), bits(&[0.1, 0.0, 0.0]));
    assert_eq!(back.morph_weights, vec![0.0f32.to_bits()]);
}

#[test]
fn mesh_unknown_chunk_skipped() {
    let mut bytes = tri().to_bytes();
    bytes.extend(b"ZZZZ");
    bytes.extend(4u32.to_le_bytes());
    bytes.extend(0u32.to_le_bytes());
    MeshData::from_bytes(&bytes).unwrap();
}

#[test]
fn duplicate_pos_fails() {
    let mut bytes = tri().to_bytes();
    bytes.extend(b"POS ");
    bytes.extend(40u32.to_le_bytes());
    bytes.extend(3u32.to_le_bytes());
    bytes.extend([0u8; 36]);
    assert_eq!(mesh_err(MeshData::from_bytes(&bytes)), MeshBytesError::Duplicate("POS"));
}

#[test]
fn mesh_quantized_rejected() {
    let mut bytes = empty_mesh().to_bytes();
    bytes[6] = 1;
    assert_eq!(mesh_err(MeshData::from_bytes(&bytes)), MeshBytesError::Quantized);
}

fn empty_skin() -> SkinFile {
    SkinFile { inverse_bind: vec![], names: vec![], parents: vec![], locals: vec![] }
}

#[test]
fn skin_empty_roundtrip() {
    let bytes = empty_skin().to_bytes();
    let back = SkinFile::from_bytes(&bytes).unwrap();
    assert!(back.inverse_bind.is_empty());
    assert!(back.names.is_empty());
    assert_eq!(&bytes[..4], b"SKIN");
}

#[test]
fn spec_identity_ibm() {
    let mut bytes = Vec::new();
    bytes.extend(b"SKIN");
    bytes.extend(1u16.to_le_bytes());
    bytes.extend(0u16.to_le_bytes());
    bytes.extend(b"IBM ");
    bytes.extend(68u32.to_le_bytes());
    bytes.extend(1u32.to_le_bytes());
    for w in identity() {
        bytes.extend(w.to_le_bytes());
    }
    let file = SkinFile::from_bytes(&bytes).unwrap();
    assert_eq!(file.inverse_bind.len(), 1);
    assert_eq!(file.inverse_bind[0], identity());
}

#[test]
fn hierarchy_roundtrip() {
    let mut up = identity();
    up[13] = 1.0f32.to_bits();
    let rest = [0, 0, 0, 0, 0, 0, 1.0f32.to_bits(), 1.0f32.to_bits(), 1.0f32.to_bits(), 1.0f32.to_bits()];
    let mut raised = rest;
    raised[1] = 1.0f32.to_bits();
    let file = SkinFile {
        inverse_bind: vec![identity(), up],
        names: vec!["root".into(), "hip".into()],
        parents: vec![-1, 0],
        locals: vec![rest, raised],
    };
    let back = SkinFile::from_bytes(&file.to_bytes()).unwrap();
    assert_eq!(back.names, file.names);
    assert_eq!(back.parents, file.parents);
    assert_eq!(back.locals[1][0..3].to_vec(), bits(&[0.0, 1.0, 0.0]));
    assert_eq!(back.inverse_bind.len(), 2);
}

#[test]
fn name_without_ibm_fails() {
    let mut bytes = Vec::new();
    bytes.extend(b"SKIN");
    bytes.extend(1u16.to_le_bytes());
    bytes.extend(0u16.to_le_bytes());
    let mut names = Vec::new();
    names.extend(1u32.to_le_bytes());
    put_name_entry(&mut names, &"a".to_string());
    bytes.extend(b"NAME");
    bytes.extend((names.len() as u32).to_le_bytes());
    bytes.extend(names);
    while bytes.len() % 4 != 0 {
        bytes.push(0);
    }
    assert_eq!(skin_err(SkinFile::from_bytes(&bytes)), SkinBytesError::HierarchyWithoutBind);
}

#[test]
fn parent_cycle_fails() {
    let file = SkinFile {
        inverse_bind: vec![identity(), identity()],
        names: Vec::new(),
        parents: vec![1, 0],
        locals: Vec::new(),
    };
    assert_eq!(skin_err(SkinFile::from_bytes(&file.to_bytes())), SkinBytesError::BadParent);
}

#[test]
fn skin_quantized_rejected() {
    let mut bytes = empty_skin().to_bytes();
    bytes[6] = 1;
    assert_eq!(skin_err(SkinFile::from_bytes(&bytes)), SkinBytesError::Quantized);
}

#[test]
fn skin_unknown_chunk_skipped() {
    let mut one = empty_skin();
    one.inverse_bind = vec![identity()];
    let mut bytes = one.to_bytes();
    bytes.extend(b"ZZZZ");
    bytes.extend(4u32.to_le_bytes());
    bytes.extend(0u32.to_le_bytes());
    SkinFile::from_bytes(&bytes).unwrap();
}

#[test]
fn trailing_empty_slots_and_tangents_read_back() {
    let mut m = tri();
    m.uvs = vec![bits(&[0.0, 0.0, 1.0, 0.0, 0.0, 1.0]), vec![], vec![]];
    m.tangents = bits(&[1.0, 0.0, 0.0, 1.0, 1.0, 0.0, 0.0, 1.0, 1.0, 0.0, 0.0, 1.0]);
    let back = MeshData::from_bytes(&m.to_bytes()).unwrap();
    assert_eq!(back.uvs.len(), 1);
    assert_eq!(back.uvs[0], m.uvs[0]);
    assert_eq!(back.tangents, m.tangents);
    assert!(back.basis_positions.is_empty());
    // With a rest pose, tangents are not written.
    let mut r = tri();
    r.tangents = m.tangents.clone();
    r.basis_positions = r.positions.clone();
    let back = MeshData::from_bytes(&r.to_bytes()).unwrap();
    assert!(back.tangents.is_empty());
}

#[test]
fn mismatched_vertex_counts_fail() {
    let mut m = tri();
    m.normals = bits(&[0.0, 0.0, 1.0]);
    assert_eq!(mesh_err(MeshData::from_bytes(&m.to_bytes())), MeshBytesError::VertexCountMismatch);
    let mut i = tri();
    i.indices = vec![0, 1, 3];
    assert_eq!(mesh_err(MeshData::from_bytes(&i.to_bytes())), MeshBytesError::BadIndices);
}

#[test]
fn spec_example_triangle() {
    let mut bytes = Vec::new();
    bytes.extend(b"MESH");
    bytes.extend(1u16.to_le_bytes());
    bytes.extend(0u16.to_le_bytes());
    bytes.extend(b"POS ");
    bytes.extend(40u32.to_le_bytes());
    bytes.extend(3u32.to_le_bytes());
    for p in [[0.0f32, 0.0, 0.0], [1.0, 0.0, 0.0], [0.0, 1.0, 0.0]] {
        for c in p {
            bytes.extend(c.to_le_bytes());
        }
    }
    bytes.extend(b"IDX ");
    bytes.extend(16u32.to_le_bytes());
    bytes.extend(3u32.to_le_bytes());
    for i in [0u32, 1, 2] {
        bytes.extend(i.to_le_bytes());
    }
    let m = MeshData::from_bytes(&bytes).unwrap();
    assert_eq!(m.positions, bits(&[0.0, 0.0, 0.0, 1.0, 0.0, 0.0, 0.0, 1.0, 0.0]));
    assert_eq!(m.indices, vec![0, 1, 2]);
}

#[test]
fn mesh_and_skin_sizes_ok() {
    assert!(empty_mesh().sizes_ok());
    let mut m = tri();
    m.morph_targets = vec![MorphData { name: "smile".into(), position_deltas: vec![0; 9], normal_deltas: vec![] }];
    assert!(m.sizes_ok());
    assert!(empty_skin().sizes_ok());
    let two = SkinFile {
        inverse_bind: vec![identity(), identity()],
        names: vec!["a".into(), "b".into()],
        parents: vec![-1, 0],
        locals: vec![],
    };
    assert!(two.sizes_ok());
}
