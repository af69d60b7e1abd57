use scenery::graph::TexGraph;
use scenery::material::MaterialMaps;
use scenery::material_file::{file_maps, id_of, udim_ids};
use scenery::store::Store;
use scenery::texture::Texture;
use scenery::material_file::{
    HairShading, MaterialBytesError, MaterialFile, MaterialFileMaps, ShadingModel,
};
use scenery::texg_file::TexGraphFile;
use scenery::texgen::NodeKind;

fn bits(xs: &[f32]) -> Vec<u32> {
    xs.iter().map(|x| x.to_bits()).collect()
}

fn err(r: Result<MaterialFile, MaterialBytesError>) -> MaterialBytesError {
    match r {
        Err(e) => e,
        Ok(_) => panic!("expected MAT decode error"),
    }
}

fn header() -> Vec<u8> {
    let mut b = Vec::new();
    b.extend(b"MAT ");
    b.extend(1u16.to_le_bytes());
    b.extend(0u16.to_le_bytes());
    b
}

fn chunk(out: &mut Vec<u8>, tag: &[u8; 4], payload: &[u8]) {
    out.extend(tag);
    out.extend((payload.len() as u32).to_le_bytes());
    out.extend(payload);
    while out.len() % 4 != 0 {
        out.push(0);
    }
}

#[test]
fn default_roundtrip() {
    let bytes = MaterialFile::default_file().to_bytes();
    let file = MaterialFile::from_bytes(&bytes).unwrap();
    assert_eq!(&bytes[..4], b"MAT ");
    assert_eq!(file.albedo.to_vec(), bits(&[1.0, 1.0, 1.0, 1.0]));
    assert!(file.texture_ids().is_empty());
    match file.maps {
        MaterialFileMaps::Single { albedo: None, normal: None, metallic_roughness: None } => {}
        _ => panic!("expected empty single maps"),
    }
}

#[test]
fn maps_and_hair_roundtrip() {
    let mut mat = MaterialFile::default_file();
    mat.albedo = [0.2f32.to_bits(), 0.3f32.to_bits(), 0.4f32.to_bits(), 1.0f32.to_bits()];
    mat.metallic = 0.1f32.to_bits();
    mat.roughness = 0.6f32.to_bits();
    mat.maps = MaterialFileMaps::Single {
        albedo: Some("char/albedo".to_string()),
        normal: Some("char/nrm".to_string()),
        metallic_roughness: None,
    };
    mat.alpha_cutoff = 0.4f32.to_bits();
    let mut hair = HairShading::default_shading();
    hair.soft_blend = true;
    mat.shading_model = ShadingModel::Hair(hair);

    let file = MaterialFile::from_bytes(&mat.to_bytes()).unwrap();
    assert_eq!(file.albedo.to_vec(), bits(&[0.2, 0.3, 0.4, 1.0]));
    assert_eq!(file.alpha_cutoff, 0.4f32.to_bits());
    assert_eq!(file.texture_ids(), vec!["char/albedo", "char/nrm"]);
    match &file.maps {
        MaterialFileMaps::Single { albedo, normal, metallic_roughness } => {
            assert_eq!(albedo.as_deref(), Some("char/albedo"));
            assert_eq!(normal.as_deref(), Some("char/nrm"));
            assert!(metallic_roughness.is_none());
        }
        _ => panic!("expected single maps"),
    }
    match file.shading_model {
        ShadingModel::Hair(h) => assert!(h.soft_blend),
        _ => panic!("expected hair"),
    }
}

#[test]
fn material_unknown_chunk_skipped() {
    let mut bytes = MaterialFile::default_file().to_bytes();
    bytes.extend(b"ZZZZ");
    bytes.extend(4u32.to_le_bytes());
    bytes.extend(0u32.to_le_bytes());
    MaterialFile::from_bytes(&bytes).unwrap();
}

#[test]
fn material_quantized_rejected() {
    let mut bytes = Vec::new();
    bytes.extend(b"MAT ");
    bytes.extend(1u16.to_le_bytes());
    bytes.extend(1u16.to_le_bytes());
    assert_eq!(err(MaterialFile::from_bytes(&bytes)), MaterialBytesError::Quantized);
}

#[test]
fn texg_roundtrip() {
    let mut g = TexGraph::new();
    let out = g.output_id.clone();
    let n = g.add(NodeKind::Noise);
    g.connect(&n, "out", &out, "roughness");
    let mut file = MaterialFile::default_file();
    file.albedo = [0.2f32.to_bits(), 0.3f32.to_bits(), 0.4f32.to_bits(), 1.0f32.to_bits()];
    file.graph = Some(TexGraphFile { resolution: 256, graph: g });
    let back = MaterialFile::from_bytes(&file.to_bytes()).unwrap();
    assert!(back.is_procedural());
    assert_eq!(back.albedo.to_vec(), bits(&[0.2, 0.3, 0.4, 1.0]));
    let g = back.graph.unwrap();
    assert_eq!(g.resolution, 256);
    assert_eq!(g.graph.links.len(), 1);
}

#[test]
fn material_udim_roundtrip_and_ids() {
    let mut mat = MaterialFile::default_file();
    mat.maps = MaterialFileMaps::Udim {
        albedo: vec![(1001, "a".to_string()), (1002, "bb".to_string())],
        normal: vec![(1001, "a".to_string()), (1001, String::new())],
        metallic_roughness: vec![],
    };
    let back = MaterialFile::from_bytes(&mat.to_bytes()).unwrap();
    match &back.maps {
        MaterialFileMaps::Udim { albedo, normal, metallic_roughness } => {
            assert_eq!(albedo, &vec![(1001, "a".to_string()), (1002, "bb".to_string())]);
            assert_eq!(normal, &vec![(1001, "a".to_string()), (1001, String::new())]);
            assert!(metallic_roughness.is_empty());
        }
        _ => panic!("expected udim maps"),
    }
    assert_eq!(back.texture_ids(), vec!["a", "bb"]);
}

#[test]
fn material_sss_written_only_when_positive() {
    let mut mat = MaterialFile::default_file();
    mat.sss_strength = 0.5f32.to_bits();
    mat.sss_curvature = 0.7f32.to_bits();
    let back = MaterialFile::from_bytes(&mat.to_bytes()).unwrap();
    assert_eq!(back.sss_strength, 0.5f32.to_bits());
    assert_eq!(back.sss_curvature, 0.7f32.to_bits());
    let mut neg = MaterialFile::default_file();
    neg.sss_strength = (-0.5f32).to_bits();
    neg.sss_curvature = 0.7f32.to_bits();
    let back = MaterialFile::from_bytes(&neg.to_bytes()).unwrap();
    assert_eq!(back.sss_strength, 0);
    assert_eq!(back.sss_curvature, 0.3f32.to_bits());
}

#[test]
fn material_errors() {
    assert_eq!(err(MaterialFile::from_bytes(b"MAT ")), MaterialBytesError::Truncated);
    assert_eq!(err(MaterialFile::from_bytes(b"MESH\x01\x00\x00\x00")), MaterialBytesError::BadMagic);
    assert_eq!(
        err(MaterialFile::from_bytes(b"MAT \x02\x00\x00\x00")),
        MaterialBytesError::UnsupportedVersion(2)
    );
    let pbr: Vec<u8> = [0u8; 24].to_vec();
    let mut dup = header();
    chunk(&mut dup, b"PBR ", &pbr);
    chunk(&mut dup, b"PBR ", &pbr);
    assert_eq!(err(MaterialFile::from_bytes(&dup)), MaterialBytesError::Duplicate("PBR"));
    let mut short = header();
    chunk(&mut short, b"PBR ", &[0u8; 20]);
    assert_eq!(err(MaterialFile::from_bytes(&short)), MaterialBytesError::SizeMismatch);
    let mut mixed = header();
    chunk(&mut mixed, b"ALB ", &[1, 0, b'x']);
    let mut udim = Vec::new();
    udim.extend(1u32.to_le_bytes());
    udim.extend(1001u32.to_le_bytes());
    udim.extend(1u16.to_le_bytes());
    udim.push(b'y');
    udim.push(0);
    chunk(&mut mixed, b"UALB", &udim);
    assert_eq!(err(MaterialFile::from_bytes(&mixed)), MaterialBytesError::MixedMaps);
    let mut bad = header();
    chunk(&mut bad, b"NRM ", &[1, 0, 0xff]);
    assert_eq!(err(MaterialFile::from_bytes(&bad)), MaterialBytesError::BadUtf8);
    let mut cut = header();
    cut.extend(b"CUT ");
    cut.extend(8u32.to_le_bytes());
    assert_eq!(err(MaterialFile::from_bytes(&cut)), MaterialBytesError::Truncated);
    let mut graph = header();
    chunk(&mut graph, b"TEXG", &2u32.to_le_bytes());
    assert!(matches!(err(MaterialFile::from_bytes(&graph)), MaterialBytesError::Graph(_)));
    let mut hair = header();
    chunk(&mut hair, b"HAIR", &[0u8; 40]);
    assert_eq!(err(MaterialFile::from_bytes(&hair)), MaterialBytesError::SizeMismatch);
}

#[test]
fn file_maps_use_texture_ids() {
    let mut store: Store<Texture> = Store::new();
    let mut alb = Texture::solid(255, 0, 0, 255);
    alb.id = "char/albedo".to_string();
    let unnamed = Texture::solid(0, 0, 0, 255);
    let ha = store.insert(alb);
    let hu = store.insert(unnamed);
    assert_eq!(id_of(&store, Some(ha)), Some("char/albedo".to_string()));
    assert_eq!(id_of(&store, Some(hu)), None);
    assert_eq!(id_of(&store, None), None);
    assert_eq!(udim_ids(&store, &[(1001, ha), (1002, hu)]), vec![(1001, "char/albedo".to_string())]);
    let maps = MaterialMaps::Single { albedo: Some(ha), normal: Some(hu), metallic_roughness: None };
    match file_maps(&maps, &store) {
        MaterialFileMaps::Single { albedo, normal, metallic_roughness } => {
            assert_eq!(albedo.as_deref(), Some("char/albedo"));
            assert!(normal.is_none() && metallic_roughness.is_none());
        }
        _ => panic!("expected single maps"),
    }
}

#[test]
fn material_sizes_ok_checks_graph_nodes() {
    let mut file = MaterialFile::default_file();
    assert!(file.sizes_ok());
    let mut g = TexGraph::new();
    g.add(NodeKind::Noise);
    file.graph = Some(TexGraphFile { resolution: 256, graph: g });
    assert!(file.sizes_ok());
    let mut bad = TexGraph::new();
    let n = bad.add(NodeKind::Noise);
    let i = bad.nodes.iter().position(|x| x.id == n).unwrap();
    bad.nodes[i].head.pop();
    let bad_file = TexGraphFile { resolution: 256, graph: bad };
    assert!(!bad_file.sizes_ok());
    file.graph = Some(bad_file);
    assert!(!file.sizes_ok());
}
