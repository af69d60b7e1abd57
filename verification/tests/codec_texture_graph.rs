use scenery::graph::{find_node, TexGraph};
use scenery::texg_file::{TexGraphBytesError, TexGraphFile};
use scenery::texgen::NodeKind;

#[test]
fn graph_roundtrip() {
    let mut g = TexGraph::new();
    let out = g.output_id.clone();
    let noise = g.add(NodeKind::Noise);
    let bricks = g.add(NodeKind::Bricks);
    if let Some(i) = find_node(&g.nodes, &noise) {
        let n = &mut g.nodes[i];
        n.head[7] = 7.5f32.to_bits();
        n.head[0] = 12.0f32.to_bits();
        n.head[1] = 34.0f32.to_bits();
    }
    if let Some(i) = find_node(&g.nodes, &bricks) {
        g.nodes[i].tail[26] = 6;
    }
    g.connect(&bricks, "out", &out, "height");
    g.connect(&noise, "out", &out, "roughness");
    let file = TexGraphFile { resolution: 512, graph: g };
    let back = TexGraphFile::from_bytes(&file.to_bytes()).unwrap();
    assert_eq!(back.resolution, 512);
    assert_eq!(back.graph.nodes.len(), 3);
    assert_eq!(back.graph.links.len(), 2);
    let n = back.graph.nodes.iter().find(|n| n.kind == NodeKind::Noise).unwrap();
    assert_eq!(n.head[7], 7.5f32.to_bits());
    assert_eq!((n.head[0], n.head[1]), (12.0f32.to_bits(), 34.0f32.to_bits()));
    let b = back.graph.nodes.iter().find(|n| n.kind == NodeKind::Bricks).unwrap();
    assert_eq!(b.tail[26], 6);
}

#[test]
fn texg_resolution_clamped_and_tags_normalized() {
    let mut g = TexGraph::new();
    let noise = g.add(NodeKind::Noise);
    let i = find_node(&g.nodes, &noise).unwrap();
    g.nodes[i].head[6] = 9;
    g.nodes[i].head[10] = 7;
    let back = TexGraphFile::from_bytes(&TexGraphFile { resolution: 5000, graph: g }.to_bytes()).unwrap();
    assert_eq!(back.resolution, 2048);
    let n = &back.graph.nodes[1];
    assert_eq!(n.head[6], 0);
    assert_eq!(n.head[10], 1);
    let small = TexGraphFile::from_bytes(&TexGraphFile { resolution: 0, graph: TexGraph::new() }.to_bytes()).unwrap();
    assert_eq!(small.resolution, 64);
}

#[test]
fn texg_errors() {
    let e = |b: &[u8]| match TexGraphFile::from_bytes(b) {
        Err(e) => e,
        Ok(_) => panic!("expected TEXG decode error"),
    };
    assert_eq!(e(&[1, 0]), TexGraphBytesError::Truncated);
    assert_eq!(e(&2u32.to_le_bytes()), TexGraphBytesError::UnsupportedVersion(2));
    let good = TexGraphFile { resolution: 256, graph: TexGraph::new() }.to_bytes();
    let mut longer = good.clone();
    longer.push(0);
    assert_eq!(e(&longer), TexGraphBytesError::Truncated);
    let mut kind = good.clone();
    let at = 16 + 2 + 2 + 4;
    kind[at] = 99;
    assert_eq!(e(&kind), TexGraphBytesError::UnknownNodeKind(99));
    let mut utf = good.clone();
    utf[18] = 0xff;
    assert_eq!(e(&utf), TexGraphBytesError::BadUtf8);
    let mut other = good.clone();
    other[19] = b'9';
    assert_eq!(e(&other), TexGraphBytesError::NoOutput);
}
