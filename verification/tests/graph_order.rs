use scenery::fingerprint::{compute_out_fingerprints, node_param_hash};
use scenery::graph::{find_node, topo_order, TexGraph};
use scenery::gltf_load::{absorb_node_refs, linear_images, starting_clip, take_textures, NodeRefs};
use scenery::gpu_params::gpu_codes;
use scenery::eval_plan::{eval_plan, EvalStep};
use scenery::bind_plan::bind_plan;
use scenery::store::{absorb_store, move_all, remap_handle, remap_parent, take_all, Handle, Store};
use scenery::material::MaterialMaps;
use scenery::texgen::NodeKind;
use scenery::texture::Texture;

fn pos(order: &[String], id: &str) -> usize {
    order.iter().position(|x| x == id).unwrap()
}

#[test]
fn topo_order_puts_inputs_first() {
    let mut g = TexGraph::new();
    let out = g.output_id.clone();
    let noise = g.add(NodeKind::Noise);
    let lv = g.add(NodeKind::Levels);
    let blend = g.add(NodeKind::Blend);
    g.connect(&lv, "out", &blend, "a");
    g.connect(&noise, "out", &lv, "in");
    g.connect(&noise, "out", &blend, "b");
    g.connect(&blend, "out", &out, "albedo");
    let needed: Vec<String> = vec![out.clone(), noise.clone(), lv.clone(), blend.clone()];
    let order = topo_order(&g.nodes, &g.links, &needed);
    assert_eq!(order.len(), 4);
    assert!(pos(&order, &noise) < pos(&order, &lv));
    assert!(pos(&order, &lv) < pos(&order, &blend));
    assert!(pos(&order, &blend) < pos(&order, &out));
}

#[test]
fn topo_order_leaves_cycles_for_last() {
    let mut g = TexGraph::new();
    let a = g.add(NodeKind::Invert);
    let b = g.add(NodeKind::Invert);
    let c = g.add(NodeKind::Color);
    g.connect(&a, "out", &b, "in");
    g.connect(&b, "out", &a, "in");
    let needed: Vec<String> = vec![a.clone(), b.clone(), c.clone()];
    let order = topo_order(&g.nodes, &g.links, &needed);
    assert_eq!(order, vec![c.clone(), a.clone(), b.clone()]);
}

#[test]
fn fingerprints_follow_upstream_changes() {
    let mut g = TexGraph::new();
    let out = g.output_id.clone();
    let noise = g.add(NodeKind::Noise);
    let inv = g.add(NodeKind::Invert);
    g.connect(&noise, "out", &inv, "in");
    g.connect(&inv, "out", &out, "albedo");
    let needed: Vec<String> = vec![out.clone(), noise.clone(), inv.clone()];
    let fps = compute_out_fingerprints(&g.nodes, &g.links, &needed, 256);
    assert_eq!(fps.len(), 2);
    assert!(fps.iter().all(|(id, _)| *id != out));
    let again = compute_out_fingerprints(&g.nodes, &g.links, &needed, 256);
    assert_eq!(fps, again);
    let other_res = compute_out_fingerprints(&g.nodes, &g.links, &needed, 512);
    assert_ne!(fps, other_res);
    let i = find_node(&g.nodes, &noise).unwrap();
    let before = node_param_hash(&g.nodes[i]);
    g.nodes[i].head[0] = 99.0f32.to_bits();
    assert_eq!(node_param_hash(&g.nodes[i]), before);
    g.nodes[i].head[7] = 9.0f32.to_bits();
    assert_ne!(node_param_hash(&g.nodes[i]), before);
    let changed = compute_out_fingerprints(&g.nodes, &g.links, &needed, 256);
    let inv_fp = |v: &Vec<(String, u64)>| v.iter().find(|(id, _)| *id == inv).unwrap().1;
    assert_ne!(inv_fp(&fps), inv_fp(&changed));
}

#[test]
fn take_all_empties_the_store() {
    let mut s: Store<u32> = Store::new();
    let a = s.insert(1);
    let b = s.insert(2);
    let c = s.insert(3);
    s.remove(b);
    let taken = take_all(&mut s);
    assert_eq!(taken.iter().map(|(h, v)| (h.key(), *v)).collect::<Vec<_>>(), vec![(a.key(), 1), (c.key(), 3)]);
    assert!(s.get(a).is_none());
    assert!(s.get(c).is_none());
    assert!(s.iter().is_empty());
    let mut t: Store<Texture> = Store::new();
    let h = t.insert(Texture::solid(1, 2, 3, 4));
    let moved = take_textures(&mut t);
    assert_eq!(moved.len(), 1);
    assert_eq!(moved[0].0.key(), h.key());
    assert_eq!(moved[0].1.rgba, vec![1, 2, 3, 4]);
    assert!(t.get(h).is_none());
}

#[test]
fn gpu_codes_clamp_counts_and_pick_variants() {
    let mut g = TexGraph::new();
    let noise = g.add(NodeKind::Noise);
    let shape = g.add(NodeKind::Shape);
    let bricks = g.add(NodeKind::Bricks);
    let out = g.output_id.clone();
    let ni = find_node(&g.nodes, &noise).unwrap();
    g.nodes[ni].head[6] = 2; // voronoi
    g.nodes[ni].head[8] = 12i32 as u32; // octaves above the limit
    g.nodes[ni].head[10] = 1; // tileable
    let c = gpu_codes(&g.nodes[ni]);
    assert_eq!((c.op, c.kind, c.octaves, c.flags), (0, 2, 8, 1));
    let si = find_node(&g.nodes, &shape).unwrap();
    g.nodes[si].tail[36] = 3; // n-gon
    g.nodes[si].tail[39] = (-4i32) as u32;
    let c = gpu_codes(&g.nodes[si]);
    assert_eq!((c.op, c.kind, c.octaves), (23, 3, 3));
    let bi = find_node(&g.nodes, &bricks).unwrap();
    g.nodes[bi].tail[26] = 100;
    g.nodes[bi].tail[27] = 0;
    let c = gpu_codes(&g.nodes[bi]);
    assert_eq!((c.op, c.scale_count, c.f5_count), (6, Some(64), Some(1)));
    let oi = find_node(&g.nodes, &out).unwrap();
    let c = gpu_codes(&g.nodes[oi]);
    assert_eq!((c.op, c.kind, c.octaves, c.flags, c.scale_count), (0, 0, 1, 0, None));
}

#[test]
fn moving_a_store_remaps_handles() {
    let mut src: Store<Texture> = Store::new();
    let mut dst: Store<Texture> = Store::new();
    let kept = dst.insert(Texture::solid(1, 1, 1, 255));
    let gone = dst.insert(Texture::solid(2, 2, 2, 255));
    dst.remove(gone);
    let a = src.insert(Texture::solid(10, 0, 0, 255));
    let b = src.insert(Texture::solid(0, 20, 0, 255));
    let map = move_all(&mut src, &mut dst);
    assert_eq!(map.len(), 2);
    assert!(src.get(a).is_none() && src.get(b).is_none());
    // The first moved value takes the freed slot, the second a new one.
    let na = remap_handle(&map, a).unwrap();
    let nb = remap_handle(&map, b).unwrap();
    assert_eq!((na.index, nb.index), (1, 2));
    assert_eq!(dst.get(na).unwrap().rgba, vec![10, 0, 0, 255]);
    assert_eq!(dst.get(nb).unwrap().rgba, vec![0, 20, 0, 255]);
    assert_eq!(dst.get(kept).unwrap().rgba, vec![1, 1, 1, 255]);
    let stray: Handle<Texture> = Handle::from_parts(9, 0);
    assert!(remap_handle(&map, stray).is_none());
    let mut maps = MaterialMaps::Single { albedo: Some(a), normal: Some(stray), metallic_roughness: None };
    maps.remap_textures(|t| remap_handle(&map, t));
    match maps {
        MaterialMaps::Single { albedo, normal, metallic_roughness } => {
            assert_eq!(albedo.map(|h| h.key()), Some(na.key()));
            assert!(normal.is_none() && metallic_roughness.is_none());
        }
        _ => panic!("expected single maps"),
    }
}

#[test]
fn eval_plan_skips_pooled_and_output_nodes() {
    let mut g = TexGraph::new();
    let out = g.output_id.clone();
    let noise = g.add(NodeKind::Noise);
    let blur = g.add(NodeKind::Blur);
    let fill = g.add(NodeKind::FloodFill);
    let ramp = g.add(NodeKind::ColorRamp);
    g.connect(&noise, "out", &blur, "in");
    g.connect(&blur, "out", &fill, "in");
    g.connect(&fill, "out", &ramp, "in");
    g.connect(&ramp, "out", &out, "albedo");
    let needed: Vec<String> = vec![out.clone(), noise.clone(), blur.clone(), fill.clone(), ramp.clone()];
    let fps = compute_out_fingerprints(&g.nodes, &g.links, &needed, 256);
    let order = topo_order(&g.nodes, &g.links, &needed);
    let noise_fp = fps.iter().rev().find(|e| e.0 == noise).unwrap().1;
    let pool = vec![(noise.clone(), noise_fp), (blur.clone(), noise_fp ^ 1)];
    let plan = eval_plan(&g.nodes, &fps, &pool, &order);
    assert_eq!(
        plan,
        vec![(blur.clone(), EvalStep::Blur), (fill.clone(), EvalStep::FloodFill), (ramp.clone(), EvalStep::Ramp)]
    );
    // After pooling what ran, the same pass runs nothing.
    let mut pool2 = pool.clone();
    for (id, _) in &plan {
        pool2.push((id.clone(), fps.iter().rev().find(|e| &e.0 == id).map(|e| e.1).unwrap_or(0)));
    }
    assert!(eval_plan(&g.nodes, &fps, &pool2, &order).is_empty());
    let fresh = eval_plan(&g.nodes, &fps, &vec![], &vec![noise.clone(), "missing".to_string(), out.clone()]);
    assert_eq!(fresh, vec![(noise.clone(), EvalStep::Dispatch)]);
}

#[test]
fn bind_plan_binds_linked_ports_to_slots() {
    let mut g = TexGraph::new();
    let noise = g.add(NodeKind::Noise);
    let color = g.add(NodeKind::Color);
    let blend = g.add(NodeKind::Blend);
    let inv = g.add(NodeKind::Invert);
    let inv2 = g.add(NodeKind::Invert);
    g.connect(&noise, "out", &blend, "a");
    g.connect(&color, "out", &blend, "mask");
    g.connect(&color, "out", &inv, "in");
    g.connect(&noise, "out", &inv2, "in");
    let b = bind_plan(&g.nodes, &g.links, &g.nodes[find_node(&g.nodes, &blend).unwrap()]);
    assert_eq!(b.slots, vec![Some(noise.clone()), None, Some(color.clone())]);
    assert_eq!((b.flags, b.invert_color), (2 | 8, false));
    let i = bind_plan(&g.nodes, &g.links, &g.nodes[find_node(&g.nodes, &inv).unwrap()]);
    assert_eq!(i.slots, vec![Some(color.clone()), None, None]);
    assert_eq!((i.flags, i.invert_color), (2, true));
    let j = bind_plan(&g.nodes, &g.links, &g.nodes[find_node(&g.nodes, &inv2).unwrap()]);
    assert!(!j.invert_color);
    let n = bind_plan(&g.nodes, &g.links, &g.nodes[find_node(&g.nodes, &noise).unwrap()]);
    assert_eq!((n.slots, n.flags), (vec![None, None, None], 0));
}

#[test]
fn topo_order_keeps_needed_link_targets_without_nodes() {
    let mut g = TexGraph::new();
    let a = g.add(NodeKind::Noise);
    let x = String::from("x");
    g.connect(&a, "out", &x, "in");
    let mut only_a = std::mem::take(&mut g.nodes);
    only_a.retain(|n| n.id == a);
    assert_eq!(only_a.len(), 1);
    let needed: Vec<String> = vec![a.clone(), x.clone()];
    let order = topo_order(&only_a, &g.links, &needed);
    assert_eq!(order, vec![a.clone(), x.clone()]);
}

#[test]
fn absorb_store_moves_values_and_remaps_parents() {
    let mut dst: Store<u32> = Store::new();
    let kept = dst.insert(7);
    let mut src: Store<u32> = Store::new();
    let root = src.insert(10);
    let child = src.insert(11);
    let dropped = src.insert(12);
    src.remove(dropped);
    let map = absorb_store(&mut dst, src);
    assert_eq!(map.len(), 2);
    let new_root = remap_handle(&map, root).unwrap();
    let new_child = remap_handle(&map, child).unwrap();
    assert_eq!(*dst.get(new_root).unwrap(), 10);
    assert_eq!(*dst.get(new_child).unwrap(), 11);
    assert_eq!(*dst.get(kept).unwrap(), 7);
    assert!(remap_handle(&map, dropped).is_none());
    // The imported root hangs under the given parent; the child under the moved root.
    assert_eq!(remap_parent(&map, root, root, Some(kept), None).map(|h| h.key()), Some(kept.key()));
    assert_eq!(remap_parent(&map, child, root, Some(kept), Some(root)).map(|h| h.key()), Some(new_root.key()));
    assert!(remap_parent(&map, child, root, Some(kept), None).is_none());
    assert!(remap_parent(&map, child, root, Some(kept), Some(dropped)).is_none());
}

#[test]
fn gltf_import_decisions() {
    assert_eq!(linear_images(4, &vec![2, 0, 2]), vec![true, false, true, false]);
    assert_eq!(linear_images(2, &vec![]), vec![false, false]);
    assert_eq!(starting_clip(&vec![false, true, true]), Some(1));
    assert_eq!(starting_clip(&vec![false, false]), Some(0));
    assert_eq!(starting_clip(&vec![]), None);
}

#[test]
fn absorb_node_refs_remaps_parent_mesh_material() {
    let node_map: Vec<(Handle<u8>, Handle<u8>)> = vec![(Handle::from_parts(0, 0), Handle::from_parts(5, 1))];
    let mesh_map: Vec<(Handle<u16>, Handle<u16>)> = vec![(Handle::from_parts(2, 0), Handle::from_parts(7, 0))];
    let mat_map: Vec<(Handle<u32>, Handle<u32>)> = vec![];
    let refs = || NodeRefs::<u8, u16, u32, u64> {
        parent: Some(Handle::from_parts(0, 0)),
        mesh: Some(Handle::from_parts(2, 0)),
        material: Some(Handle::from_parts(1, 0)),
        skin: Some(Handle::from_parts(3, 0)),
    };
    let r = absorb_node_refs(refs(), false, Some(Handle::from_parts(9, 9)), &node_map, &mesh_map, &mat_map);
    assert_eq!(r.parent.map(|h| h.key()), Some((5, 1)));
    assert_eq!(r.mesh.map(|h| h.key()), Some((7, 0)));
    assert!(r.material.is_none());
    assert!(r.skin.is_none());
    let root = absorb_node_refs(refs(), true, Some(Handle::from_parts(9, 9)), &node_map, &mesh_map, &mat_map);
    assert_eq!(root.parent.map(|h| h.key()), Some((9, 9)));
}
