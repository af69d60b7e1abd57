use scenery::weld::weld_representatives;
use scenery::hair_layout::{auto_stack_count, skin_layout, tex_size};
use scenery::hair_layout::{expand_order, fill_pairs, fill_pairs_of};
use scenery::regions::component_labels;
use scenery::regions::island_hash;
use scenery::debug_view::DebugView;
use scenery::gltf_load::{cubic_values, image_to_texture, pixels_to_rgba, ImageFormat};
use scenery::graph::{ancestors_of, find_link, hash_combine, src_id, src_is_color, TexGraph, TexLink};
use scenery::hair_rng::{strand_key, Rng};
use scenery::hierarchy::{check_parents, joint_parent_links, parent_indices};
use scenery::hud::{HudFocus, HudId};
use scenery::hud_font::{bake_atlas, char_index, glyph_rows};
use scenery::material::{first_udim_tile, udim_lut_index, HeightMode, MaterialMaps};
use scenery::skinning::SkinningMode;
use scenery::store::{Handle, Store};
use scenery::texgen::{BlendMode, GradientMode, NodeKind};
use scenery::texture::Texture;

#[test]
fn lut_index_mari() {
    assert_eq!(udim_lut_index(1001), Some(0));
    assert_eq!(udim_lut_index(1002), Some(1));
    assert_eq!(udim_lut_index(1011), Some(10));
    assert_eq!(udim_lut_index(1000), None);
    assert_eq!(udim_lut_index(1101), None);
}

#[test]
fn gpu_resident_skips_cpu_pixels() {
    let t = Texture::gpu_resident(2048, 2048, true);
    assert!(t.rgba.is_empty());
    assert_eq!(t.width, 2048);
    let mut seeded = Texture::gpu_resident(4, 4, true);
    seeded.ensure_rgba();
    assert_eq!(seeded.rgba.len(), 64);
}

#[test]
fn texture_solid_and_dirty_rect_union() {
    let t = Texture::solid(1, 2, 3, 4);
    assert_eq!(t.rgba, vec![1, 2, 3, 4]);
    assert!(t.srgb);
    assert!(!Texture::solid_linear(1, 2, 3, 4).srgb);
    let mut t = Texture::gpu_resident(0, 8, false);
    assert_eq!((t.width, t.height), (1, 8));
    t.gpu_resident = false;
    t.width = 10;
    t.height = 10;
    t.mark_changed_rect(2, 2, 3, 3);
    assert_eq!(t.dirty, Some((2, 2, 3, 3)));
    t.mark_changed_rect(8, 1, 5, 2);
    assert_eq!(t.dirty, Some((2, 1, 8, 4)));
    assert_eq!(t.version, 3);
    t.mark_changed_rect(12, 0, 3, 3);
    assert_eq!(t.dirty, None);
    t.mark_changed();
    assert_eq!(t.version, 5);
    let mut g = Texture::gpu_resident(4, 4, true);
    g.mark_changed_rect(0, 0, 2, 2);
    assert_eq!(g.dirty, None);
    assert_eq!(g.version, 2);
}

#[test]
fn udim_first_tile_and_remap() {
    let h1 = Handle::<Texture>::from_parts(1, 0);
    let h2 = Handle::<Texture>::from_parts(2, 0);
    let h3 = Handle::<Texture>::from_parts(3, 0);
    assert_eq!(first_udim_tile(&[(1002, h1), (1001, h2)]).map(|h| h.key()), Some((2, 0)));
    assert_eq!(first_udim_tile(&[(1003, h3), (1002, h1)]).map(|h| h.key()), Some((3, 0)));
    assert!(first_udim_tile(&[]).is_none());
    let mut maps = MaterialMaps::Udim {
        albedo: vec![(1001, h1), (1002, h2)],
        normal: vec![(1001, h3)],
        metallic_roughness: vec![],
    };
    maps.remap_textures(|h: Handle<Texture>| if h.index == 2 { None } else { Some(Handle::from_parts(h.index + 10, 1)) });
    match maps {
        MaterialMaps::Udim { albedo, normal, metallic_roughness } => {
            assert_eq!(albedo.iter().map(|(u, h)| (*u, h.key())).collect::<Vec<_>>(), vec![(1001, (11, 1))]);
            assert_eq!(normal.iter().map(|(u, h)| (*u, h.key())).collect::<Vec<_>>(), vec![(1001, (13, 1))]);
            assert!(metallic_roughness.is_empty());
        }
        _ => panic!("expected udim maps"),
    }
    let mut single = MaterialMaps::default();
    single.remap_textures(|h: Handle<Texture>| Some(h));
    assert!(matches!(single, MaterialMaps::Single { albedo: None, normal: None, metallic_roughness: None }));
    assert_eq!(HeightMode::Parallax.label(), "Parallax");
    assert_eq!(HeightMode::default().label(), "Tessellation");
}

#[test]
fn store_reuses_slots_with_new_generation() {
    let mut s: Store<u32> = Store::new();
    let a = s.insert(10);
    let b = s.insert(20);
    assert_eq!(s.get(a), Some(&10));
    assert_eq!(s.remove(a), Some(10));
    assert_eq!(s.get(a), None);
    let c = s.insert(30);
    assert_eq!(c.index, a.index);
    assert_ne!(c.generation, a.generation);
    assert_eq!(s.get(a), None);
    assert_eq!(s.get(c), Some(&30));
    assert_eq!(s.get(b), Some(&20));
    if let Some(v) = s.get_mut(b) {
        *v = 21;
    }
    let live: Vec<(u32, u32)> = s.iter().iter().map(|(h, v)| (h.index, **v)).collect();
    assert_eq!(live, vec![(0, 30), (1, 21)]);
    assert_eq!(s.remove(a), None);
}

#[test]
fn graph_links_and_upstream() {
    let mut g = TexGraph::new();
    let out = g.output_id.clone();
    let noise = g.add(NodeKind::Noise);
    let blend = g.add(NodeKind::Blend);
    let color = g.add(NodeKind::Color);
    assert_eq!(noise, "n2");
    g.connect(&noise, "out", &blend, "a");
    g.connect(&color, "out", &blend, "b");
    g.connect(&blend, "out", &out, "albedo");
    g.connect(&noise, "out", &out, "albedo");
    assert_eq!(g.links.len(), 3);
    let l = find_link(&g.links, &out, "albedo").unwrap();
    assert_eq!(l.from_node, noise);
    assert!(find_link(&g.links, &out, "normal").is_none());
    assert_eq!(src_id(&g.links, &blend, "b"), Some(color.clone()));
    assert!(src_is_color(&g.nodes, &g.links, &blend, "b"));
    assert!(!src_is_color(&g.nodes, &g.links, &blend, "a"));
    let mut up = ancestors_of(&g.links, &out);
    up.sort();
    assert_eq!(up, vec!["n1".to_string(), "n2".to_string()]);
    let mut up_b = ancestors_of(&g.links, &blend);
    up_b.sort();
    assert_eq!(up_b, vec!["n2".to_string(), "n3".to_string(), "n4".to_string()]);
    let link = TexLink::new("a", "out", "b", "in");
    assert_eq!((link.from_node.as_str(), link.to_port.as_str()), ("a", "in"));
    assert_eq!(g.output().unwrap().kind, NodeKind::Output);
    assert_eq!(g.next_serial(), 5);
}

#[test]
fn node_kind_codes_and_labels() {
    for b in 0u8..=24 {
        let k = NodeKind::from_u8(b).unwrap();
        assert_eq!(k.to_u8(), b);
    }
    assert!(NodeKind::from_u8(25).is_none());
    assert_eq!(NodeKind::HeightToNormal.title(), "Height → Normal");
    assert!(!NodeKind::Output.can_delete());
    assert!(NodeKind::Noise.has_preview());
    assert!(!NodeKind::Invert.has_inspector());
    assert_eq!(BlendMode::Difference.label(), "Difference");
    assert_eq!(GradientMode::Radial.label(), "Radial");
}

#[test]
fn hierarchy_checks() {
    assert!(check_parents(&vec![-1, 0, 1, 0]));
    assert!(!check_parents(&vec![1, 0]));
    assert!(!check_parents(&vec![-1, 5]));
    assert!(check_parents(&vec![]));
}

#[test]
fn small_enums() {
    assert_eq!(SkinningMode::LinearBlend.next(), SkinningMode::DualQuat);
    assert_eq!(SkinningMode::DualQuat.next().next(), SkinningMode::DualQuat);
    assert_eq!(SkinningMode::default().label(), "LBS");
    assert_eq!(DebugView::Velocity.as_u32(), 13);
    assert_eq!(DebugView::ContactShadow.label(), "Contact shadow");
    assert_eq!(DebugView::default(), DebugView::Final);
}

#[test]
fn font_indices_and_atlas() {
    assert_eq!(char_index('A'), 65);
    assert_eq!(char_index('А'), 0x80);
    assert_eq!(char_index('я'), 0xEF);
    assert_eq!(char_index('п'), 0xAF);
    assert_eq!(char_index('Ё'), 0xF0);
    assert_eq!(char_index('ё'), 0xF1);
    assert_eq!(char_index('€'), b'?');
    let mut font = vec![0u8; 2048];
    font[65 * 8 + 2] = 0b1000_0001;
    assert_eq!(glyph_rows(&font, 65), [0, 0, 0b1000_0001, 0, 0, 0, 0, 0]);
    let (px, w, h) = bake_atlas(&font);
    assert_eq!((w, h, px.len()), (128, 128, 128 * 128));
    let gx = 65 % 16;
    let gy = 65 / 16;
    let y = gy * 8 + 2;
    assert_eq!(px[y * 128 + gx * 8], 255);
    assert_eq!(px[y * 128 + gx * 8 + 7], 255);
    assert_eq!(px[y * 128 + gx * 8 + 1], 0);
    assert_eq!(px[127 * 128 + 127], 255);
    assert_eq!(px.iter().filter(|v| **v == 255).count(), 3);
}

#[test]
fn hashes_and_streams() {
    assert_eq!(strand_key(0, 0, 0, 0, 0), 0);
    assert_eq!(strand_key(1, 0, 0, 0, 0), 0x9E3779B9);
    assert_eq!(strand_key(1, 1, 0, 0, 0), 0x9E3779B9u32.wrapping_add(0x85EBCA77));
    let mut r = Rng::new(7, 3);
    assert_eq!(r.0 & 1, 1);
    let s0 = r.0;
    let mut x = s0;
    x ^= x << 13;
    x ^= x >> 17;
    x ^= x << 5;
    assert_eq!(r.next_u32(), x);
    assert_eq!(r.0, x);
    assert_ne!(Rng::new(7, 3).0, Rng::new(7, 4).0);
    assert_eq!(hash_combine(0, 1), 0x9E3779B97F4A7C15);
    assert_eq!(hash_combine(4, 0), 4 ^ ((4u64 << 6) + 1));
    assert_eq!(HudId::new("play"), HudId::new("play"));
    assert_ne!(HudId::new("play"), HudId::new("stop"));
    assert_eq!(cubic_values(vec![1, 2, 3, 4, 5, 6, 7, 8]), vec![2, 5, 8]);
    assert_eq!(cubic_values(vec![1, 2, 3, 4]), vec![2]);
    assert!(cubic_values::<u8>(vec![]).is_empty());
}

#[test]
fn hair_skin_layout_skips_static_and_budgets_joints() {
    // A static guide gets no joints; a three-point guide gets two starting at 0.
    assert_eq!(skin_layout(&vec![(true, 3), (false, 3)]), vec![None, Some((0, 2))]);
    // Ranges follow one another; a guide that would pass 255 joints gets none.
    let r = skin_layout(&vec![(false, 101), (false, 1), (false, 156), (false, 101), (false, 2)]);
    assert_eq!(r, vec![Some((0, 100)), None, Some((100, 155)), None, None]);
}

#[test]
fn hair_fill_pairs_between_copies() {
    let expanded = vec![(0usize, false), (0, true), (1, false), (1, true), (2, false)];
    assert_eq!(fill_pairs(&expanded, &vec![(1, 0), (2, 1), (0, 3)]), vec![(0, 2), (1, 3), (2, 4)]);
    assert_eq!(fill_pairs_of(&vec![Some(1), Some(0), Some(2), Some(7), None, Some(2)]), vec![(0, 1), (2, 5)]);
}

#[test]
fn region_labels_wrap_around_edges() {
    let fg = vec![true, false, true, false, false, false, true, false, false];
    assert_eq!(component_labels(&fg, 3), vec![0, 1, 0, 3, 4, 5, 0, 7, 8]);
    let fg = vec![false, true, true, false, false, true, true, true, false, false, false, false, false, false, false, true];
    assert_eq!(component_labels(&fg, 4), vec![0, 1, 1, 3, 4, 1, 1, 1, 8, 9, 10, 11, 12, 13, 14, 15]);
    assert_eq!(component_labels(&vec![true], 0), vec![0]);
}

#[test]
fn island_hash_values() {
    assert_eq!(island_hash(0, 0), 0);
    assert_eq!(island_hash(7, 0.5f32.to_bits()), 610960635);
    assert_eq!(island_hash(123456, 0.5f32.to_bits()), 259473470);
}

#[test]
fn image_pixels_expand_to_rgba() {
    assert_eq!(pixels_to_rgba(ImageFormat::R8, &[7, 9]), Some(vec![7, 7, 7, 255, 9, 9, 9, 255]));
    assert_eq!(pixels_to_rgba(ImageFormat::R8G8, &[7, 100, 9]), Some(vec![7, 7, 7, 100]));
    assert_eq!(pixels_to_rgba(ImageFormat::R8G8B8, &[1, 2, 3, 4, 5, 6]), Some(vec![1, 2, 3, 255, 4, 5, 6, 255]));
    assert_eq!(pixels_to_rgba(ImageFormat::R8G8B8A8, &[1, 2, 3, 4]), Some(vec![1, 2, 3, 4]));
    assert_eq!(pixels_to_rgba(ImageFormat::Other, &[1, 2]), None);
    let t = image_to_texture(ImageFormat::R8, 2, 1, &[7, 9], "scene.gltf/images/0".to_string()).unwrap();
    assert_eq!((t.width, t.height, t.srgb, t.version), (2, 1, true, 1));
    assert_eq!(t.id, "scene.gltf/images/0");
    assert!(t.dirty.is_none() && !t.gpu_resident);
    assert!(image_to_texture(ImageFormat::Other, 1, 1, &[0, 0], String::new()).is_none());
}

#[test]
fn hair_map_size_and_stack_count() {
    assert_eq!(tex_size(512, 1024), (512, 1024));
    assert_eq!(tex_size(0, 100000), (8, 4096));
    assert_eq!(auto_stack_count(0), 1);
    assert_eq!(auto_stack_count(40), 17);
}

#[test]
fn weld_maps_vertices_to_first_at_position() {
    let keys = vec![(0, 0, 0), (5, -1, 2), (0, 0, 0), (5, -1, 2), (7, 7, 7), (0, 0, 1)];
    assert_eq!(weld_representatives(&keys), vec![0, 1, 0, 1, 4, 5]);
    assert_eq!(weld_representatives(&vec![]), Vec::<usize>::new());
}

#[test]
fn hair_expansion_lists_mirrored_copies_after_plain_ones() {
    let order = expand_order(&vec![false, true, true]);
    assert_eq!(order, vec![(0, false), (1, false), (1, true), (2, false), (2, true)]);
    assert_eq!(fill_pairs(&order, &vec![(1, 2)]), vec![(1, 3), (2, 4)]);
}

#[test]
fn debug_view_all_in_code_order() {
    assert_eq!(DebugView::ALL.len(), 14);
    for (i, v) in DebugView::ALL.iter().enumerate() {
        assert_eq!(v.as_u32() as usize, i);
    }
    assert_eq!(DebugView::ALL[0], DebugView::Final);
    assert_eq!(DebugView::ALL[13], DebugView::Velocity);
}

#[test]
fn hud_button_clicks_on_release_over_it() {
    let ok = HudId::new("ok");
    let cancel = HudId::new("cancel");
    let mut f = HudFocus::new();
    // Frame 1: pressed over "ok".
    f.begin();
    assert!(!f.button(ok, true, true, false));
    assert!(!f.button(cancel, false, false, false));
    assert_eq!(f.active, Some(ok));
    assert!(f.end(true));
    // Frame 2: released over "ok": a click; the mouse is let go at the end.
    f.begin();
    assert!(!f.want_capture_mouse);
    assert!(f.button(ok, true, false, true));
    assert!(!f.button(cancel, true, false, true));
    assert!(f.end(false));
    assert_eq!(f.active, None);
    // Released over a button the mouse was not pressed on: no click.
    f.begin();
    assert!(!f.button(cancel, true, false, true));
    assert!(f.want_capture_mouse);
    assert!(f.end(false));
    // A panel only wants the mouse while hovered.
    let mut g = HudFocus::new();
    g.begin();
    g.panel(false);
    assert!(!g.end(false));
    g.begin();
    g.panel(true);
    assert!(g.end(false));
}

#[test]
fn skin_parent_table_round_trip() {
    let j: Vec<Handle<u8>> = vec![Handle::from_parts(4, 0), Handle::from_parts(7, 1), Handle::from_parts(9, 0)];
    // Joint 1's parent is joint 0, joint 2's is joint 1, joint 0's parent is not a joint.
    let parents_of = vec![Some(Handle::from_parts(1, 0)), Some(Handle::from_parts(4, 0)), Some(Handle::from_parts(7, 1))];
    let table = parent_indices(&j, &parents_of, 4);
    assert_eq!(table, vec![-1, 0, 1, -1]);
    // A stale handle (other generation) is not the joint.
    let stale = vec![None, Some(Handle::from_parts(4, 1)), None];
    assert_eq!(parent_indices(&j, &stale, 3), vec![-1, -1, -1]);
    let links = joint_parent_links(&j, &table);
    let keys: Vec<_> = links.iter().map(|(c, p)| (c.key(), p.key())).collect();
    assert_eq!(keys, vec![((7, 1), (4, 0)), ((9, 0), (7, 1))]);
    assert!(joint_parent_links(&j, &vec![]).is_empty());
}

/// The chains a hair rig gets: one per guide with a joint range, in guide order.
fn rig_chains(guides: &Vec<(bool, usize)>) -> Vec<(usize, u16, u16)> {
    skin_layout(guides)
        .iter()
        .enumerate()
        .filter_map(|(i, r)| r.map(|(base, n)| (i, base, n)))
        .collect()
}

#[test]
fn static_guide_skips_bones() {
    // A static and a moving guide of three points each.
    let chains = rig_chains(&vec![(true, 3), (false, 3)]);
    assert_eq!(chains.len(), 1);
    assert_eq!(chains[0].0, 1);
    assert_eq!(chains[0].1, 0);
    let joints: usize = chains.iter().map(|c| c.2 as usize).sum();
    assert_eq!(joints, 2);
}

#[test]
fn static_only_is_rigid_mesh() {
    assert!(rig_chains(&vec![(true, 3)]).is_empty());
}

#[test]
fn ensure_rgba_follows_the_size_and_keeps_pixels() {
    let mut t = Texture::solid(9, 8, 7, 6);
    t.width = 0;
    t.height = 1;
    t.ensure_rgba();
    assert!(t.rgba.is_empty());
    let mut u = Texture::solid(9, 8, 7, 6);
    u.width = 2;
    u.ensure_rgba();
    assert_eq!(u.rgba, vec![9, 8, 7, 6, 0, 0, 0, 0]);
    u.ensure_rgba();
    assert_eq!(u.rgba.len(), 8);
}

#[test]
fn mark_changed_rect_on_gpu_resident_or_empty_rect() {
    let mut t = Texture::gpu_resident(4, 4, false);
    t.mark_changed_rect(0, 0, 2, 2);
    assert_eq!(t.dirty, None);
    assert_eq!(t.version, 2);
    let mut c = Texture::solid(1, 2, 3, 4);
    c.mark_changed_rect(5, 5, 1, 1);
    assert_eq!(c.dirty, None);
    c.mark_changed_rect(0, 0, 1, 1);
    assert_eq!(c.dirty, Some((0, 0, 1, 1)));
}
