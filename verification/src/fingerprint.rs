//! Content fingerprints of texture graph nodes: a hash of the parameters a node's output
//! depends on, combined with the fingerprints of the nodes feeding it and the bake
//! resolution, so a bake can skip nodes whose fingerprint is unchanged.
use std::collections::hash_map::DefaultHasher;
use std::hash::Hasher;
use vstd::prelude::*;
use vstd::std_specs::hash::DefaultHasherAdditionalSpecFns;
use crate::wire::{bytes32, bytes64, put_u32, put_u64, lemma_le32_at};
use crate::texgen::{NodeKind, node_kind_code};
use crate::graph::{
    NodeRecord, NodeRecordView, TexLink, TexLinkView, nodes_view, links_view, ids_view,
    first_feed, first_node, find_link, find_node, topo_order, evaluation_order, needed_ids,
    hash_mix, hash_combine, has_node, str_eq, lemma_first_feed, lemma_no_feed,
    lemma_first_node, lemma_no_node, link_targets, inputs_done,
    law_evaluation_orders_place_the_same_ids, feeds,
};
use crate::texg_file::node_wf;

verus! {

/// A 32-bit field as hashed (`u32`/`i32` write their four bytes, little-endian).
pub open spec fn word_chunk(v: u32) -> Seq<u8> {
    bytes32(v as int)
}

/// An enum discriminant or a length as hashed (eight bytes, little-endian).
pub open spec fn wide_chunk(v: int) -> Seq<u8> {
    bytes64(v)
}

/// A flag as hashed (one byte).
pub open spec fn flag_chunk(v: u32) -> Seq<u8> {
    seq![(v % 256) as u8]
}

/// Words `a..b` of `vals`, one chunk each.
pub open spec fn word_chunks(vals: Seq<u32>, a: int, b: int) -> Seq<Seq<u8>> {
    Seq::new((b - a) as nat, |i: int| word_chunk(vals[a + i]))
}

/// What a node's parameter hash is fed: its kind, then the parameters its kind reads
/// (position and preview state are left out).
pub open spec fn param_chunks(n: NodeRecordView) -> Seq<Seq<u8>> {
    let h = n.head;
    let t = n.tail;
    seq![wide_chunk(node_kind_code(n.kind) as int)] + match n.kind {
        NodeKind::Color => word_chunks(h, 2, 6),
        NodeKind::Noise => seq![
            wide_chunk(h[6] as int),
            word_chunk(h[7]),
            word_chunk(h[8]),
            word_chunk(h[9]),
            flag_chunk(h[10]),
            word_chunk(h[11]),
            word_chunk(h[12]),
        ],
        NodeKind::Gradient => seq![wide_chunk(h[23] as int)],
        NodeKind::Lines => word_chunks(t, 0, 5),
        NodeKind::Distort => word_chunks(t, 5, 8),
        NodeKind::Warp => word_chunks(t, 8, 9),
        NodeKind::DirectionalWarp => word_chunks(t, 9, 11),
        NodeKind::Blur => word_chunks(t, 11, 12),
        NodeKind::SlopeBlur => seq![word_chunk(t[12]), word_chunk(t[13]), wide_chunk(t[14] as int)],
        NodeKind::Checker => word_chunks(t, 15, 18),
        NodeKind::Tile => word_chunks(t, 18, 26),
        NodeKind::Bricks => word_chunks(t, 26, 32),
        NodeKind::FloodFill => word_chunks(t, 32, 36),
        NodeKind::Blend => seq![wide_chunk(h[13] as int)] + word_chunks(h, 14, 23),
        NodeKind::Levels => word_chunks(h, 24, 29),
        NodeKind::HeightToNormal => word_chunks(h, 29, 30),
        NodeKind::Curvature => word_chunks(h, 30, 32),
        NodeKind::ColorRamp => seq![wide_chunk((n.colors.len() / 5) as int)] + word_chunks(
            n.colors,
            0,
            n.colors.len() as int,
        ) + seq![wide_chunk((n.opacities.len() / 2) as int)] + word_chunks(
            n.opacities,
            0,
            n.opacities.len() as int,
        ),
        NodeKind::Shape => seq![wide_chunk(t[36] as int)] + word_chunks(t, 37, 40),
        NodeKind::Transform => word_chunks(t, 40, 45) + seq![flag_chunk(t[45])],
        NodeKind::TileSampler => word_chunks(t, 46, 52),
        _ => Seq::empty(),
    }
}

fn feed_word(h: &mut DefaultHasher, v: u32)
    ensures
        final(h)@ == old(h)@.push(word_chunk(v)),
{
    let mut b: Vec<u8> = Vec::new();
    put_u32(&mut b, v);
    assert(b@ =~= bytes32(v as int));
    h.write(b.as_slice());
}

fn feed_wide(h: &mut DefaultHasher, v: u64)
    ensures
        final(h)@ == old(h)@.push(wide_chunk(v as int)),
{
    let mut b: Vec<u8> = Vec::new();
    put_u64(&mut b, v);
    assert(b@ =~= bytes64(v as int));
    h.write(b.as_slice());
}

fn feed_flag(h: &mut DefaultHasher, v: u32)
    ensures
        final(h)@ == old(h)@.push(flag_chunk(v)),
{
    let b: [u8; 1] = [(v % 256) as u8];
    assert(b@ =~= flag_chunk(v));
    h.write(b.as_slice());
}

fn feed_words(h: &mut DefaultHasher, vals: &Vec<u32>, a: usize, b: usize)
    requires
        a <= b <= vals@.len(),
    ensures
        final(h)@ == old(h)@ + word_chunks(vals@, a as int, b as int),
{
    let ghost start = old(h)@;
    let mut i = a;
    while i < b
        invariant
            a <= i <= b <= vals@.len(),
            h@ == start + word_chunks(vals@, a as int, i as int),
        decreases b - i,
    {
        feed_word(h, vals[i]);
        i += 1;
        assert(h@ =~= start + word_chunks(vals@, a as int, i as int));
    }
}

/// Hash of the parameters a node's output depends on.
pub open spec fn param_hash(n: NodeRecordView) -> u64 {
    DefaultHasher::spec_finish(param_chunks(n))
}

/// Hashes a node's kind and the parameters its kind reads.
#[verifier::rlimit(60)]
pub fn node_param_hash(node: &NodeRecord) -> (r: u64)
    requires
        node_wf(node.view()),
    ensures
        r == param_hash(node.view()),
{
    let mut h = DefaultHasher::new();
    feed_wide(&mut h, node.kind.to_u8() as u64);
    let ghost start = h@;
    let hd = &node.head;
    let tl = &node.tail;
    assert(hd@.len() == 32 && tl@.len() == 55);
    match node.kind {
        NodeKind::Color => feed_words(&mut h, hd, 2, 6),
        NodeKind::Noise => {
            feed_wide(&mut h, hd[6] as u64);
            feed_word(&mut h, hd[7]);
            feed_word(&mut h, hd[8]);
            feed_word(&mut h, hd[9]);
            feed_flag(&mut h, hd[10]);
            feed_word(&mut h, hd[11]);
            feed_word(&mut h, hd[12]);
        },
        NodeKind::Gradient => feed_wide(&mut h, hd[23] as u64),
        NodeKind::Lines => feed_words(&mut h, tl, 0, 5),
        NodeKind::Distort => feed_words(&mut h, tl, 5, 8),
        NodeKind::Warp => feed_words(&mut h, tl, 8, 9),
        NodeKind::DirectionalWarp => feed_words(&mut h, tl, 9, 11),
        NodeKind::Blur => feed_words(&mut h, tl, 11, 12),
        NodeKind::SlopeBlur => {
            feed_word(&mut h, tl[12]);
            feed_word(&mut h, tl[13]);
            feed_wide(&mut h, tl[14] as u64);
        },
        NodeKind::Checker => feed_words(&mut h, tl, 15, 18),
        NodeKind::Tile => feed_words(&mut h, tl, 18, 26),
        NodeKind::Bricks => feed_words(&mut h, tl, 26, 32),
        NodeKind::FloodFill => feed_words(&mut h, tl, 32, 36),
        NodeKind::Blend => {
            feed_wide(&mut h, hd[13] as u64);
            feed_words(&mut h, hd, 14, 23);
        },
        NodeKind::Levels => feed_words(&mut h, hd, 24, 29),
        NodeKind::HeightToNormal => feed_words(&mut h, hd, 29, 30),
        NodeKind::Curvature => feed_words(&mut h, hd, 30, 32),
        NodeKind::ColorRamp => {
            feed_wide(&mut h, (node.colors.len() / 5) as u64);
            feed_words(&mut h, &node.colors, 0, node.colors.len());
            feed_wide(&mut h, (node.opacities.len() / 2) as u64);
            feed_words(&mut h, &node.opacities, 0, node.opacities.len());
        },
        NodeKind::Shape => {
            feed_wide(&mut h, tl[36] as u64);
            feed_words(&mut h, tl, 37, 40);
        },
        NodeKind::Transform => {
            feed_words(&mut h, tl, 40, 45);
            feed_flag(&mut h, tl[45]);
        },
        NodeKind::TileSampler => feed_words(&mut h, tl, 46, 52),
        _ => {},
    }
    proof {
        assert(h@ =~= param_chunks(node.view()));
    }
    h.finish()
}

// ---------------------------------------------------------------------------------------
// Fingerprints over the graph
// ---------------------------------------------------------------------------------------
/// The fingerprint most recently recorded for `id` (0 when none).
pub open spec fn latest_fp(entries: Seq<(Seq<char>, u64)>, id: Seq<char>) -> u64
    decreases entries.len(),
{
    if entries.len() == 0 {
        0
    } else if entries.last().0 == id {
        entries.last().1
    } else {
        latest_fp(entries.drop_last(), id)
    }
}

/// What flows into port `port` of node `id`: the recorded fingerprint of the node whose
/// `out` port feeds it (through the first link into the port), else 0.
pub open spec fn upstream_fp(links: Seq<TexLinkView>, entries: Seq<(Seq<char>, u64)>, id: Seq<char>, port: Seq<char>) -> u64 {
    match first_feed(links, id, port, 0) {
        Some(i) => if links[i].from_port == "out"@ {
            latest_fp(entries, links[i].from_node)
        } else {
            0
        },
        None => 0,
    }
}

/// The input ports whose upstream content a node's output depends on.
pub open spec fn kind_ports(k: NodeKind) -> Seq<Seq<char>> {
    match k {
        NodeKind::Blend => seq!["a"@, "b"@, "mask"@],
        NodeKind::Levels | NodeKind::GrayToColor | NodeKind::ColorToGray | NodeKind::Invert
        | NodeKind::FloodFill | NodeKind::Distort | NodeKind::Transform
        | NodeKind::TileSampler => seq!["in"@],
        NodeKind::HeightToNormal | NodeKind::Curvature => seq!["height"@],
        NodeKind::ColorRamp => seq!["fac"@],
        NodeKind::Warp | NodeKind::DirectionalWarp | NodeKind::Blur => seq!["in"@, "drive"@],
        NodeKind::SlopeBlur => seq!["in"@, "slope"@],
        _ => Seq::empty(),
    }
}

/// `fp` with the upstream fingerprints of `ports` mixed in, in order.
pub open spec fn mix_ports(
    fp: u64,
    links: Seq<TexLinkView>,
    entries: Seq<(Seq<char>, u64)>,
    id: Seq<char>,
    ports: Seq<Seq<char>>,
) -> u64
    decreases ports.len(),
{
    if ports.len() == 0 {
        fp
    } else {
        hash_mix(
            mix_ports(fp, links, entries, id, ports.drop_last()),
            upstream_fp(links, entries, id, ports.last()),
        )
    }
}

/// A node's fingerprint: its parameter hash, its upstream fingerprints, the resolution.
pub open spec fn node_fp(n: NodeRecordView, links: Seq<TexLinkView>, entries: Seq<(Seq<char>, u64)>, res: u32) -> u64 {
    hash_mix(mix_ports(param_hash(n), links, entries, n.id, kind_ports(n.kind)), res as u64)
}

/// Fingerprints recorded along `order`: each id that names a node (the first with that
/// id) other than the output node, with its fingerprint given what was recorded before.
pub open spec fn fp_entries(nodes: Seq<NodeRecordView>, links: Seq<TexLinkView>, res: u32, order: Seq<
    Seq<char>,
>) -> Seq<(Seq<char>, u64)>
    decreases order.len(),
{
    if order.len() == 0 {
        Seq::empty()
    } else {
        let rest = fp_entries(nodes, links, res, order.drop_last());
        match first_node(nodes, order.last(), 0) {
            None => rest,
            Some(k) => if nodes[k].kind == NodeKind::Output {
                rest
            } else {
                rest.push((order.last(), node_fp(nodes[k], links, rest, res)))
            },
        }
    }
}

pub open spec fn fps_view(v: Seq<(String, u64)>) -> Seq<(Seq<char>, u64)> {
    v.map_values(|e: (String, u64)| (e.0@, e.1))
}

pub(crate) fn latest(entries: &Vec<(String, u64)>, id: &String) -> (r: u64)
    ensures
        r == latest_fp(fps_view(entries@), id@),
{
    let ghost ev = fps_view(entries@);
    let mut i = entries.len();
    assert(ev.take(i as int) =~= ev);
    while i > 0
        invariant
            i <= entries@.len(),
            ev == fps_view(entries@),
            latest_fp(ev, id@) == latest_fp(ev.take(i as int), id@),
        decreases i,
    {
        let ghost t = ev.take(i as int);
        assert(t.drop_last() =~= ev.take(i - 1));
        assert(t.last() == ev[i - 1]);
        if entries[i - 1].0 == *id {
            return entries[i - 1].1;
        }
        i -= 1;
    }
    assert(ev.take(0) =~= Seq::<(Seq<char>, u64)>::empty());
    0
}

fn upstream(links: &[TexLink], entries: &Vec<(String, u64)>, id: &String, port: &str) -> (r: u64)
    ensures
        r == upstream_fp(links_view(links@), fps_view(entries@), id@, port@),
{
    let ghost lv = links_view(links@);
    match find_link(links, id.as_str(), port) {
        Some(l) => {
            proof {
                let i = choose|i: int|
                    0 <= i < links@.len() && links@[i] == *l && crate::graph::feeds(
                        links@[i].view(),
                        id@,
                        port@,
                    ) && forall|j: int|
                        0 <= j < i ==> !crate::graph::feeds(#[trigger] links@[j].view(), id@, port@);
                assert forall|j: int| 0 <= j < i implies !crate::graph::feeds(#[trigger] lv[j], id@, port@) by {
                    assert(lv[j] == links@[j].view());
                }
                lemma_first_feed(lv, id@, port@, 0, i);
                assert(lv[i] == l.view());
            }
            if str_eq(l.from_port.as_str(), "out") {
                latest(entries, &l.from_node)
            } else {
                0
            }
        },
        None => {
            proof {
                assert forall|j: int| 0 <= j < lv.len() implies !crate::graph::feeds(#[trigger] lv[j], id@, port@) by {
                    assert(lv[j] == links@[j].view());
                }
                lemma_no_feed(lv, id@, port@, 0);
            }
            0
        },
    }
}

pub open spec fn strs_view(v: Seq<&'static str>) -> Seq<Seq<char>> {
    v.map_values(|s: &'static str| s@)
}

fn ports_of(k: NodeKind) -> (r: Vec<&'static str>)
    ensures
        strs_view(r@) == kind_ports(k),
{
    let r: Vec<&'static str> = match k {
        NodeKind::Blend => vec!["a", "b", "mask"],
        NodeKind::Levels | NodeKind::GrayToColor | NodeKind::ColorToGray | NodeKind::Invert
        | NodeKind::FloodFill | NodeKind::Distort | NodeKind::Transform
        | NodeKind::TileSampler => vec!["in"],
        NodeKind::HeightToNormal | NodeKind::Curvature => vec!["height"],
        NodeKind::ColorRamp => vec!["fac"],
        NodeKind::Warp | NodeKind::DirectionalWarp | NodeKind::Blur => vec!["in", "drive"],
        NodeKind::SlopeBlur => vec!["in", "slope"],
        _ => Vec::new(),
    };
    assert(strs_view(r@) =~= kind_ports(k));
    r
}

/// Fingerprints of the needed nodes, in evaluation order (see `topo_order`); a later
/// entry for an id takes the place of an earlier one. The output node gets none. Which
/// of the evaluation orders is taken does not matter: every id's latest fingerprint is
/// the same along all of them.
pub fn compute_out_fingerprints(nodes: &Vec<NodeRecord>, links: &[TexLink], needed: &Vec<String>, res: u32) -> (r: Vec<(String, u64)>)
    requires
        forall|i: int| 0 <= i < nodes@.len() ==> node_wf(#[trigger] nodes@[i].view()),
    ensures
        exists|order: Seq<Seq<char>>, k: int|
            evaluation_order(
                links_view(links@),
                ids_view(needed@),
                needed_ids(nodes_view(nodes@), ids_view(needed@)),
                order,
                k,
            ) && fps_view(r@) == fp_entries(nodes_view(nodes@), links_view(links@), res, order),
        forall|order: Seq<Seq<char>>, k: int, y: Seq<char>|
            #[trigger] evaluation_order(
                links_view(links@),
                ids_view(needed@),
                needed_ids(nodes_view(nodes@), ids_view(needed@)),
                order,
                k,
            ) ==> latest_fp(fps_view(r@), y) == #[trigger] latest_fp(
                fp_entries(nodes_view(nodes@), links_view(links@), res, order),
                y,
            ),
{
    let ghost nv = nodes_view(nodes@);
    let ghost lv = links_view(links@);
    let order = topo_order(nodes, links, needed);
    let ghost ov = ids_view(order@);
    let mut out: Vec<(String, u64)> = Vec::new();
    let mut i: usize = 0;
    assert(fps_view(out@) =~= fp_entries(nv, lv, res, ov.take(0)));
    while i < order.len()
        invariant
            i <= order@.len(),
            ov == ids_view(order@),
            nv == nodes_view(nodes@),
            lv == links_view(links@),
            forall|i: int| 0 <= i < nodes@.len() ==> node_wf(#[trigger] nodes@[i].view()),
            fps_view(out@) == fp_entries(nv, lv, res, ov.take(i as int)),
        decreases order@.len() - i,
    {
        let ghost before = fps_view(out@);
        let ghost t = ov.take(i + 1);
        assert(t.drop_last() =~= ov.take(i as int));
        assert(t.last() == order@[i as int]@);
        match find_node(nodes, &order[i]) {
            None => {
                proof {
                    assert forall|j: int| 0 <= j < nv.len() implies (#[trigger] nv[j]).id != t.last() by {
                        if nv[j].id == t.last() {
                            assert(has_node(nv, t.last()));
                        }
                    }
                    lemma_no_node(nv, t.last(), 0);
                }
            },
            Some(k) => {
                proof {
                    assert forall|j: int| 0 <= j < k implies (#[trigger] nv[j]).id != t.last() by {
                        assert(nv[j] == nodes@[j].view());
                    }
                    lemma_first_node(nv, t.last(), 0, k as int);
                }
                let node = &nodes[k];
                if node.kind != NodeKind::Output {
                    let mut fp = node_param_hash(node);
                    let ports = ports_of(node.kind);
                    let ghost pv = strs_view(ports@);
                    let mut j: usize = 0;
                    assert(pv.take(0) =~= Seq::<Seq<char>>::empty());
                    while j < ports.len()
                        invariant
                            j <= ports@.len(),
                            pv == strs_view(ports@),
                            fp == mix_ports(param_hash(node.view()), lv, before, node.id@, pv.take(j as int)),
                            before == fps_view(out@),
                            lv == links_view(links@),
                        decreases ports@.len() - j,
                    {
                        let u = upstream(links, &out, &node.id, ports[j]);
                        assert(pv.take(j + 1).drop_last() =~= pv.take(j as int));
                        assert(pv.take(j + 1).last() == ports@[j as int]@);
                        fp = hash_combine(fp, u);
                        j += 1;
                    }
                    assert(pv.take(j as int) =~= pv);
                    fp = hash_combine(fp, res as u64);
                    out.push((order[i].clone(), fp));
                    proof {
                        assert(nv[k as int] == node.view());
                        assert(fps_view(out@) =~= before.push((t.last(), node_fp(nv[k as int], lv, before, res))));
                    }
                }
            },
        }
        i += 1;
    }
    proof {
        assert(ov.take(i as int) =~= ov);
        let k = choose|k: int| evaluation_order(lv, ids_view(needed@), needed_ids(nv, ids_view(needed@)), ov, k);
        assert forall|o2: Seq<Seq<char>>, k2: int, y: Seq<char>|
            #[trigger] evaluation_order(lv, ids_view(needed@), needed_ids(nv, ids_view(needed@)), o2, k2)
                implies latest_fp(fps_view(out@), y) == #[trigger] latest_fp(fp_entries(nv, lv, res, o2), y) by {
            law_fingerprints_independent_of_order(nv, lv, ids_view(needed@), res, ov, k, o2, k2);
        }
    }
    out
}

// ---------------------------------------------------------------------------------------
// Fingerprints do not depend on which evaluation order is taken
// ---------------------------------------------------------------------------------------
/// The fingerprint recorded for `y` when it is reached with `entries` recorded before:
/// its node's fingerprint, none (0) when it names no node or the output node.
pub open spec fn fp_at(nodes: Seq<NodeRecordView>, links: Seq<TexLinkView>, res: u32, entries: Seq<
    (Seq<char>, u64),
>, y: Seq<char>) -> u64 {
    match first_node(nodes, y, 0) {
        None => 0,
        Some(k) => if nodes[k].kind == NodeKind::Output {
            0
        } else {
            node_fp(nodes[k], links, entries, res)
        },
    }
}

proof fn lemma_first_node_id(nodes: Seq<NodeRecordView>, id: Seq<char>, s: int)
    requires
        first_node(nodes, id, s) is Some,
    ensures
        ({
            let k = first_node(nodes, id, s)->0;
            0 <= k < nodes.len() && nodes[k].id == id
        }),
    decreases nodes.len() - s,
{
    if s >= 0 && s < nodes.len() && nodes[s].id != id {
        lemma_first_node_id(nodes, id, s + 1);
    }
}

proof fn lemma_first_feed_feeds(links: Seq<TexLinkView>, node: Seq<char>, port: Seq<char>, s: int)
    requires
        first_feed(links, node, port, s) is Some,
    ensures
        ({
            let i = first_feed(links, node, port, s)->0;
            0 <= i < links.len() && links[i].to_node == node
        }),
    decreases links.len() - s,
{
    if s >= 0 && s < links.len() && !feeds(links[s], node, port) {
        lemma_first_feed_feeds(links, node, port, s + 1);
    }
}

/// `y` names a node other than the output node (and so gets a fingerprint).
pub open spec fn fp_recorded(nodes: Seq<NodeRecordView>, y: Seq<char>) -> bool {
    match first_node(nodes, y, 0) {
        None => false,
        Some(k) => nodes[k].kind != NodeKind::Output,
    }
}

proof fn lemma_latest_last(
    nodes: Seq<NodeRecordView>,
    links: Seq<TexLinkView>,
    res: u32,
    order: Seq<Seq<char>>,
    y: Seq<char>,
)
    requires
        order.len() > 0,
    ensures
        latest_fp(fp_entries(nodes, links, res, order), y) == if order.last() == y && fp_recorded(
            nodes,
            y,
        ) {
            fp_at(nodes, links, res, fp_entries(nodes, links, res, order.drop_last()), y)
        } else {
            latest_fp(fp_entries(nodes, links, res, order.drop_last()), y)
        },
{
    let rest = fp_entries(nodes, links, res, order.drop_last());
    match first_node(nodes, order.last(), 0) {
        None => {},
        Some(k) => {
            if nodes[k].kind != NodeKind::Output {
                let e = (order.last(), node_fp(nodes[k], links, rest, res));
                assert(rest.push(e).drop_last() =~= rest);
            }
        },
    }
}

/// Ids that are not in the order get no fingerprint.
proof fn lemma_latest_absent(
    nodes: Seq<NodeRecordView>,
    links: Seq<TexLinkView>,
    res: u32,
    order: Seq<Seq<char>>,
    y: Seq<char>,
)
    requires
        !order.contains(y),
    ensures
        latest_fp(fp_entries(nodes, links, res, order), y) == 0,
    decreases order.len(),
{
    if order.len() > 0 {
        assert(!order.drop_last().contains(y)) by {
            if order.drop_last().contains(y) {
                let j = choose|j: int| 0 <= j < order.drop_last().len() && #[trigger] order.drop_last()[j] == y;
                assert(order[j] == y);
            }
        }
        assert(order.last() != y) by {
            assert(order[order.len() - 1] == order.last());
        }
        lemma_latest_absent(nodes, links, res, order.drop_last(), y);
        lemma_latest_last(nodes, links, res, order, y);
    }
}

/// In an order without repeats, the fingerprint of the id at `i` is recorded when it is
/// reached and stays the latest one.
proof fn lemma_latest_at(
    nodes: Seq<NodeRecordView>,
    links: Seq<TexLinkView>,
    res: u32,
    order: Seq<Seq<char>>,
    i: int,
)
    requires
        order.no_duplicates(),
        0 <= i < order.len(),
    ensures
        latest_fp(fp_entries(nodes, links, res, order), order[i]) == fp_at(
            nodes,
            links,
            res,
            fp_entries(nodes, links, res, order.take(i)),
            order[i],
        ),
    decreases order.len(),
{
    let y = order[i];
    lemma_latest_last(nodes, links, res, order, y);
    if i == order.len() - 1 {
        assert(order.drop_last() =~= order.take(i));
        assert(!order.take(i).contains(y)) by {
            if order.take(i).contains(y) {
                let j = choose|j: int| 0 <= j < order.take(i).len() && #[trigger] order.take(i)[j] == y;
                assert(order[j] == order[i]);
            }
        }
        lemma_latest_absent(nodes, links, res, order.take(i), y);
    } else {
        let d = order.drop_last();
        assert(d[i] == y);
        assert(d.take(i) =~= order.take(i));
        assert(order.last() != y) by {
            assert(order[order.len() - 1] == order.last());
        }
        lemma_latest_at(nodes, links, res, d, i);
    }
}

/// A node's fingerprint depends on the recorded entries only through the latest
/// fingerprints of the nodes linked into it.
proof fn lemma_node_fp_agree(
    n: NodeRecordView,
    links: Seq<TexLinkView>,
    e1: Seq<(Seq<char>, u64)>,
    e2: Seq<(Seq<char>, u64)>,
    res: u32,
)
    requires
        forall|j: int|
            0 <= j < links.len() && (#[trigger] links[j]).to_node == n.id ==> latest_fp(
                e1,
                links[j].from_node,
            ) == latest_fp(e2, links[j].from_node),
    ensures
        node_fp(n, links, e1, res) == node_fp(n, links, e2, res),
{
    lemma_mix_agree(param_hash(n), links, e1, e2, n.id, kind_ports(n.kind));
}

proof fn lemma_mix_agree(
    fp: u64,
    links: Seq<TexLinkView>,
    e1: Seq<(Seq<char>, u64)>,
    e2: Seq<(Seq<char>, u64)>,
    id: Seq<char>,
    ports: Seq<Seq<char>>,
)
    requires
        forall|j: int|
            0 <= j < links.len() && (#[trigger] links[j]).to_node == id ==> latest_fp(
                e1,
                links[j].from_node,
            ) == latest_fp(e2, links[j].from_node),
    ensures
        mix_ports(fp, links, e1, id, ports) == mix_ports(fp, links, e2, id, ports),
    decreases ports.len(),
{
    if ports.len() > 0 {
        lemma_mix_agree(fp, links, e1, e2, id, ports.drop_last());
        let p = ports.last();
        if first_feed(links, id, p, 0) is Some {
            lemma_first_feed_feeds(links, id, p, 0);
        }
    }
}

/// Appending the same ids to two orders whose latest fingerprints agree keeps them in
/// agreement.
proof fn lemma_agree_extend(
    nodes: Seq<NodeRecordView>,
    links: Seq<TexLinkView>,
    res: u32,
    p1: Seq<Seq<char>>,
    p2: Seq<Seq<char>>,
    tail: Seq<Seq<char>>,
)
    requires
        forall|y: Seq<char>| #[trigger] latest_fp(fp_entries(nodes, links, res, p1), y) == latest_fp(
            fp_entries(nodes, links, res, p2),
            y,
        ),
    ensures
        forall|y: Seq<char>| #[trigger] latest_fp(fp_entries(nodes, links, res, p1 + tail), y) == latest_fp(
            fp_entries(nodes, links, res, p2 + tail),
            y,
        ),
    decreases tail.len(),
{
    if tail.len() == 0 {
        assert(p1 + tail =~= p1);
        assert(p2 + tail =~= p2);
    } else {
        let t = tail.drop_last();
        lemma_agree_extend(nodes, links, res, p1, p2, t);
        let q1 = p1 + tail;
        let q2 = p2 + tail;
        assert(q1.drop_last() =~= p1 + t);
        assert(q2.drop_last() =~= p2 + t);
        assert(q1.last() == tail.last());
        assert(q2.last() == tail.last());
        let e1 = fp_entries(nodes, links, res, p1 + t);
        let e2 = fp_entries(nodes, links, res, p2 + t);
        let x = tail.last();
        if fp_recorded(nodes, x) {
            let k = first_node(nodes, x, 0)->0;
            lemma_first_node_id(nodes, x, 0);
            lemma_node_fp_agree(nodes[k], links, e1, e2, res);
        }
        assert forall|y: Seq<char>| #[trigger] latest_fp(fp_entries(nodes, links, res, q1), y)
            == latest_fp(fp_entries(nodes, links, res, q2), y) by {
            lemma_latest_last(nodes, links, res, q1, y);
            lemma_latest_last(nodes, links, res, q2, y);
        }
    }
}

proof fn lemma_needed_ids_needed(nodes: Seq<NodeRecordView>, needed: Seq<Seq<char>>, y: Seq<char>)
    requires
        needed_ids(nodes, needed).contains(y),
    ensures
        needed.contains(y),
    decreases nodes.len(),
{
    if nodes.len() > 0 {
        let rest = needed_ids(nodes.drop_last(), needed);
        if rest.contains(y) {
            lemma_needed_ids_needed(nodes.drop_last(), needed, y);
        } else if needed.contains(nodes.last().id) {
            let s = rest.push(nodes.last().id);
            let j = choose|j: int| 0 <= j < s.len() && #[trigger] s[j] == y;
            if j < rest.len() {
                assert(rest[j] == y);
            }
        }
    }
}

proof fn lemma_link_targets_needed(links: Seq<TexLinkView>, needed: Seq<Seq<char>>, y: Seq<char>)
    requires
        link_targets(links, needed).contains(y),
    ensures
        needed.contains(y),
    decreases links.len(),
{
    if links.len() > 0 {
        let rest = link_targets(links.drop_last(), needed);
        if rest.contains(y) {
            lemma_link_targets_needed(links.drop_last(), needed, y);
        } else {
            let l = links.last();
            if needed.contains(l.from_node) && needed.contains(l.to_node) {
                let s = rest.push(l.to_node);
                let j = choose|j: int| 0 <= j < s.len() && #[trigger] s[j] == y;
                if j < rest.len() {
                    assert(rest[j] == y);
                }
            }
        }
    }
}

/// Every id an evaluation order places is needed.
proof fn lemma_placed_needed(
    nodes: Seq<NodeRecordView>,
    links: Seq<TexLinkView>,
    needed: Seq<Seq<char>>,
    a: Seq<Seq<char>>,
    ka: int,
    j: int,
)
    requires
        evaluation_order(links, needed, needed_ids(nodes, needed), a, ka),
        0 <= j < ka,
    ensures
        needed.contains(a.take(ka)[j]),
{
    let ids = needed_ids(nodes, needed);
    let lt = link_targets(links, needed);
    let x = a.take(ka)[j];
    assert((ids + lt).contains(x));
    let m = choose|m: int| 0 <= m < (ids + lt).len() && #[trigger] (ids + lt)[m] == x;
    if m < ids.len() {
        assert(ids[m] == x);
        lemma_needed_ids_needed(nodes, needed, x);
    } else {
        assert(lt[m - ids.len()] == x);
        lemma_link_targets_needed(links, needed, x);
    }
}

/// The latest fingerprint of an id placed at `m` before `j` is the same after `j` ids
/// as after all of them.
proof fn lemma_latest_settled(
    nodes: Seq<NodeRecordView>,
    links: Seq<TexLinkView>,
    res: u32,
    p: Seq<Seq<char>>,
    j: int,
    m: int,
)
    requires
        p.no_duplicates(),
        0 <= m < j <= p.len(),
    ensures
        latest_fp(fp_entries(nodes, links, res, p.take(j)), p[m]) == latest_fp(
            fp_entries(nodes, links, res, p),
            p[m],
        ),
{
    let q = p.take(j);
    assert(q.no_duplicates()) by {
        assert forall|a: int, b: int| 0 <= a < q.len() && 0 <= b < q.len() && a != b implies q[a]
            != q[b] by {
            assert(q[a] == p[a] && q[b] == p[b]);
        }
    }
    assert(q[m] == p[m]);
    lemma_latest_at(nodes, links, res, q, m);
    lemma_latest_at(nodes, links, res, p, m);
    assert(q.take(m) =~= p.take(m));
}

proof fn lemma_placed_agree(
    nodes: Seq<NodeRecordView>,
    links: Seq<TexLinkView>,
    needed: Seq<Seq<char>>,
    res: u32,
    a: Seq<Seq<char>>,
    ka: int,
    b: Seq<Seq<char>>,
    kb: int,
    i: int,
)
    requires
        evaluation_order(links, needed, needed_ids(nodes, needed), a, ka),
        evaluation_order(links, needed, needed_ids(nodes, needed), b, kb),
        0 <= i <= ka,
    ensures
        forall|j: int|
            0 <= j < i ==> latest_fp(fp_entries(nodes, links, res, a.take(ka)), #[trigger] a.take(ka)[j])
                == latest_fp(fp_entries(nodes, links, res, b.take(kb)), a.take(ka)[j]),
    decreases i,
{
    if i > 0 {
        lemma_placed_agree(nodes, links, needed, res, a, ka, b, kb, i - 1);
        let ids = needed_ids(nodes, needed);
        let pa = a.take(ka);
        let pb = b.take(kb);
        let j = i - 1;
        let x = pa[j];
        law_evaluation_orders_place_the_same_ids(links, needed, ids, a, ka, b, kb);
        assert(pb.contains(x));
        let j2 = choose|j2: int| 0 <= j2 < pb.len() && #[trigger] pb[j2] == x;
        lemma_latest_at(nodes, links, res, pa, j);
        lemma_latest_at(nodes, links, res, pb, j2);
        let ea = fp_entries(nodes, links, res, pa.take(j));
        let eb = fp_entries(nodes, links, res, pb.take(j2));
        if fp_recorded(nodes, x) {
            let k = first_node(nodes, x, 0)->0;
            lemma_first_node_id(nodes, x, 0);
            lemma_placed_needed(nodes, links, needed, a, ka, j);
            assert(inputs_done(links, needed, x, pa.take(j)));
            assert(inputs_done(links, needed, x, pb.take(j2)));
            assert forall|l: int|
                0 <= l < links.len() && (#[trigger] links[l]).to_node == nodes[k].id implies latest_fp(
                ea,
                links[l].from_node,
            ) == latest_fp(eb, links[l].from_node) by {
                let u = links[l].from_node;
                if needed.contains(u) {
                    assert(pa.take(j).contains(u));
                    let m = choose|m: int| 0 <= m < pa.take(j).len() && #[trigger] pa.take(j)[m] == u;
                    assert(pa[m] == u);
                    lemma_latest_settled(nodes, links, res, pa, j, m);
                    assert(pb.take(j2).contains(u));
                    let m2 = choose|m2: int| 0 <= m2 < pb.take(j2).len() && #[trigger] pb.take(j2)[m2] == u;
                    assert(pb[m2] == u);
                    lemma_latest_settled(nodes, links, res, pb, j2, m2);
                } else {
                    assert(!pa.take(j).contains(u)) by {
                        if pa.take(j).contains(u) {
                            let m = choose|m: int| 0 <= m < pa.take(j).len() && #[trigger] pa.take(j)[m] == u;
                            assert(pa[m] == u);
                            lemma_placed_needed(nodes, links, needed, a, ka, m);
                        }
                    }
                    assert(!pb.take(j2).contains(u)) by {
                        if pb.take(j2).contains(u) {
                            let m = choose|m: int| 0 <= m < pb.take(j2).len() && #[trigger] pb.take(j2)[m] == u;
                            assert(pb[m] == u);
                            lemma_placed_needed(nodes, links, needed, b, kb, m);
                        }
                    }
                    lemma_latest_absent(nodes, links, res, pa.take(j), u);
                    lemma_latest_absent(nodes, links, res, pb.take(j2), u);
                }
            }
            lemma_node_fp_agree(nodes[k], links, ea, eb, res);
        }
    }
}

/// The fingerprints do not depend on which evaluation order is taken: along any two
/// evaluation orders of the same graph, every id ends with the same latest fingerprint.
pub proof fn law_fingerprints_independent_of_order(
    nodes: Seq<NodeRecordView>,
    links: Seq<TexLinkView>,
    needed: Seq<Seq<char>>,
    res: u32,
    a: Seq<Seq<char>>,
    ka: int,
    b: Seq<Seq<char>>,
    kb: int,
)
    requires
        evaluation_order(links, needed, needed_ids(nodes, needed), a, ka),
        evaluation_order(links, needed, needed_ids(nodes, needed), b, kb),
    ensures
        forall|y: Seq<char>| #[trigger] latest_fp(fp_entries(nodes, links, res, a), y) == latest_fp(
            fp_entries(nodes, links, res, b),
            y,
        ),
{
    let ids = needed_ids(nodes, needed);
    let pa = a.take(ka);
    let pb = b.take(kb);
    law_evaluation_orders_place_the_same_ids(links, needed, ids, a, ka, b, kb);
    lemma_placed_agree(nodes, links, needed, res, a, ka, b, kb, ka);
    assert forall|y: Seq<char>| #[trigger] latest_fp(fp_entries(nodes, links, res, pa), y)
        == latest_fp(fp_entries(nodes, links, res, pb), y) by {
        if pa.contains(y) {
            let j = choose|j: int| 0 <= j < pa.len() && #[trigger] pa[j] == y;
            assert(latest_fp(fp_entries(nodes, links, res, pa), pa[j]) == latest_fp(
                fp_entries(nodes, links, res, pb),
                pa[j],
            ));
        } else {
            lemma_latest_absent(nodes, links, res, pa, y);
            lemma_latest_absent(nodes, links, res, pb, y);
        }
    }
    lemma_agree_extend(nodes, links, res, pa, pb, a.skip(ka));
    assert(pa + a.skip(ka) =~= a);
    assert(pb + b.skip(kb) =~= b);
}

// ---------------------------------------------------------------------------------------
// Every parameter a node reads reaches its hash
// ---------------------------------------------------------------------------------------
/// The tail words (32-bit parameters) a node kind's output depends on: line settings
/// 0..5, distort 5..8, warp 8, directional warp 9..11, blur 11, slope blur intensity and
/// samples 12..14, checker intensities and scale 15..18, tile 18..26, bricks 26..32, flood
/// fill 32..36, shape sizes and sides 37..40, transform 40..45, tile sampler 46..52.
pub open spec fn tail_params(k: NodeKind, w: int) -> bool {
    match k {
        NodeKind::Lines => 0 <= w < 5,
        NodeKind::Distort => 5 <= w < 8,
        NodeKind::Warp => w == 8,
        NodeKind::DirectionalWarp => 9 <= w < 11,
        NodeKind::Blur => w == 11,
        NodeKind::SlopeBlur => 12 <= w < 14,
        NodeKind::Checker => 15 <= w < 18,
        NodeKind::Tile => 18 <= w < 26,
        NodeKind::Bricks => 26 <= w < 32,
        NodeKind::FloodFill => 32 <= w < 36,
        NodeKind::Shape => 37 <= w < 40,
        NodeKind::Transform => 40 <= w < 45,
        NodeKind::TileSampler => 46 <= w < 52,
        _ => false,
    }
}

/// The head words (32-bit parameters) a node kind's output depends on: color 2..6, noise
/// scale, octaves, persistence, seed and distortion (7, 8, 9, 11, 12), blend mix and
/// constant colors 14..23, levels 24..29, normal strength 29, curvature 30..32.
pub open spec fn head_params(k: NodeKind, w: int) -> bool {
    match k {
        NodeKind::Color => 2 <= w < 6,
        NodeKind::Noise => w == 7 || w == 8 || w == 9 || w == 11 || w == 12,
        NodeKind::Blend => 14 <= w < 23,
        NodeKind::Levels => 24 <= w < 29,
        NodeKind::HeightToNormal => w == 29,
        NodeKind::Curvature => 30 <= w < 32,
        _ => false,
    }
}

spec fn tail_chunk_at(k: NodeKind, w: int) -> int {
    match k {
        NodeKind::Lines => 1 + w,
        NodeKind::Distort => 1 + w - 5,
        NodeKind::Warp => 1 + w - 8,
        NodeKind::DirectionalWarp => 1 + w - 9,
        NodeKind::Blur => 1 + w - 11,
        NodeKind::SlopeBlur => 1 + w - 12,
        NodeKind::Checker => 1 + w - 15,
        NodeKind::Tile => 1 + w - 18,
        NodeKind::Bricks => 1 + w - 26,
        NodeKind::FloodFill => 1 + w - 32,
        NodeKind::Shape => 2 + w - 37,
        NodeKind::Transform => 1 + w - 40,
        NodeKind::TileSampler => 1 + w - 46,
        _ => 0,
    }
}

spec fn head_chunk_at(k: NodeKind, w: int) -> int {
    match k {
        NodeKind::Color => 1 + w - 2,
        NodeKind::Noise => 1 + w - 6,
        NodeKind::Blend => 2 + w - 14,
        NodeKind::Levels => 1 + w - 24,
        NodeKind::HeightToNormal => 1 + w - 29,
        NodeKind::Curvature => 1 + w - 30,
        _ => 0,
    }
}

proof fn lemma_word_chunk_injective(a: u32, b: u32)
    requires
        a != b,
    ensures
        word_chunk(a) != word_chunk(b),
{
    if word_chunk(a) == word_chunk(b) {
        let p = bytes32(a as int);
        assert(p.subrange(0, 4) =~= p);
        lemma_le32_at(p, 0, a as int);
        lemma_le32_at(p, 0, b as int);
    }
}

/// Changing any tail parameter a node's kind reads changes what the node's parameter
/// hash is fed, so a bake sees the change (a checker's scale, a tile grid's counts, ...).
pub proof fn law_param_hash_sees_tail_params(n: NodeRecordView, w: int, v: u32)
    requires
        0 <= w < n.tail.len(),
        tail_params(n.kind, w),
        v != n.tail[w],
    ensures
        param_chunks(n) != param_chunks(NodeRecordView { tail: n.tail.update(w, v), ..n }),
{
    let m = NodeRecordView { tail: n.tail.update(w, v), ..n };
    lemma_word_chunk_injective(n.tail[w], v);
    let i = tail_chunk_at(n.kind, w);
    assert(param_chunks(n)[i] == word_chunk(n.tail[w]));
    assert(param_chunks(m)[i] == word_chunk(v));
}

/// Changing any head parameter a node's kind reads changes what the node's parameter
/// hash is fed.
pub proof fn law_param_hash_sees_head_params(n: NodeRecordView, w: int, v: u32)
    requires
        0 <= w < n.head.len(),
        head_params(n.kind, w),
        v != n.head[w],
    ensures
        param_chunks(n) != param_chunks(NodeRecordView { head: n.head.update(w, v), ..n }),
{
    let m = NodeRecordView { head: n.head.update(w, v), ..n };
    lemma_word_chunk_injective(n.head[w], v);
    let i = head_chunk_at(n.kind, w);
    assert(param_chunks(n)[i] == word_chunk(n.head[w]));
    assert(param_chunks(m)[i] == word_chunk(v));
}

// ---------------------------------------------------------------------------------------
// The resolution is part of every fingerprint
// ---------------------------------------------------------------------------------------
/// Two values whose difference is a multiple of 2^64 and that are closer than 2^64 are
/// equal.
proof fn lemma_mod_zero_small(d: int)
    requires
        -0x1_0000_0000_0000_0000 < d < 0x1_0000_0000_0000_0000,
        d % 0x1_0000_0000_0000_0000 == 0,
    ensures
        d == 0,
{
    let m = 0x1_0000_0000_0000_0000int;
    if d > 0 {
        vstd::arithmetic::div_mod::lemma_small_mod(d as nat, m as nat);
    } else if d < 0 {
        vstd::arithmetic::div_mod::lemma_mod_multiples_vanish(1, d, m);
        assert(m * 1 + d == m + d);
        vstd::arithmetic::div_mod::lemma_small_mod((m + d) as nat, m as nat);
    }
}

/// Multiplying by the (odd) golden-ratio constant is one-to-one modulo 2^64.
proof fn lemma_golden_mul_injective(b1: int, b2: int)
    requires
        0 <= b1 < 0x1_0000_0000_0000_0000,
        0 <= b2 < 0x1_0000_0000_0000_0000,
        (b1 * 0x9E3779B97F4A7C15int) % 0x1_0000_0000_0000_0000 == (b2 * 0x9E3779B97F4A7C15int)
            % 0x1_0000_0000_0000_0000,
    ensures
        b1 == b2,
{
    let m = 0x1_0000_0000_0000_0000int;
    let k = 0x9E3779B97F4A7C15int;
    let inv = 0xf1de83e19937733dint;
    let q = 10771413168148108919int;
    let d = b1 - b2;
    assert(k * inv == 1 + q * m);
    assert(b1 * k - b2 * k == d * k) by (nonlinear_arith)
        requires
            d == b1 - b2,
    ;
    vstd::arithmetic::div_mod::lemma_mod_equivalence(b1 * k, b2 * k, m);
    assert((d * k) % m == 0);
    vstd::arithmetic::div_mod::lemma_mul_mod_noop_left(d * k, inv, m);
    assert(((d * k) % m) * inv == 0);
    assert((d * k) * inv == d * (k * inv)) by (nonlinear_arith);
    assert(d * (1 + q * m) == m * (d * q) + d) by (nonlinear_arith);
    assert((d * k) * inv == m * (d * q) + d);
    vstd::arithmetic::div_mod::lemma_mod_multiples_vanish(d * q, d, m);
    assert(0int % m == 0);
    lemma_mod_zero_small(d);
}

/// Mixing different values into the same running hash gives different hashes.
pub proof fn lemma_hash_mix_injective(a: u64, b1: u64, b2: u64)
    requires
        b1 != b2,
    ensures
        hash_mix(a, b1) != hash_mix(a, b2),
{
    let m = 0x1_0000_0000_0000_0000int;
    let c = (a << 6u64) as int + (a >> 2u64) as int;
    let u1 = (b1 as int * 0x9E3779B97F4A7C15int) % m;
    let u2 = (b2 as int * 0x9E3779B97F4A7C15int) % m;
    let x1 = ((u1 + c) % m) as u64;
    let x2 = ((u2 + c) % m) as u64;
    if hash_mix(a, b1) == hash_mix(a, b2) {
        assert(a ^ x1 == a ^ x2);
        assert(x1 == x2) by (bit_vector)
            requires
                a ^ x1 == a ^ x2,
        ;
        vstd::arithmetic::div_mod::lemma_mod_equivalence(u1 + c, u2 + c, m);
        assert((u1 + c) - (u2 + c) == u1 - u2);
        lemma_mod_zero_small(u1 - u2);
        lemma_golden_mul_injective(b1 as int, b2 as int);
    }
}

/// The resolution is mixed into every fingerprint last: with the same parameters and
/// the same upstream fingerprints, different resolutions give different fingerprints, so a
/// bake at a new resolution never reuses a texture of another.
pub proof fn law_fingerprint_depends_on_resolution(
    n: NodeRecordView,
    links: Seq<TexLinkView>,
    entries: Seq<(Seq<char>, u64)>,
    r1: u32,
    r2: u32,
)
    requires
        r1 != r2,
    ensures
        node_fp(n, links, entries, r1) != node_fp(n, links, entries, r2),
{
    lemma_hash_mix_injective(mix_ports(param_hash(n), links, entries, n.id, kind_ports(n.kind)), r1 as u64, r2 as u64);
}

/// A node nothing links into gets a different fingerprint at every resolution, whatever
/// else was recorded before it.
pub proof fn law_source_fingerprint_depends_on_resolution(
    n: NodeRecordView,
    links: Seq<TexLinkView>,
    e1: Seq<(Seq<char>, u64)>,
    e2: Seq<(Seq<char>, u64)>,
    r1: u32,
    r2: u32,
)
    requires
        r1 != r2,
        forall|j: int| 0 <= j < links.len() ==> (#[trigger] links[j]).to_node != n.id,
    ensures
        node_fp(n, links, e1, r1) != node_fp(n, links, e2, r2),
{
    lemma_node_fp_agree(n, links, e1, e2, r2);
    law_fingerprint_depends_on_resolution(n, links, e1, r1, r2);
}

/// Fingerprints are recorded along the order for exactly the ids that name a node other
/// than the output node: every entry is such an id of the order, and every such id of the
/// order gets an entry.
pub proof fn law_fingerprints_skip_the_output(
    nodes: Seq<NodeRecordView>,
    links: Seq<TexLinkView>,
    res: u32,
    order: Seq<Seq<char>>,
)
    ensures
        forall|k: int|
            0 <= k < fp_entries(nodes, links, res, order).len() ==> {
                let id = (#[trigger] fp_entries(nodes, links, res, order)[k]).0;
                &&& order.contains(id)
                &&& first_node(nodes, id, 0) matches Some(j) && nodes[j].kind != NodeKind::Output
            },
        forall|i: int|
            0 <= i < order.len() && (first_node(nodes, #[trigger] order[i], 0) matches Some(j)
                && nodes[j].kind != NodeKind::Output) ==> exists|k: int|
                0 <= k < fp_entries(nodes, links, res, order).len() && (#[trigger] fp_entries(
                    nodes,
                    links,
                    res,
                    order,
                )[k]).0 == order[i],
    decreases order.len(),
{
    if order.len() > 0 {
        let d = order.drop_last();
        law_fingerprints_skip_the_output(nodes, links, res, d);
        let rest = fp_entries(nodes, links, res, d);
        let all = fp_entries(nodes, links, res, order);
        assert forall|k: int| 0 <= k < all.len() implies {
            let id = (#[trigger] all[k]).0;
            &&& order.contains(id)
            &&& first_node(nodes, id, 0) matches Some(j) && nodes[j].kind != NodeKind::Output
        } by {
            if k < rest.len() {
                assert(all[k] == rest[k]);
                let x = rest[k].0;
                assert(d.contains(x));
                let m = choose|m: int| 0 <= m < d.len() && d[m] == x;
                assert(order[m] == x);
            } else {
                assert(all[k].0 == order.last());
                assert(order[order.len() - 1] == order.last());
            }
        }
        assert forall|i: int|
            0 <= i < order.len() && (first_node(nodes, #[trigger] order[i], 0) matches Some(j)
                && nodes[j].kind != NodeKind::Output) implies exists|k: int|
                0 <= k < all.len() && (#[trigger] all[k]).0 == order[i] by {
            if i < d.len() {
                assert(d[i] == order[i]);
                let k = choose|k: int| 0 <= k < rest.len() && (#[trigger] rest[k]).0 == d[i];
                assert(all[k] == rest[k]);
            } else {
                assert(order[i] == order.last());
                assert(all[rest.len() as int].0 == order[i]);
            }
        }
    }
}

} // verus!
