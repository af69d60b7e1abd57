//! Which upstream textures a node's dispatch samples: each node kind reads up to three
//! input ports, bound to texture slots a, b, c in order; a slot whose port is linked is
//! bound to the texture of the node feeding it and flagged, an unlinked one falls back
//! to the node's constant.
use vstd::prelude::*;
use crate::graph::{
    NodeRecord, NodeRecordView, TexLink, TexLinkView, nodes_view, links_view, find_link, feeds,
    first_feed, lemma_first_feed, lemma_no_feed, color_fed, src_is_color, first_node,
};
use crate::texgen::NodeKind;
use crate::fingerprint::kind_ports;

verus! {

/// The input ports a node kind samples, in slot order.
pub open spec fn slot_ports(k: NodeKind) -> Seq<Seq<char>> {
    match k {
        NodeKind::Blend => seq!["a"@, "b"@, "mask"@],
        NodeKind::Levels | NodeKind::GrayToColor | NodeKind::ColorToGray | NodeKind::Invert
        | NodeKind::Distort | NodeKind::Transform | NodeKind::TileSampler => seq!["in"@],
        NodeKind::ColorRamp => seq!["fac"@],
        NodeKind::HeightToNormal | NodeKind::Curvature => seq!["height"@],
        NodeKind::Warp | NodeKind::DirectionalWarp => seq!["in"@, "drive"@],
        NodeKind::SlopeBlur => seq!["in"@, "slope"@],
        _ => Seq::empty(),
    }
}

/// The node feeding port `port` of `node` (through the first such link), if any.
pub open spec fn feed_source(links: Seq<TexLinkView>, node: Seq<char>, port: Seq<char>) -> Option<
    Seq<char>,
> {
    match first_feed(links, node, port, 0) {
        Some(i) => Some(links[i].from_node),
        None => None,
    }
}

/// Texture bindings of one dispatch: the upstream node per slot (a, b, c), the flag bits
/// of the linked slots (2, 4, 8), and whether an invert node inverts a color input.
pub struct BindPlan {
    pub slots: Vec<Option<String>>,
    pub flags: u32,
    pub invert_color: bool,
}

pub open spec fn opt_view(o: Option<String>) -> Option<Seq<char>> {
    match o {
        Some(s) => Some(s@),
        None => None,
    }
}

pub open spec fn slot_source(links: Seq<TexLinkView>, n: NodeRecordView, s: int) -> Option<Seq<char>> {
    if s < slot_ports(n.kind).len() {
        feed_source(links, n.id, slot_ports(n.kind)[s])
    } else {
        None
    }
}

pub open spec fn flag_bit(links: Seq<TexLinkView>, n: NodeRecordView, s: int, bit: u32) -> u32 {
    if slot_source(links, n, s) is Some {
        bit
    } else {
        0
    }
}

fn source_of(links: &[TexLink], node: &str, port: &str) -> (r: Option<String>)
    ensures
        opt_view(r) == feed_source(links_view(links@), node@, port@),
{
    let ghost lv = links_view(links@);
    match find_link(links, node, port) {
        Some(l) => {
            proof {
                let i = choose|i: int|
                    0 <= i < links@.len() && links@[i] == *l && feeds(links@[i].view(), node@, port@)
                        && forall|j: int| 0 <= j < i ==> !feeds(#[trigger] links@[j].view(), node@, port@);
                assert forall|j: int| 0 <= j < i implies !feeds(#[trigger] lv[j], node@, port@) by {
                    assert(lv[j] == links@[j].view());
                }
                lemma_first_feed(lv, node@, port@, 0, i);
                assert(lv[i].from_node == l.from_node@);
            }
            Some(l.from_node.clone())
        },
        None => {
            proof {
                assert forall|j: int| 0 <= j < lv.len() implies !feeds(#[trigger] lv[j], node@, port@) by {
                    assert(lv[j] == links@[j].view());
                }
                lemma_no_feed(lv, node@, port@, 0);
            }
            None
        },
    }
}

fn ports_exec(k: NodeKind) -> (r: Vec<&'static str>)
    ensures
        r@.len() == slot_ports(k).len(),
        forall|i: int| 0 <= i < r@.len() ==> (#[trigger] r@[i])@ == slot_ports(k)[i],
{
    proof {
        reveal_strlit("a");
        reveal_strlit("b");
        reveal_strlit("mask");
        reveal_strlit("in");
        reveal_strlit("fac");
        reveal_strlit("height");
        reveal_strlit("drive");
        reveal_strlit("slope");
    }
    match k {
        NodeKind::Blend => vec!["a", "b", "mask"],
        NodeKind::Levels | NodeKind::GrayToColor | NodeKind::ColorToGray | NodeKind::Invert
        | NodeKind::Distort | NodeKind::Transform | NodeKind::TileSampler => vec!["in"],
        NodeKind::ColorRamp => vec!["fac"],
        NodeKind::HeightToNormal | NodeKind::Curvature => vec!["height"],
        NodeKind::Warp | NodeKind::DirectionalWarp => vec!["in", "drive"],
        NodeKind::SlopeBlur => vec!["in", "slope"],
        _ => Vec::new(),
    }
}

/// The texture bindings of node `n`'s dispatch.
pub fn bind_plan(nodes: &Vec<NodeRecord>, links: &[TexLink], n: &NodeRecord) -> (r: BindPlan)
    ensures
        r.slots@.len() == 3,
        forall|s: int| 0 <= s < 3 ==> opt_view(#[trigger] r.slots@[s]) == slot_source(links_view(links@), n.view(), s),
        r.flags == flag_bit(links_view(links@), n.view(), 0, 2) + flag_bit(links_view(links@), n.view(), 1, 4)
            + flag_bit(links_view(links@), n.view(), 2, 8),
        r.invert_color == (n.kind == NodeKind::Invert && color_fed(
            nodes_view(nodes@),
            links_view(links@),
            n.id@,
            "in"@,
        )),
{
    let ghost lv = links_view(links@);
    let ports = ports_exec(n.kind);
    let mut slots: Vec<Option<String>> = Vec::new();
    let mut flags: u32 = 0;
    let mut s: usize = 0;
    while s < 3
        invariant
            s <= 3,
            lv == links_view(links@),
            ports@.len() == slot_ports(n.kind).len(),
            ports@.len() <= 3,
            forall|i: int| 0 <= i < ports@.len() ==> (#[trigger] ports@[i])@ == slot_ports(n.kind)[i],
            slots@.len() == s,
            forall|t: int| 0 <= t < s ==> opt_view(#[trigger] slots@[t]) == slot_source(lv, n.view(), t),
            flags == (if s > 0 {
                flag_bit(lv, n.view(), 0, 2)
            } else {
                0
            }) + (if s > 1 {
                flag_bit(lv, n.view(), 1, 4)
            } else {
                0
            }) + (if s > 2 {
                flag_bit(lv, n.view(), 2, 8)
            } else {
                0
            }),
        decreases 3 - s,
    {
        let bit: u32 = if s == 0 {
            2
        } else if s == 1 {
            4
        } else {
            8
        };
        if s < ports.len() {
            let src = source_of(links, n.id.as_str(), ports[s]);
            if src.is_some() {
                flags = flags + bit;
            }
            slots.push(src);
        } else {
            slots.push(None);
        }
        s += 1;
    }
    let invert_color = match n.kind {
        NodeKind::Invert => {
            proof {
                reveal_strlit("in");
            }
            src_is_color(nodes, links, n.id.as_str(), "in")
        },
        _ => false,
    };
    BindPlan { slots, flags, invert_color }
}

/// Which port each texture slot of a dispatch reads, for every node kind: slot a is the
/// kind's main input ("in"; "a" for blend; "fac" for a color ramp; "height" for normal and
/// curvature maps), slot b its second input ("b" for blend, "drive" for the warps, "slope"
/// for slope blur), slot c blend's "mask"; kinds that sample nothing bind no slot. A slot
/// is bound to the node feeding that port, so swapping two ports swaps their sources.
pub proof fn law_slots_read_their_ports(links: Seq<TexLinkView>, n: NodeRecordView)
    ensures
        ({
            let src = |p: Seq<char>| feed_source(links, n.id, p);
            let a = slot_source(links, n, 0);
            let b = slot_source(links, n, 1);
            let c = slot_source(links, n, 2);
            &&& n.kind == NodeKind::Blend ==> a == src("a"@) && b == src("b"@) && c == src("mask"@)
            &&& n.kind == NodeKind::SlopeBlur ==> a == src("in"@) && b == src("slope"@) && c is None
            &&& (n.kind == NodeKind::Warp || n.kind == NodeKind::DirectionalWarp) ==> a == src("in"@)
                && b == src("drive"@) && c is None
            &&& (n.kind == NodeKind::Levels || n.kind == NodeKind::GrayToColor || n.kind
                == NodeKind::ColorToGray || n.kind == NodeKind::Invert || n.kind == NodeKind::Distort
                || n.kind == NodeKind::Transform || n.kind == NodeKind::TileSampler) ==> a == src(
                "in"@,
            ) && b is None && c is None
            &&& n.kind == NodeKind::ColorRamp ==> a == src("fac"@) && b is None && c is None
            &&& (n.kind == NodeKind::HeightToNormal || n.kind == NodeKind::Curvature) ==> a == src(
                "height"@,
            ) && b is None && c is None
            &&& (n.kind == NodeKind::Noise || n.kind == NodeKind::Color || n.kind == NodeKind::Gradient
                || n.kind == NodeKind::Lines || n.kind == NodeKind::Checker || n.kind == NodeKind::Tile
                || n.kind == NodeKind::Bricks || n.kind == NodeKind::Shape || n.kind == NodeKind::Blur
                || n.kind == NodeKind::FloodFill || n.kind == NodeKind::Output) ==> a is None && b is None
                && c is None
        }),
{
}

/// A node's fingerprint mixes in the upstream content of exactly the ports its GPU pass
/// samples, in slot order; blur (its own two-pass kernel) reads "in" and "drive", and
/// flood fill (computed on the CPU) reads "in".
pub proof fn law_fingerprint_ports_are_sampled_ports(k: NodeKind)
    ensures
        k != NodeKind::Blur && k != NodeKind::FloodFill ==> kind_ports(k) == slot_ports(k),
        k == NodeKind::Blur ==> kind_ports(k) == seq!["in"@, "drive"@],
        k == NodeKind::FloodFill ==> kind_ports(k) == seq!["in"@],
{
}

/// An invert node inverts a color input exactly when the node feeding its "in" port (the
/// first link into it, the first node with that id) makes a color image: a color, blend,
/// normal map, gray-to-color or color ramp node.
pub proof fn law_invert_inverts_color_inputs(nodes: Seq<NodeRecordView>, links: Seq<TexLinkView>, id: Seq<char>)
    ensures
        color_fed(nodes, links, id, "in"@) <==> (first_feed(links, id, "in"@, 0) matches Some(i) && (first_node(
            nodes,
            links[i].from_node,
            0,
        ) matches Some(k) && {
            let kd = nodes[k].kind;
            kd == NodeKind::Color || kd == NodeKind::Blend || kd == NodeKind::HeightToNormal || kd
                == NodeKind::GrayToColor || kd == NodeKind::ColorRamp
        })),
{
}

} // verus!
