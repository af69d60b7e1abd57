//! What a `TEXG` read gives back of a write.
use vstd::prelude::*;
use vstd::utf8::*;
use crate::wire::{
    le16, le32, le64, bytes16, bytes32, bytes64, words32, words32_bytes, lemma_le16_at,
    lemma_le32_at, lemma_le64_bytes64, lemma_words32_roundtrip, lemma_words32_bytes_len,
};
use crate::texgen::{node_kind_code, node_kind_from_u8, law_node_kind_code_roundtrip};
use crate::graph::{NodeRecordView, TexLinkView, TexGraphView, has_node};
use crate::texg_file::{
    TexGraphFileView, texg_decode, texg_encode, texg_str, texg_fields, texg_words, texg_node,
    texg_nodes, texg_link, texg_links, str_bytes, field_bytes, fields_bytes, field_width,
    field_at, tag_value, node_bytes, nodes_bytes, link_bytes, links_bytes, head_codes,
    tail_codes, node_wf, stop_count, clamp_resolution, FIELD_WORD,
};

verus! {

/// `x` lies in `buf` at `pos`.
pub open spec fn lies_at(buf: Seq<u8>, pos: int, x: Seq<u8>) -> bool {
    0 <= pos && pos + x.len() <= buf.len() && buf.subrange(pos, pos + x.len()) == x
}

proof fn lemma_split(buf: Seq<u8>, pos: int, x: Seq<u8>, y: Seq<u8>)
    requires
        lies_at(buf, pos, x + y),
    ensures
        lies_at(buf, pos, x),
        lies_at(buf, pos + x.len(), y),
{
    let whole = buf.subrange(pos, pos + x.len() + y.len());
    assert(whole == x + y);
    assert(buf.subrange(pos, pos + x.len()) =~= whole.subrange(0, x.len() as int));
    assert(whole.subrange(0, x.len() as int) =~= x);
    assert(buf.subrange(pos + x.len(), pos + x.len() + y.len()) =~= whole.subrange(
        x.len() as int,
        whole.len() as int,
    ));
    assert(whole.subrange(x.len() as int, whole.len() as int) =~= y);
}

/// A string fits its u16 length prefix.
pub open spec fn str_fits(s: Seq<char>) -> bool {
    encode_utf8(s).len() <= 65535
}

proof fn lemma_str_at(buf: Seq<u8>, pos: int, s: Seq<char>)
    requires
        lies_at(buf, pos, str_bytes(s)),
        str_fits(s),
    ensures
        texg_str(buf, pos) == Ok::<(Seq<char>, int), crate::texg_file::TexGraphBytesError>(
            (s, pos + str_bytes(s).len()),
        ),
{
    let b = encode_utf8(s);
    let n = b.len() as int;
    assert(b.take(n) =~= b);
    lemma_split(buf, pos, bytes16(n), b);
    lemma_le16_at(buf, pos, n);
    encode_utf8_valid_utf8(s);
    encode_utf8_decode_utf8(s);
}

/// Fields `i..` as written, front to back.
spec fn fields_from(vals: Seq<u32>, codes: Seq<u8>, i: int) -> Seq<u8>
    decreases codes.len() - i,
{
    if i < 0 || i >= codes.len() {
        Seq::empty()
    } else {
        field_bytes(codes[i], vals[i]) + fields_from(vals, codes, i + 1)
    }
}

proof fn lemma_fields_split(vals: Seq<u32>, codes: Seq<u8>, i: int)
    requires
        0 <= i <= codes.len(),
    ensures
        fields_bytes(vals, codes, codes.len() as int) == fields_bytes(vals, codes, i) + fields_from(
            vals,
            codes,
            i,
        ),
    decreases codes.len() - i,
{
    if i < codes.len() {
        lemma_fields_split(vals, codes, i + 1);
        assert(fields_bytes(vals, codes, i + 1) == fields_bytes(vals, codes, i) + field_bytes(
            codes[i],
            vals[i],
        ));
        assert(fields_bytes(vals, codes, i) + fields_from(vals, codes, i) =~= fields_bytes(
            vals,
            codes,
            i,
        ) + field_bytes(codes[i], vals[i]) + fields_from(vals, codes, i + 1));
    } else {
        assert(fields_bytes(vals, codes, i) + fields_from(vals, codes, i) =~= fields_bytes(
            vals,
            codes,
            i,
        ));
    }
}

/// Every field holds what its code reads back: any word, or a normalized byte value.
pub open spec fn fields_ok(vals: Seq<u32>, codes: Seq<u8>) -> bool {
    &&& vals.len() == codes.len()
    &&& forall|i: int|
        0 <= i < codes.len() && codes[i] != FIELD_WORD ==> vals[i] < 256 && tag_value(
            codes[i],
            #[trigger] vals[i] as u8,
        ) == vals[i]
}

proof fn lemma_field_at(buf: Seq<u8>, pos: int, c: u8, v: u32)
    requires
        lies_at(buf, pos, field_bytes(c, v)),
        c != FIELD_WORD ==> v < 256 && tag_value(c, v as u8) == v,
    ensures
        buf.len() - pos >= field_width(c),
        field_bytes(c, v).len() == field_width(c),
        field_at(buf, pos, c) == v,
{
    if c == FIELD_WORD {
        lemma_le32_at(buf, pos, v as int);
    } else {
        assert(buf[pos] == buf.subrange(pos, pos + 1)[0]);
    }
}

proof fn lemma_fields_from_at(buf: Seq<u8>, pos: int, vals: Seq<u32>, codes: Seq<u8>, i: int)
    requires
        0 <= i <= codes.len(),
        fields_ok(vals, codes),
        lies_at(buf, pos, fields_from(vals, codes, i)),
    ensures
        texg_fields(buf, pos, codes, i, vals.take(i)) == Some(
            (vals, pos + fields_from(vals, codes, i).len()),
        ),
    decreases codes.len() - i,
{
    if i < codes.len() {
        lemma_split(buf, pos, field_bytes(codes[i], vals[i]), fields_from(vals, codes, i + 1));
        lemma_field_at(buf, pos, codes[i], vals[i]);
        assert(vals.take(i).push(vals[i]) =~= vals.take(i + 1));
        lemma_fields_from_at(buf, pos + field_width(codes[i]), vals, codes, i + 1);
    } else {
        assert(vals.take(i) =~= vals);
    }
}

proof fn lemma_fields_at(buf: Seq<u8>, pos: int, vals: Seq<u32>, codes: Seq<u8>)
    requires
        fields_ok(vals, codes),
        lies_at(buf, pos, fields_bytes(vals, codes, codes.len() as int)),
    ensures
        texg_fields(buf, pos, codes, 0, Seq::empty()) == Some(
            (vals, pos + fields_bytes(vals, codes, codes.len() as int).len()),
        ),
{
    lemma_fields_split(vals, codes, 0);
    assert(fields_bytes(vals, codes, 0) =~= Seq::<u8>::empty());
    assert(fields_bytes(vals, codes, codes.len() as int) =~= fields_from(vals, codes, 0));
    assert(vals.take(0) =~= Seq::<u32>::empty());
    lemma_fields_from_at(buf, pos, vals, codes, 0);
}

proof fn lemma_words_at(buf: Seq<u8>, pos: int, ws: Seq<u32>)
    requires
        lies_at(buf, pos, words32_bytes(ws)),
    ensures
        texg_words(buf, pos, ws.len() as int) == Some((ws, pos + 4 * ws.len())),
{
    lemma_words32_bytes_len(ws);
    lemma_words32_roundtrip(ws);
    let sub = buf.subrange(pos, pos + 4 * ws.len());
    let got = Seq::new(ws.len(), |j: int| le32(buf, pos + 4 * j) as u32);
    assert forall|j: int| 0 <= j < ws.len() implies #[trigger] got[j] == ws[j] by {
        assert(words32(sub)[j] == ws[j]);
        assert(sub[4 * j] == buf[pos + 4 * j]);
        assert(sub[4 * j + 1] == buf[pos + 4 * j + 1]);
        assert(sub[4 * j + 2] == buf[pos + 4 * j + 2]);
        assert(sub[4 * j + 3] == buf[pos + 4 * j + 3]);
    }
    assert(got =~= ws);
}

/// A node whose every part reads back as written: shape, fitting id and stop counts,
/// normalized one-byte fields.
pub open spec fn node_ok(n: NodeRecordView) -> bool {
    &&& node_wf(n)
    &&& str_fits(n.id)
    &&& n.colors.len() / 5 <= 65535
    &&& n.opacities.len() / 2 <= 65535
    &&& fields_ok(n.head, head_codes())
    &&& fields_ok(n.tail, tail_codes())
}

#[verifier::rlimit(40)]
proof fn lemma_node_at(buf: Seq<u8>, pos: int, n: NodeRecordView)
    requires
        lies_at(buf, pos, node_bytes(n)),
        node_ok(n),
    ensures
        texg_node(buf, pos) == Ok::<(NodeRecordView, int), crate::texg_file::TexGraphBytesError>(
            (n, pos + node_bytes(n).len()),
        ),
{
    let k = seq![node_kind_code(n.kind)];
    let id = str_bytes(n.id);
    let hd = fields_bytes(n.head, head_codes(), 32);
    let nc = bytes16(stop_count(n.colors.len() as int, 5));
    let cw = words32_bytes(n.colors);
    let no = bytes16(stop_count(n.opacities.len() as int, 2));
    let ow = words32_bytes(n.opacities);
    let tl = fields_bytes(n.tail, tail_codes(), 55);
    reveal(node_bytes);
    assert(node_bytes(n) == k + id + hd + nc + cw + no + ow + tl);
    lemma_split(buf, pos, k + id + hd + nc + cw + no + ow, tl);
    lemma_split(buf, pos, k + id + hd + nc + cw + no, ow);
    lemma_split(buf, pos, k + id + hd + nc + cw, no);
    lemma_split(buf, pos, k + id + hd + nc, cw);
    lemma_split(buf, pos, k + id + hd, nc);
    lemma_split(buf, pos, k + id, hd);
    lemma_split(buf, pos, k, id);
    assert(buf[pos] == buf.subrange(pos, pos + 1)[0]);
    law_node_kind_code_roundtrip(n.kind, 0);
    let q1 = pos + 1;
    lemma_str_at(buf, q1, n.id);
    let q2 = q1 + id.len();
    assert(head_codes().len() == 32);
    assert(tail_codes().len() == 55);
    lemma_fields_at(buf, q2, n.head, head_codes());
    let q3 = q2 + hd.len();
    let c5 = n.colors.len() / 5;
    let o2 = n.opacities.len() / 2;
    lemma_le16_at(buf, q3, c5 as int);
    lemma_words_at(buf, q3 + 2, n.colors);
    lemma_words32_bytes_len(n.colors);
    let q4 = q3 + 2 + cw.len();
    lemma_le16_at(buf, q4, o2 as int);
    lemma_words_at(buf, q4 + 2, n.opacities);
    lemma_words32_bytes_len(n.opacities);
    let q5 = q4 + 2 + ow.len();
    lemma_fields_at(buf, q5, n.tail, tail_codes());
}

proof fn lemma_nodes_bytes_add(a: Seq<NodeRecordView>, b: Seq<NodeRecordView>)
    ensures
        nodes_bytes(a + b) == nodes_bytes(a) + nodes_bytes(b),
    decreases b.len(),
{
    if b.len() == 0 {
        assert(a + b =~= a);
        assert(nodes_bytes(a) + nodes_bytes(b) =~= nodes_bytes(a));
    } else {
        lemma_nodes_bytes_add(a, b.drop_last());
        assert((a + b).drop_last() =~= a + b.drop_last());
        assert(nodes_bytes(a) + nodes_bytes(b) =~= nodes_bytes(a) + nodes_bytes(b.drop_last())
            + node_bytes(b.last()));
    }
}

proof fn lemma_nodes_from(buf: Seq<u8>, pos: int, ns: Seq<NodeRecordView>, i: int)
    requires
        0 <= i <= ns.len(),
        lies_at(buf, pos, nodes_bytes(ns.skip(i))),
        forall|j: int| 0 <= j < ns.len() ==> node_ok(#[trigger] ns[j]),
    ensures
        texg_nodes(buf, pos, (ns.len() - i) as nat, ns.take(i)) == Ok::<
            (Seq<NodeRecordView>, int),
            crate::texg_file::TexGraphBytesError,
        >((ns, pos + nodes_bytes(ns.skip(i)).len())),
    decreases ns.len() - i,
{
    if i < ns.len() {
        let rest = ns.skip(i);
        assert(rest =~= seq![ns[i]] + ns.skip(i + 1));
        lemma_nodes_bytes_add(seq![ns[i]], ns.skip(i + 1));
        assert(seq![ns[i]].drop_last() =~= Seq::<NodeRecordView>::empty());
        assert(nodes_bytes(Seq::<NodeRecordView>::empty()) == Seq::<u8>::empty());
        assert(nodes_bytes(seq![ns[i]]) == nodes_bytes(Seq::<NodeRecordView>::empty()) + node_bytes(ns[i]));
        assert(nodes_bytes(seq![ns[i]]) =~= node_bytes(ns[i]));
        lemma_split(buf, pos, node_bytes(ns[i]), nodes_bytes(ns.skip(i + 1)));
        lemma_node_at(buf, pos, ns[i]);
        assert(ns.take(i).push(ns[i]) =~= ns.take(i + 1));
        lemma_nodes_from(buf, pos + node_bytes(ns[i]).len(), ns, i + 1);
    } else {
        assert(ns.take(i) =~= ns);
        assert(ns.skip(i) =~= Seq::<NodeRecordView>::empty());
    }
}

/// A link whose four strings fit their length prefixes.
pub open spec fn link_ok(l: TexLinkView) -> bool {
    str_fits(l.from_node) && str_fits(l.from_port) && str_fits(l.to_node) && str_fits(l.to_port)
}

proof fn lemma_link_at(buf: Seq<u8>, pos: int, l: TexLinkView)
    requires
        lies_at(buf, pos, link_bytes(l)),
        link_ok(l),
    ensures
        texg_link(buf, pos) == Ok::<(TexLinkView, int), crate::texg_file::TexGraphBytesError>(
            (l, pos + link_bytes(l).len()),
        ),
{
    let a = str_bytes(l.from_node);
    let b = str_bytes(l.from_port);
    let c = str_bytes(l.to_node);
    let d = str_bytes(l.to_port);
    lemma_split(buf, pos, a + b + c, d);
    lemma_split(buf, pos, a + b, c);
    lemma_split(buf, pos, a, b);
    lemma_str_at(buf, pos, l.from_node);
    lemma_str_at(buf, pos + a.len(), l.from_port);
    lemma_str_at(buf, pos + a.len() + b.len(), l.to_node);
    lemma_str_at(buf, pos + a.len() + b.len() + c.len(), l.to_port);
}

proof fn lemma_links_bytes_add(a: Seq<TexLinkView>, b: Seq<TexLinkView>)
    ensures
        links_bytes(a + b) == links_bytes(a) + links_bytes(b),
    decreases b.len(),
{
    if b.len() == 0 {
        assert(a + b =~= a);
        assert(links_bytes(a) + links_bytes(b) =~= links_bytes(a));
    } else {
        lemma_links_bytes_add(a, b.drop_last());
        assert((a + b).drop_last() =~= a + b.drop_last());
        assert(links_bytes(a) + links_bytes(b) =~= links_bytes(a) + links_bytes(b.drop_last())
            + link_bytes(b.last()));
    }
}

proof fn lemma_links_from(buf: Seq<u8>, pos: int, ls: Seq<TexLinkView>, i: int)
    requires
        0 <= i <= ls.len(),
        lies_at(buf, pos, links_bytes(ls.skip(i))),
        forall|j: int| 0 <= j < ls.len() ==> link_ok(#[trigger] ls[j]),
    ensures
        texg_links(buf, pos, (ls.len() - i) as nat, ls.take(i)) == Ok::<
            (Seq<TexLinkView>, int),
            crate::texg_file::TexGraphBytesError,
        >((ls, pos + links_bytes(ls.skip(i)).len())),
    decreases ls.len() - i,
{
    if i < ls.len() {
        assert(ls.skip(i) =~= seq![ls[i]] + ls.skip(i + 1));
        lemma_links_bytes_add(seq![ls[i]], ls.skip(i + 1));
        assert(seq![ls[i]].drop_last() =~= Seq::<TexLinkView>::empty());
        assert(links_bytes(Seq::<TexLinkView>::empty()) == Seq::<u8>::empty());
        assert(links_bytes(seq![ls[i]]) == links_bytes(Seq::<TexLinkView>::empty()) + link_bytes(ls[i]));
        assert(links_bytes(seq![ls[i]]) =~= link_bytes(ls[i]));
        lemma_split(buf, pos, link_bytes(ls[i]), links_bytes(ls.skip(i + 1)));
        lemma_link_at(buf, pos, ls[i]);
        assert(ls.take(i).push(ls[i]) =~= ls.take(i + 1));
        lemma_links_from(buf, pos + link_bytes(ls[i]).len(), ls, i + 1);
    } else {
        assert(ls.take(i) =~= ls);
        assert(ls.skip(i) =~= Seq::<TexLinkView>::empty());
    }
}

/// A graph every part of which reads back as written.
pub open spec fn graph_ok(g: TexGraphView) -> bool {
    &&& g.nodes.len() <= u32::MAX
    &&& g.links.len() <= u32::MAX
    &&& str_fits(g.output_id)
    &&& forall|j: int| 0 <= j < g.nodes.len() ==> node_ok(#[trigger] g.nodes[j])
    &&& forall|j: int| 0 <= j < g.links.len() ==> link_ok(#[trigger] g.links[j])
    &&& has_node(g.nodes, g.output_id)
}

#[verifier::spinoff_prover]
#[verifier::rlimit(100)]
proof fn lemma_texg_layout(f: TexGraphFileView, buf: Seq<u8>)
    requires
        graph_ok(f.graph),
        lies_at(buf, 0, texg_encode(f)),
    ensures
        ({
            let g = f.graph;
            let res = if f.resolution == 0 { 1 } else { f.resolution };
            let q1: int = 16 + str_bytes(g.output_id).len() as int;
            let q2: int = q1 + 4 + nodes_bytes(g.nodes).len() as int;
            &&& buf.len() >= 16
            &&& le32(buf, 0) == 1
            &&& le32(buf, 4) == res
            &&& le64(buf, 8) == g.next
            &&& texg_str(buf, 16) == Ok::<(Seq<char>, int), crate::texg_file::TexGraphBytesError>(
                (g.output_id, q1),
            )
            &&& buf.len() - q1 >= 4
            &&& le32(buf, q1) == g.nodes.len()
            &&& texg_nodes(buf, q1 + 4, g.nodes.len(), Seq::empty()) == Ok::<
                (Seq<NodeRecordView>, int),
                crate::texg_file::TexGraphBytesError,
            >((g.nodes, q2))
            &&& buf.len() - q2 >= 4
            &&& le32(buf, q2) == g.links.len()
            &&& texg_links(buf, q2 + 4, g.links.len(), Seq::empty()) == Ok::<
                (Seq<TexLinkView>, int),
                crate::texg_file::TexGraphBytesError,
            >((g.links, texg_encode(f).len() as int))
        }),
{
    let g = f.graph;
    let res = if f.resolution == 0 { 1 } else { f.resolution };
    let v = bytes32(1);
    let r = bytes32(res as int);
    let nx = bytes64(g.next as int);
    let oid = str_bytes(g.output_id);
    let nn = bytes32(g.nodes.len() as int);
    let nb = nodes_bytes(g.nodes);
    let nl = bytes32(g.links.len() as int);
    let lb = links_bytes(g.links);
    let enc = texg_encode(f);
    assert(enc == v + r + nx + oid + nn + nb + nl + lb);
    lemma_split(buf, 0, v + r + nx + oid + nn + nb + nl, lb);
    lemma_split(buf, 0, v + r + nx + oid + nn + nb, nl);
    lemma_split(buf, 0, v + r + nx + oid + nn, nb);
    lemma_split(buf, 0, v + r + nx + oid, nn);
    lemma_split(buf, 0, v + r + nx, oid);
    lemma_split(buf, 0, v + r, nx);
    lemma_split(buf, 0, v, r);
    lemma_le32_at(buf, 0, 1);
    lemma_le32_at(buf, 4, res as int);
    assert(buf =~= buf.take(8) + bytes64(g.next as int) + buf.skip(16));
    lemma_le64_bytes64(g.next as int, buf.take(8), buf.skip(16));
    lemma_str_at(buf, 16, g.output_id);
    let q1: int = 16 + oid.len() as int;
    lemma_le32_at(buf, q1, g.nodes.len() as int);
    assert(g.nodes.skip(0) =~= g.nodes);
    assert(g.nodes.take(0) =~= Seq::<NodeRecordView>::empty());
    lemma_nodes_from(buf, q1 + 4, g.nodes, 0);
    let q2: int = q1 + 4 + nb.len() as int;
    lemma_le32_at(buf, q2, g.links.len() as int);
    assert(g.links.skip(0) =~= g.links);
    assert(g.links.take(0) =~= Seq::<TexLinkView>::empty());
    lemma_links_from(buf, q2 + 4, g.links, 0);
}

/// Reading back a written `TEXG` payload gives the same graph, with the bake resolution
/// brought into 64..=2048, provided every string fits its 16-bit length, every node has
/// its full set of fields with normalized enum codes and flags and fewer than 65536 ramp
/// stops of each kind, and the output node is among the nodes.
pub proof fn law_texg_roundtrip(f: TexGraphFileView)
    requires
        graph_ok(f.graph),
    ensures
        texg_decode(texg_encode(f)) == Ok::<TexGraphFileView, crate::texg_file::TexGraphBytesError>(
            TexGraphFileView {
                resolution: clamp_resolution(if f.resolution == 0 { 1 } else { f.resolution }),
                graph: f.graph,
            },
        ),
{
    let enc = texg_encode(f);
    assert(lies_at(enc, 0, enc)) by {
        assert(enc.subrange(0, enc.len() as int) =~= enc);
    }
    lemma_texg_layout(f, enc);
    reveal(texg_decode);
}

/// Bytes after a written `TEXG` payload are rejected: the payload must end where its
/// last link ends.
#[verifier::spinoff_prover]
#[verifier::rlimit(60)]
pub proof fn law_texg_trailing_bytes_rejected(f: TexGraphFileView, extra: Seq<u8>)
    requires
        graph_ok(f.graph),
        extra.len() > 0,
    ensures
        texg_decode(texg_encode(f) + extra) == Err::<TexGraphFileView, crate::texg_file::TexGraphBytesError>(
            crate::texg_file::TexGraphBytesError::Truncated,
        ),
{
    let enc = texg_encode(f);
    let buf = enc + extra;
    assert(lies_at(buf, 0, enc)) by {
        assert(buf.subrange(0, enc.len() as int) =~= enc);
    }
    lemma_texg_layout(f, buf);
    assert(buf.len() == enc.len() + extra.len());
    reveal(texg_decode);
    let g = f.graph;
    let q1: int = 16 + str_bytes(g.output_id).len() as int;
    let q2: int = q1 + 4 + nodes_bytes(g.nodes).len() as int;
    assert(texg_links(buf, q2 + 4, le32(buf, q2) as nat, Seq::empty()) == Ok::<
        (Seq<TexLinkView>, int),
        crate::texg_file::TexGraphBytesError,
    >((g.links, enc.len() as int)));
}

} // verus!
