//! What a `MAT ` read gives back of a write.
use vstd::prelude::*;
use vstd::utf8::*;
use crate::wire::{
    le16, le32, bytes16, bytes32, zeros, pad4, words32, words32_bytes, run_chunks, well_framed,
    lemma_le16_at, lemma_le32_at, lemma_le16_bytes16, lemma_le32_bytes32,
    lemma_words32_roundtrip, lemma_words32_bytes_len, lemma_chunk_at_appended,
    lemma_well_framed_append, lemma_run_chunks_append,
};
use crate::skin_file::{put_chunk, blob_header};
use crate::texg_file::{TexGraphFileView, texg_decode, texg_encode, str_bytes, clamp_resolution};
use crate::texg_proofs::{lies_at, str_fits, graph_ok, law_texg_roundtrip};
use crate::material_file::{
    MaterialBytesError, MaterialFileView, MapsView, HairShading, ShadingModel, MatScan,
    mat_words, mat_id, mat_hair, mat_tiles_from, mat_udim, mat_step, mat_step_factor,
    mat_step_slot, mat_step_udim, mat_step_graph, mat_stepper, mat_scan_init, mat_decode,
    mat_encode, scan_maps, material_default, udim_prefix, udim_payload, hair_words, put_slot,
    put_tiles, put_factors, f32_positive, MAT_MAGIC, MAT_VERSION, TAG_PBR, TAG_SSS, TAG_CUT, TAG_HAIR,
    TAG_ALB, TAG_NRM, TAG_MR, TAG_UALB, TAG_UNRM, TAG_UMR, TAG_TEXG,
};

verus! {

proof fn lemma_split(buf: Seq<u8>, pos: int, x: Seq<u8>, y: Seq<u8>)
    requires
        lies_at(buf, pos, x + y),
    ensures
        lies_at(buf, pos, x),
        lies_at(buf, pos + x.len(), y),
{
    let whole = buf.subrange(pos, pos + x.len() + y.len());
    assert(whole == x + y);
    assert(buf.subrange(pos, pos + x.len()) =~= whole.subrange(0, x.len() as int));
    assert(whole.subrange(0, x.len() as int) =~= x);
    assert(buf.subrange(pos + x.len(), pos + x.len() + y.len()) =~= whole.subrange(
        x.len() as int,
        whole.len() as int,
    ));
    assert(whole.subrange(x.len() as int, whole.len() as int) =~= y);
}

// ---------------------------------------------------------------------------------------
// Payloads
// ---------------------------------------------------------------------------------------
proof fn lemma_mat_words(ws: Seq<u32>)
    ensures
        mat_words(words32_bytes(ws), ws.len() as int) == Ok::<Seq<u32>, MaterialBytesError>(ws),
{
    lemma_words32_bytes_len(ws);
    lemma_words32_roundtrip(ws);
    let b = words32_bytes(ws);
    assert(Seq::new(ws.len(), |i: int| le32(b, 4 * i) as u32) =~= words32(b));
}

proof fn lemma_mat_id(s: Seq<char>)
    requires
        str_fits(s),
    ensures
        mat_id(str_bytes(s)) == Ok::<Seq<char>, MaterialBytesError>(s),
{
    let b = encode_utf8(s);
    let n = b.len() as int;
    assert(b.take(n) =~= b);
    let p = str_bytes(s);
    assert(p == Seq::<u8>::empty() + bytes16(n) + b);
    lemma_le16_bytes16(n, Seq::<u8>::empty(), b);
    assert(p.subrange(2, 2 + n) =~= b);
    encode_utf8_valid_utf8(s);
    encode_utf8_decode_utf8(s);
}

proof fn lemma_mat_hair(h: HairShading)
    ensures
        mat_hair(words32_bytes(hair_words(h))) == Ok::<HairShading, MaterialBytesError>(h),
{
    broadcast use vstd::array::group_array_axioms;

    let ws = hair_words(h);
    let p = words32_bytes(ws);
    lemma_words32_bytes_len(ws);
    lemma_words32_roundtrip(ws);
    assert(words32(p)[0] == ws[0]);
    assert(words32(p)[1] == ws[1]);
    assert(words32(p)[2] == ws[2]);
    assert(words32(p)[3] == ws[3]);
    assert(words32(p)[4] == ws[4]);
    assert(words32(p)[5] == ws[5]);
    assert(words32(p)[6] == ws[6]);
    assert(words32(p)[7] == ws[7]);
    assert(words32(p)[8] == ws[8]);
    assert(words32(p)[9] == ws[9]);
    assert(words32(p)[10] == ws[10]);
    let got = mat_hair(p)->Ok_0;
    assert(got.secondary_tint =~= h.secondary_tint);
}

/// One UDIM tile as written at a 4-aligned offset: tile number, id, padding.
spec fn tile_entry(e: (u32, Seq<char>)) -> Seq<u8> {
    bytes32(e.0 as int) + str_bytes(e.1) + zeros(pad4(str_bytes(e.1).len() as int))
}

spec fn tiles_bytes(t: Seq<(u32, Seq<char>)>) -> Seq<u8>
    decreases t.len(),
{
    if t.len() == 0 {
        Seq::empty()
    } else {
        tiles_bytes(t.drop_last()) + tile_entry(t.last())
    }
}

proof fn lemma_tile_entry_len(e: (u32, Seq<char>))
    ensures
        tile_entry(e).len() % 4 == 0,
        tile_entry(e).len() >= 6,
{
}

proof fn lemma_pad4(x: int)
    requires
        x >= 0,
    ensures
        0 <= pad4(x) < 4,
        (x + pad4(x)) % 4 == 0,
        forall|a: int| a >= 0 && a % 4 == 0 ==> #[trigger] pad4(a + x) == pad4(x),
{
    assert forall|a: int| a >= 0 && a % 4 == 0 implies #[trigger] pad4(a + x) == pad4(x) by {
        assert((a + x) % 4 == x % 4) by (nonlinear_arith)
            requires
                a >= 0,
                x >= 0,
                a % 4 == 0,
        ;
    }
}

#[verifier::rlimit(80)]
proof fn lemma_udim_prefix(count: u32, t: Seq<(u32, Seq<char>)>)
    ensures
        udim_prefix(count, t) == bytes32(count as int) + tiles_bytes(t),
        udim_prefix(count, t).len() % 4 == 0,
    decreases t.len(),
{
    if t.len() == 0 {
        assert(bytes32(count as int) + tiles_bytes(t) =~= bytes32(count as int));
    } else {
        lemma_udim_prefix(count, t.drop_last());
        let pre = udim_prefix(count, t.drop_last());
        let sb = str_bytes(t.last().1);
        let e = bytes32(t.last().0 as int) + sb;
        let l = sb.len() as int;
        let a = pre.len() as int;
        lemma_pad4(l);
        lemma_pad4(a + e.len());
        assert(a + e.len() == (a + 4) + l);
        assert((a + 4) % 4 == 0);
        assert(pad4(a + e.len()) == pad4(l));
        let z = zeros(pad4(l));
        assert(udim_prefix(count, t) == pre + e + z);
        assert(tile_entry(t.last()) == e + z);
        assert(tiles_bytes(t) == tiles_bytes(t.drop_last()) + tile_entry(t.last()));
        assert(pre + e + z =~= bytes32(count as int) + (tiles_bytes(t.drop_last()) + (e + z)));
        assert(bytes32(count as int) + tiles_bytes(t) =~= bytes32(count as int) + (tiles_bytes(
            t.drop_last(),
        ) + (e + z)));
    }
}

proof fn lemma_tiles_bytes_add(a: Seq<(u32, Seq<char>)>, b: Seq<(u32, Seq<char>)>)
    ensures
        tiles_bytes(a + b) == tiles_bytes(a) + tiles_bytes(b),
    decreases b.len(),
{
    if b.len() == 0 {
        assert(a + b =~= a);
        assert(tiles_bytes(a) + tiles_bytes(b) =~= tiles_bytes(a));
    } else {
        lemma_tiles_bytes_add(a, b.drop_last());
        assert((a + b).drop_last() =~= a + b.drop_last());
        assert(tiles_bytes(a) + tiles_bytes(b) =~= tiles_bytes(a) + tiles_bytes(b.drop_last())
            + tile_entry(b.last()));
    }
}

proof fn lemma_tile_at(p: Seq<u8>, pos: int, e: (u32, Seq<char>))
    requires
        lies_at(p, pos, tile_entry(e)),
        pos % 4 == 0,
        str_fits(e.1),
    ensures
        ({
            let n = le16(p, pos + 4);
            let end = pos + 6 + n;
            &&& p.len() - pos >= 6
            &&& le32(p, pos) == e.0
            &&& n == encode_utf8(e.1).len()
            &&& p.len() - (pos + 6) >= n
            &&& valid_utf8(p.subrange(pos + 6, end))
            &&& decode_utf8(p.subrange(pos + 6, end)) == e.1
            &&& p.len() - end >= pad4(end)
            &&& end + pad4(end) == pos + tile_entry(e).len()
        }),
{
    let b = encode_utf8(e.1);
    let n = b.len() as int;
    assert(b.take(n) =~= b);
    let s = str_bytes(e.1);
    lemma_split(p, pos, bytes32(e.0 as int) + s, zeros(pad4(s.len() as int)));
    lemma_split(p, pos, bytes32(e.0 as int), s);
    lemma_split(p, pos + 4, bytes16(n), b);
    lemma_le32_at(p, pos, e.0 as int);
    lemma_le16_at(p, pos + 4, n);
    encode_utf8_valid_utf8(e.1);
    encode_utf8_decode_utf8(e.1);
    assert((pos + 6 + n) % 4 == (2 + n) % 4);
}

#[verifier::rlimit(50)]
proof fn lemma_tiles_from(p: Seq<u8>, pos: int, t: Seq<(u32, Seq<char>)>, i: int)
    requires
        0 <= i <= t.len(),
        pos % 4 == 0,
        lies_at(p, pos, tiles_bytes(t.skip(i))),
        forall|j: int| 0 <= j < t.len() ==> str_fits(#[trigger] t[j].1),
    ensures
        mat_tiles_from(p, pos, (t.len() - i) as nat, t.take(i)) == Ok::<
            (Seq<(u32, Seq<char>)>, int),
            MaterialBytesError,
        >((t, pos + tiles_bytes(t.skip(i)).len())),
    decreases t.len() - i,
{
    if i < t.len() {
        assert(t.skip(i) =~= seq![t[i]] + t.skip(i + 1));
        lemma_tiles_bytes_add(seq![t[i]], t.skip(i + 1));
        assert(seq![t[i]].drop_last() =~= Seq::<(u32, Seq<char>)>::empty());
        assert(tiles_bytes(Seq::<(u32, Seq<char>)>::empty()) == Seq::<u8>::empty());
        assert(tiles_bytes(seq![t[i]]) =~= tile_entry(t[i]));
        lemma_split(p, pos, tile_entry(t[i]), tiles_bytes(t.skip(i + 1)));
        lemma_tile_at(p, pos, t[i]);
        lemma_tile_entry_len(t[i]);
        assert(t.take(i).push((t[i].0, t[i].1)) =~= t.take(i + 1));
        lemma_tiles_from(p, pos + tile_entry(t[i]).len(), t, i + 1);
    } else {
        assert(t.take(i) =~= t);
        assert(t.skip(i) =~= Seq::<(u32, Seq<char>)>::empty());
    }
}

#[verifier::rlimit(50)]
proof fn lemma_mat_udim(t: Seq<(u32, Seq<char>)>)
    requires
        t.len() <= u32::MAX,
        forall|j: int| 0 <= j < t.len() ==> str_fits(#[trigger] t[j].1),
    ensures
        mat_udim(udim_payload(t)) == Ok::<Seq<(u32, Seq<char>)>, MaterialBytesError>(t),
{
    let p = udim_payload(t);
    lemma_udim_prefix(t.len() as u32, t);
    assert(p == Seq::<u8>::empty() + bytes32(t.len() as int) + tiles_bytes(t));
    lemma_le32_bytes32(t.len() as int, Seq::<u8>::empty(), tiles_bytes(t));
    assert(lies_at(p, 4, tiles_bytes(t.skip(0)))) by {
        assert(t.skip(0) =~= t);
        assert(p.subrange(4, p.len() as int) =~= tiles_bytes(t));
    }
    assert(t.take(0) =~= Seq::<(u32, Seq<char>)>::empty());
    lemma_tiles_from(p, 4, t, 0);
    assert(t.skip(0) =~= t);
}

// ---------------------------------------------------------------------------------------
// Chunk steps
// ---------------------------------------------------------------------------------------
/// The blob so far decodes (as far as its chunks go) to scan state `st`.
spec fn walked(buf: Seq<u8>, st: MatScan) -> bool {
    &&& buf.len() >= 8
    &&& buf.len() % 4 == 0
    &&& well_framed(buf, 8)
    &&& buf.subrange(0, 8) == blob_header(MAT_MAGIC)
    &&& run_chunks(mat_stepper(), MaterialBytesError::Truncated, buf, 8, mat_scan_init()) == Ok::<
        MatScan,
        MaterialBytesError,
    >(st)
}

proof fn lemma_walk_start()
    ensures
        walked(blob_header(MAT_MAGIC), mat_scan_init()),
{
    let h = blob_header(MAT_MAGIC);
    assert(h.subrange(0, 8) =~= h);
    assert(well_framed(h, 8));
}

proof fn lemma_walk_chunk(buf: Seq<u8>, st: MatScan, tag: u32, payload: Seq<u8>, st2: MatScan)
    requires
        walked(buf, st),
        payload.len() <= u32::MAX,
        mat_step(st, tag, payload) == Ok::<MatScan, MaterialBytesError>(st2),
    ensures
        walked(put_chunk(buf, tag, payload), st2),
{
    let all = put_chunk(buf, tag, payload);
    lemma_chunk_at_appended(buf, tag, payload);
    lemma_well_framed_append(buf, 8, tag, payload);
    lemma_run_chunks_append(
        mat_stepper(),
        MaterialBytesError::Truncated,
        buf,
        8,
        mat_scan_init(),
        tag,
        payload,
    );
    assert(all.subrange(0, 8) =~= buf.subrange(0, 8));
}

/// Everything of a recipe that reads back as written: whole factor arrays, ids and
/// graph strings that fit their 16-bit lengths, tile sets and a graph whose chunks fit
/// their 32-bit lengths.
pub open spec fn mat_ok(f: MaterialFileView) -> bool {
    &&& f.albedo.len() == 4
    &&& f.sss_color.len() == 3
    &&& match f.maps {
        MapsView::Single { albedo, normal, metallic_roughness } => {
            &&& (albedo matches Some(s) ==> str_fits(s))
            &&& (normal matches Some(s) ==> str_fits(s))
            &&& (metallic_roughness matches Some(s) ==> str_fits(s))
        },
        MapsView::Udim { albedo, normal, metallic_roughness } => {
            &&& tiles_ok(albedo)
            &&& tiles_ok(normal)
            &&& tiles_ok(metallic_roughness)
        },
    }
    &&& match f.graph {
        Some(g) => graph_ok(g.graph) && texg_encode(g).len() <= u32::MAX,
        None => true,
    }
}

pub open spec fn tiles_ok(t: Seq<(u32, Seq<char>)>) -> bool {
    &&& t.len() <= u32::MAX
    &&& udim_payload(t).len() <= u32::MAX
    &&& forall|j: int| 0 <= j < t.len() ==> str_fits(#[trigger] t[j].1)
}

pub open spec fn nonempty_id(s: Option<Seq<char>>) -> Option<Seq<char>> {
    match s {
        Some(x) => if x.len() > 0 {
            Some(x)
        } else {
            None
        },
        None => None,
    }
}

/// The recipe as it reads back: subsurface settings only when the strength is positive
/// (else the defaults), the cutoff only when positive (else 0), empty ids and empty tile
/// sets dropped (no tiles at all reads as empty single slots), the graph's resolution
/// brought into 64..=2048.
pub open spec fn mat_normalized(f: MaterialFileView) -> MaterialFileView {
    let d = material_default();
    MaterialFileView {
        albedo: f.albedo,
        metallic: f.metallic,
        roughness: f.roughness,
        sss_strength: if f32_positive(f.sss_strength) {
            f.sss_strength
        } else {
            d.sss_strength
        },
        sss_color: if f32_positive(f.sss_strength) {
            f.sss_color
        } else {
            d.sss_color
        },
        sss_curvature: if f32_positive(f.sss_strength) {
            f.sss_curvature
        } else {
            d.sss_curvature
        },
        alpha_cutoff: if f32_positive(f.alpha_cutoff) {
            f.alpha_cutoff
        } else {
            0
        },
        shading_model: f.shading_model,
        maps: match f.maps {
            MapsView::Single { albedo, normal, metallic_roughness } => MapsView::Single {
                albedo: nonempty_id(albedo),
                normal: nonempty_id(normal),
                metallic_roughness: nonempty_id(metallic_roughness),
            },
            MapsView::Udim { albedo, normal, metallic_roughness } => if albedo.len() == 0
                && normal.len() == 0 && metallic_roughness.len() == 0 {
                MapsView::Single { albedo: None, normal: None, metallic_roughness: None }
            } else {
                MapsView::Udim { albedo, normal, metallic_roughness }
            },
        },
        graph: match f.graph {
            Some(g) => Some(
                TexGraphFileView {
                    resolution: clamp_resolution(
                        if g.resolution == 0 {
                            1
                        } else {
                            g.resolution
                        },
                    ),
                    graph: g.graph,
                },
            ),
            None => None,
        },
    }
}

/// The scan state after the factor chunks: the normalized factors, nothing else seen.
spec fn factors_scanned(f: MaterialFileView, st: MatScan) -> bool {
    &&& st.file == (MaterialFileView {
        maps: material_default().maps,
        graph: None,
        ..mat_normalized(f)
    })
    &&& !st.saw_alb && !st.saw_nrm && !st.saw_mr
    &&& !st.saw_ualb && !st.saw_unrm && !st.saw_umr && !st.saw_texg
    &&& !st.used_single && !st.used_udim
    &&& st.alb == None::<Seq<char>> && st.nrm == None::<Seq<char>> && st.mr == None::<Seq<char>>
    &&& st.ualb.len() == 0 && st.unrm.len() == 0 && st.umr.len() == 0
}

proof fn lemma_walk_factors(f: MaterialFileView) -> (r: (Seq<u8>, MatScan))
    requires
        mat_ok(f),
    ensures
        walked(r.0, r.1),
        r.0 == put_factors(f),
        factors_scanned(f, r.1),
{
    reveal(mat_step);
    reveal(mat_step_factor);
    let h = blob_header(MAT_MAGIC);
    lemma_walk_start();
    let st0 = mat_scan_init();
    let pw = f.albedo + seq![f.metallic, f.roughness];
    lemma_mat_words(pw);
    lemma_words32_bytes_len(pw);
    assert(pw.take(4) =~= f.albedo);
    let st1 = MatScan {
        file: MaterialFileView { albedo: pw.take(4), metallic: pw[4], roughness: pw[5], ..st0.file },
        saw_pbr: true,
        ..st0
    };
    lemma_walk_chunk(h, st0, TAG_PBR, words32_bytes(pw), st1);
    let o1 = put_chunk(h, TAG_PBR, words32_bytes(pw));
    let sw = seq![f.sss_strength] + f.sss_color + seq![f.sss_curvature];
    let (o2, st2) = if f32_positive(f.sss_strength) {
        lemma_mat_words(sw);
        lemma_words32_bytes_len(sw);
        assert(sw.subrange(1, 4) =~= f.sss_color);
        let st2 = MatScan {
            file: MaterialFileView {
                sss_strength: sw[0],
                sss_color: sw.subrange(1, 4),
                sss_curvature: sw[4],
                ..st1.file
            },
            saw_sss: true,
            ..st1
        };
        lemma_walk_chunk(o1, st1, TAG_SSS, words32_bytes(sw), st2);
        (put_chunk(o1, TAG_SSS, words32_bytes(sw)), st2)
    } else {
        (o1, st1)
    };
    let cw = seq![f.alpha_cutoff];
    let (o3, st3) = if f32_positive(f.alpha_cutoff) {
        lemma_mat_words(cw);
        lemma_words32_bytes_len(cw);
        let st3 = MatScan {
            file: MaterialFileView { alpha_cutoff: cw[0], ..st2.file },
            saw_cut: true,
            ..st2
        };
        lemma_walk_chunk(o2, st2, TAG_CUT, words32_bytes(cw), st3);
        (put_chunk(o2, TAG_CUT, words32_bytes(cw)), st3)
    } else {
        (o2, st2)
    };
    match f.shading_model {
        ShadingModel::Hair(hs) => {
            lemma_mat_hair(hs);
            lemma_words32_bytes_len(hair_words(hs));
            let st4 = MatScan {
                file: MaterialFileView { shading_model: ShadingModel::Hair(hs), ..st3.file },
                saw_hair: true,
                ..st3
            };
            lemma_walk_chunk(o3, st3, TAG_HAIR, words32_bytes(hair_words(hs)), st4);
            (put_chunk(o3, TAG_HAIR, words32_bytes(hair_words(hs))), st4)
        },
        ShadingModel::Standard => (o3, st3),
    }
}

/// What a single-slot chunk (written only for a non-empty id) does to the scan state.
spec fn slot_stepped(st: MatScan, st2: MatScan, tag: u32, id: Option<Seq<char>>) -> bool {
    let set = nonempty_id(id) is Some;
    &&& st2.used_single == (st.used_single || set)
    &&& tag == TAG_ALB ==> {
        &&& st2.alb == (if set { nonempty_id(id) } else { st.alb })
        &&& st2.nrm == st.nrm && st2.mr == st.mr
        &&& st2.saw_nrm == st.saw_nrm && st2.saw_mr == st.saw_mr
    }
    &&& tag == TAG_NRM ==> {
        &&& st2.nrm == (if set { nonempty_id(id) } else { st.nrm })
        &&& st2.alb == st.alb && st2.mr == st.mr
        &&& st2.saw_mr == st.saw_mr
    }
    &&& tag == TAG_MR ==> {
        &&& st2.mr == (if set { nonempty_id(id) } else { st.mr })
        &&& st2.alb == st.alb && st2.nrm == st.nrm
    }
}

proof fn lemma_walk_slot(buf: Seq<u8>, st: MatScan, tag: u32, id: Option<Seq<char>>) -> (st2: MatScan)
    requires
        walked(buf, st),
        tag == TAG_ALB || tag == TAG_NRM || tag == TAG_MR,
        tag == TAG_ALB ==> !st.saw_alb,
        tag == TAG_NRM ==> !st.saw_nrm,
        tag == TAG_MR ==> !st.saw_mr,
        id matches Some(s) ==> str_fits(s),
    ensures
        walked(put_slot(buf, tag, id), st2),
        st2.file == st.file,
        st2.used_udim == st.used_udim,
        st2.saw_texg == st.saw_texg,
        st2.saw_ualb == st.saw_ualb && st2.saw_unrm == st.saw_unrm && st2.saw_umr == st.saw_umr,
        st2.ualb == st.ualb && st2.unrm == st.unrm && st2.umr == st.umr,
        slot_stepped(st, st2, tag, id),
{
    reveal(mat_step);
    reveal(mat_step_slot);
    match id {
        Some(s) => {
            if s.len() > 0 {
                lemma_mat_id(s);
                let st2 = if tag == TAG_ALB {
                    MatScan { alb: Some(s), saw_alb: true, used_single: true, ..st }
                } else if tag == TAG_NRM {
                    MatScan { nrm: Some(s), saw_nrm: true, used_single: true, ..st }
                } else {
                    MatScan { mr: Some(s), saw_mr: true, used_single: true, ..st }
                };
                lemma_walk_chunk(buf, st, tag, str_bytes(s), st2);
                st2
            } else {
                st
            }
        },
        None => st,
    }
}

/// What a UDIM chunk (written only for a non-empty tile set) does to the scan state.
spec fn tiles_stepped(st: MatScan, st2: MatScan, tag: u32, t: Seq<(u32, Seq<char>)>) -> bool {
    let set = t.len() > 0;
    &&& tag == TAG_UALB ==> {
        &&& st2.ualb == (if set { t } else { st.ualb })
        &&& st2.unrm == st.unrm && st2.umr == st.umr
        &&& st2.saw_unrm == st.saw_unrm && st2.saw_umr == st.saw_umr
    }
    &&& tag == TAG_UNRM ==> {
        &&& st2.unrm == (if set { t } else { st.unrm })
        &&& st2.ualb == st.ualb && st2.umr == st.umr
        &&& st2.saw_umr == st.saw_umr
    }
    &&& tag == TAG_UMR ==> {
        &&& st2.umr == (if set { t } else { st.umr })
        &&& st2.ualb == st.ualb && st2.unrm == st.unrm
    }
}

proof fn lemma_walk_tiles(buf: Seq<u8>, st: MatScan, tag: u32, t: Seq<(u32, Seq<char>)>) -> (st2: MatScan)
    requires
        walked(buf, st),
        tag == TAG_UALB || tag == TAG_UNRM || tag == TAG_UMR,
        tag == TAG_UALB ==> !st.saw_ualb,
        tag == TAG_UNRM ==> !st.saw_unrm,
        tag == TAG_UMR ==> !st.saw_umr,
        tiles_ok(t),
    ensures
        walked(put_tiles(buf, tag, t), st2),
        st2.file == st.file,
        st2.used_single == st.used_single,
        st2.used_udim == (st.used_udim || t.len() > 0),
        st2.saw_texg == st.saw_texg,
        st2.saw_alb == st.saw_alb && st2.saw_nrm == st.saw_nrm && st2.saw_mr == st.saw_mr,
        st2.alb == st.alb && st2.nrm == st.nrm && st2.mr == st.mr,
        tiles_stepped(st, st2, tag, t),
{
    reveal(mat_step);
    reveal(mat_step_udim);
    if t.len() > 0 {
        lemma_mat_udim(t);
        let st2 = if tag == TAG_UALB {
            MatScan { ualb: t, saw_ualb: true, used_udim: true, ..st }
        } else if tag == TAG_UNRM {
            MatScan { unrm: t, saw_unrm: true, used_udim: true, ..st }
        } else {
            MatScan { umr: t, saw_umr: true, used_udim: true, ..st }
        };
        lemma_walk_chunk(buf, st, tag, udim_payload(t), st2);
        st2
    } else {
        st
    }
}

proof fn lemma_mat_header(enc: Seq<u8>)
    requires
        enc.len() >= 8,
        enc.subrange(0, 8) == blob_header(MAT_MAGIC),
    ensures
        le32(enc, 0) == MAT_MAGIC,
        le16(enc, 4) == MAT_VERSION,
        le16(enc, 6) == 0,
{
    let hh = enc.subrange(0, 8);
    assert(hh =~= bytes32(MAT_MAGIC as int) + bytes16(1) + bytes16(0));
    assert(enc.subrange(0, 4) =~= hh.subrange(0, 4));
    assert(enc.subrange(4, 6) =~= hh.subrange(4, 6));
    assert(enc.subrange(6, 8) =~= hh.subrange(6, 8));
    assert(hh.subrange(0, 4) =~= bytes32(MAT_MAGIC as int));
    assert(hh.subrange(4, 6) =~= bytes16(1));
    assert(hh.subrange(6, 8) =~= bytes16(0));
    lemma_le32_at(enc, 0, MAT_MAGIC as int);
    lemma_le16_at(enc, 4, 1);
    lemma_le16_at(enc, 6, 0);
}

/// The maps as they read back.
spec fn maps_normalized(m: MapsView) -> MapsView {
    match m {
        MapsView::Single { albedo, normal, metallic_roughness } => MapsView::Single {
            albedo: nonempty_id(albedo),
            normal: nonempty_id(normal),
            metallic_roughness: nonempty_id(metallic_roughness),
        },
        MapsView::Udim { albedo, normal, metallic_roughness } => if albedo.len() == 0
            && normal.len() == 0 && metallic_roughness.len() == 0 {
            MapsView::Single { albedo: None, normal: None, metallic_roughness: None }
        } else {
            MapsView::Udim { albedo, normal, metallic_roughness }
        },
    }
}

proof fn lemma_walk_maps(buf: Seq<u8>, st: MatScan, f: MaterialFileView) -> (r: (Seq<u8>, MatScan))
    requires
        mat_ok(f),
        walked(buf, st),
        factors_scanned(f, st),
    ensures
        walked(r.0, r.1),
        r.0 == match f.maps {
            MapsView::Single { albedo, normal, metallic_roughness } => put_slot(
                put_slot(put_slot(buf, TAG_ALB, albedo), TAG_NRM, normal),
                TAG_MR,
                metallic_roughness,
            ),
            MapsView::Udim { albedo, normal, metallic_roughness } => put_tiles(
                put_tiles(put_tiles(buf, TAG_UALB, albedo), TAG_UNRM, normal),
                TAG_UMR,
                metallic_roughness,
            ),
        },
        r.1.file == st.file,
        !r.1.saw_texg,
        !(r.1.used_single && r.1.used_udim),
        scan_maps(r.1) == maps_normalized(f.maps),
{
    match f.maps {
        MapsView::Single { albedo, normal, metallic_roughness } => {
            let s1 = lemma_walk_slot(buf, st, TAG_ALB, albedo);
            assert(s1.alb == nonempty_id(albedo));
            assert(s1.nrm == None::<Seq<char>> && s1.mr == None::<Seq<char>>);
            let b1 = put_slot(buf, TAG_ALB, albedo);
            let s2 = lemma_walk_slot(b1, s1, TAG_NRM, normal);
            assert(s2.alb == nonempty_id(albedo));
            assert(s2.nrm == nonempty_id(normal));
            assert(s2.mr == None::<Seq<char>>);
            let b2 = put_slot(b1, TAG_NRM, normal);
            let s3 = lemma_walk_slot(b2, s2, TAG_MR, metallic_roughness);
            assert(s3.alb == nonempty_id(albedo));
            assert(s3.nrm == nonempty_id(normal));
            assert(s3.mr == nonempty_id(metallic_roughness));
            assert(!s3.used_udim);
            assert(scan_maps(s3) == MapsView::Single {
                albedo: nonempty_id(albedo),
                normal: nonempty_id(normal),
                metallic_roughness: nonempty_id(metallic_roughness),
            });
            assert(maps_normalized(f.maps) == MapsView::Single {
                albedo: nonempty_id(albedo),
                normal: nonempty_id(normal),
                metallic_roughness: nonempty_id(metallic_roughness),
            });
            (put_slot(b2, TAG_MR, metallic_roughness), s3)
        },
        MapsView::Udim { albedo, normal, metallic_roughness } => {
            assert(albedo.len() == 0 ==> st.ualb =~= albedo);
            assert(normal.len() == 0 ==> st.unrm =~= normal);
            assert(metallic_roughness.len() == 0 ==> st.umr =~= metallic_roughness);
            let s1 = lemma_walk_tiles(buf, st, TAG_UALB, albedo);
            let b1 = put_tiles(buf, TAG_UALB, albedo);
            let s2 = lemma_walk_tiles(b1, s1, TAG_UNRM, normal);
            let b2 = put_tiles(b1, TAG_UNRM, normal);
            let s3 = lemma_walk_tiles(b2, s2, TAG_UMR, metallic_roughness);
            assert(s3.ualb == albedo && s3.unrm == normal && s3.umr == metallic_roughness);
            (put_tiles(b2, TAG_UMR, metallic_roughness), s3)
        },
    }
}

#[verifier::spinoff_prover]
#[verifier::rlimit(100)]
proof fn lemma_walk_all(f: MaterialFileView) -> (r: (Seq<u8>, MatScan))
    requires
        mat_ok(f),
    ensures
        walked(r.0, r.1),
        r.0 == mat_encode(f),
        !(r.1.used_single && r.1.used_udim),
        (MaterialFileView { maps: scan_maps(r.1), ..r.1.file }) == mat_normalized(f),
{
    reveal(mat_encode);
    let (o4, st4) = lemma_walk_factors(f);
    let (o5, st5) = lemma_walk_maps(o4, st4, f);
    match f.graph {
        Some(g) => {
            reveal(mat_step);
            reveal(mat_step_graph);
            law_texg_roundtrip(g);
            let gv = TexGraphFileView {
                resolution: clamp_resolution(if g.resolution == 0 { 1 } else { g.resolution }),
                graph: g.graph,
            };
            let s6 = MatScan {
                file: MaterialFileView { graph: Some(gv), ..st5.file },
                saw_texg: true,
                ..st5
            };
            lemma_walk_chunk(o5, st5, TAG_TEXG, texg_encode(g), s6);
            (put_chunk(o5, TAG_TEXG, texg_encode(g)), s6)
        },
        None => (o5, st5),
    }
}

/// Reading back a written `MAT ` blob gives the recipe back, up to what is not written:
/// subsurface settings only travel with a positive strength, the alpha cutoff only when
/// positive, empty ids and empty tile sets are dropped, and the graph's bake resolution
/// is brought into 64..=2048. Ids and graph strings must fit their 16-bit lengths, and
/// tile sets and the graph their chunks' 32-bit lengths.
pub proof fn law_material_roundtrip(f: MaterialFileView)
    requires
        mat_ok(f),
    ensures
        mat_decode(mat_encode(f)) == Ok::<MaterialFileView, MaterialBytesError>(mat_normalized(f)),
{
    let (o6, st6) = lemma_walk_all(f);
    lemma_mat_header(o6);
    reveal(mat_decode);
}

} // verus!
