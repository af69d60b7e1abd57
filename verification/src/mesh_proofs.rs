//! Reading back a written `MESH` blob: what comes back, and on which meshes.
use vstd::prelude::*;
use vstd::utf8::*;
use crate::wire::{
    le16, le32, words32, words16, pad4, zeros, bytes16, bytes32, run_chunks, words32_bytes,
    words16_bytes, chunk_bytes, well_framed, lemma_le16_at, lemma_le32_at, lemma_words32_roundtrip,
    lemma_words16_roundtrip, lemma_words32_bytes_len, lemma_words16_bytes_len,
    lemma_run_chunks_append, lemma_well_framed_append, lemma_chunk_at_appended,
};
use crate::skin_file::{note_count, put_chunk, blob_header};
use crate::mesh_file::{
    MeshBytesError, MeshScan, MeshView, MorphView, MESH_MAGIC, TAG_POS, TAG_NRM, TAG_UV, TAG_TAN,
    TAG_COL, TAG_JNT, TAG_WGT, TAG_IDX, TAG_MRPH, mesh_step, mesh_stepper, mesh_scan_init,
    mesh_unslotted, mesh_slotted, put_column, mesh_morph, mesh_decode, mesh_finish, mesh_encode,
    put_unslotted, put_slotted, put_columns32, put_columns16, put_morphs, morph_payload,
    morph_count, mesh_wf, mesh_sizes_ok, up_normals, indices_ok, empty_mesh_view, fits_slotted,
    fits_unslotted32,
};

verus! {

// ---------------------------------------------------------------------------------------
// Attribute columns
// ---------------------------------------------------------------------------------------
/// Columns without their trailing empty ones (empty columns are not written).
pub open spec fn trim_cols<T>(c: Seq<Seq<T>>) -> Seq<Seq<T>>
    decreases c.len(),
{
    if c.len() == 0 {
        c
    } else if c.last().len() == 0 {
        trim_cols(c.drop_last())
    } else {
        c
    }
}

proof fn lemma_trim_prefix<T>(c: Seq<Seq<T>>)
    ensures
        trim_cols(c).len() <= c.len(),
        trim_cols(c) == c.take(trim_cols(c).len() as int),
        forall|k: int| trim_cols(c).len() <= k < c.len() ==> (#[trigger] c[k]).len() == 0,
        trim_cols(c).len() > 0 ==> trim_cols(c).last().len() > 0,
    decreases c.len(),
{
    if c.len() == 0 {
        assert(c.take(0) =~= c);
    } else if c.last().len() == 0 {
        lemma_trim_prefix(c.drop_last());
        let t = trim_cols(c.drop_last());
        assert(c.drop_last().take(t.len() as int) =~= c.take(t.len() as int));
        assert forall|k: int| t.len() <= k < c.len() implies (#[trigger] c[k]).len() == 0 by {
            if k < c.len() - 1 {
                assert(c.drop_last()[k] == c[k]);
            }
        }
    } else {
        assert(c.take(c.len() as int) =~= c);
    }
}

/// Storing a non-empty column `i` after the columns before it were stored.
proof fn lemma_put_column_next<T>(c: Seq<Seq<T>>, i: int)
    requires
        0 <= i < c.len(),
        c[i].len() > 0,
    ensures
        put_column(trim_cols(c.take(i)), i, c[i]) == Some(trim_cols(c.take(i + 1))),
{
    let ci = c.take(i);
    lemma_trim_prefix(ci);
    let t = trim_cols(ci);
    let grown = t + Seq::new((i + 1 - t.len()) as nat, |j: int| Seq::<T>::empty());
    assert forall|k: int| 0 <= k < i implies #[trigger] grown[k] == c[k] by {
        if k < t.len() {
            assert(t[k] == ci[k]);
        } else {
            assert(ci[k].len() == 0);
            assert(c[k] =~= Seq::<T>::empty());
        }
    }
    assert(grown[i].len() == 0);
    assert(grown.update(i, c[i]) =~= c.take(i + 1));
    assert(c.take(i + 1).last() == c[i]);
}

/// An empty column is not written and changes nothing.
proof fn lemma_trim_skip<T>(c: Seq<Seq<T>>, i: int)
    requires
        0 <= i < c.len(),
        c[i].len() == 0,
    ensures
        trim_cols(c.take(i + 1)) == trim_cols(c.take(i)),
{
    assert(c.take(i + 1).drop_last() =~= c.take(i));
}

// ---------------------------------------------------------------------------------------
// Walking written chunks
// ---------------------------------------------------------------------------------------
/// `o` is a framed blob whose chunks decode, from the start, to the scan state `st`.
pub open spec fn mesh_walks(o: Seq<u8>, st: MeshScan) -> bool {
    &&& o.len() >= 8
    &&& o.subrange(0, 8) == blob_header(MESH_MAGIC)
    &&& o.len() % 4 == 0
    &&& well_framed(o, 8)
    &&& run_chunks(mesh_stepper(), MeshBytesError::Truncated, o, 8, mesh_scan_init()) == Ok::<
        MeshScan,
        MeshBytesError,
    >(st)
}

proof fn lemma_walk_header()
    ensures
        mesh_walks(blob_header(MESH_MAGIC), mesh_scan_init()),
{
    let h = blob_header(MESH_MAGIC);
    assert(h.len() == 8);
    assert(well_framed(h, 8));
    assert(h.subrange(0, 8) =~= h);
}

proof fn lemma_walk(o: Seq<u8>, st: MeshScan, tag: u32, payload: Seq<u8>, st2: MeshScan)
    requires
        mesh_walks(o, st),
        payload.len() <= u32::MAX,
        mesh_step(st, tag, payload) == Ok::<MeshScan, MeshBytesError>(st2),
    ensures
        mesh_walks(put_chunk(o, tag, payload), st2),
{
    lemma_run_chunks_append(mesh_stepper(), MeshBytesError::Truncated, o, 8, mesh_scan_init(), tag, payload);
    lemma_well_framed_append(o, 8, tag, payload);
    lemma_chunk_at_appended(o, tag, payload);
    assert(put_chunk(o, tag, payload).subrange(0, 8) =~= o.subrange(0, 8));
}

// ---------------------------------------------------------------------------------------
// Chunk payloads
// ---------------------------------------------------------------------------------------
proof fn lemma_unslotted(c: int, data: Seq<u8>, stride: int)
    requires
        0 < c <= u32::MAX,
        data.len() == c * stride,
    ensures
        mesh_unslotted(bytes32(c) + data, stride) == Ok::<(u32, Seq<u8>), MeshBytesError>(
            (c as u32, data),
        ),
{
    let p = bytes32(c) + data;
    assert(p.subrange(0, 4) =~= bytes32(c));
    lemma_le32_at(p, 0, c);
    assert(p.subrange(4, p.len() as int) =~= data);
}

proof fn lemma_slotted(slot: int, c: int, data: Seq<u8>, stride: int)
    requires
        0 <= slot <= 255,
        0 < c <= u32::MAX,
        data.len() == c * stride,
    ensures
        mesh_slotted(bytes32(slot) + bytes32(c) + data, stride) == Ok::<
            (u32, u32, Seq<u8>),
            MeshBytesError,
        >((slot as u32, c as u32, data)),
{
    let p = bytes32(slot) + bytes32(c) + data;
    assert(p.subrange(0, 4) =~= bytes32(slot));
    assert(p.subrange(4, 8) =~= bytes32(c));
    lemma_le32_at(p, 0, slot);
    lemma_le32_at(p, 4, c);
    assert(p.subrange(8, p.len() as int) =~= data);
}

/// The vertex count seen so far is none yet, or `n`.
pub open spec fn count_so_far(st: MeshScan, n: u32) -> bool {
    st.n_verts == None::<u32> || st.n_verts == Some(n)
}

// ---------------------------------------------------------------------------------------
// One chunk at a time
// ---------------------------------------------------------------------------------------
/// The scan state after an unslotted float attribute chunk.
pub open spec fn with_attr(st: MeshScan, tag: u32, ws: Seq<u32>, n: u32) -> MeshScan {
    if tag == TAG_POS {
        MeshScan {
            mesh: MeshView { positions: ws, ..st.mesh },
            saw_pos: true,
            n_verts: Some(n),
            ..st
        }
    } else if tag == TAG_NRM {
        MeshScan { mesh: MeshView { normals: ws, ..st.mesh }, saw_nrm: true, n_verts: Some(n), ..st }
    } else {
        MeshScan {
            mesh: MeshView { tangents: ws, ..st.mesh },
            saw_tan: true,
            n_verts: Some(n),
            ..st
        }
    }
}

proof fn lemma_attr_step(st: MeshScan, tag: u32, ws: Seq<u32>, n: u32)
    requires
        (tag == TAG_POS && !st.saw_pos && ws.len() == 3 * n) || (tag == TAG_NRM && !st.saw_nrm
            && ws.len() == 3 * n) || (tag == TAG_TAN && !st.saw_tan && ws.len() == 4 * n),
        n > 0,
        count_so_far(st, n),
    ensures
        mesh_step(st, tag, bytes32(n as int) + words32_bytes(ws)) == Ok::<MeshScan, MeshBytesError>(
            with_attr(st, tag, ws, n),
        ),
{
    reveal(mesh_step);
    lemma_words32_bytes_len(ws);
    lemma_words32_roundtrip(ws);
    if tag == TAG_TAN {
        lemma_unslotted(n as int, words32_bytes(ws), 16);
    } else {
        lemma_unslotted(n as int, words32_bytes(ws), 12);
    }
}

/// The 32-bit-word columns a chunk tag fills.
pub open spec fn cols32_of(st: MeshScan, tag: u32) -> Seq<Seq<u32>> {
    if tag == TAG_UV {
        st.mesh.uvs
    } else if tag == TAG_COL {
        st.mesh.colors
    } else {
        st.mesh.weights
    }
}

pub open spec fn with_cols32(st: MeshScan, tag: u32, c: Seq<Seq<u32>>, nv: Option<u32>) -> MeshScan {
    if tag == TAG_UV {
        MeshScan { mesh: MeshView { uvs: c, ..st.mesh }, n_verts: nv, ..st }
    } else if tag == TAG_COL {
        MeshScan { mesh: MeshView { colors: c, ..st.mesh }, n_verts: nv, ..st }
    } else {
        MeshScan { mesh: MeshView { weights: c, ..st.mesh }, n_verts: nv, ..st }
    }
}

pub open spec fn col_tag(tag: u32, w: int) -> bool {
    (tag == TAG_UV && w == 2) || (tag == TAG_COL && w == 4) || (tag == TAG_WGT && w == 4)
}

proof fn lemma_col32_step(st: MeshScan, tag: u32, cols: Seq<Seq<u32>>, i: int, w: int, n: u32)
    requires
        col_tag(tag, w),
        0 <= i < cols.len(),
        i <= 255,
        cols[i].len() == w * n,
        n > 0,
        count_so_far(st, n),
        cols32_of(st, tag) == trim_cols(cols.take(i)),
    ensures
        mesh_step(st, tag, bytes32(i) + bytes32(n as int) + words32_bytes(cols[i])) == Ok::<
            MeshScan,
            MeshBytesError,
        >(with_cols32(st, tag, trim_cols(cols.take(i + 1)), Some(n))),
{
    reveal(mesh_step);
    lemma_words32_bytes_len(cols[i]);
    lemma_words32_roundtrip(cols[i]);
    assert(cols[i].len() * 4 == n * (4 * w)) by (nonlinear_arith)
        requires
            cols[i].len() == w * n,
    ;
    assert(cols[i].len() > 0) by (nonlinear_arith)
        requires
            cols[i].len() == w * n,
            n > 0,
            w >= 2,
    ;
    lemma_slotted(i, n as int, words32_bytes(cols[i]), 4 * w);
    lemma_put_column_next(cols, i);
}

/// Every column is empty or holds `n` vertices of `w` entries.
pub open spec fn cols_fit<T>(cols: Seq<Seq<T>>, w: int, n: u32) -> bool {
    forall|k: int|
        0 <= k < cols.len() ==> (#[trigger] cols[k]).len() == 0 || cols[k].len() == w * n
}

/// Every column fits a slotted chunk with entries of `unit` bytes.
pub open spec fn cols_small<T>(cols: Seq<Seq<T>>, unit: int) -> bool {
    forall|k: int| 0 <= k < cols.len() ==> fits_slotted((#[trigger] cols[k]).len() as int, unit)
}

proof fn lemma_columns32(
    o: Seq<u8>,
    st: MeshScan,
    tag: u32,
    cols: Seq<Seq<u32>>,
    w: int,
    i: int,
    n: u32,
)
    requires
        mesh_walks(o, st),
        col_tag(tag, w),
        0 <= i <= cols.len(),
        cols32_of(st, tag) == trim_cols(cols.take(i)),
        count_so_far(st, n),
        cols_fit(cols, w, n),
        cols_small(cols, 4),
        trim_cols(cols).len() <= 256,
    ensures
        mesh_walks(
            put_columns32(o, tag, cols, w, i),
            with_cols32(
                st,
                tag,
                trim_cols(cols),
                if trim_cols(cols).len() > i {
                    Some(n)
                } else {
                    st.n_verts
                },
            ),
        ),
    decreases cols.len() - i,
{
    lemma_trim_prefix(cols);
    if i == cols.len() {
        assert(cols.take(i) =~= cols);
    } else if cols[i].len() == 0 {
        lemma_trim_skip(cols, i);
        assert(put_slotted(o, tag, i, cols[i].len() as int / w, words32_bytes(cols[i])) == o);
        lemma_columns32(o, st, tag, cols, w, i + 1, n);
    } else {
        let c = cols[i];
        assert(c.len() as int / w == n) by (nonlinear_arith)
            requires
                c.len() == w * n,
                w > 0,
        ;
        assert(n > 0) by (nonlinear_arith)
            requires
                c.len() == w * n,
                c.len() > 0,
                w > 0,
        ;
        lemma_words32_bytes_len(c);
        let payload = bytes32(i) + bytes32(n as int) + words32_bytes(c);
        lemma_col32_step(st, tag, cols, i, w, n);
        let st2 = with_cols32(st, tag, trim_cols(cols.take(i + 1)), Some(n));
        lemma_walk(o, st, tag, payload, st2);
        assert(put_slotted(o, tag, i, n as int, words32_bytes(c)) == put_chunk(o, tag, payload));
        lemma_columns32(put_chunk(o, tag, payload), st2, tag, cols, w, i + 1, n);
    }
}

/// The joint columns (four 16-bit indices per vertex).
proof fn lemma_jnt_step(st: MeshScan, cols: Seq<Seq<u16>>, i: int, n: u32)
    requires
        0 <= i < cols.len(),
        i <= 255,
        cols[i].len() == 4 * n,
        n > 0,
        count_so_far(st, n),
        st.mesh.joints == trim_cols(cols.take(i)),
    ensures
        mesh_step(st, TAG_JNT, bytes32(i) + bytes32(n as int) + words16_bytes(cols[i])) == Ok::<
            MeshScan,
            MeshBytesError,
        >(
            MeshScan {
                mesh: MeshView { joints: trim_cols(cols.take(i + 1)), ..st.mesh },
                n_verts: Some(n),
                ..st
            },
        ),
{
    reveal(mesh_step);
    lemma_words16_bytes_len(cols[i]);
    lemma_words16_roundtrip(cols[i]);
    lemma_slotted(i, n as int, words16_bytes(cols[i]), 8);
    lemma_put_column_next(cols, i);
}

proof fn lemma_columns16(o: Seq<u8>, st: MeshScan, cols: Seq<Seq<u16>>, i: int, n: u32)
    requires
        mesh_walks(o, st),
        0 <= i <= cols.len(),
        st.mesh.joints == trim_cols(cols.take(i)),
        count_so_far(st, n),
        cols_fit(cols, 4, n),
        cols_small(cols, 2),
        trim_cols(cols).len() <= 256,
    ensures
        mesh_walks(
            put_columns16(o, TAG_JNT, cols, i),
            MeshScan {
                mesh: MeshView { joints: trim_cols(cols), ..st.mesh },
                n_verts: if trim_cols(cols).len() > i {
                    Some(n)
                } else {
                    st.n_verts
                },
                ..st
            },
        ),
    decreases cols.len() - i,
{
    lemma_trim_prefix(cols);
    if i == cols.len() {
        assert(cols.take(i) =~= cols);
    } else if cols[i].len() == 0 {
        lemma_trim_skip(cols, i);
        assert(put_slotted(o, TAG_JNT, i, cols[i].len() as int / 4, words16_bytes(cols[i])) == o);
        lemma_columns16(o, st, cols, i + 1, n);
    } else {
        let c = cols[i];
        lemma_words16_bytes_len(c);
        let payload = bytes32(i) + bytes32(n as int) + words16_bytes(c);
        lemma_jnt_step(st, cols, i, n);
        let st2 = MeshScan {
            mesh: MeshView { joints: trim_cols(cols.take(i + 1)), ..st.mesh },
            n_verts: Some(n),
            ..st
        };
        lemma_walk(o, st, TAG_JNT, payload, st2);
        assert(put_slotted(o, TAG_JNT, i, n as int, words16_bytes(c)) == put_chunk(o, TAG_JNT, payload));
        lemma_columns16(put_chunk(o, TAG_JNT, payload), st2, cols, i + 1, n);
    }
}

// ---------------------------------------------------------------------------------------
// Morph targets
// ---------------------------------------------------------------------------------------
/// A morph target as read back: the deltas of the vertices written (normal deltas only
/// when it had any).
pub open spec fn morph_written(m: MorphView) -> MorphView {
    let c = morph_count(m);
    MorphView {
        name: m.name,
        position_deltas: m.position_deltas.take(3 * c),
        normal_deltas: if m.normal_deltas.len() != 0 {
            m.normal_deltas.take(3 * c)
        } else {
            Seq::empty()
        },
    }
}

/// The morph targets that are written (those with at least one vertex), as read back.
pub open spec fn kept_morphs(ms: Seq<MorphView>) -> Seq<MorphView>
    decreases ms.len(),
{
    if ms.len() == 0 {
        Seq::empty()
    } else if morph_count(ms.last()) == 0 {
        kept_morphs(ms.drop_last())
    } else {
        kept_morphs(ms.drop_last()).push(morph_written(ms.last()))
    }
}

/// Whole vertices, a payload that fits, and a name short enough to be written whole.
pub open spec fn morph_ok(m: MorphView) -> bool {
    &&& m.position_deltas.len() % 3 == 0
    &&& m.normal_deltas.len() % 3 == 0
    &&& morph_payload(m).len() <= u32::MAX
    &&& encode_utf8(m.name).len() <= 65535
}

/// The parts of a morph payload, in order.
pub open spec fn morph_parts(m: MorphView) -> (Seq<u8>, Seq<u8>, Seq<u8>, Seq<u8>, Seq<u8>, Seq<u8>, Seq<u8>) {
    let b = encode_utf8(m.name);
    let k = b.len() as int;
    let c = morph_count(m);
    let has = m.normal_deltas.len() != 0;
    (
        bytes16(k),
        b,
        zeros(pad4(2 + k)),
        bytes32(
            if has {
                1
            } else {
                0
            },
        ),
        bytes32(c),
        words32_bytes(m.position_deltas.take(3 * c)),
        if has {
            words32_bytes(m.normal_deltas.take(3 * c))
        } else {
            Seq::empty()
        },
    )
}

proof fn lemma_morph_parts(m: MorphView)
    requires
        morph_ok(m),
    ensures
        ({
            let (h, b, z, f, cc, pw, nw) = morph_parts(m);
            morph_payload(m) == h + b + z + f + cc + pw + nw
        }),
{
    let b = encode_utf8(m.name);
    assert(b.take(b.len() as int) =~= b);
}

proof fn lemma_read_head(p: Seq<u8>, h: Seq<u8>, b: Seq<u8>, rest: Seq<u8>, k: int)
    requires
        p == h + b + rest,
        h == bytes16(k),
        b.len() == k,
        0 <= k <= 65535,
    ensures
        le16(p, 0) == k,
        p.subrange(2, 2 + k) == b,
{
    assert(p.subrange(0, 2) =~= h);
    lemma_le16_at(p, 0, k);
    assert(p.subrange(2, 2 + k) =~= b);
}

proof fn lemma_read_word(p: Seq<u8>, pre: Seq<u8>, w: Seq<u8>, rest: Seq<u8>, v: int)
    requires
        p == pre + w + rest,
        w == bytes32(v),
        0 <= v <= u32::MAX,
    ensures
        le32(p, pre.len() as int) == v,
{
    assert(p.subrange(pre.len() as int, pre.len() + 4int) =~= w);
    lemma_le32_at(p, pre.len() as int, v);
}

/// Reading a morph payload whose fields are known.
proof fn lemma_morph_read(
    p: Seq<u8>,
    b: Seq<u8>,
    k: int,
    flag: int,
    c: int,
    pw: Seq<u8>,
    nw: Seq<u8>,
)
    requires
        b.len() == k,
        k <= 65535,
        p.len() >= 2 + k,
        le16(p, 0) == k,
        p.subrange(2, 2 + k) == b,
        valid_utf8(b),
        flag == 0 || flag == 1,
        0 <= c,
        pw.len() == c * 12,
        flag == 1 ==> nw.len() == c * 12,
        ({
            let at = 2 + k + pad4(2 + k);
            &&& le32(p, at) == flag
            &&& le32(p, at + 4) == c
            &&& p.len() == at + 8 + c * 12 + if flag == 1 {
                c * 12
            } else {
                0
            }
            &&& p.subrange(at + 8, at + 8 + c * 12) == pw
            &&& flag == 1 ==> p.subrange(at + 8 + c * 12, at + 8 + c * 24) == nw
        }),
    ensures
        mesh_morph(p) == Ok::<MorphView, MeshBytesError>(
            MorphView {
                name: decode_utf8(b),
                position_deltas: words32(pw),
                normal_deltas: if flag == 1 {
                    words32(nw)
                } else {
                    Seq::empty()
                },
            },
        ),
{
}

#[verifier::spinoff_prover]
#[verifier::rlimit(40)]
proof fn lemma_morph_payload(m: MorphView)
    requires
        morph_ok(m),
        morph_count(m) > 0,
    ensures
        mesh_morph(morph_payload(m)) == Ok::<MorphView, MeshBytesError>(morph_written(m)),
        morph_payload(m).len() <= u32::MAX,
{
    let (h, b, z, f, cc, pw, nw) = morph_parts(m);
    lemma_morph_parts(m);
    let k = b.len() as int;
    let c = morph_count(m);
    let has = m.normal_deltas.len() != 0;
    let flag: int = if has {
        1
    } else {
        0
    };
    let pd = m.position_deltas.take(3 * c);
    let nd = m.normal_deltas.take(3 * c);
    lemma_words32_bytes_len(pd);
    lemma_words32_bytes_len(nd);
    lemma_words32_roundtrip(pd);
    lemma_words32_roundtrip(nd);
    let p = morph_payload(m);
    let p1 = h + b + z;
    let p2 = p1 + f;
    let p3 = p2 + cc;
    let p4 = p3 + pw;
    assert(p == p4 + nw);
    assert(pw.len() == 12 * c);
    assert(p.len() >= pw.len());
    assert(c <= u32::MAX);
    let at = 2 + k + pad4(2 + k);
    assert(p1.len() == at);
    assert(p =~= h + b + (z + f + cc + pw + nw));
    lemma_read_head(p, h, b, z + f + cc + pw + nw, k);
    encode_utf8_valid_utf8(m.name);
    encode_utf8_decode_utf8(m.name);
    assert(p =~= p1 + f + (cc + pw + nw));
    lemma_read_word(p, p1, f, cc + pw + nw, flag);
    assert(p =~= p2 + cc + (pw + nw));
    lemma_read_word(p, p2, cc, pw + nw, c);
    assert(p.subrange(at + 8, at + 8 + c * 12) =~= pw);
    if has {
        assert(p.subrange(at + 8 + c * 12, at + 8 + c * 24) =~= nw);
    }
    lemma_morph_read(p, b, k, flag, c, pw, nw);
}

proof fn lemma_morph_step(st: MeshScan, m: MorphView, n: u32)
    requires
        morph_ok(m),
        morph_count(m) == n,
        n > 0,
        count_so_far(st, n),
    ensures
        mesh_step(st, TAG_MRPH, morph_payload(m)) == Ok::<MeshScan, MeshBytesError>(
            MeshScan {
                mesh: MeshView {
                    morph_targets: st.mesh.morph_targets.push(morph_written(m)),
                    ..st.mesh
                },
                n_verts: Some(n),
                ..st
            },
        ),
{
    reveal(mesh_step);
    lemma_morph_payload(m);
    let w = morph_written(m);
    assert(w.position_deltas.len() / 3 == n);
}

proof fn lemma_kept_mono(ms: Seq<MorphView>, j: int)
    requires
        0 <= j <= ms.len(),
    ensures
        kept_morphs(ms.take(j)).len() <= kept_morphs(ms).len(),
    decreases ms.len() - j,
{
    if j == ms.len() {
        assert(ms.take(j) =~= ms);
    } else {
        assert(ms.take(j + 1).drop_last() =~= ms.take(j));
        lemma_kept_mono(ms, j + 1);
    }
}

/// Every written morph target has `n` vertices and is well formed.
pub open spec fn morphs_fit(ms: Seq<MorphView>, n: u32) -> bool {
    forall|k: int|
        0 <= k < ms.len() ==> morph_count(#[trigger] ms[k]) == 0 || (morph_count(ms[k]) == n
            && morph_ok(ms[k]))
}

proof fn lemma_morphs(o: Seq<u8>, st: MeshScan, ms: Seq<MorphView>, i: int, n: u32)
    requires
        mesh_walks(o, st),
        0 <= i <= ms.len(),
        st.mesh.morph_targets == kept_morphs(ms.take(i)),
        count_so_far(st, n),
        morphs_fit(ms, n),
    ensures
        mesh_walks(
            put_morphs(o, ms, i),
            MeshScan {
                mesh: MeshView { morph_targets: kept_morphs(ms), ..st.mesh },
                n_verts: if kept_morphs(ms).len() > kept_morphs(ms.take(i)).len() {
                    Some(n)
                } else {
                    st.n_verts
                },
                ..st
            },
        ),
    decreases ms.len() - i,
{
    if i == ms.len() {
        assert(ms.take(i) =~= ms);
    } else {
        let m = ms[i];
        assert(ms.take(i + 1).drop_last() =~= ms.take(i));
        assert(ms.take(i + 1).last() == m);
        let skip = (m.position_deltas.len() == 0 && m.normal_deltas.len() == 0) || morph_count(m)
            == 0;
        assert(skip <==> morph_count(m) == 0);
        if morph_count(m) == 0 {
            lemma_morphs(o, st, ms, i + 1, n);
        } else {
            lemma_morph_step(st, m, n);
            let st2 = MeshScan {
                mesh: MeshView {
                    morph_targets: st.mesh.morph_targets.push(morph_written(m)),
                    ..st.mesh
                },
                n_verts: Some(n),
                ..st
            };
            let payload = morph_payload(m);
            lemma_morph_payload(m);
            lemma_walk(o, st, TAG_MRPH, payload, st2);
            lemma_kept_mono(ms, i + 1);
            lemma_morphs(put_chunk(o, TAG_MRPH, payload), st2, ms, i + 1, n);
        }
    }
}

// ---------------------------------------------------------------------------------------
// The whole blob
// ---------------------------------------------------------------------------------------
/// Positions as written: the rest pose when there is one.
pub open spec fn written_pos(m: MeshView) -> Seq<u32> {
    if m.basis_positions.len() == 0 {
        m.positions
    } else {
        m.basis_positions
    }
}

/// Normals as written: the rest-pose normals when there are some.
pub open spec fn written_nrm(m: MeshView) -> Seq<u32> {
    if m.basis_normals.len() == 0 {
        m.normals
    } else {
        m.basis_normals
    }
}

/// Tangents are written only without a rest pose.
pub open spec fn writes_tangents(m: MeshView) -> bool {
    m.basis_positions.len() == 0 && m.tangents.len() != 0
}

/// Every attribute that is written holds `n` vertices.
pub open spec fn mesh_counts_fit(m: MeshView, n: u32) -> bool {
    &&& written_pos(m).len() == 0 || written_pos(m).len() == 3 * n
    &&& written_nrm(m).len() == 0 || written_nrm(m).len() == 3 * n
    &&& writes_tangents(m) ==> m.tangents.len() == 4 * n
    &&& cols_fit(m.uvs, 2, n)
    &&& cols_fit(m.colors, 4, n)
    &&& cols_fit(m.joints, 4, n)
    &&& cols_fit(m.weights, 4, n)
    &&& morphs_fit(m.morph_targets, n)
}

/// Some vertex attribute or morph target is written.
pub open spec fn writes_vertices(m: MeshView) -> bool {
    ||| written_pos(m).len() > 0
    ||| written_nrm(m).len() > 0
    ||| writes_tangents(m)
    ||| trim_cols(m.uvs).len() > 0
    ||| trim_cols(m.colors).len() > 0
    ||| trim_cols(m.joints).len() > 0
    ||| trim_cols(m.weights).len() > 0
    ||| kept_morphs(m.morph_targets).len() > 0
}

/// The meshes whose blob reads back: whole vertices, sizes that fit, `n` vertices in
/// every written attribute, at most 256 attribute slots in use, whole triangles whose
/// indices address those vertices, and positions under any written morph target.
pub open spec fn mesh_readable(m: MeshView, n: u32) -> bool {
    &&& mesh_wf(m)
    &&& mesh_sizes_ok(m)
    &&& mesh_counts_fit(m, n)
    &&& trim_cols(m.uvs).len() <= 256
    &&& trim_cols(m.colors).len() <= 256
    &&& trim_cols(m.joints).len() <= 256
    &&& trim_cols(m.weights).len() <= 256
    &&& m.indices.len() % 3 == 0
    &&& forall|k: int| 0 <= k < m.indices.len() ==> #[trigger] m.indices[k] < n
    &&& m.indices.len() > 0 ==> writes_vertices(m)
    &&& kept_morphs(m.morph_targets).len() > 0 ==> written_pos(m).len() > 0
}

/// What a written mesh reads back as: the positions and normals written (the rest pose
/// when there is one), trailing empty attribute slots dropped, tangents only without a
/// rest pose, the morph targets that have vertices, and, with morph targets, a rest pose
/// equal to the positions (normals `(0, 1, 0)` when their count differs) and all morph
/// weights `0.0`.
pub open spec fn mesh_read_back(m: MeshView) -> MeshView {
    let pos = written_pos(m);
    let nrm = written_nrm(m);
    let ks = kept_morphs(m.morph_targets);
    let morphs = ks.len() > 0;
    MeshView {
        positions: pos,
        normals: nrm,
        uvs: trim_cols(m.uvs),
        tangents: if m.basis_positions.len() == 0 {
            m.tangents
        } else {
            Seq::empty()
        },
        colors: trim_cols(m.colors),
        joints: trim_cols(m.joints),
        weights: trim_cols(m.weights),
        indices: m.indices,
        basis_positions: if morphs {
            pos
        } else {
            Seq::empty()
        },
        basis_normals: if !morphs {
            Seq::empty()
        } else if nrm.len() == pos.len() {
            nrm
        } else {
            up_normals(pos.len() as int)
        },
        morph_targets: ks,
        morph_weights: Seq::new(ks.len(), |i: int| 0u32),
    }
}

/// An unslotted attribute chunk, written when non-empty.
proof fn lemma_attr_stage(o: Seq<u8>, st: MeshScan, tag: u32, ws: Seq<u32>, w: int, n: u32)
    requires
        mesh_walks(o, st),
        count_so_far(st, n),
        (tag == TAG_POS && !st.saw_pos && w == 3) || (tag == TAG_NRM && !st.saw_nrm && w == 3)
            || (tag == TAG_TAN && !st.saw_tan && w == 4),
        ws.len() == 0 || ws.len() == w * n,
        fits_unslotted32(ws.len() as int),
    ensures
        mesh_walks(
            put_unslotted(o, tag, ws.len() as int / w, words32_bytes(ws)),
            if ws.len() == 0 {
                st
            } else {
                with_attr(st, tag, ws, n)
            },
        ),
{
    if ws.len() != 0 {
        assert(ws.len() as int / w == n);
        lemma_words32_bytes_len(ws);
        lemma_attr_step(st, tag, ws, n);
        lemma_walk(o, st, tag, bytes32(n as int) + words32_bytes(ws), with_attr(st, tag, ws, n));
    }
}

proof fn lemma_idx_stage(o: Seq<u8>, st: MeshScan, idx: Seq<u32>)
    requires
        mesh_walks(o, st),
        !st.saw_idx,
        st.mesh.indices.len() == 0,
        idx.len() % 3 == 0,
        fits_unslotted32(idx.len() as int),
    ensures
        mesh_walks(
            put_unslotted(o, TAG_IDX, idx.len() as int, words32_bytes(idx)),
            if idx.len() == 0 {
                st
            } else {
                MeshScan { mesh: MeshView { indices: idx, ..st.mesh }, saw_idx: true, ..st }
            },
        ),
{
    if idx.len() != 0 {
        reveal(mesh_step);
        lemma_words32_bytes_len(idx);
        lemma_words32_roundtrip(idx);
        lemma_unslotted(idx.len() as int, words32_bytes(idx), 4);
        let st2 = MeshScan { mesh: MeshView { indices: idx, ..st.mesh }, saw_idx: true, ..st };
        lemma_walk(o, st, TAG_IDX, bytes32(idx.len() as int) + words32_bytes(idx), st2);
    }
}

proof fn lemma_decode_walked(o: Seq<u8>, st: MeshScan)
    requires
        mesh_walks(o, st),
    ensures
        mesh_decode(o) == mesh_finish(st),
{
    reveal(mesh_decode);
    let hh = o.subrange(0, 8);
    assert(hh =~= bytes32(MESH_MAGIC as int) + bytes16(1) + bytes16(0));
    assert(o.subrange(0, 4) =~= hh.subrange(0, 4));
    assert(o.subrange(4, 6) =~= hh.subrange(4, 6));
    assert(o.subrange(6, 8) =~= hh.subrange(6, 8));
    assert(hh.subrange(0, 4) =~= bytes32(MESH_MAGIC as int));
    assert(hh.subrange(4, 6) =~= bytes16(1));
    assert(hh.subrange(6, 8) =~= bytes16(0));
    lemma_le32_at(o, 0, MESH_MAGIC as int);
    lemma_le16_at(o, 4, 1);
    lemma_le16_at(o, 6, 0);
}

/// The blob up to the normals.
pub open spec fn enc_nrm(m: MeshView) -> Seq<u8> {
    let pos = written_pos(m);
    let nrm = written_nrm(m);
    put_unslotted(
        put_unslotted(blob_header(MESH_MAGIC), TAG_POS, pos.len() as int / 3, words32_bytes(pos)),
        TAG_NRM,
        nrm.len() as int / 3,
        words32_bytes(nrm),
    )
}

/// The blob up to the UV slots and tangents.
pub open spec fn enc_tan(m: MeshView) -> Seq<u8> {
    let o3 = put_columns32(enc_nrm(m), TAG_UV, m.uvs, 2, 0);
    if writes_tangents(m) {
        put_unslotted(o3, TAG_TAN, m.tangents.len() as int / 4, words32_bytes(m.tangents))
    } else {
        o3
    }
}

/// The blob up to the indices.
pub open spec fn enc_idx(m: MeshView) -> Seq<u8> {
    let o5 = put_columns32(enc_tan(m), TAG_COL, m.colors, 4, 0);
    let o6 = put_columns16(o5, TAG_JNT, m.joints, 0);
    let o7 = put_columns32(o6, TAG_WGT, m.weights, 4, 0);
    put_unslotted(o7, TAG_IDX, m.indices.len() as int, words32_bytes(m.indices))
}

proof fn lemma_encode_parts(m: MeshView)
    ensures
        mesh_encode(m) == put_morphs(enc_idx(m), m.morph_targets, 0),
{
    reveal(mesh_encode);
}

pub open spec fn some_if(b: bool, n: u32, nv: Option<u32>) -> Option<u32> {
    if b {
        Some(n)
    } else {
        nv
    }
}

proof fn lemma_stage_nrm(m: MeshView, n: u32) -> (s: MeshScan)
    requires
        mesh_readable(m, n),
    ensures
        mesh_walks(enc_nrm(m), s),
        s == (MeshScan {
            mesh: MeshView {
                positions: written_pos(m),
                normals: written_nrm(m),
                ..empty_mesh_view()
            },
            saw_pos: written_pos(m).len() > 0,
            saw_nrm: written_nrm(m).len() > 0,
            saw_tan: false,
            saw_idx: false,
            n_verts: some_if(
                written_pos(m).len() > 0 || written_nrm(m).len() > 0,
                n,
                None,
            ),
        }),
{
    let pos = written_pos(m);
    let nrm = written_nrm(m);
    if pos.len() == 0 {
        assert(pos =~= Seq::<u32>::empty());
    }
    if nrm.len() == 0 {
        assert(nrm =~= Seq::<u32>::empty());
    }
    let o0 = blob_header(MESH_MAGIC);
    let s0 = mesh_scan_init();
    lemma_walk_header();
    let o1 = put_unslotted(o0, TAG_POS, pos.len() as int / 3, words32_bytes(pos));
    lemma_attr_stage(o0, s0, TAG_POS, pos, 3, n);
    let s1 = if pos.len() == 0 {
        s0
    } else {
        with_attr(s0, TAG_POS, pos, n)
    };
    lemma_attr_stage(o1, s1, TAG_NRM, nrm, 3, n);
    if nrm.len() == 0 {
        s1
    } else {
        with_attr(s1, TAG_NRM, nrm, n)
    }
}

proof fn lemma_stage_tan(m: MeshView, n: u32, s2: MeshScan) -> (s: MeshScan)
    requires
        mesh_readable(m, n),
        mesh_walks(enc_nrm(m), s2),
        s2.mesh.uvs.len() == 0,
        !s2.saw_tan,
        count_so_far(s2, n),
    ensures
        mesh_walks(enc_tan(m), s),
        s == (MeshScan {
            mesh: MeshView {
                uvs: trim_cols(m.uvs),
                tangents: if writes_tangents(m) {
                    m.tangents
                } else {
                    s2.mesh.tangents
                },
                ..s2.mesh
            },
            saw_tan: writes_tangents(m),
            n_verts: some_if(trim_cols(m.uvs).len() > 0 || writes_tangents(m), n, s2.n_verts),
            ..s2
        }),
{
    let o2 = enc_nrm(m);
    assert(m.uvs.take(0) =~= Seq::<Seq<u32>>::empty());
    assert(trim_cols(m.uvs.take(0)) =~= s2.mesh.uvs);
    let o3 = put_columns32(o2, TAG_UV, m.uvs, 2, 0);
    lemma_columns32(o2, s2, TAG_UV, m.uvs, 2, 0, n);
    let s3 = with_cols32(s2, TAG_UV, trim_cols(m.uvs), some_if(trim_cols(m.uvs).len() > 0, n, s2.n_verts));
    if writes_tangents(m) {
        lemma_attr_stage(o3, s3, TAG_TAN, m.tangents, 4, n);
        with_attr(s3, TAG_TAN, m.tangents, n)
    } else {
        s3
    }
}

proof fn lemma_stage_idx(m: MeshView, n: u32, s4: MeshScan) -> (s: MeshScan)
    requires
        mesh_readable(m, n),
        mesh_walks(enc_tan(m), s4),
        s4.mesh.colors.len() == 0,
        s4.mesh.joints.len() == 0,
        s4.mesh.weights.len() == 0,
        s4.mesh.indices.len() == 0,
        !s4.saw_idx,
        count_so_far(s4, n),
    ensures
        mesh_walks(enc_idx(m), s),
        s == (MeshScan {
            mesh: MeshView {
                colors: trim_cols(m.colors),
                joints: trim_cols(m.joints),
                weights: trim_cols(m.weights),
                indices: m.indices,
                ..s4.mesh
            },
            saw_idx: m.indices.len() > 0,
            n_verts: some_if(
                trim_cols(m.colors).len() > 0 || trim_cols(m.joints).len() > 0 || trim_cols(
                    m.weights,
                ).len() > 0,
                n,
                s4.n_verts,
            ),
            ..s4
        }),
{
    let o4 = enc_tan(m);
    assert(m.colors.take(0) =~= Seq::<Seq<u32>>::empty());
    assert(trim_cols(m.colors.take(0)) =~= s4.mesh.colors);
    let o5 = put_columns32(o4, TAG_COL, m.colors, 4, 0);
    lemma_columns32(o4, s4, TAG_COL, m.colors, 4, 0, n);
    let s5 = with_cols32(s4, TAG_COL, trim_cols(m.colors), some_if(trim_cols(m.colors).len() > 0, n, s4.n_verts));
    assert(m.joints.take(0) =~= Seq::<Seq<u16>>::empty());
    assert(trim_cols(m.joints.take(0)) =~= s5.mesh.joints);
    let o6 = put_columns16(o5, TAG_JNT, m.joints, 0);
    lemma_columns16(o5, s5, m.joints, 0, n);
    let s6 = MeshScan {
        mesh: MeshView { joints: trim_cols(m.joints), ..s5.mesh },
        n_verts: some_if(trim_cols(m.joints).len() > 0, n, s5.n_verts),
        ..s5
    };
    assert(m.weights.take(0) =~= Seq::<Seq<u32>>::empty());
    assert(trim_cols(m.weights.take(0)) =~= s6.mesh.weights);
    let o7 = put_columns32(o6, TAG_WGT, m.weights, 4, 0);
    lemma_columns32(o6, s6, TAG_WGT, m.weights, 4, 0, n);
    let s7 = with_cols32(s6, TAG_WGT, trim_cols(m.weights), some_if(trim_cols(m.weights).len() > 0, n, s6.n_verts));
    lemma_idx_stage(o7, s7, m.indices);
    if m.indices.len() == 0 {
        assert(m.indices =~= s7.mesh.indices);
        s7
    } else {
        MeshScan { mesh: MeshView { indices: m.indices, ..s7.mesh }, saw_idx: true, ..s7 }
    }
}

/// The scan state at the end of a written blob.
pub open spec fn final_scan(m: MeshView, n: u32) -> MeshScan {
    MeshScan {
        mesh: MeshView {
            positions: written_pos(m),
            normals: written_nrm(m),
            uvs: trim_cols(m.uvs),
            tangents: if writes_tangents(m) {
                m.tangents
            } else {
                Seq::empty()
            },
            colors: trim_cols(m.colors),
            joints: trim_cols(m.joints),
            weights: trim_cols(m.weights),
            indices: m.indices,
            morph_targets: kept_morphs(m.morph_targets),
            ..empty_mesh_view()
        },
        saw_pos: written_pos(m).len() > 0,
        saw_nrm: written_nrm(m).len() > 0,
        saw_tan: writes_tangents(m),
        saw_idx: m.indices.len() > 0,
        n_verts: some_if(writes_vertices(m), n, None),
    }
}

proof fn lemma_walk_all(m: MeshView, n: u32)
    requires
        mesh_readable(m, n),
    ensures
        mesh_walks(mesh_encode(m), final_scan(m, n)),
{
    let s2 = lemma_stage_nrm(m, n);
    let s4 = lemma_stage_tan(m, n, s2);
    let s8 = lemma_stage_idx(m, n, s4);
    let ms = m.morph_targets;
    assert(ms.take(0) =~= Seq::<MorphView>::empty());
    assert(kept_morphs(ms.take(0)) =~= s8.mesh.morph_targets);
    lemma_morphs(enc_idx(m), s8, ms, 0, n);
    lemma_encode_parts(m);
    let s9 = MeshScan {
        mesh: MeshView { morph_targets: kept_morphs(ms), ..s8.mesh },
        n_verts: some_if(kept_morphs(ms).len() > 0, n, s8.n_verts),
        ..s8
    };
    assert(s9 == final_scan(m, n));
}

proof fn lemma_finish(m: MeshView, n: u32)
    requires
        mesh_readable(m, n),
    ensures
        mesh_finish(final_scan(m, n)) == Ok::<MeshView, MeshBytesError>(mesh_read_back(m)),
{
    let st = final_scan(m, n);
    assert(indices_ok(m.indices, st.n_verts));
    if m.basis_positions.len() == 0 && !writes_tangents(m) {
        assert(m.tangents =~= Seq::<u32>::empty());
    }
}

/// Writing a mesh and reading the bytes back gives the mesh in its read-back form, for
/// every mesh whose blob is readable (`n` is its vertex count).
pub proof fn law_mesh_roundtrip(m: MeshView, n: u32)
    requires
        mesh_readable(m, n),
    ensures
        mesh_decode(mesh_encode(m)) == Ok::<MeshView, MeshBytesError>(mesh_read_back(m)),
{
    lemma_walk_all(m, n);
    lemma_decode_walked(mesh_encode(m), final_scan(m, n));
    lemma_finish(m, n);
}

} // verus!
