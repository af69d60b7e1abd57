//! The `SKIN` blob: inverse bind matrices plus an optional joint hierarchy (names,
//! parents, local transforms). Matrices and transforms are carried as IEEE-754 bit
//! patterns (`u32` per `f32`).
use vstd::prelude::*;
use vstd::utf8::*;
use crate::wire::{
    le16, le32, words32, pad4, run_chunks, get_u16, get_u32, read_words32, utf8_string,
    read_chunk, lemma_run_chunks_unfold, lemma_chunk_progress, bytes16, bytes32, zeros,
    words32_bytes, chunk_bytes, put_u16, put_u32, put_bytes, put_words32, write_chunk,
    string_bytes, put_zeros, lemma_le16_at, lemma_le32_at, lemma_words32_roundtrip,
    lemma_words32_bytes_len, lemma_run_chunks_append, lemma_well_framed_append,
    lemma_chunk_at_appended, well_framed,
};
use crate::hierarchy::{parents_in_range, rooted, check_parents, reaches_root, climb};

verus! {

pub const SKIN_MAGIC: u32 = 0x4e494b53;

pub const SKIN_VERSION: u16 = 1;

pub const TAG_IBM: u32 = 0x204d4249;

pub const TAG_NAME: u32 = 0x454d414e;

pub const TAG_PAR: u32 = 0x20524150;

pub const TAG_TRS: u32 = 0x20535254;

/// Why a `SKIN` blob was rejected.
#[derive(Debug, Clone, PartialEq, Eq)]
pub enum SkinBytesError {
    Truncated,
    BadMagic,
    UnsupportedVersion(u16),
    Quantized,
    Duplicate(&'static str),
    SizeMismatch,
    CountMismatch,
    HierarchyWithoutBind,
    BadParent,
    BadUtf8,
}

/// Decoded `SKIN` blob. Each matrix is 16 column-major `f32` bit patterns; each local
/// transform is translation (3), rotation quaternion xyzw (4), scale (3).
pub struct SkinFile {
    pub inverse_bind: Vec<[u32; 16]>,
    /// Empty if the `NAME` chunk was omitted.
    pub names: Vec<String>,
    /// Empty if `PAR ` was omitted. `-1` = root.
    pub parents: Vec<i32>,
    /// Empty if `TRS ` was omitted.
    pub locals: Vec<[u32; 10]>,
}

/// Mathematical content of a [`SkinFile`].
pub struct SkinView {
    pub inverse_bind: Seq<Seq<u32>>,
    pub names: Seq<Seq<char>>,
    pub parents: Seq<i32>,
    pub locals: Seq<Seq<u32>>,
}

impl SkinFile {
    pub open spec fn view(&self) -> SkinView {
        SkinView {
            inverse_bind: self.inverse_bind@.map_values(|m: [u32; 16]| m@),
            names: self.names@.map_values(|s: String| s@),
            parents: self.parents@,
            locals: self.locals@.map_values(|t: [u32; 10]| t@),
        }
    }
}

/// Decoder state between chunks.
pub struct SkinScan {
    pub file: SkinView,
    pub saw_ibm: bool,
    pub saw_name: bool,
    pub saw_par: bool,
    pub saw_trs: bool,
    pub n_joints: Option<u32>,
}

pub open spec fn skin_scan_init() -> SkinScan {
    SkinScan {
        file: SkinView {
            inverse_bind: Seq::empty(),
            names: Seq::empty(),
            parents: Seq::empty(),
            locals: Seq::empty(),
        },
        saw_ibm: false,
        saw_name: false,
        saw_par: false,
        saw_trs: false,
        n_joints: None,
    }
}

/// Every non-empty per-joint chunk must agree on the joint count; an empty one says
/// nothing.
pub open spec fn note_count(n: Option<u32>, count: u32) -> Option<Option<u32>> {
    if count == 0 {
        Some(n)
    } else {
        match n {
            None => Some(Some(count)),
            Some(v) => if v == count {
                Some(n)
            } else {
                None
            },
        }
    }
}

/// `count` (u32) followed by exactly `count * stride` bytes.
pub open spec fn skin_counted(p: Seq<u8>, stride: int) -> Result<(u32, Seq<u8>), SkinBytesError> {
    if p.len() < 4 {
        Err(SkinBytesError::Truncated)
    } else if p.len() != 4 + le32(p, 0) * stride {
        Err(SkinBytesError::SizeMismatch)
    } else {
        Ok((le32(p, 0) as u32, p.subrange(4, p.len() as int)))
    }
}

/// `count` records of `width` 32-bit words each.
pub open spec fn word_records(body: Seq<u8>, count: int, width: int) -> Seq<Seq<u32>> {
    Seq::new(count as nat, |i: int| words32(body.subrange(4 * width * i, 4 * width * (i + 1))))
}

/// Reads `k` more names from `p` at `pos`: u16 length, UTF-8 bytes, zero padding so each
/// entry is a multiple of 4 bytes long.
pub open spec fn skin_names_from(p: Seq<u8>, pos: int, k: nat, acc: Seq<Seq<char>>) -> Result<
    (Seq<Seq<char>>, int),
    SkinBytesError,
>
    decreases k,
{
    if k == 0 {
        Ok((acc, pos))
    } else if p.len() - pos < 2 {
        Err(SkinBytesError::Truncated)
    } else {
        let n = le16(p, pos);
        if p.len() - (pos + 2) < n {
            Err(SkinBytesError::Truncated)
        } else {
            let raw = p.subrange(pos + 2, pos + 2 + n);
            if !valid_utf8(raw) {
                Err(SkinBytesError::BadUtf8)
            } else if p.len() - (pos + 2 + n) < pad4(2 + n) {
                Err(SkinBytesError::Truncated)
            } else {
                skin_names_from(
                    p,
                    pos + 2 + n + pad4(2 + n),
                    (k - 1) as nat,
                    acc.push(decode_utf8(raw)),
                )
            }
        }
    }
}

/// Decodes one chunk into the scan state.
#[verifier::opaque]
pub open spec fn skin_step(st: SkinScan, tag: u32, p: Seq<u8>) -> Result<SkinScan, SkinBytesError> {
    if tag == TAG_IBM {
        if st.saw_ibm {
            Err(SkinBytesError::Duplicate("IBM"))
        } else {
            match skin_counted(p, 64) {
                Err(e) => Err(e),
                Ok((count, body)) => match note_count(st.n_joints, count) {
                    None => Err(SkinBytesError::CountMismatch),
                    Some(n) => Ok(
                        SkinScan {
                            file: SkinView {
                                inverse_bind: word_records(body, count as int, 16),
                                ..st.file
                            },
                            saw_ibm: true,
                            n_joints: n,
                            ..st
                        },
                    ),
                },
            }
        }
    } else if tag == TAG_NAME {
        if st.saw_name {
            Err(SkinBytesError::Duplicate("NAME"))
        } else if p.len() < 4 {
            Err(SkinBytesError::Truncated)
        } else {
            match note_count(st.n_joints, le32(p, 0) as u32) {
                None => Err(SkinBytesError::CountMismatch),
                Some(n) => match skin_names_from(p, 4, le32(p, 0) as nat, Seq::empty()) {
                    Err(e) => Err(e),
                    Ok((names, end)) => if end != p.len() {
                        Err(SkinBytesError::SizeMismatch)
                    } else {
                        Ok(
                            SkinScan {
                                file: SkinView { names: names, ..st.file },
                                saw_name: true,
                                n_joints: n,
                                ..st
                            },
                        )
                    },
                },
            }
        }
    } else if tag == TAG_PAR {
        if st.saw_par {
            Err(SkinBytesError::Duplicate("PAR"))
        } else {
            match skin_counted(p, 4) {
                Err(e) => Err(e),
                Ok((count, body)) => match note_count(st.n_joints, count) {
                    None => Err(SkinBytesError::CountMismatch),
                    Some(n) => Ok(
                        SkinScan {
                            file: SkinView {
                                parents: words32(body).map_values(|w: u32| w as i32),
                                ..st.file
                            },
                            saw_par: true,
                            n_joints: n,
                            ..st
                        },
                    ),
                },
            }
        }
    } else if tag == TAG_TRS {
        if st.saw_trs {
            Err(SkinBytesError::Duplicate("TRS"))
        } else {
            match skin_counted(p, 40) {
                Err(e) => Err(e),
                Ok((count, body)) => match note_count(st.n_joints, count) {
                    None => Err(SkinBytesError::CountMismatch),
                    Some(n) => Ok(
                        SkinScan {
                            file: SkinView {
                                locals: word_records(body, count as int, 10),
                                ..st.file
                            },
                            saw_trs: true,
                            n_joints: n,
                            ..st
                        },
                    ),
                },
            }
        }
    } else {
        Ok(st)
    }
}

pub open spec fn skin_stepper() -> spec_fn(SkinScan, u32, Seq<u8>) -> Result<SkinScan, SkinBytesError> {
    |st: SkinScan, tag: u32, p: Seq<u8>| skin_step(st, tag, p)
}

/// What a `SKIN` blob decodes to: header checks (length, magic, version, no quantized
/// flag), then the chunks in order, then the hierarchy checks (a hierarchy needs
/// matrices; parents must form a forest).
#[verifier::opaque]
pub open spec fn skin_decode(bytes: Seq<u8>) -> Result<SkinView, SkinBytesError> {
    if bytes.len() < 8 {
        Err(SkinBytesError::Truncated)
    } else if le32(bytes, 0) != SKIN_MAGIC {
        Err(SkinBytesError::BadMagic)
    } else if le16(bytes, 4) != SKIN_VERSION {
        Err(SkinBytesError::UnsupportedVersion(le16(bytes, 4) as u16))
    } else if le16(bytes, 6) % 2 == 1 {
        Err(SkinBytesError::Quantized)
    } else {
        match run_chunks(skin_stepper(), SkinBytesError::Truncated, bytes, 8, skin_scan_init()) {
            Err(e) => Err(e),
            Ok(st) => if (st.saw_name || st.saw_par || st.saw_trs) && !st.saw_ibm {
                Err(SkinBytesError::HierarchyWithoutBind)
            } else if st.saw_par && !(parents_in_range(st.file.parents) && rooted(
                st.file.parents,
            )) {
                Err(SkinBytesError::BadParent)
            } else {
                Ok(st.file)
            },
        }
    }
}

/// Exec form of the scan state.
struct SkinParts {
    file: SkinFile,
    saw_ibm: bool,
    saw_name: bool,
    saw_par: bool,
    saw_trs: bool,
    n_joints: Option<u32>,
}

impl SkinParts {
    spec fn view(&self) -> SkinScan {
        SkinScan {
            file: self.file.view(),
            saw_ibm: self.saw_ibm,
            saw_name: self.saw_name,
            saw_par: self.saw_par,
            saw_trs: self.saw_trs,
            n_joints: self.n_joints,
        }
    }
}

/// Exec `note_count`.
fn note_count_exec(n: Option<u32>, count: u32) -> (r: Option<Option<u32>>)
    ensures
        r == note_count(n, count),
{
    if count == 0 {
        return Some(n);
    }
    match n {
        None => Some(Some(count)),
        Some(v) => if v == count {
            Some(n)
        } else {
            None
        },
    }
}

fn read_counted(p: &[u8], stride: u64) -> (r: Result<(u32, &[u8]), SkinBytesError>)
    requires
        stride <= 64,
    ensures
        match skin_counted(p@, stride as int) {
            Ok((c, b)) => r matches Ok(x) && x.0 == c && x.1@ == b,
            Err(e) => r == Err::<(u32, &[u8]), SkinBytesError>(e),
        },
{
    if p.len() < 4 {
        return Err(SkinBytesError::Truncated);
    }
    let count = get_u32(p, 0);
    assert(count as u64 * stride <= 0x1_0000_0000 * 64) by (nonlinear_arith)
        requires
            stride <= 64,
            count <= u32::MAX,
    ;
    if p.len() as u64 != 4 + count as u64 * stride {
        return Err(SkinBytesError::SizeMismatch);
    }
    Ok((count, &p[4..p.len()]))
}

/// Reads a 16-word record at `at`.
#[verifier::rlimit(30)]
fn read_array16(b: &[u8], at: usize) -> (r: [u32; 16])
    requires
        at + 64 <= b@.len(),
    ensures
        r@ == words32(b@.subrange(at as int, at + 64)),
{
    let _n = b.len();
    let r = [
        get_u32(b, at),
        get_u32(b, at + 4),
        get_u32(b, at + 8),
        get_u32(b, at + 12),
        get_u32(b, at + 16),
        get_u32(b, at + 20),
        get_u32(b, at + 24),
        get_u32(b, at + 28),
        get_u32(b, at + 32),
        get_u32(b, at + 36),
        get_u32(b, at + 40),
        get_u32(b, at + 44),
        get_u32(b, at + 48),
        get_u32(b, at + 52),
        get_u32(b, at + 56),
        get_u32(b, at + 60),
    ];
    assert(r@ =~= words32(b@.subrange(at as int, at + 64)));
    r
}

/// Reads a 10-word record at `at`.
fn read_array10(b: &[u8], at: usize) -> (r: [u32; 10])
    requires
        at + 40 <= b@.len(),
    ensures
        r@ == words32(b@.subrange(at as int, at + 40)),
{
    let _n = b.len();
    let r = [
        get_u32(b, at),
        get_u32(b, at + 4),
        get_u32(b, at + 8),
        get_u32(b, at + 12),
        get_u32(b, at + 16),
        get_u32(b, at + 20),
        get_u32(b, at + 24),
        get_u32(b, at + 28),
        get_u32(b, at + 32),
        get_u32(b, at + 36),
    ];
    assert(r@ =~= words32(b@.subrange(at as int, at + 40)));
    r
}

fn read_mats(body: &[u8], count: u32) -> (r: Vec<[u32; 16]>)
    requires
        body@.len() == 64 * count,
    ensures
        r@.map_values(|m: [u32; 16]| m@) == word_records(body@, count as int, 16),
{
    let mut out: Vec<[u32; 16]> = Vec::new();
    let mut i: usize = 0;
    let n = count as usize;
    let blen = body.len();
    while i < n
        invariant
            n == count,
            blen == body@.len(),
            body@.len() == 64 * count,
            i <= n,
            out@.len() == i,
            forall|k: int| 0 <= k < i ==> (#[trigger] out@[k])@ == word_records(body@, count as int, 16)[k],
        decreases n - i,
    {
        assert(64 * i + 64 <= 64 * count) by (nonlinear_arith)
            requires
                i < n,
                n == count,
        ;
        let m = read_array16(body, 64 * i);
        out.push(m);
        i += 1;
    }
    assert(out@.map_values(|m: [u32; 16]| m@) =~= word_records(body@, count as int, 16));
    out
}

fn read_trs(body: &[u8], count: u32) -> (r: Vec<[u32; 10]>)
    requires
        body@.len() == 40 * count,
    ensures
        r@.map_values(|t: [u32; 10]| t@) == word_records(body@, count as int, 10),
{
    let mut out: Vec<[u32; 10]> = Vec::new();
    let mut i: usize = 0;
    let n = count as usize;
    let blen = body.len();
    while i < n
        invariant
            n == count,
            blen == body@.len(),
            body@.len() == 40 * count,
            i <= n,
            out@.len() == i,
            forall|k: int| 0 <= k < i ==> (#[trigger] out@[k])@ == word_records(body@, count as int, 10)[k],
        decreases n - i,
    {
        assert(40 * i + 40 <= 40 * count) by (nonlinear_arith)
            requires
                i < n,
                n == count,
        ;
        let t = read_array10(body, 40 * i);
        out.push(t);
        i += 1;
    }
    assert(out@.map_values(|t: [u32; 10]| t@) =~= word_records(body@, count as int, 10));
    out
}

fn read_i32s(body: &[u8]) -> (r: Vec<i32>)
    ensures
        r@ == words32(body@).map_values(|w: u32| w as i32),
{
    let ws = read_words32(body);
    let mut out: Vec<i32> = Vec::new();
    let mut i: usize = 0;
    while i < ws.len()
        invariant
            i <= ws@.len(),
            ws@ == words32(body@),
            out@ == ws@.map_values(|w: u32| w as i32).take(i as int),
        decreases ws@.len() - i,
    {
        out.push(ws[i] as i32);
        i += 1;
        assert(out@ =~= ws@.map_values(|w: u32| w as i32).take(i as int));
    }
    assert(ws@.map_values(|w: u32| w as i32).take(i as int) =~= ws@.map_values(
        |w: u32| w as i32,
    ));
    out
}

/// Reads the entries of a `NAME` chunk.
fn read_names(p: &[u8], count: u32) -> (r: Result<(Vec<String>, usize), SkinBytesError>)
    requires
        p@.len() >= 4,
    ensures
        match skin_names_from(p@, 4, count as nat, Seq::empty()) {
            Ok((names, end)) => r matches Ok(x) && x.0@.map_values(|s: String| s@) == names
                && x.1 == end,
            Err(e) => r == Err::<(Vec<String>, usize), SkinBytesError>(e),
        },
{
    let mut names: Vec<String> = Vec::new();
    let mut pos: usize = 4;
    let mut i: u32 = 0;
    assert(names@.map_values(|s: String| s@) =~= Seq::<Seq<char>>::empty());
    while i < count
        invariant
            i <= count,
            pos <= p@.len(),
            skin_names_from(p@, 4, count as nat, Seq::empty()) == skin_names_from(
                p@,
                pos as int,
                (count - i) as nat,
                names@.map_values(|s: String| s@),
            ),
        decreases count - i,
    {
        let ghost acc = names@.map_values(|s: String| s@);
        if p.len() - pos < 2 {
            return Err(SkinBytesError::Truncated);
        }
        let n = get_u16(p, pos) as usize;
        if p.len() - (pos + 2) < n {
            return Err(SkinBytesError::Truncated);
        }
        let raw = &p[pos + 2..pos + 2 + n];
        let name = match utf8_string(raw) {
            Some(s) => s,
            None => {
                return Err(SkinBytesError::BadUtf8);
            },
        };
        let pad = (4 - (2 + n) % 4) % 4;
        if p.len() - (pos + 2 + n) < pad {
            return Err(SkinBytesError::Truncated);
        }
        proof {
            encode_utf8_decode_utf8(name@);
        }
        names.push(name);
        pos = pos + 2 + n + pad;
        i += 1;
        assert(names@.map_values(|s: String| s@) =~= acc.push(decode_utf8(raw@)));
    }
    Ok((names, pos))
}

fn skin_step_exec(st: &mut SkinParts, tag: u32, p: &[u8]) -> (r: Result<(), SkinBytesError>)
    ensures
        match skin_step(old(st)@, tag, p@) {
            Ok(s2) => r is Ok && final(st)@ == s2,
            Err(e) => r == Err::<(), SkinBytesError>(e),
        },
{
    reveal(skin_step);
    if tag == TAG_IBM {
        if st.saw_ibm {
            return Err(SkinBytesError::Duplicate("IBM"));
        }
        let (count, body) = read_counted(p, 64)?;
        let n = match note_count_exec(st.n_joints, count) {
            Some(n) => n,
            None => {
                return Err(SkinBytesError::CountMismatch);
            },
        };
        st.file.inverse_bind = read_mats(body, count);
        st.saw_ibm = true;
        st.n_joints = n;
        Ok(())
    } else if tag == TAG_NAME {
        if st.saw_name {
            return Err(SkinBytesError::Duplicate("NAME"));
        }
        if p.len() < 4 {
            return Err(SkinBytesError::Truncated);
        }
        let count = get_u32(p, 0);
        let n = match note_count_exec(st.n_joints, count) {
            Some(n) => n,
            None => {
                return Err(SkinBytesError::CountMismatch);
            },
        };
        let (names, end) = read_names(p, count)?;
        if end != p.len() {
            return Err(SkinBytesError::SizeMismatch);
        }
        st.file.names = names;
        st.saw_name = true;
        st.n_joints = n;
        Ok(())
    } else if tag == TAG_PAR {
        if st.saw_par {
            return Err(SkinBytesError::Duplicate("PAR"));
        }
        let (count, body) = read_counted(p, 4)?;
        let n = match note_count_exec(st.n_joints, count) {
            Some(n) => n,
            None => {
                return Err(SkinBytesError::CountMismatch);
            },
        };
        st.file.parents = read_i32s(body);
        st.saw_par = true;
        st.n_joints = n;
        Ok(())
    } else if tag == TAG_TRS {
        if st.saw_trs {
            return Err(SkinBytesError::Duplicate("TRS"));
        }
        let (count, body) = read_counted(p, 40)?;
        let n = match note_count_exec(st.n_joints, count) {
            Some(n) => n,
            None => {
                return Err(SkinBytesError::CountMismatch);
            },
        };
        st.file.locals = read_trs(body, count);
        st.saw_trs = true;
        st.n_joints = n;
        Ok(())
    } else {
        Ok(())
    }
}

impl SkinFile {
    /// Decodes a `SKIN` blob.
    pub fn from_bytes(bytes: &[u8]) -> (r: Result<SkinFile, SkinBytesError>)
        ensures
            match skin_decode(bytes@) {
                Ok(v) => r matches Ok(f) && f.view() == v,
                Err(e) => r matches Err(e2) && e2 == e,
            },
    {
        reveal(skin_decode);
        if bytes.len() < 8 {
            return Err(SkinBytesError::Truncated);
        }
        if get_u32(bytes, 0) != SKIN_MAGIC {
            return Err(SkinBytesError::BadMagic);
        }
        let version = get_u16(bytes, 4);
        if version != SKIN_VERSION {
            return Err(SkinBytesError::UnsupportedVersion(version));
        }
        let flags = get_u16(bytes, 6);
        if flags % 2 == 1 {
            return Err(SkinBytesError::Quantized);
        }
        let mut st = SkinParts {
            file: SkinFile {
                inverse_bind: Vec::new(),
                names: Vec::new(),
                parents: Vec::new(),
                locals: Vec::new(),
            },
            saw_ibm: false,
            saw_name: false,
            saw_par: false,
            saw_trs: false,
            n_joints: None,
        };
        assert(st@.file.inverse_bind =~= Seq::<Seq<u32>>::empty());
        assert(st@.file.names =~= Seq::<Seq<char>>::empty());
        assert(st@.file.locals =~= Seq::<Seq<u32>>::empty());
        assert(st@ == skin_scan_init());
        let mut pos: usize = 8;
        while pos < bytes.len()
            invariant
                8 <= pos <= bytes@.len(),
                le32(bytes@, 0) == SKIN_MAGIC,
                le16(bytes@, 4) == SKIN_VERSION,
                le16(bytes@, 6) % 2 == 0,
                run_chunks(skin_stepper(), SkinBytesError::Truncated, bytes@, 8, skin_scan_init())
                    == run_chunks(skin_stepper(), SkinBytesError::Truncated, bytes@, pos as int, st@),
                st@.file.parents.len() < 0x4000_0000,
            decreases bytes@.len() - pos,
        {
            proof {
                lemma_run_chunks_unfold(
                    skin_stepper(),
                    SkinBytesError::Truncated,
                    bytes@,
                    pos as int,
                    st@,
                );
            }
            let (tag, start, len, next) = match read_chunk(bytes, pos) {
                Some(c) => c,
                None => {
                    proof {
                        reveal(skin_decode);
                    }
                    return Err(SkinBytesError::Truncated);
                },
            };
            proof {
                lemma_chunk_progress(bytes@, pos as int);
            }
            let payload = &bytes[start..start + len];
            let ghost before = st@;
            assert(payload@ == bytes@.subrange(start as int, start + len));
            match skin_step_exec(&mut st, tag, payload) {
                Ok(()) => {},
                Err(e) => {
                    assert(skin_step(before, tag, payload@) == Err::<SkinScan, SkinBytesError>(e));
                    assert(run_chunks(skin_stepper(), SkinBytesError::Truncated, bytes@, pos as int, before) == Err::<SkinScan, SkinBytesError>(e));
                    proof {
                        reveal(skin_decode);
                    }
                    return Err(e);
                },
            }
            proof {
                reveal(skin_step);
                if tag == TAG_PAR && !before.saw_par {
                    assert(st@.file.parents.len() == (payload@.len() - 4) / 4);
                }
            }
            pos = next;
        }
        if (st.saw_name || st.saw_par || st.saw_trs) && !st.saw_ibm {
            return Err(SkinBytesError::HierarchyWithoutBind);
        }
        if st.saw_par && !check_parents(&st.file.parents) {
            return Err(SkinBytesError::BadParent);
        }
        Ok(st.file)
    }
}

// ---------------------------------------------------------------------------------------
// Encoding
// ---------------------------------------------------------------------------------------
/// `out` followed by a chunk written at its end.
pub open spec fn put_chunk(out: Seq<u8>, tag: u32, payload: Seq<u8>) -> Seq<u8> {
    out + chunk_bytes(out.len() as int, tag, payload)
}

/// The 8-byte blob header: magic, version 1, no flags.
pub open spec fn blob_header(magic: u32) -> Seq<u8> {
    bytes32(magic as int) + bytes16(1) + bytes16(0)
}

/// Bytes of fixed-width records, one after another.
pub open spec fn records_bytes(recs: Seq<Seq<u32>>) -> Seq<u8> {
    recs.map_values(|r: Seq<u32>| words32_bytes(r)).flatten()
}

/// A length-prefixed string entry: u16 byte length (at most 65535; longer strings are
/// cut), the bytes, zero padding so the entry is a multiple of 4 bytes long.
pub open spec fn name_entry(name: Seq<char>) -> Seq<u8> {
    let b = encode_utf8(name);
    let n = if b.len() > 65535 {
        65535
    } else {
        b.len() as int
    };
    bytes16(n) + b.take(n) + zeros(pad4(2 + n))
}

/// `NAME` payload: count, then one entry per name.
pub open spec fn names_payload(names: Seq<Seq<char>>) -> Seq<u8> {
    bytes32(names.len() as int) + names.map_values(|nm: Seq<char>| name_entry(nm)).flatten()
}

/// Identity transform: zero translation, identity rotation, unit scale (`1.0f32` is
/// `0x3f800000`).
pub open spec fn default_trs() -> Seq<u32> {
    seq![0u32, 0, 0, 0, 0, 0, 0x3f800000, 0x3f800000, 0x3f800000, 0x3f800000]
}

/// Names as written for `n` joints: the given ones if there is one per joint, else empty.
pub open spec fn skin_names_written(f: SkinView) -> Seq<Seq<char>> {
    let n = f.inverse_bind.len();
    if f.names.len() == n {
        f.names
    } else {
        Seq::new(n, |i: int| Seq::<char>::empty())
    }
}

/// Parents as written: the given ones if there is one per joint, else all roots.
pub open spec fn skin_parents_written(f: SkinView) -> Seq<i32> {
    let n = f.inverse_bind.len();
    if f.parents.len() == n {
        f.parents
    } else {
        Seq::new(n, |i: int| -1i32)
    }
}

/// Local transforms as written: the given ones, the identity for missing entries.
pub open spec fn skin_locals_written(f: SkinView) -> Seq<Seq<u32>> {
    Seq::new(
        f.inverse_bind.len(),
        |i: int|
            if i < f.locals.len() {
                f.locals[i]
            } else {
                default_trs()
            },
    )
}

/// What `to_bytes` writes: the header, and for a non-empty skin the `IBM `, `NAME`,
/// `PAR ` and `TRS ` chunks.
#[verifier::opaque]
pub open spec fn skin_encode(f: SkinView) -> Seq<u8> {
    let n = f.inverse_bind.len() as int;
    if n == 0 {
        blob_header(SKIN_MAGIC)
    } else {
        let ibm = put_chunk(
            blob_header(SKIN_MAGIC),
            TAG_IBM,
            bytes32(n) + records_bytes(f.inverse_bind),
        );
        let name = put_chunk(ibm, TAG_NAME, names_payload(skin_names_written(f)));
        let par = put_chunk(
            name,
            TAG_PAR,
            bytes32(n) + words32_bytes(skin_parents_written(f).map_values(|p: i32| p as u32)),
        );
        put_chunk(par, TAG_TRS, bytes32(n) + records_bytes(skin_locals_written(f)))
    }
}

fn put_header(out: &mut Vec<u8>, magic: u32)
    ensures
        final(out)@ == old(out)@ + blob_header(magic),
{
    put_u32(out, magic);
    put_u16(out, 1);
    put_u16(out, 0);
    assert(final(out)@ =~= old(out)@ + blob_header(magic));
}

fn put_mats(out: &mut Vec<u8>, recs: &Vec<[u32; 16]>)
    ensures
        final(out)@ == old(out)@ + records_bytes(recs@.map_values(|m: [u32; 16]| m@)),
{
    let ghost start = out@;
    let ghost rs = recs@.map_values(|m: [u32; 16]| m@);
    let mut i: usize = 0;
    while i < recs.len()
        invariant
            i <= recs@.len(),
            rs == recs@.map_values(|m: [u32; 16]| m@),
            out@ == start + records_bytes(rs.take(i as int)),
        decreases recs@.len() - i,
    {
        put_words32(out, recs[i].as_slice());
        proof {
            let f = |r: Seq<u32>| words32_bytes(r);
            assert(rs.take(i + 1) =~= rs.take(i as int).push(rs[i as int]));
            assert(rs.take(i + 1).map_values(f) =~= rs.take(i as int).map_values(f).push(
                f(rs[i as int]),
            ));
            rs.take(i as int).map_values(f).lemma_flatten_push(f(rs[i as int]));
        }
        i += 1;
        assert(out@ =~= start + records_bytes(rs.take(i as int)));
    }
    assert(rs.take(i as int) =~= rs);
}

fn put_trs(out: &mut Vec<u8>, locals: &Vec<[u32; 10]>, n: usize)
    ensures
        final(out)@ == old(out)@ + records_bytes(
            Seq::new(
                n as nat,
                |i: int|
                    if i < locals@.len() {
                        locals@[i]@
                    } else {
                        default_trs()
                    },
            ),
        ),
{
    let ghost start = out@;
    let ghost rs = Seq::new(
        n as nat,
        |i: int|
            if i < locals@.len() {
                locals@[i]@
            } else {
                default_trs()
            },
    );
    let identity: [u32; 10] = [0, 0, 0, 0, 0, 0, 0x3f800000, 0x3f800000, 0x3f800000, 0x3f800000];
    assert(identity@ =~= default_trs());
    let mut i: usize = 0;
    while i < n
        invariant
            i <= n,
            identity@ == default_trs(),
            rs == Seq::new(
                n as nat,
                |i: int|
                    if i < locals@.len() {
                        locals@[i]@
                    } else {
                        default_trs()
                    },
            ),
            out@ == start + records_bytes(rs.take(i as int)),
        decreases n - i,
    {
        if i < locals.len() {
            put_words32(out, locals[i].as_slice());
        } else {
            put_words32(out, identity.as_slice());
        }
        proof {
            let f = |r: Seq<u32>| words32_bytes(r);
            assert(rs.take(i + 1) =~= rs.take(i as int).push(rs[i as int]));
            assert(rs.take(i + 1).map_values(f) =~= rs.take(i as int).map_values(f).push(
                f(rs[i as int]),
            ));
            rs.take(i as int).map_values(f).lemma_flatten_push(f(rs[i as int]));
        }
        i += 1;
        assert(out@ =~= start + records_bytes(rs.take(i as int)));
    }
    assert(rs.take(i as int) =~= rs);
}

/// Appends one length-prefixed string entry.
pub fn put_name_entry(out: &mut Vec<u8>, name: &String)
    ensures
        final(out)@ == old(out)@ + name_entry(name@),
{
    let b = string_bytes(name);
    let n: usize = if b.len() > 65535 {
        65535
    } else {
        b.len()
    };
    put_u16(out, n as u16);
    put_bytes(out, &b[0..n]);
    put_zeros(out, (4 - (2 + n) % 4) % 4);
    assert(b@.subrange(0, n as int) =~= encode_utf8(name@).take(n as int));
    assert(final(out)@ =~= old(out)@ + name_entry(name@));
}

fn put_names(out: &mut Vec<u8>, names: &Vec<String>, n: usize)
    requires
        n <= u32::MAX,
    ensures
        final(out)@ == old(out)@ + names_payload(
            if names@.len() == n {
                names@.map_values(|s: String| s@)
            } else {
                Seq::new(n as nat, |i: int| Seq::<char>::empty())
            },
        ),
{
    let ghost ns = if names@.len() == n {
        names@.map_values(|s: String| s@)
    } else {
        Seq::new(n as nat, |i: int| Seq::<char>::empty())
    };
    let ghost f = |nm: Seq<char>| name_entry(nm);
    let ghost old0 = out@;
    put_u32(out, n as u32);
    let ghost start = out@;
    let empty = String::new();
    let mut i: usize = 0;
    while i < n
        invariant
            i <= n,
            empty@ == Seq::<char>::empty(),
            f == (|nm: Seq<char>| name_entry(nm)),
            ns == (if names@.len() == n {
                names@.map_values(|s: String| s@)
            } else {
                Seq::new(n as nat, |i: int| Seq::<char>::empty())
            }),
            out@ == start + ns.take(i as int).map_values(f).flatten(),
        decreases n - i,
    {
        if names.len() == n {
            put_name_entry(out, &names[i]);
        } else {
            put_name_entry(out, &empty);
        }
        proof {
            assert(ns.take(i + 1) =~= ns.take(i as int).push(ns[i as int]));
            assert(ns.take(i + 1).map_values(f) =~= ns.take(i as int).map_values(f).push(
                f(ns[i as int]),
            ));
            ns.take(i as int).map_values(f).lemma_flatten_push(f(ns[i as int]));
        }
        i += 1;
        assert(out@ =~= start + ns.take(i as int).map_values(f).flatten());
    }
    assert(ns.take(i as int) =~= ns);
    assert(ns.len() == n);
    assert(out@ =~= old0 + names_payload(ns));
}

fn put_parents(out: &mut Vec<u8>, parents: &Vec<i32>, n: usize)
    ensures
        final(out)@ == old(out)@ + words32_bytes(
            (if parents@.len() == n {
                parents@
            } else {
                Seq::new(n as nat, |i: int| -1i32)
            }).map_values(|p: i32| p as u32),
        ),
{
    let ghost ps = (if parents@.len() == n {
        parents@
    } else {
        Seq::new(n as nat, |i: int| -1i32)
    }).map_values(|p: i32| p as u32);
    let ghost start = out@;
    let mut i: usize = 0;
    while i < n
        invariant
            i <= n,
            ps == (if parents@.len() == n {
                parents@
            } else {
                Seq::new(n as nat, |i: int| -1i32)
            }).map_values(|p: i32| p as u32),
            out@ == start + words32_bytes(ps.take(i as int)),
        decreases n - i,
    {
        let w: u32 = if parents.len() == n {
            parents[i] as u32
        } else {
            0xffff_ffffu32
        };
        assert(w == ps[i as int]) by {
            assert((-1i32) as u32 == 0xffff_ffffu32) by (bit_vector);
        }
        put_u32(out, w);
        i += 1;
        assert(ps.take(i as int).drop_last() =~= ps.take(i - 1));
        assert(out@ =~= start + words32_bytes(ps.take(i as int)));
    }
    assert(ps.take(i as int) =~= ps);
}

/// `n` joints fit the format: the matrix chunk's payload (a count, then sixteen words per
/// joint) stays within the 32-bit payload length, and so do the parent and transform
/// chunks.
pub open spec fn skin_joints_fit(n: int) -> bool {
    4 + 64 * n <= u32::MAX
}

impl SkinFile {
    /// Whether the skin fits the format's 32-bit length fields, so that `to_bytes` can
    /// encode it.
    pub fn sizes_ok(&self) -> (r: bool)
        ensures
            r == (skin_joints_fit(self.inverse_bind@.len() as int) && names_payload(
                skin_names_written(self.view()),
            ).len() <= u32::MAX),
    {
        let n = self.inverse_bind.len();
        if n > 0x3ff_ffff {
            return false;
        }
        let mut b: Vec<u8> = Vec::new();
        put_names(&mut b, &self.names, n);
        proof {
            assert(b@ =~= names_payload(skin_names_written(self.view())));
        }
        b.len() as u64 <= 0xffff_ffff
    }

    /// Encodes as a `SKIN` blob. An empty skin is just the header; otherwise every chunk is
    /// written, with missing names / parents / transforms filled in (empty, root,
    /// identity).
    pub fn to_bytes(&self) -> (r: Vec<u8>)
        requires
            skin_joints_fit(self.inverse_bind@.len() as int),
            names_payload(skin_names_written(self.view())).len() <= u32::MAX,
        ensures
            r@ == skin_encode(self.view()),
    {
        reveal(skin_encode);
        let mut out: Vec<u8> = Vec::new();
        put_header(&mut out, SKIN_MAGIC);
        let n = self.inverse_bind.len();
        if n == 0 {
            assert(out@ =~= blob_header(SKIN_MAGIC));
            return out;
        }
        let ghost v = self.view();
        let mut payload: Vec<u8> = Vec::new();
        put_u32(&mut payload, n as u32);
        put_mats(&mut payload, &self.inverse_bind);
        proof {
            lemma_records_bytes_len(v.inverse_bind, 16);
        }
        write_chunk(&mut out, TAG_IBM, payload.as_slice());
        let mut names: Vec<u8> = Vec::new();
        put_names(&mut names, &self.names, n);
        write_chunk(&mut out, TAG_NAME, names.as_slice());
        let mut par: Vec<u8> = Vec::new();
        put_u32(&mut par, n as u32);
        put_parents(&mut par, &self.parents, n);
        proof {
            crate::wire::lemma_words32_bytes_len(
                skin_parents_written(v).map_values(|p: i32| p as u32),
            );
        }
        write_chunk(&mut out, TAG_PAR, par.as_slice());
        let mut trs: Vec<u8> = Vec::new();
        put_u32(&mut trs, n as u32);
        put_trs(&mut trs, &self.locals, n);
        proof {
            lemma_records_bytes_len(skin_locals_written(v), 10);
            assert(Seq::new(
                n as nat,
                |i: int|
                    if i < self.locals@.len() {
                        self.locals@[i]@
                    } else {
                        default_trs()
                    },
            ) =~= skin_locals_written(v));
        }
        write_chunk(&mut out, TAG_TRS, trs.as_slice());
        out
    }
}

/// Records of `w` words take `4 w` bytes each.
pub proof fn lemma_records_bytes_len(recs: Seq<Seq<u32>>, w: int)
    requires
        forall|i: int| 0 <= i < recs.len() ==> (#[trigger] recs[i]).len() == w,
    ensures
        records_bytes(recs).len() == 4 * w * recs.len(),
    decreases recs.len(),
{
    if recs.len() > 0 {
        let init = recs.drop_last();
        assert forall|i: int| 0 <= i < init.len() implies (#[trigger] init[i]).len() == w by {
            assert(init[i] == recs[i]);
        }
        lemma_records_bytes_len(init, w);
        lemma_records_bytes_push(init, recs.last());
        assert(init.push(recs.last()) =~= recs);
        assert(recs[recs.len() - 1].len() == w);
        crate::wire::lemma_words32_bytes_len(recs.last());
        let a = records_bytes(init).len() as int;
        assert(records_bytes(recs).len() == a + 4 * w);
        assert(a + 4 * w == 4 * w * recs.len()) by (nonlinear_arith)
            requires
                recs.len() == init.len() + 1,
                a == 4 * w * init.len(),
        ;
    } else {
        let m = recs.map_values(|r: Seq<u32>| words32_bytes(r));
        assert(m =~= Seq::<Seq<u8>>::empty());
        assert(m.flatten() =~= Seq::<u8>::empty());
    }
}

/// Appending a record appends its bytes.
pub proof fn lemma_records_bytes_push(recs: Seq<Seq<u32>>, r: Seq<u32>)
    ensures
        records_bytes(recs.push(r)) == records_bytes(recs) + words32_bytes(r),
{
    let f = |r: Seq<u32>| words32_bytes(r);
    assert(recs.push(r).map_values(f) =~= recs.map_values(f).push(f(r)));
    recs.map_values(f).lemma_flatten_push(f(r));
}

// ---------------------------------------------------------------------------------------
// Round trip
// ---------------------------------------------------------------------------------------
/// Decoding the bytes of fixed-width records gives the records back.
pub proof fn lemma_records_roundtrip(recs: Seq<Seq<u32>>, w: int)
    requires
        w > 0,
        forall|i: int| 0 <= i < recs.len() ==> (#[trigger] recs[i]).len() == w,
    ensures
        word_records(records_bytes(recs), recs.len() as int, w) == recs,
    decreases recs.len(),
{
    let b = records_bytes(recs);
    lemma_records_bytes_len(recs, w);
    if recs.len() > 0 {
        let init = recs.drop_last();
        assert forall|i: int| 0 <= i < init.len() implies (#[trigger] init[i]).len() == w by {
            assert(init[i] == recs[i]);
        }
        lemma_records_roundtrip(init, w);
        lemma_records_bytes_len(init, w);
        lemma_records_bytes_push(init, recs.last());
        assert(init.push(recs.last()) =~= recs);
        let bi = records_bytes(init);
        let last = recs[recs.len() - 1];
        assert(b == bi + words32_bytes(last));
        assert(bi.len() == 4 * w * init.len());
        assert forall|i: int|
            0 <= i < recs.len() implies #[trigger] word_records(b, recs.len() as int, w)[i]
            == recs[i] by {
            if i < init.len() {
                let lo = 4 * w * i;
                let hi = 4 * w * (i + 1);
                assert(hi <= 4 * w * init.len() && 0 <= lo <= hi) by (nonlinear_arith)
                    requires
                        0 <= i < init.len(),
                        w > 0,
                        lo == 4 * w * i,
                        hi == 4 * w * (i + 1),
                ;
                assert(hi <= bi.len());
                assert(b.subrange(lo, hi) =~= bi.subrange(lo, hi));
                assert(word_records(bi, init.len() as int, w)[i] == init[i]);
            } else {
                assert(4 * w * i == 4 * w * init.len() && 4 * w * (i + 1) == 4 * w * init.len()
                    + 4 * w) by (nonlinear_arith)
                    requires
                        i == init.len(),
                ;
                lemma_words32_bytes_len(last);
                assert(b.subrange(4 * w * i, 4 * w * (i + 1)) =~= words32_bytes(last));
                lemma_words32_roundtrip(last);
            }
        }
        assert(word_records(b, recs.len() as int, w) =~= recs);
    } else {
        assert(word_records(b, 0, w) =~= recs);
    }
}

/// The entries of a name list, read front to back, give the names back.
pub proof fn lemma_names_roundtrip(buf: Seq<u8>, pos: int, names: Seq<Seq<char>>, acc: Seq<Seq<char>>)
    requires
        0 <= pos,
        forall|i: int| 0 <= i < names.len() ==> encode_utf8(#[trigger] names[i]).len() <= 65535,
        ({
            let e = names.map_values(|nm: Seq<char>| name_entry(nm)).flatten();
            &&& pos + e.len() <= buf.len()
            &&& buf.subrange(pos, pos + e.len()) == e
        }),
    ensures
        ({
            let e = names.map_values(|nm: Seq<char>| name_entry(nm)).flatten();
            skin_names_from(buf, pos, names.len(), acc) == Ok::<
                (Seq<Seq<char>>, int),
                SkinBytesError,
            >((acc + names, pos + e.len()))
        }),
    decreases names.len(),
{
    let f = |nm: Seq<char>| name_entry(nm);
    let e = names.map_values(f).flatten();
    if names.len() == 0 {
        assert(acc + names =~= acc);
        assert(names.map_values(f) =~= Seq::<Seq<u8>>::empty());
        assert(e =~= Seq::<u8>::empty());
    } else {
        let x = names[0];
        let rest = names.drop_first();
        assert(names.map_values(f).drop_first() =~= rest.map_values(f));
        assert(e == f(x) + rest.map_values(f).flatten());
        let er = rest.map_values(f).flatten();
        let enc = encode_utf8(x);
        let k = enc.len() as int;
        assert(enc.len() <= 65535);
        assert(enc.take(k) =~= enc);
        let ent = name_entry(x);
        assert(ent == bytes16(k) + enc + zeros(pad4(2 + k)));
        assert(buf.subrange(pos, pos + 2) =~= bytes16(k)) by {
            assert(buf.subrange(pos, pos + 2) =~= e.subrange(0, 2));
        }
        lemma_le16_at(buf, pos, k);
        assert(buf.subrange(pos + 2, pos + 2 + k) =~= enc) by {
            assert(buf.subrange(pos + 2, pos + 2 + k) =~= e.subrange(2, 2 + k));
        }
        encode_utf8_valid_utf8(x);
        encode_utf8_decode_utf8(x);
        assert forall|i: int| 0 <= i < rest.len() implies encode_utf8(#[trigger] rest[i]).len()
            <= 65535 by {
            assert(rest[i] == names[i + 1]);
        }
        let npos = pos + 2 + k + pad4(2 + k);
        assert(npos == pos + ent.len());
        assert(buf.subrange(npos, npos + er.len()) =~= er) by {
            assert(buf.subrange(npos, npos + er.len()) =~= e.subrange(ent.len() as int, e.len() as int));
        }
        lemma_names_roundtrip(buf, npos, rest, acc.push(x));
        assert(acc.push(x) + rest =~= acc + names);
    }
}

/// The value `p as u32 as i32` is `p`.
proof fn lemma_i32_u32_roundtrip(p: i32)
    ensures
        (p as u32) as i32 == p,
{
    assert((p as u32) as i32 == p) by (bit_vector);
}

/// What a well-formed skin decodes back to after encoding: the matrices, and the names,
/// parents and local transforms as written (filled in for a non-empty skin; nothing for
/// an empty one).
pub open spec fn skin_roundtrip_view(f: SkinView) -> SkinView {
    if f.inverse_bind.len() == 0 {
        SkinView {
            inverse_bind: Seq::empty(),
            names: Seq::empty(),
            parents: Seq::empty(),
            locals: Seq::empty(),
        }
    } else {
        SkinView {
            inverse_bind: f.inverse_bind,
            names: skin_names_written(f),
            parents: skin_parents_written(f),
            locals: skin_locals_written(f),
        }
    }
}

proof fn lemma_skin_header(enc: Seq<u8>)
    requires
        enc.len() >= 8,
        enc.subrange(0, 8) == blob_header(SKIN_MAGIC),
    ensures
        le32(enc, 0) == SKIN_MAGIC,
        le16(enc, 4) == SKIN_VERSION,
        le16(enc, 6) == 0,
{
    let hh = enc.subrange(0, 8);
    assert(hh =~= bytes32(SKIN_MAGIC as int) + bytes16(1) + bytes16(0));
    assert(enc.subrange(0, 4) =~= hh.subrange(0, 4));
    assert(enc.subrange(4, 6) =~= hh.subrange(4, 6));
    assert(enc.subrange(6, 8) =~= hh.subrange(6, 8));
    assert(hh.subrange(0, 4) =~= bytes32(SKIN_MAGIC as int));
    assert(hh.subrange(4, 6) =~= bytes16(1));
    assert(hh.subrange(6, 8) =~= bytes16(0));
    lemma_le32_at(enc, 0, SKIN_MAGIC as int);
    lemma_le16_at(enc, 4, 1);
    lemma_le16_at(enc, 6, 0);
}

/// Walking four chunks appended to a header is stepping through their payloads.
proof fn lemma_skin_walk4(
    h: Seq<u8>,
    t1: u32,
    p1: Seq<u8>,
    t2: u32,
    p2: Seq<u8>,
    t3: u32,
    p3: Seq<u8>,
    t4: u32,
    p4: Seq<u8>,
)
    requires
        h.len() == 8,
        p1.len() <= u32::MAX,
        p2.len() <= u32::MAX,
        p3.len() <= u32::MAX,
        p4.len() <= u32::MAX,
    ensures
        ({
            let st0 = skin_scan_init();
            let step = skin_stepper();
            let all = put_chunk(put_chunk(put_chunk(put_chunk(h, t1, p1), t2, p2), t3, p3), t4, p4);
            run_chunks(step, SkinBytesError::Truncated, all, 8, st0) == match skin_step(st0, t1, p1) {
                Err(e) => Err(e),
                Ok(s1) => match skin_step(s1, t2, p2) {
                    Err(e) => Err(e),
                    Ok(s2) => match skin_step(s2, t3, p3) {
                        Err(e) => Err(e),
                        Ok(s3) => skin_step(s3, t4, p4),
                    },
                },
            }
        }),
{
    let st0 = skin_scan_init();
    let step = skin_stepper();
    let tr = SkinBytesError::Truncated;
    let e1 = put_chunk(h, t1, p1);
    let e2 = put_chunk(e1, t2, p2);
    let e3 = put_chunk(e2, t3, p3);
    assert(well_framed(h, 8));
    lemma_chunk_at_appended(h, t1, p1);
    lemma_chunk_at_appended(e1, t2, p2);
    lemma_chunk_at_appended(e2, t3, p3);
    lemma_well_framed_append(h, 8, t1, p1);
    lemma_well_framed_append(e1, 8, t2, p2);
    lemma_well_framed_append(e2, 8, t3, p3);
    lemma_run_chunks_append(step, tr, h, 8, st0, t1, p1);
    lemma_run_chunks_append(step, tr, e1, 8, st0, t2, p2);
    lemma_run_chunks_append(step, tr, e2, 8, st0, t3, p3);
    lemma_run_chunks_append(step, tr, e3, 8, st0, t4, p4);
    assert(run_chunks(step, tr, h, 8, st0) == Ok::<SkinScan, SkinBytesError>(st0));
}

/// A counted chunk payload (`count`, then records) decodes to its count and body.
proof fn lemma_skin_counted(n: int, body: Seq<u8>, stride: int)
    requires
        0 < n <= u32::MAX,
        body.len() == stride * n,
    ensures
        skin_counted(bytes32(n) + body, stride) == Ok::<(u32, Seq<u8>), SkinBytesError>(
            (n as u32, body),
        ),
{
    let p = bytes32(n) + body;
    assert(p.subrange(0, 4) =~= bytes32(n));
    lemma_le32_at(p, 0, n);
    assert(p.subrange(4, p.len() as int) =~= body);
    assert(n * stride == stride * n) by (nonlinear_arith);
    assert(p.len() == 4 + le32(p, 0) * stride);
}

proof fn lemma_skin_step_ibm(st0: SkinScan, recs: Seq<Seq<u32>>)
    requires
        st0 == skin_scan_init(),
        0 < recs.len() <= u32::MAX,
        forall|i: int| 0 <= i < recs.len() ==> (#[trigger] recs[i]).len() == 16,
    ensures
        skin_step(st0, TAG_IBM, bytes32(recs.len() as int) + records_bytes(recs)) == Ok::<
            SkinScan,
            SkinBytesError,
        >(
            SkinScan {
                file: SkinView { inverse_bind: recs, ..st0.file },
                saw_ibm: true,
                n_joints: Some(recs.len() as u32),
                ..st0
            },
        ),
{
    reveal(skin_step);
    lemma_records_bytes_len(recs, 16);
    lemma_skin_counted(recs.len() as int, records_bytes(recs), 64);
    lemma_records_roundtrip(recs, 16);
}

proof fn lemma_skin_step_names(st: SkinScan, names: Seq<Seq<char>>)
    requires
        !st.saw_name,
        st.n_joints == Some(names.len() as u32),
        0 < names.len() <= u32::MAX,
        names_payload(names).len() <= u32::MAX,
        forall|i: int| 0 <= i < names.len() ==> encode_utf8(#[trigger] names[i]).len() <= 65535,
    ensures
        skin_step(st, TAG_NAME, names_payload(names)) == Ok::<SkinScan, SkinBytesError>(
            SkinScan { file: SkinView { names: names, ..st.file }, saw_name: true, ..st },
        ),
{
    reveal(skin_step);
    let n = names.len() as int;
    let p2 = names_payload(names);
    assert(p2.subrange(0, 4) =~= bytes32(n));
    lemma_le32_at(p2, 0, n);
    let ne = names.map_values(|nm: Seq<char>| name_entry(nm)).flatten();
    assert(p2.subrange(4, 4 + ne.len() as int) =~= ne);
    lemma_names_roundtrip(p2, 4, names, Seq::empty());
    assert(Seq::<Seq<char>>::empty() + names =~= names);
}

proof fn lemma_skin_step_parents(st: SkinScan, pw: Seq<i32>)
    requires
        !st.saw_par,
        st.n_joints == Some(pw.len() as u32),
        0 < pw.len() <= u32::MAX,
    ensures
        skin_step(st, TAG_PAR, bytes32(pw.len() as int) + words32_bytes(pw.map_values(|p: i32| p as u32)))
            == Ok::<SkinScan, SkinBytesError>(
            SkinScan { file: SkinView { parents: pw, ..st.file }, saw_par: true, ..st },
        ),
{
    reveal(skin_step);
    let pu = pw.map_values(|p: i32| p as u32);
    lemma_words32_bytes_len(pu);
    lemma_skin_counted(pw.len() as int, words32_bytes(pu), 4);
    lemma_words32_roundtrip(pu);
    let back = pu.map_values(|w: u32| w as i32);
    assert forall|i: int| 0 <= i < pw.len() implies #[trigger] back[i] == pw[i] by {
        lemma_i32_u32_roundtrip(pw[i]);
    }
    assert(back =~= pw);
}

proof fn lemma_skin_step_trs(st: SkinScan, recs: Seq<Seq<u32>>)
    requires
        !st.saw_trs,
        st.n_joints == Some(recs.len() as u32),
        0 < recs.len() <= u32::MAX,
        forall|i: int| 0 <= i < recs.len() ==> (#[trigger] recs[i]).len() == 10,
    ensures
        skin_step(st, TAG_TRS, bytes32(recs.len() as int) + records_bytes(recs)) == Ok::<
            SkinScan,
            SkinBytesError,
        >(SkinScan { file: SkinView { locals: recs, ..st.file }, saw_trs: true, ..st }),
{
    reveal(skin_step);
    lemma_records_bytes_len(recs, 10);
    lemma_skin_counted(recs.len() as int, records_bytes(recs), 40);
    lemma_records_roundtrip(recs, 10);
}

/// The chunk walk over an encoded non-empty skin ends in the fully filled-in state.
proof fn lemma_skin_run(f: SkinView)
    requires
        0 < f.inverse_bind.len(),
        skin_joints_fit(f.inverse_bind.len() as int),
        forall|i: int| 0 <= i < f.inverse_bind.len() ==> (#[trigger] f.inverse_bind[i]).len() == 16,
        forall|i: int| 0 <= i < f.locals.len() ==> (#[trigger] f.locals[i]).len() == 10,
        names_payload(skin_names_written(f)).len() <= u32::MAX,
        forall|i: int|
            0 <= i < skin_names_written(f).len() ==> encode_utf8(
                #[trigger] skin_names_written(f)[i],
            ).len() <= 65535,
    ensures
        skin_encode(f).len() >= 8,
        skin_encode(f).subrange(0, 8) == blob_header(SKIN_MAGIC),
        run_chunks(skin_stepper(), SkinBytesError::Truncated, skin_encode(f), 8, skin_scan_init())
            == Ok::<SkinScan, SkinBytesError>(
            SkinScan {
                file: SkinView {
                    inverse_bind: f.inverse_bind,
                    names: skin_names_written(f),
                    parents: skin_parents_written(f),
                    locals: skin_locals_written(f),
                },
                saw_ibm: true,
                saw_name: true,
                saw_par: true,
                saw_trs: true,
                n_joints: Some(f.inverse_bind.len() as u32),
            },
        ),
{
    reveal(skin_encode);
    let n = f.inverse_bind.len() as int;
    let h = blob_header(SKIN_MAGIC);
    let enc = skin_encode(f);
    let st0 = skin_scan_init();
    let p1 = bytes32(n) + records_bytes(f.inverse_bind);
    let nw = skin_names_written(f);
    let p2 = names_payload(nw);
    let pw = skin_parents_written(f);
    let p3 = bytes32(n) + words32_bytes(pw.map_values(|p: i32| p as u32));
    let lw = skin_locals_written(f);
    let p4 = bytes32(n) + records_bytes(lw);
    lemma_records_bytes_len(f.inverse_bind, 16);
    assert forall|i: int| 0 <= i < lw.len() implies (#[trigger] lw[i]).len() == 10 by {}
    lemma_records_bytes_len(lw, 10);
    lemma_words32_bytes_len(pw.map_values(|p: i32| p as u32));
    let e1 = put_chunk(h, TAG_IBM, p1);
    let e2 = put_chunk(e1, TAG_NAME, p2);
    let e3 = put_chunk(e2, TAG_PAR, p3);
    assert(enc == put_chunk(e3, TAG_TRS, p4));
    assert(enc.subrange(0, 8) =~= h) by {
        assert(e1.subrange(0, 8) =~= h);
        assert(e2.subrange(0, 8) =~= e1.subrange(0, 8));
        assert(e3.subrange(0, 8) =~= e2.subrange(0, 8));
        assert(enc.subrange(0, 8) =~= e3.subrange(0, 8));
    }
    lemma_skin_walk4(h, TAG_IBM, p1, TAG_NAME, p2, TAG_PAR, p3, TAG_TRS, p4);
    lemma_skin_step_ibm(st0, f.inverse_bind);
    let st1 = SkinScan {
        file: SkinView { inverse_bind: f.inverse_bind, ..st0.file },
        saw_ibm: true,
        n_joints: Some(n as u32),
        ..st0
    };
    lemma_skin_step_names(st1, nw);
    let st2 = SkinScan { file: SkinView { names: nw, ..st1.file }, saw_name: true, ..st1 };
    lemma_skin_step_parents(st2, pw);
    let st3 = SkinScan { file: SkinView { parents: pw, ..st2.file }, saw_par: true, ..st2 };
    lemma_skin_step_trs(st3, lw);
}

/// Skin round trip: decoding what `to_bytes` writes gives back the matrices, names,
/// parents and local transforms, provided names fit their 16-bit length field and the
/// parents (when one is given per joint) form a forest.
pub proof fn law_skin_roundtrip(f: SkinView)
    requires
        skin_joints_fit(f.inverse_bind.len() as int),
        forall|i: int| 0 <= i < f.inverse_bind.len() ==> (#[trigger] f.inverse_bind[i]).len() == 16,
        forall|i: int| 0 <= i < f.locals.len() ==> (#[trigger] f.locals[i]).len() == 10,
        names_payload(skin_names_written(f)).len() <= u32::MAX,
        forall|i: int|
            0 <= i < skin_names_written(f).len() ==> encode_utf8(
                #[trigger] skin_names_written(f)[i],
            ).len() <= 65535,
        f.parents.len() == f.inverse_bind.len() ==> parents_in_range(f.parents) && rooted(
            f.parents,
        ),
    ensures
        skin_decode(skin_encode(f)) == Ok::<SkinView, SkinBytesError>(skin_roundtrip_view(f)),
{
    reveal(skin_decode);
    let n = f.inverse_bind.len() as int;
    let enc = skin_encode(f);
    let st0 = skin_scan_init();
    if n == 0 {
        reveal(skin_encode);
        assert(enc.subrange(0, 8) =~= blob_header(SKIN_MAGIC));
        lemma_skin_header(enc);
        assert(run_chunks(skin_stepper(), SkinBytesError::Truncated, enc, 8, st0) == Ok::<
            SkinScan,
            SkinBytesError,
        >(st0));
        assert(skin_roundtrip_view(f) =~~= st0.file);
        return;
    }
    lemma_skin_run(f);
    lemma_skin_header(enc);
    let pw = skin_parents_written(f);
    if f.parents.len() != n {
        assert forall|i: int| 0 <= i < pw.len() implies #[trigger] reaches_root(pw, i) by {
            assert(climb(pw, i, 0) == i);
            assert(climb(pw, i, 1) == -1);
        }
    }
}

/// Unknown chunks are skipped: appending a chunk with any other tag to a well-framed
/// blob does not change what it decodes to.
pub proof fn law_skin_unknown_chunk_skipped(bytes: Seq<u8>, tag: u32, payload: Seq<u8>)
    requires
        bytes.len() >= 8,
        bytes.len() % 4 == 0,
        well_framed(bytes, 8),
        payload.len() <= u32::MAX,
        tag != TAG_IBM && tag != TAG_NAME && tag != TAG_PAR && tag != TAG_TRS,
    ensures
        skin_decode(put_chunk(bytes, tag, payload)) == skin_decode(bytes),
{
    reveal(skin_decode);
    reveal(skin_step);
    let all = put_chunk(bytes, tag, payload);
    assert(all.subrange(0, 8) =~= bytes.subrange(0, 8));
    assert(all[0] == bytes[0] && all[1] == bytes[1] && all[2] == bytes[2] && all[3] == bytes[3]);
    assert(all[4] == bytes[4] && all[5] == bytes[5] && all[6] == bytes[6] && all[7] == bytes[7]);
    lemma_run_chunks_append(
        skin_stepper(),
        SkinBytesError::Truncated,
        bytes,
        8,
        skin_scan_init(),
        tag,
        payload,
    );
}

/// The layout of a `SKIN` blob: the header (magic `SKIN`, version 1, no flags), and for
/// `n > 0` joints the chunks `IBM ` (count, sixteen words per matrix), `NAME` (the names),
/// `PAR ` (count, one parent word per joint, `-1` for a root) and `TRS ` (count, ten words
/// per local transform), in that order.
pub proof fn law_skin_blob_layout(f: SkinView)
    ensures
        ({
            let n = f.inverse_bind.len() as int;
            let h = bytes32(crate::wire::fourcc(83, 75, 73, 78) as int) + bytes16(1) + bytes16(0);
            skin_encode(f) == if n == 0 {
                h
            } else {
                put_chunk(
                    put_chunk(
                        put_chunk(
                            put_chunk(h, crate::wire::fourcc(73, 66, 77, 32), bytes32(n) + records_bytes(f.inverse_bind)),
                            crate::wire::fourcc(78, 65, 77, 69),
                            names_payload(skin_names_written(f)),
                        ),
                        crate::wire::fourcc(80, 65, 82, 32),
                        bytes32(n) + words32_bytes(skin_parents_written(f).map_values(|p: i32| p as u32)),
                    ),
                    crate::wire::fourcc(84, 82, 83, 32),
                    bytes32(n) + records_bytes(skin_locals_written(f)),
                )
            }
        }),
{
    reveal(skin_encode);
    assert(crate::wire::fourcc(83, 75, 73, 78) == SKIN_MAGIC);
    assert(crate::wire::fourcc(73, 66, 77, 32) == TAG_IBM);
    assert(crate::wire::fourcc(78, 65, 77, 69) == TAG_NAME);
    assert(crate::wire::fourcc(80, 65, 82, 32) == TAG_PAR);
    assert(crate::wire::fourcc(84, 82, 83, 32) == TAG_TRS);
}

} // verus!
