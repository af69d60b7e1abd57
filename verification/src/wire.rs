//! Little-endian integers, 4-byte-aligned chunk framing and UTF-8 strings: the
//! shared layer of the binary asset formats (`MESH`, `SKIN`, `MAT `, `TEXG`).
use vstd::prelude::*;
use vstd::utf8::*;

verus! {

/// A four-character chunk tag as the little-endian word it is written as.
pub open spec fn fourcc(a: u8, b: u8, c: u8, d: u8) -> u32 {
    (a as int + 256 * b as int + 65536 * c as int + 16777216 * d as int) as u32
}

// ---------------------------------------------------------------------------------------
// Integers
// ---------------------------------------------------------------------------------------
/// Little-endian 16-bit value at `at`.
pub open spec fn le16(b: Seq<u8>, at: int) -> int {
    b[at] as int + 256 * b[at + 1] as int
}

/// Little-endian 32-bit value at `at`.
pub open spec fn le32(b: Seq<u8>, at: int) -> int {
    le16(b, at) + 65536 * le16(b, at + 2)
}

/// Little-endian 64-bit value at `at`.
pub open spec fn le64(b: Seq<u8>, at: int) -> int {
    le32(b, at) + 0x1_0000_0000 * le32(b, at + 4)
}

/// Little-endian bytes of a 16-bit value.
pub open spec fn bytes16(v: int) -> Seq<u8> {
    seq![(v % 256) as u8, (v / 256 % 256) as u8]
}

/// Little-endian bytes of a 32-bit value.
pub open spec fn bytes32(v: int) -> Seq<u8> {
    seq![(v % 256) as u8, (v / 256 % 256) as u8, (v / 65536 % 256) as u8, (v / 16777216 % 256) as u8]
}

/// Little-endian bytes of a 64-bit value.
pub open spec fn bytes64(v: int) -> Seq<u8> {
    bytes32(v % 0x1_0000_0000) + bytes32(v / 0x1_0000_0000)
}

/// Reading back the bytes of a 16-bit value gives the value.
pub proof fn lemma_le16_bytes16(v: int, pre: Seq<u8>, post: Seq<u8>)
    requires
        0 <= v < 0x1_0000,
    ensures
        le16(pre + bytes16(v) + post, pre.len() as int) == v,
{
    let b = pre + bytes16(v) + post;
    let p = pre.len() as int;
    assert(b[p] == (v % 256) as u8);
    assert(b[p + 1] == (v / 256 % 256) as u8);
    assert(v % 256 + 256 * (v / 256 % 256) == v) by (nonlinear_arith)
        requires
            0 <= v < 0x1_0000,
    ;
}

/// Reading back the bytes of a 32-bit value gives the value.
pub proof fn lemma_le32_bytes32(v: int, pre: Seq<u8>, post: Seq<u8>)
    requires
        0 <= v < 0x1_0000_0000,
    ensures
        le32(pre + bytes32(v) + post, pre.len() as int) == v,
{
    let b = pre + bytes32(v) + post;
    let p = pre.len() as int;
    assert(b[p] == (v % 256) as u8);
    assert(b[p + 1] == (v / 256 % 256) as u8);
    assert(b[p + 2] == (v / 65536 % 256) as u8);
    assert(b[p + 3] == (v / 16777216 % 256) as u8);
    assert(v % 256 + 256 * (v / 256 % 256) + 65536 * (v / 65536 % 256 + 256 * (v / 16777216
        % 256)) == v) by (nonlinear_arith)
        requires
            0 <= v < 0x1_0000_0000,
    ;
}

/// Reading back the bytes of a 64-bit value gives the value.
pub proof fn lemma_le64_bytes64(v: int, pre: Seq<u8>, post: Seq<u8>)
    requires
        0 <= v < 0x1_0000_0000_0000_0000,
    ensures
        le64(pre + bytes64(v) + post, pre.len() as int) == v,
{
    let lo = v % 0x1_0000_0000;
    let hi = v / 0x1_0000_0000;
    assert(0 <= hi < 0x1_0000_0000) by (nonlinear_arith)
        requires
            0 <= v < 0x1_0000_0000_0000_0000,
            hi == v / 0x1_0000_0000,
    ;
    assert(pre + bytes64(v) + post == pre + bytes32(lo) + (bytes32(hi) + post));
    lemma_le32_bytes32(lo, pre, bytes32(hi) + post);
    assert(pre + bytes64(v) + post == (pre + bytes32(lo)) + bytes32(hi) + post);
    lemma_le32_bytes32(hi, pre + bytes32(lo), post);
    assert(lo + 0x1_0000_0000 * hi == v) by (nonlinear_arith)
        requires
            lo == v % 0x1_0000_0000,
            hi == v / 0x1_0000_0000,
    ;
}

/// Bytes of a 16-bit value found at `at` read back as the value.
pub proof fn lemma_le16_at(buf: Seq<u8>, at: int, v: int)
    requires
        0 <= v < 0x1_0000,
        0 <= at,
        at + 2 <= buf.len(),
        buf.subrange(at, at + 2) == bytes16(v),
    ensures
        le16(buf, at) == v,
{
    assert(buf =~= buf.take(at) + bytes16(v) + buf.skip(at + 2));
    lemma_le16_bytes16(v, buf.take(at), buf.skip(at + 2));
}

/// Bytes of a 32-bit value found at `at` read back as the value.
pub proof fn lemma_le32_at(buf: Seq<u8>, at: int, v: int)
    requires
        0 <= v < 0x1_0000_0000,
        0 <= at,
        at + 4 <= buf.len(),
        buf.subrange(at, at + 4) == bytes32(v),
    ensures
        le32(buf, at) == v,
{
    assert(buf =~= buf.take(at) + bytes32(v) + buf.skip(at + 4));
    lemma_le32_bytes32(v, buf.take(at), buf.skip(at + 4));
}

/// Reads a little-endian `u16` at `at`.
pub fn get_u16(b: &[u8], at: usize) -> (r: u16)
    requires
        at + 2 <= b@.len(),
    ensures
        r == le16(b@, at as int),
{
    b[at] as u16 + (b[at + 1] as u16) * 256
}

/// Reads a little-endian `u32` at `at`.
pub fn get_u32(b: &[u8], at: usize) -> (r: u32)
    requires
        at + 4 <= b@.len(),
    ensures
        r == le32(b@, at as int),
{
    let _n = b.len();
    let lo = get_u16(b, at) as u32;
    let hi = get_u16(b, at + 2) as u32;
    lo + hi * 65536
}

/// Reads a little-endian `u64` at `at`.
pub fn get_u64(b: &[u8], at: usize) -> (r: u64)
    requires
        at + 8 <= b@.len(),
    ensures
        r == le64(b@, at as int),
{
    let _n = b.len();
    let lo = get_u32(b, at) as u64;
    let hi = get_u32(b, at + 4) as u64;
    lo + hi * 0x1_0000_0000
}

/// Appends the little-endian bytes of a `u16`.
pub fn put_u16(out: &mut Vec<u8>, v: u16)
    ensures
        final(out)@ == old(out)@ + bytes16(v as int),
{
    out.push((v % 256) as u8);
    out.push((v / 256 % 256) as u8);
    assert(final(out)@ =~= old(out)@ + bytes16(v as int));
}

/// Appends the little-endian bytes of a `u32`.
pub fn put_u32(out: &mut Vec<u8>, v: u32)
    ensures
        final(out)@ == old(out)@ + bytes32(v as int),
{
    out.push((v % 256) as u8);
    out.push((v / 256 % 256) as u8);
    out.push((v / 65536 % 256) as u8);
    out.push((v / 16777216 % 256) as u8);
    assert(final(out)@ =~= old(out)@ + bytes32(v as int));
}

/// Appends the little-endian bytes of a `u64`.
pub fn put_u64(out: &mut Vec<u8>, v: u64)
    ensures
        final(out)@ == old(out)@ + bytes64(v as int),
{
    put_u32(out, (v % 0x1_0000_0000) as u32);
    put_u32(out, (v / 0x1_0000_0000) as u32);
    assert(final(out)@ =~= old(out)@ + bytes64(v as int));
}

/// Appends raw bytes.
pub fn put_bytes(out: &mut Vec<u8>, s: &[u8])
    ensures
        final(out)@ == old(out)@ + s@,
{
    let ghost start = out@;
    let mut i: usize = 0;
    while i < s.len()
        invariant
            i <= s@.len(),
            out@ == start + s@.take(i as int),
        decreases s@.len() - i,
    {
        out.push(s[i]);
        i += 1;
        assert(out@ =~= start + s@.take(i as int));
    }
    assert(s@.take(i as int) =~= s@);
}

// ---------------------------------------------------------------------------------------
// Word arrays (32-bit values such as IEEE-754 bit patterns, and 16-bit values)
// ---------------------------------------------------------------------------------------
/// The 32-bit little-endian words of `b` (a trailing partial word is ignored).
pub open spec fn words32(b: Seq<u8>) -> Seq<u32> {
    Seq::new((b.len() / 4) as nat, |i: int| le32(b, 4 * i) as u32)
}

/// The 16-bit little-endian words of `b` (a trailing odd byte is ignored).
pub open spec fn words16(b: Seq<u8>) -> Seq<u16> {
    Seq::new((b.len() / 2) as nat, |i: int| le16(b, 2 * i) as u16)
}

/// Bytes of a sequence of 32-bit words, each little-endian.
pub open spec fn words32_bytes(ws: Seq<u32>) -> Seq<u8>
    decreases ws.len(),
{
    if ws.len() == 0 {
        Seq::empty()
    } else {
        words32_bytes(ws.drop_last()) + bytes32(ws.last() as int)
    }
}

/// Bytes of a sequence of 16-bit words, each little-endian.
pub open spec fn words16_bytes(ws: Seq<u16>) -> Seq<u8>
    decreases ws.len(),
{
    if ws.len() == 0 {
        Seq::empty()
    } else {
        words16_bytes(ws.drop_last()) + bytes16(ws.last() as int)
    }
}

pub proof fn lemma_words32_bytes_len(ws: Seq<u32>)
    ensures
        words32_bytes(ws).len() == 4 * ws.len(),
    decreases ws.len(),
{
    if ws.len() > 0 {
        lemma_words32_bytes_len(ws.drop_last());
    }
}

pub proof fn lemma_words16_bytes_len(ws: Seq<u16>)
    ensures
        words16_bytes(ws).len() == 2 * ws.len(),
    decreases ws.len(),
{
    if ws.len() > 0 {
        lemma_words16_bytes_len(ws.drop_last());
    }
}

/// Decoding the bytes of a word sequence gives the words back.
pub proof fn lemma_words32_roundtrip(ws: Seq<u32>)
    ensures
        words32(words32_bytes(ws)) == ws,
    decreases ws.len(),
{
    lemma_words32_bytes_len(ws);
    if ws.len() > 0 {
        let init = ws.drop_last();
        lemma_words32_roundtrip(init);
        lemma_words32_bytes_len(init);
        let b = words32_bytes(ws);
        let bi = words32_bytes(init);
        assert forall|i: int| 0 <= i < ws.len() implies #[trigger] words32(b)[i] == ws[i] by {
            if i < init.len() {
                assert(words32(bi)[i] == init[i]);
                assert(b.subrange(4 * i, 4 * i + 4) == bi.subrange(4 * i, 4 * i + 4));
                assert(b[4 * i] == bi[4 * i]);
                assert(b[4 * i + 1] == bi[4 * i + 1]);
                assert(b[4 * i + 2] == bi[4 * i + 2]);
                assert(b[4 * i + 3] == bi[4 * i + 3]);
            } else {
                assert(b == bi + bytes32(ws.last() as int) + Seq::<u8>::empty());
                lemma_le32_bytes32(ws.last() as int, bi, Seq::<u8>::empty());
            }
        }
        assert(words32(b) =~= ws);
    } else {
        assert(words32(words32_bytes(ws)) =~= ws);
    }
}

/// Decoding the bytes of a 16-bit word sequence gives the words back.
pub proof fn lemma_words16_roundtrip(ws: Seq<u16>)
    ensures
        words16(words16_bytes(ws)) == ws,
    decreases ws.len(),
{
    lemma_words16_bytes_len(ws);
    if ws.len() > 0 {
        let init = ws.drop_last();
        lemma_words16_roundtrip(init);
        lemma_words16_bytes_len(init);
        let b = words16_bytes(ws);
        let bi = words16_bytes(init);
        assert forall|i: int| 0 <= i < ws.len() implies #[trigger] words16(b)[i] == ws[i] by {
            if i < init.len() {
                assert(words16(bi)[i] == init[i]);
                assert(b[2 * i] == bi[2 * i]);
                assert(b[2 * i + 1] == bi[2 * i + 1]);
            } else {
                assert(b == bi + bytes16(ws.last() as int) + Seq::<u8>::empty());
                lemma_le16_bytes16(ws.last() as int, bi, Seq::<u8>::empty());
            }
        }
        assert(words16(b) =~= ws);
    } else {
        assert(words16(words16_bytes(ws)) =~= ws);
    }
}

/// Reads the 32-bit words of `b`.
pub fn read_words32(b: &[u8]) -> (r: Vec<u32>)
    ensures
        r@ == words32(b@),
{
    let len = b.len();
    let n = len / 4;
    let mut out: Vec<u32> = Vec::new();
    let mut i: usize = 0;
    while i < n
        invariant
            n == b@.len() / 4,
            len == b@.len(),
            i <= n,
            out@ == words32(b@).take(i as int),
        decreases n - i,
    {
        let w = get_u32(b, 4 * i);
        out.push(w);
        i += 1;
        assert(out@ =~= words32(b@).take(i as int));
    }
    assert(words32(b@).take(i as int) =~= words32(b@));
    out
}

/// Reads the 16-bit words of `b`.
pub fn read_words16(b: &[u8]) -> (r: Vec<u16>)
    ensures
        r@ == words16(b@),
{
    let len = b.len();
    let n = len / 2;
    let mut out: Vec<u16> = Vec::new();
    let mut i: usize = 0;
    while i < n
        invariant
            n == b@.len() / 2,
            len == b@.len(),
            i <= n,
            out@ == words16(b@).take(i as int),
        decreases n - i,
    {
        let w = get_u16(b, 2 * i);
        out.push(w);
        i += 1;
        assert(out@ =~= words16(b@).take(i as int));
    }
    assert(words16(b@).take(i as int) =~= words16(b@));
    out
}

/// Appends the little-endian bytes of each word.
pub fn put_words32(out: &mut Vec<u8>, ws: &[u32])
    ensures
        final(out)@ == old(out)@ + words32_bytes(ws@),
{
    let ghost start = out@;
    let mut i: usize = 0;
    while i < ws.len()
        invariant
            i <= ws@.len(),
            out@ == start + words32_bytes(ws@.take(i as int)),
        decreases ws@.len() - i,
    {
        put_u32(out, ws[i]);
        i += 1;
        assert(ws@.take(i as int).drop_last() =~= ws@.take(i as int - 1));
        assert(out@ =~= start + words32_bytes(ws@.take(i as int)));
    }
    assert(ws@.take(i as int) =~= ws@);
}

/// Appends the little-endian bytes of each 16-bit word.
pub fn put_words16(out: &mut Vec<u8>, ws: &[u16])
    ensures
        final(out)@ == old(out)@ + words16_bytes(ws@),
{
    let ghost start = out@;
    let mut i: usize = 0;
    while i < ws.len()
        invariant
            i <= ws@.len(),
            out@ == start + words16_bytes(ws@.take(i as int)),
        decreases ws@.len() - i,
    {
        put_u16(out, ws[i]);
        i += 1;
        assert(ws@.take(i as int).drop_last() =~= ws@.take(i as int - 1));
        assert(out@ =~= start + words16_bytes(ws@.take(i as int)));
    }
    assert(ws@.take(i as int) =~= ws@);
}

// ---------------------------------------------------------------------------------------
// Chunk framing
// ---------------------------------------------------------------------------------------
/// Zero bytes needed after offset `x` to reach a multiple of 4.
pub open spec fn pad4(x: int) -> int {
    (4 - x % 4) % 4
}

/// `n` zero bytes.
pub open spec fn zeros(n: int) -> Seq<u8> {
    Seq::new(n as nat, |i: int| 0u8)
}

/// A chunk written at offset `at`: 4-byte tag, 32-bit payload length, payload, then zero
/// padding up to the next multiple of 4.
pub open spec fn chunk_bytes(at: int, tag: u32, payload: Seq<u8>) -> Seq<u8> {
    bytes32(tag as int) + bytes32(payload.len() as int) + payload + zeros(
        pad4(at + 8 + payload.len()),
    )
}

/// Appends `n` zero bytes.
pub fn put_zeros(out: &mut Vec<u8>, n: usize)
    ensures
        final(out)@ == old(out)@ + zeros(n as int),
{
    let ghost start = out@;
    let mut i: usize = 0;
    while i < n
        invariant
            i <= n,
            out@ == start + zeros(i as int),
        decreases n - i,
    {
        out.push(0);
        i += 1;
        assert(out@ =~= start + zeros(i as int));
    }
}

/// Appends zero bytes until the length is a multiple of 4.
pub fn pad_to_4(out: &mut Vec<u8>)
    ensures
        final(out)@ == old(out)@ + zeros(pad4(old(out)@.len() as int)),
{
    let ghost start = out@;
    let ghost n = pad4(start.len() as int);
    while out.len() % 4 != 0
        invariant
            start.len() <= out@.len() <= start.len() + n,
            n == pad4(start.len() as int),
            out@ == start + zeros(out@.len() - start.len()),
        decreases start.len() + n - out@.len(),
    {
        out.push(0);
        assert(out@ =~= start + zeros(out@.len() - start.len()));
    }
}

/// Appends one chunk.
pub fn write_chunk(out: &mut Vec<u8>, tag: u32, payload: &[u8])
    requires
        payload@.len() <= u32::MAX,
    ensures
        final(out)@ == old(out)@ + chunk_bytes(old(out)@.len() as int, tag, payload@),
{
    put_u32(out, tag);
    put_u32(out, payload.len() as u32);
    put_bytes(out, payload);
    pad_to_4(out);
    assert(final(out)@ =~= old(out)@ + chunk_bytes(old(out)@.len() as int, tag, payload@));
}

/// Where the chunk starting at `pos` lies: `(tag, payload start, payload length, next
/// chunk offset)`, or `None` when the header or payload runs past the end. The next chunk
/// starts at the payload end rounded up to a multiple of 4, but never past the end.
pub open spec fn chunk_at(bytes: Seq<u8>, pos: int) -> Option<(u32, int, int, int)> {
    if bytes.len() - pos < 8 {
        None
    } else {
        let size = le32(bytes, pos + 4);
        if bytes.len() - (pos + 8) < size {
            None
        } else {
            let end = pos + 8 + size;
            let aligned = end + pad4(end);
            Some(
                (
                    le32(bytes, pos) as u32,
                    pos + 8,
                    size,
                    if aligned <= bytes.len() {
                        aligned
                    } else {
                        bytes.len() as int
                    },
                ),
            )
        }
    }
}

/// Reads the chunk header at `pos`.
pub fn read_chunk(bytes: &[u8], pos: usize) -> (r: Option<(u32, usize, usize, usize)>)
    requires
        pos <= bytes@.len(),
    ensures
        r matches Some(c) ==> chunk_at(bytes@, pos as int) == Some(
            (c.0, c.1 as int, c.2 as int, c.3 as int),
        ),
        r is None ==> chunk_at(bytes@, pos as int) is None,
{
    if bytes.len() - pos < 8 {
        return None;
    }
    let tag = get_u32(bytes, pos);
    let size = get_u32(bytes, pos + 4) as usize;
    if bytes.len() - (pos + 8) < size {
        return None;
    }
    let end = pos + 8 + size;
    let pad = (4 - end % 4) % 4;
    let next = if pad <= bytes.len() - end {
        end + pad
    } else {
        bytes.len()
    };
    Some((tag, pos + 8, size, next))
}

/// The chunk at `pos` ends after `pos` (so walking chunks always makes progress).
pub proof fn lemma_chunk_progress(bytes: Seq<u8>, pos: int)
    requires
        0 <= pos < bytes.len(),
        chunk_at(bytes, pos) is Some,
    ensures
        ({
            let c = chunk_at(bytes, pos)->0;
            &&& pos + 8 <= c.1 + c.2 <= bytes.len()
            &&& c.1 == pos + 8
            &&& pos < c.3 <= bytes.len()
            &&& c.1 + c.2 <= c.3
        }),
{
}

/// Runs `step` over the chunks of `bytes` from `pos` on, threading a state; stops at the
/// first error, and reports `truncated` for a chunk that runs past the end.
pub open spec fn run_chunks<S, E>(
    step: spec_fn(S, u32, Seq<u8>) -> Result<S, E>,
    truncated: E,
    bytes: Seq<u8>,
    pos: int,
    st: S,
) -> Result<S, E>
    decreases bytes.len() - pos,
{
    if pos < 0 || pos >= bytes.len() {
        Ok(st)
    } else {
        match chunk_at(bytes, pos) {
            None => Err(truncated),
            Some(c) => if c.3 <= pos {
                Ok(st)
            } else {
                match step(st, c.0, bytes.subrange(c.1, c.1 + c.2)) {
                    Err(e) => Err(e),
                    Ok(next) => run_chunks(step, truncated, bytes, c.3, next),
                }
            },
        }
    }
}

/// One step of `run_chunks` from a position inside the buffer.
pub proof fn lemma_run_chunks_unfold<S, E>(
    step: spec_fn(S, u32, Seq<u8>) -> Result<S, E>,
    truncated: E,
    bytes: Seq<u8>,
    pos: int,
    st: S,
)
    requires
        0 <= pos < bytes.len(),
    ensures
        run_chunks(step, truncated, bytes, pos, st) == match chunk_at(bytes, pos) {
            None => Err(truncated),
            Some(c) => match step(st, c.0, bytes.subrange(c.1, c.1 + c.2)) {
                Err(e) => Err(e),
                Ok(next) => run_chunks(step, truncated, bytes, c.3, next),
            },
        },
{
    if chunk_at(bytes, pos) is Some {
        lemma_chunk_progress(bytes, pos);
    }
}

/// Every chunk from `pos` on lies inside the buffer.
pub open spec fn well_framed(bytes: Seq<u8>, pos: int) -> bool
    decreases bytes.len() - pos,
{
    if pos < 0 || pos >= bytes.len() {
        true
    } else {
        match chunk_at(bytes, pos) {
            None => false,
            Some(c) => c.3 > pos && well_framed(bytes, c.3),
        }
    }
}

/// The chunk appended at the (4-aligned) end of a buffer is read back as written, and
/// is the last one.
#[verifier::spinoff_prover]
pub proof fn lemma_chunk_at_appended(prefix: Seq<u8>, tag: u32, payload: Seq<u8>)
    requires
        prefix.len() % 4 == 0,
        payload.len() <= u32::MAX,
    ensures
        ({
            let all = prefix + chunk_bytes(prefix.len() as int, tag, payload);
            let plen = prefix.len() as int;
            &&& chunk_at(all, plen) == Some(
                (tag, plen + 8, payload.len() as int, all.len() as int),
            )
            &&& all.subrange(plen + 8, plen + 8 + payload.len()) == payload
            &&& all.len() % 4 == 0
        }),
{
    let plen = prefix.len() as int;
    let n = payload.len() as int;
    let z = zeros(pad4(plen + 8 + n));
    let all = prefix + chunk_bytes(plen, tag, payload);
    let t = bytes32(tag as int);
    let l = bytes32(n);
    assert(all =~= prefix + t + (l + payload + z));
    lemma_le32_bytes32(tag as int, prefix, l + payload + z);
    assert(le32(all, plen) == tag);
    assert(all =~= (prefix + t) + l + (payload + z));
    lemma_le32_bytes32(n, prefix + t, payload + z);
    assert(le32(all, plen + 4) == n);
    assert(all.len() == plen + 8 + n + pad4(plen + 8 + n));
    assert((plen + 8 + n + pad4(plen + 8 + n)) % 4 == 0);
    assert(all.subrange(plen + 8, plen + 8 + n) =~= payload);
}

/// A chunk that lies (with its padding) inside a 4-aligned prefix reads the same after
/// more bytes are appended.
pub proof fn lemma_chunk_at_prefix(prefix: Seq<u8>, extra: Seq<u8>, pos: int)
    requires
        0 <= pos < prefix.len(),
        prefix.len() % 4 == 0,
        chunk_at(prefix, pos) is Some,
    ensures
        chunk_at(prefix + extra, pos) == chunk_at(prefix, pos),
        ({
            let c = chunk_at(prefix, pos)->0;
            (prefix + extra).subrange(c.1, c.1 + c.2) == prefix.subrange(c.1, c.1 + c.2)
        }),
{
    let all = prefix + extra;
    assert(all[pos] == prefix[pos]);
    assert(all[pos + 1] == prefix[pos + 1]);
    assert(all[pos + 2] == prefix[pos + 2]);
    assert(all[pos + 3] == prefix[pos + 3]);
    assert(all[pos + 4] == prefix[pos + 4]);
    assert(all[pos + 5] == prefix[pos + 5]);
    assert(all[pos + 6] == prefix[pos + 6]);
    assert(all[pos + 7] == prefix[pos + 7]);
    let size = le32(prefix, pos + 4);
    let end = pos + 8 + size;
    assert(end + pad4(end) <= prefix.len());
    let c = chunk_at(prefix, pos)->0;
    assert(all.subrange(c.1, c.1 + c.2) =~= prefix.subrange(c.1, c.1 + c.2));
}

/// A well-framed buffer followed by a well-formed chunk: walking the whole buffer is
/// walking the prefix and then taking one more step on that chunk.
pub proof fn lemma_run_chunks_append<S, E>(
    step: spec_fn(S, u32, Seq<u8>) -> Result<S, E>,
    truncated: E,
    prefix: Seq<u8>,
    pos: int,
    st: S,
    tag: u32,
    payload: Seq<u8>,
)
    requires
        0 <= pos <= prefix.len(),
        prefix.len() % 4 == 0,
        payload.len() <= u32::MAX,
        well_framed(prefix, pos),
    ensures
        ({
            let all = prefix + chunk_bytes(prefix.len() as int, tag, payload);
            run_chunks(step, truncated, all, pos, st) == match run_chunks(
                step,
                truncated,
                prefix,
                pos,
                st,
            ) {
                Err(e) => Err(e),
                Ok(s) => step(s, tag, payload),
            }
        }),
    decreases prefix.len() - pos,
{
    let all = prefix + chunk_bytes(prefix.len() as int, tag, payload);
    let plen = prefix.len() as int;
    lemma_chunk_at_appended(prefix, tag, payload);
    if pos == plen {
        lemma_run_chunks_unfold(step, truncated, all, pos, st);
        match step(st, tag, payload) {
            Err(e) => {},
            Ok(s2) => {
                assert(run_chunks(step, truncated, all, all.len() as int, s2) == Ok::<S, E>(s2));
            },
        }
    } else {
        lemma_run_chunks_unfold(step, truncated, all, pos, st);
        lemma_run_chunks_unfold(step, truncated, prefix, pos, st);
        lemma_chunk_at_prefix(prefix, chunk_bytes(plen, tag, payload), pos);
        let c = chunk_at(prefix, pos)->0;
        match step(st, c.0, prefix.subrange(c.1, c.1 + c.2)) {
            Err(e) => {},
            Ok(s2) => {
                lemma_run_chunks_append(step, truncated, prefix, c.3, s2, tag, payload);
            },
        }
    }
}

/// Appending a chunk to a well-framed, 4-aligned buffer keeps it well framed.
pub proof fn lemma_well_framed_append(prefix: Seq<u8>, pos: int, tag: u32, payload: Seq<u8>)
    requires
        0 <= pos <= prefix.len(),
        prefix.len() % 4 == 0,
        payload.len() <= u32::MAX,
        well_framed(prefix, pos),
    ensures
        well_framed(prefix + chunk_bytes(prefix.len() as int, tag, payload), pos),
    decreases prefix.len() - pos,
{
    let all = prefix + chunk_bytes(prefix.len() as int, tag, payload);
    lemma_chunk_at_appended(prefix, tag, payload);
    if pos == prefix.len() {
        assert(well_framed(all, all.len() as int));
    } else {
        lemma_chunk_at_prefix(prefix, chunk_bytes(prefix.len() as int, tag, payload), pos);
        let c = chunk_at(prefix, pos)->0;
        lemma_well_framed_append(prefix, c.3, tag, payload);
    }
}

// ---------------------------------------------------------------------------------------
// Strings
// ---------------------------------------------------------------------------------------
/// `std::str::from_utf8`: the bytes as a string slice exactly when they are valid UTF-8
/// (and then the slice's bytes are the input bytes).
#[verifier::external_body]
fn utf8_str(b: &[u8]) -> (r: Option<&str>)
    ensures
        r is Some <==> valid_utf8(b@),
        r matches Some(s) ==> encode_utf8(s@) == b@,
{
    std::str::from_utf8(b).ok()
}

/// The bytes as an owned string, or `None` when they are not valid UTF-8.
pub fn utf8_string(b: &[u8]) -> (r: Option<String>)
    ensures
        r is Some <==> valid_utf8(b@),
        r matches Some(s) ==> encode_utf8(s@) == b@,
{
    match utf8_str(b) {
        Some(s) => Some(s.to_owned()),
        None => None,
    }
}

/// The UTF-8 bytes of a string.
pub fn string_bytes(s: &String) -> (r: &[u8])
    ensures
        r@ == encode_utf8(s@),
{
    s.as_str().as_bytes()
}

} // verus!
