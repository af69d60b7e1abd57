//! Helpers of the glTF import that do not touch the file: cubic-spline key values,
//! decoded images as RGBA textures, and moving the textures of an imported scene out of
//! its store, which images hold linear data, which clip plays first, and the references of
//! a node moved into another scene.
use vstd::prelude::*;
use crate::store::{Handle, Store, take_all, live_entries, emptied, remap_handle, handle_key, first_remap};
use crate::texture::Texture;

verus! {

/// Of cubic-spline keyframe data (in-tangent, value, out-tangent per key) keep the values:
/// the middle element of each group of three; a trailing group too short to hold one is
/// dropped.
pub fn cubic_values<T: Copy>(vals: Vec<T>) -> (r: Vec<T>)
    ensures
        r@.len() == (vals@.len() + 1) / 3,
        forall|k: int| 0 <= k < r@.len() ==> #[trigger] r@[k] == vals@[3 * k + 1],
{
    let mut out: Vec<T> = Vec::new();
    let n = vals.len() / 3 + if vals.len() % 3 == 2 { 1 } else { 0 };
    let mut k: usize = 0;
    while k < n
        invariant
            n == (vals@.len() + 1) / 3,
            k <= n,
            out@.len() == k,
            forall|j: int| 0 <= j < k ==> #[trigger] out@[j] == vals@[3 * j + 1],
        decreases n - k,
    {
        let len = vals.len();
        assert(3 * k + 1 < len) by (nonlinear_arith)
            requires
                k < n,
                n == (len + 1) / 3,
        ;
        out.push(vals[3 * k + 1]);
        k += 1;
    }
    out
}

/// Moves every texture out of the store, with its handle, in slot order.
pub fn take_textures(store: &mut Store<Texture>) -> (r: Vec<(Handle<Texture>, Texture)>)
    requires
        old(store).wf(),
    ensures
        final(store).wf(),
        r@.len() == live_entries(old(store).slot_view()).len(),
        forall|k: int|
            0 <= k < r@.len() ==> {
                let e = live_entries(old(store).slot_view())[k];
                &&& (#[trigger] r@[k]).0.index == e.0
                &&& r@[k].0.generation == e.1
                &&& r@[k].1 == e.2
            },
        final(store).slot_view() == emptied(old(store).slot_view()),
{
    take_all(store)
}

/// Pixel layouts of a decoded image.
#[derive(Clone, Copy, Debug, PartialEq, Eq, Structural)]
pub enum ImageFormat {
    R8,
    R8G8,
    R8G8B8,
    R8G8B8A8,
    /// 16-bit or float channels, which textures do not take.
    Other,
}

/// The RGBA bytes of an image: gray is repeated into red, green and blue; gray-alpha
/// keeps its alpha; missing alpha is opaque; a trailing partial pixel is dropped.
pub open spec fn rgba_of(f: ImageFormat, p: Seq<u8>) -> Seq<u8> {
    match f {
        ImageFormat::R8 => Seq::new(
            4 * p.len(),
            |k: int|
                if k % 4 == 3 {
                    255u8
                } else {
                    p[k / 4]
                },
        ),
        ImageFormat::R8G8 => Seq::new(
            (4 * (p.len() / 2)) as nat,
            |k: int|
                if k % 4 == 3 {
                    p[2 * (k / 4) + 1]
                } else {
                    p[2 * (k / 4)]
                },
        ),
        ImageFormat::R8G8B8 => Seq::new(
            (4 * (p.len() / 3)) as nat,
            |k: int|
                if k % 4 == 3 {
                    255u8
                } else {
                    p[3 * (k / 4) + k % 4]
                },
        ),
        _ => p,
    }
}

proof fn lemma_quad_index(j: int, c: int)
    requires
        0 <= j,
        0 <= c < 4,
    ensures
        (4 * j + c) / 4 == j,
        (4 * j + c) % 4 == c,
{
    assert((4 * j + c) / 4 == j && (4 * j + c) % 4 == c) by (nonlinear_arith)
        requires
            0 <= j,
            0 <= c < 4,
    ;
}

fn push_pixel(out: &mut Vec<u8>, r: u8, g: u8, b: u8, a: u8)
    ensures
        final(out)@ == old(out)@ + seq![r, g, b, a],
{
    out.push(r);
    out.push(g);
    out.push(b);
    out.push(a);
    assert(final(out)@ =~= old(out)@ + seq![r, g, b, a]);
}

fn copy_bytes(p: &[u8]) -> (r: Vec<u8>)
    ensures
        r@ == p@,
{
    let mut out: Vec<u8> = Vec::new();
    let mut i: usize = 0;
    while i < p.len()
        invariant
            i <= p@.len(),
            out@ == p@.take(i as int),
        decreases p@.len() - i,
    {
        out.push(p[i]);
        i += 1;
        assert(out@ =~= p@.take(i as int));
    }
    assert(p@.take(i as int) =~= p@);
    out
}

/// Expands decoded pixels to RGBA bytes; `None` for a layout textures do not take.
pub fn pixels_to_rgba(f: ImageFormat, p: &[u8]) -> (r: Option<Vec<u8>>)
    requires
        4 * p@.len() <= usize::MAX,
    ensures
        match r {
            Some(v) => f != ImageFormat::Other && v@ == rgba_of(f, p@),
            None => f == ImageFormat::Other,
        },
{
    let w: usize = match f {
        ImageFormat::R8 => 1,
        ImageFormat::R8G8 => 2,
        ImageFormat::R8G8B8 => 3,
        ImageFormat::R8G8B8A8 => {
            return Some(copy_bytes(p));
        },
        ImageFormat::Other => {
            return None;
        },
    };
    let n = p.len() / w;
    let ghost want = rgba_of(f, p@);
    assert(want.len() == 4 * n);
    let mut out: Vec<u8> = Vec::new();
    let mut j: usize = 0;
    while j < n
        invariant
            n == p@.len() / (w as nat),
            w == 1 || w == 2 || w == 3,
            w == 1 <==> f == ImageFormat::R8,
            w == 2 <==> f == ImageFormat::R8G8,
            w == 3 <==> f == ImageFormat::R8G8B8,
            want == rgba_of(f, p@),
            want.len() == 4 * n,
            4 * p@.len() <= usize::MAX,
            j <= n,
            out@ == want.take(4 * j),
        decreases n - j,
    {
        assert(w * j + w <= p@.len()) by (nonlinear_arith)
            requires
                j < n,
                n == p@.len() / (w as nat),
                w >= 1,
        ;
        let base = w * j;
        let ghost before = out@;
        if w == 1 {
            let c = p[base];
            push_pixel(&mut out, c, c, c, 255);
        } else if w == 2 {
            push_pixel(&mut out, p[base], p[base], p[base], p[base + 1]);
        } else {
            push_pixel(&mut out, p[base], p[base + 1], p[base + 2], 255);
        }
        proof {
            assert forall|k: int| 0 <= k < 4 * (j + 1) implies #[trigger] out@[k] == want[k] by {
                if k >= 4 * j {
                    let c = k - 4 * j;
                    lemma_quad_index(j as int, c);
                    assert(k / 4 == j && k % 4 == c);
                } else {
                    assert(out@[k] == before[k]);
                }
            }
            assert(out@ =~= want.take(4 * (j + 1)));
        }
        j += 1;
    }
    assert(want.take(4 * n) =~= want);
    Some(out)
}

/// A decoded image as an sRGB texture named `id`; `None` for a pixel layout textures do
/// not take.
pub fn image_to_texture(f: ImageFormat, width: u32, height: u32, pixels: &[u8], id: String) -> (r:
    Option<Texture>)
    requires
        4 * pixels@.len() <= usize::MAX,
    ensures
        match r {
            Some(t) => {
                &&& f != ImageFormat::Other
                &&& t.id@ == id@
                &&& t.width == width
                &&& t.height == height
                &&& t.rgba@ == rgba_of(f, pixels@)
                &&& t.version == 1
                &&& t.srgb
                &&& t.dirty is None
                &&& !t.gpu_resident
            },
            None => f == ImageFormat::Other,
        },
{
    match pixels_to_rgba(f, pixels) {
        Some(rgba) => Some(
            Texture {
                id,
                width,
                height,
                rgba,
                version: 1,
                srgb: true,
                dirty: None,
                gpu_resident: false,
            },
        ),
        None => None,
    }
}

/// Which of `n_images` images hold linear (not sRGB) data: those some material uses as its
/// normal, metallic-roughness or occlusion map (`linear_refs` lists their image indices).
pub fn linear_images(n_images: usize, linear_refs: &Vec<usize>) -> (r: Vec<bool>)
    requires
        forall|k: int| 0 <= k < linear_refs@.len() ==> #[trigger] linear_refs@[k] < n_images,
    ensures
        r@.len() == n_images,
        forall|i: int| 0 <= i < n_images ==> (#[trigger] r@[i] <==> linear_refs@.contains(i as usize)),
{
    let mut r: Vec<bool> = Vec::new();
    let mut i: usize = 0;
    while i < n_images
        invariant
            i <= n_images,
            r@.len() == i,
            forall|j: int| 0 <= j < i ==> #[trigger] r@[j] == false,
        decreases n_images - i,
    {
        r.push(false);
        i += 1;
    }
    let mut k: usize = 0;
    while k < linear_refs.len()
        invariant
            k <= linear_refs@.len(),
            r@.len() == n_images,
            forall|k: int| 0 <= k < linear_refs@.len() ==> #[trigger] linear_refs@[k] < n_images,
            forall|i: int|
                0 <= i < n_images ==> (#[trigger] r@[i] <==> linear_refs@.take(k as int).contains(
                    i as usize,
                )),
        decreases linear_refs@.len() - k,
    {
        let t = linear_refs[k];
        r.set(t, true);
        proof {
            let before = linear_refs@.take(k as int);
            let after = linear_refs@.take(k + 1);
            assert(after =~= before.push(t));
            assert forall|i: int| 0 <= i < n_images implies (#[trigger] r@[i]
                <==> after.contains(i as usize)) by {
                if after.contains(i as usize) && i != t {
                    let j = choose|j: int| 0 <= j < after.len() && after[j] == i as usize;
                    assert(j < before.len());
                    assert(before.contains(i as usize));
                }
                if before.contains(i as usize) {
                    let j = choose|j: int| 0 <= j < before.len() && before[j] == i as usize;
                    assert(after[j] == i as usize);
                }
                if i == t {
                    assert(after[k as int] == t);
                }
            }
        }
        k += 1;
    }
    assert(linear_refs@.take(linear_refs@.len() as int) =~= linear_refs@);
    r
}

/// The clip an import starts playing, given for each imported clip whether it moves
/// anything: the first that moves, else the first clip, else none.
pub fn starting_clip(moving: &Vec<bool>) -> (r: Option<usize>)
    ensures
        match r {
            Some(i) => i < moving@.len() && ((moving@[i as int] && forall|j: int|
                0 <= j < i ==> !#[trigger] moving@[j]) || (i == 0 && forall|j: int|
                0 <= j < moving@.len() ==> !#[trigger] moving@[j])),
            None => moving@.len() == 0,
        },
{
    let mut i: usize = 0;
    while i < moving.len()
        invariant
            i <= moving@.len(),
            forall|j: int| 0 <= j < i ==> !#[trigger] moving@[j],
        decreases moving@.len() - i,
    {
        if moving[i] {
            return Some(i);
        }
        i += 1;
    }
    if moving.len() > 0 {
        Some(0)
    } else {
        None
    }
}

/// The references a scene node holds to other handles: its parent node, mesh, material
/// and skin.
pub struct NodeRefs<N, M, A, S> {
    pub parent: Option<Handle<N>>,
    pub mesh: Option<Handle<M>>,
    pub material: Option<Handle<A>>,
    pub skin: Option<Handle<S>>,
}

/// The new handle a move map gives an optional handle (none for none).
pub open spec fn remap_opt<T>(map: Seq<(Handle<T>, Handle<T>)>, h: Option<Handle<T>>) -> Option<
    (u32, u32),
> {
    match h {
        Some(x) => first_remap(map, x),
        None => None,
    }
}

fn remap_opt_exec<T>(map: &Vec<(Handle<T>, Handle<T>)>, h: Option<Handle<T>>) -> (r: Option<Handle<T>>)
    ensures
        handle_key(r) == remap_opt(map@, h),
{
    match h {
        Some(x) => remap_handle(map, x),
        None => None,
    }
}

/// The references of a node moved into another scene: the import root hangs under
/// `parent`, any other node under the new handle of its old parent; mesh and material
/// point at their moved values (none when not moved); the skin is left unset, to be
/// filled in once the skins have moved.
pub fn absorb_node_refs<N, M, A, S>(
    refs: NodeRefs<N, M, A, S>,
    is_root: bool,
    parent: Option<Handle<N>>,
    node_map: &Vec<(Handle<N>, Handle<N>)>,
    mesh_map: &Vec<(Handle<M>, Handle<M>)>,
    mat_map: &Vec<(Handle<A>, Handle<A>)>,
) -> (r: NodeRefs<N, M, A, S>)
    ensures
        handle_key(r.parent) == (if is_root {
            handle_key(parent)
        } else {
            remap_opt(node_map@, refs.parent)
        }),
        handle_key(r.mesh) == remap_opt(mesh_map@, refs.mesh),
        handle_key(r.material) == remap_opt(mat_map@, refs.material),
        r.skin is None,
{
    let new_parent = if is_root {
        parent
    } else {
        remap_opt_exec(node_map, refs.parent)
    };
    NodeRefs {
        parent: new_parent,
        mesh: remap_opt_exec(mesh_map, refs.mesh),
        material: remap_opt_exec(mat_map, refs.material),
        skin: None,
    }
}

} // verus!
