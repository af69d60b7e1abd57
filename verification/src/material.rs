//! Material texture slots (single maps or UDIM tile sets), UDIM tile addressing, and how
//! a height map is applied.
use vstd::prelude::*;
use crate::store::Handle;
use crate::texture::Texture;

verus! {

/// How a material addresses its albedo / normal / metallic-roughness maps: one texture
/// per slot, or sets of UDIM tiles `(udim, texture)`.
#[allow(inconsistent_fields)]
pub enum MaterialMaps {
    Single {
        albedo: Option<Handle<Texture>>,
        normal: Option<Handle<Texture>>,
        metallic_roughness: Option<Handle<Texture>>,
    },
    Udim {
        albedo: Vec<(u32, Handle<Texture>)>,
        normal: Vec<(u32, Handle<Texture>)>,
        metallic_roughness: Vec<(u32, Handle<Texture>)>,
    },
}

impl Default for MaterialMaps {
    fn default() -> (r: Self)
        ensures
            r matches MaterialMaps::Single { albedo: None, normal: None, metallic_roughness: None },
    {
        MaterialMaps::Single { albedo: None, normal: None, metallic_roughness: None }
    }
}

/// The tiles kept by a remap, given the answer of the map for each tile: a tile whose
/// answer is `Some(h)` stays, in order, with its texture replaced by `h`.
pub open spec fn remapped(
    tiles: Seq<(u32, Handle<Texture>)>,
    answers: Seq<Option<Handle<Texture>>>,
) -> Seq<(u32, Handle<Texture>)>
    decreases tiles.len(),
{
    if tiles.len() == 0 {
        Seq::empty()
    } else {
        let rest = remapped(tiles.drop_last(), answers.take(tiles.len() - 1));
        match answers[tiles.len() - 1] {
            Some(h) => rest.push((tiles.last().0, h)),
            None => rest,
        }
    }
}

/// `answers` holds, for each tile, a result `map` may give for its texture.
pub open spec fn answers_of<F: Fn(Handle<Texture>) -> Option<Handle<Texture>>>(
    map: F,
    tiles: Seq<(u32, Handle<Texture>)>,
    answers: Seq<Option<Handle<Texture>>>,
) -> bool {
    &&& answers.len() == tiles.len()
    &&& forall|i: int| 0 <= i < tiles.len() ==> call_ensures(map, (tiles[i].1,), #[trigger] answers[i])
}

/// Replaces each tile's texture by what `map` gives for it; tiles it maps to `None` go.
pub fn remap_udim_slot<F: Fn(Handle<Texture>) -> Option<Handle<Texture>>>(
    tiles: &mut Vec<(u32, Handle<Texture>)>,
    map: &F,
)
    requires
        forall|h: Handle<Texture>| map.requires((h,)),
    ensures
        exists|answers: Seq<Option<Handle<Texture>>>|
            answers_of(*map, old(tiles)@, answers) && final(tiles)@ == remapped(old(tiles)@, answers),
{
    let ghost start = tiles@;
    let ghost mut answers: Seq<Option<Handle<Texture>>> = Seq::empty();
    let mut out: Vec<(u32, Handle<Texture>)> = Vec::new();
    let mut i: usize = 0;
    while i < tiles.len()
        invariant
            forall|h: Handle<Texture>| map.requires((h,)),
            tiles@ == start,
            i <= start.len(),
            answers_of(*map, start.take(i as int), answers),
            out@ == remapped(start.take(i as int), answers),
        decreases start.len() - i,
    {
        let (id, h) = tiles[i];
        let a = map(h);
        proof {
            let t2 = start.take(i + 1);
            assert(t2.drop_last() =~= start.take(i as int));
            assert(answers.push(a).take(i as int) =~= answers);
            answers = answers.push(a);
        }
        match a {
            Some(nh) => {
                out.push((id, nh));
            },
            None => {},
        }
        i += 1;
    }
    assert(start.take(start.len() as int) =~= start);
    *tiles = out;
}

impl MaterialMaps {
    /// Replaces every texture handle by what `map` gives for it: a single slot whose map
    /// gives `None` becomes empty, a UDIM tile whose map gives `None` is dropped.
    pub fn remap_textures<F: Fn(Handle<Texture>) -> Option<Handle<Texture>>>(&mut self, map: F)
        requires
            forall|h: Handle<Texture>| map.requires((h,)),
        ensures
            match *old(self) {
                MaterialMaps::Single { albedo, normal, metallic_roughness } => match *final(self) {
                    MaterialMaps::Single { albedo: a2, normal: n2, metallic_roughness: m2 } => {
                        &&& (albedo matches Some(h) ==> call_ensures(map, (h,), a2))
                        &&& (albedo is None ==> a2 is None)
                        &&& (normal matches Some(h) ==> call_ensures(map, (h,), n2))
                        &&& (normal is None ==> n2 is None)
                        &&& (metallic_roughness matches Some(h) ==> call_ensures(map, (h,), m2))
                        &&& (metallic_roughness is None ==> m2 is None)
                    },
                    _ => false,
                },
                MaterialMaps::Udim { albedo, normal, metallic_roughness } => match *final(self) {
                    MaterialMaps::Udim { albedo: a2, normal: n2, metallic_roughness: m2 } => {
                        &&& exists|ans: Seq<Option<Handle<Texture>>>|
                            answers_of(map, albedo@, ans) && a2@ == remapped(albedo@, ans)
                        &&& exists|ans: Seq<Option<Handle<Texture>>>|
                            answers_of(map, normal@, ans) && n2@ == remapped(normal@, ans)
                        &&& exists|ans: Seq<Option<Handle<Texture>>>|
                            answers_of(map, metallic_roughness@, ans) && m2@ == remapped(
                                metallic_roughness@,
                                ans,
                            )
                    },
                    _ => false,
                },
            },
    {
        match self {
            MaterialMaps::Single { albedo, normal, metallic_roughness } => {
                let a = match *albedo {
                    Some(h) => map(h),
                    None => None,
                };
                let n = match *normal {
                    Some(h) => map(h),
                    None => None,
                };
                let m = match *metallic_roughness {
                    Some(h) => map(h),
                    None => None,
                };
                *albedo = a;
                *normal = n;
                *metallic_roughness = m;
            },
            MaterialMaps::Udim { albedo, normal, metallic_roughness } => {
                remap_udim_slot(albedo, &map);
                remap_udim_slot(normal, &map);
                remap_udim_slot(metallic_roughness, &map);
            },
        }
    }
}

/// How a height map is applied: displaced vertices, or offset texture coordinates.
#[derive(Clone, Copy, Debug, PartialEq, Eq, Structural)]
pub enum HeightMode {
    Tessellate,
    Parallax,
}

impl Default for HeightMode {
    fn default() -> (r: Self)
        ensures
            r == HeightMode::Tessellate,
    {
        HeightMode::Tessellate
    }
}

pub open spec fn height_label(m: HeightMode) -> Seq<char> {
    match m {
        HeightMode::Tessellate => "Tessellation"@,
        HeightMode::Parallax => "Parallax"@,
    }
}

impl HeightMode {
    pub fn label(self) -> (r: &'static str)
        ensures
            r@ == height_label(self),
    {
        match self {
            HeightMode::Tessellate => "Tessellation",
            HeightMode::Parallax => "Parallax",
        }
    }
}

pub open spec fn height_code(m: HeightMode) -> u8 {
    match m {
        HeightMode::Tessellate => 0,
        HeightMode::Parallax => 1,
    }
}

/// Only code 1 reads as `Parallax`.
pub open spec fn height_of(b: u8) -> HeightMode {
    if b == 1 {
        HeightMode::Parallax
    } else {
        HeightMode::Tessellate
    }
}

pub fn height_u8(m: HeightMode) -> (r: u8)
    ensures
        r == height_code(m),
{
    match m {
        HeightMode::Tessellate => 0,
        HeightMode::Parallax => 1,
    }
}

pub fn height_from(id: u8) -> (r: HeightMode)
    ensures
        r == height_of(id),
{
    if id == 1 {
        HeightMode::Parallax
    } else {
        HeightMode::Tessellate
    }
}

/// Slot of a Mari UDIM tile in a 10×10 lookup table: tiles 1001..=1100 map to
/// `udim - 1001` (column `(udim - 1001) % 10`, row `(udim - 1001) / 10`); others have none.
pub fn udim_lut_index(udim: u32) -> (r: Option<usize>)
    ensures
        r == (if 1001 <= udim && udim <= 1100 {
            Some((udim - 1001) as usize)
        } else {
            None::<usize>
        }),
{
    if udim < 1001 {
        return None;
    }
    let n = udim - 1001;
    let u = (n % 10) as usize;
    let v = (n / 10) as usize;
    if v < 10 {
        Some(u + v * 10)
    } else {
        None
    }
}

/// The tile shown when UDIM addressing is unavailable: tile 1001 if present, else the
/// first tile.
pub fn first_udim_tile(tiles: &[(u32, Handle<Texture>)]) -> (r: Option<Handle<Texture>>)
    ensures
        (exists|i: int| 0 <= i < tiles@.len() && tiles@[i].0 == 1001) ==> exists|i: int|
            0 <= i < tiles@.len() && tiles@[i].0 == 1001 && r == Some(tiles@[i].1) && forall|j: int|
                0 <= j < i ==> (#[trigger] tiles@[j]).0 != 1001,
        !(exists|i: int| 0 <= i < tiles@.len() && tiles@[i].0 == 1001) ==> r == (if tiles@.len()
            > 0 {
            Some(tiles@[0].1)
        } else {
            None::<Handle<Texture>>
        }),
{
    let mut i: usize = 0;
    while i < tiles.len()
        invariant
            i <= tiles@.len(),
            forall|j: int| 0 <= j < i ==> (#[trigger] tiles@[j]).0 != 1001,
        decreases tiles@.len() - i,
    {
        if tiles[i].0 == 1001 {
            return Some(tiles[i].1);
        }
        i += 1;
    }
    if tiles.len() > 0 {
        Some(tiles[0].1)
    } else {
        None
    }
}

/// A remap whose map keeps every handle keeps every tile, with the ids in order.
pub proof fn law_remap_keeps_ids(
    tiles: Seq<(u32, Handle<Texture>)>,
    answers: Seq<Option<Handle<Texture>>>,
)
    requires
        answers.len() == tiles.len(),
        forall|i: int| 0 <= i < answers.len() ==> (#[trigger] answers[i]) is Some,
    ensures
        remapped(tiles, answers).len() == tiles.len(),
        forall|i: int|
            0 <= i < tiles.len() ==> #[trigger] remapped(tiles, answers)[i] == (
                tiles[i].0,
                answers[i]->0,
            ),
    decreases tiles.len(),
{
    if tiles.len() > 0 {
        let n = tiles.len() - 1;
        law_remap_keeps_ids(tiles.drop_last(), answers.take(n));
        assert forall|i: int| 0 <= i < tiles.len() implies #[trigger] remapped(tiles, answers)[i]
            == (tiles[i].0, answers[i]->0) by {
            if i < n {
                assert(answers.take(n)[i] == answers[i]);
                assert(tiles.drop_last()[i] == tiles[i]);
            }
        }
    }
}

} // verus!
