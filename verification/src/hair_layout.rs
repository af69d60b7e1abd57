//! Index bookkeeping of hair guides: the joint ranges their skinned cards get, and the
//! pairs of guides whose gaps are filled.
use vstd::prelude::*;

verus! {

/// Joints one hair layer may use.
pub const MAX_HAIR_BONES: u16 = 255;

pub open spec fn sat_add16(a: u16, b: u16) -> u16 {
    if a + b > u16::MAX {
        u16::MAX
    } else {
        (a + b) as u16
    }
}

/// One guide's joint range given the next free joint `base`: static guides and guides of
/// fewer than two points get none; a guide of `p` points needs `p - 1` joints (as a
/// 16-bit count) and gets them only while they fit under [`MAX_HAIR_BONES`].
pub open spec fn layout_step(base: u16, is_static: bool, points: usize) -> (Option<(u16, u16)>, u16) {
    if is_static || points < 2 {
        (None, base)
    } else {
        let nb = (points - 1) as u16;
        if base >= MAX_HAIR_BONES || sat_add16(base, nb) > MAX_HAIR_BONES {
            (None, base)
        } else {
            (Some((base, nb)), sat_add16(base, nb))
        }
    }
}

pub open spec fn range_start(r: Option<(u16, u16)>) -> int {
    match r {
        Some(p) => p.0 as int,
        None => 0,
    }
}

pub open spec fn range_end(r: Option<(u16, u16)>) -> int {
    match r {
        Some(p) => p.0 + p.1,
        None => 0,
    }
}

/// The ranges of guides `(is_static, point count)`, in order, and the next free joint.
pub open spec fn layout_of(gs: Seq<(bool, usize)>) -> (Seq<Option<(u16, u16)>>, u16)
    decreases gs.len(),
{
    if gs.len() == 0 {
        (Seq::empty(), 0)
    } else {
        let (prev, base) = layout_of(gs.drop_last());
        let (e, next) = layout_step(base, gs.last().0, gs.last().1);
        (prev.push(e), next)
    }
}

/// The joint range `(first joint, joint count)` of each guide, given whether it is static
/// and how many points it has. The ranges lie under [`MAX_HAIR_BONES`] and follow one
/// another without overlap.
pub fn skin_layout(guides: &Vec<(bool, usize)>) -> (r: Vec<Option<(u16, u16)>>)
    ensures
        r@ == layout_of(guides@).0,
        forall|i: int| #![trigger r@[i]]
            0 <= i < r@.len() && r@[i] is Some ==> range_end(r@[i]) <= MAX_HAIR_BONES,
        forall|i: int, j: int|
            #![trigger r@[i], r@[j]]
            0 <= i < j < r@.len() && r@[i] is Some && r@[j] is Some ==> range_end(r@[i])
                <= range_start(r@[j]),
{
    let mut base: u16 = 0;
    let mut out: Vec<Option<(u16, u16)>> = Vec::new();
    let mut i: usize = 0;
    while i < guides.len()
        invariant
            i <= guides@.len(),
            (out@, base) == layout_of(guides@.take(i as int)),
            base <= MAX_HAIR_BONES,
            forall|k: int| #![trigger out@[k]]
                0 <= k < out@.len() && out@[k] is Some ==> range_end(out@[k]) <= base,
            forall|k: int, j: int|
                #![trigger out@[k], out@[j]]
                0 <= k < j < out@.len() && out@[k] is Some && out@[j] is Some ==> range_end(out@[k]) <= range_start(out@[j]),
        decreases guides@.len() - i,
    {
        let (is_static, points) = guides[i];
        assert(guides@.take(i + 1).drop_last() =~= guides@.take(i as int));
        let ghost old_out = out@;
        if is_static || points < 2 {
            out.push(None);
        } else {
            let nb = (points - 1) as u16;
            let sum = base.saturating_add(nb);
            if base >= MAX_HAIR_BONES || sum > MAX_HAIR_BONES {
                out.push(None);
            } else {
                out.push(Some((base, nb)));
                base = sum;
            }
        }
        assert forall|k: int| 0 <= k < old_out.len() implies out@[k] == old_out[k] by {}
        i += 1;
    }
    assert(guides@.take(i as int) =~= guides@);
    out
}

/// Card order of guides `0..i`: each guide's plain copy, followed by its mirrored copy
/// when it has one.
pub open spec fn expansion(mirrored: Seq<bool>, i: int) -> Seq<(usize, bool)>
    decreases i,
{
    if i <= 0 {
        Seq::empty()
    } else {
        let prev = expansion(mirrored, i - 1).push(((i - 1) as usize, false));
        if mirrored[i - 1] {
            prev.push(((i - 1) as usize, true))
        } else {
            prev
        }
    }
}

/// The `(source guide, mirrored copy)` of every card, in card order, given which guides
/// get a mirrored copy.
pub fn expand_order(mirrored: &Vec<bool>) -> (r: Vec<(usize, bool)>)
    ensures
        r@ == expansion(mirrored@, mirrored@.len() as int),
{
    let mut out: Vec<(usize, bool)> = Vec::new();
    let mut i: usize = 0;
    while i < mirrored.len()
        invariant
            i <= mirrored@.len(),
            out@ == expansion(mirrored@, i as int),
        decreases mirrored@.len() - i,
    {
        out.push((i, false));
        if mirrored[i] {
            out.push((i, true));
        }
        i += 1;
    }
    out
}

/// Where `x` first occurs in `s` at or after `k`.
pub open spec fn find_from(s: Seq<(usize, bool)>, x: (usize, bool), k: int) -> Option<int>
    decreases s.len() - k,
{
    if k < 0 || k >= s.len() {
        None
    } else if s[k] == x {
        Some(k)
    } else {
        find_from(s, x, k + 1)
    }
}

pub open spec fn ordered(i: int, j: int) -> (usize, usize) {
    if i <= j {
        (i as usize, j as usize)
    } else {
        (j as usize, i as usize)
    }
}

/// The card pairs of one fill: between the plain copies of its two guides, and between
/// their mirrored copies, where both copies exist.
pub open spec fn pairs_of_fill(e: Seq<(usize, bool)>, f: (usize, usize)) -> Seq<(usize, usize)> {
    found_pair(find_from(e, (f.0, false), 0), find_from(e, (f.1, false), 0)) + found_pair(
        find_from(e, (f.0, true), 0),
        find_from(e, (f.1, true), 0),
    )
}

pub open spec fn fill_pairs_spec(e: Seq<(usize, bool)>, fills: Seq<(usize, usize)>) -> Seq<(usize, usize)>
    decreases fills.len(),
{
    if fills.len() == 0 {
        Seq::empty()
    } else {
        fill_pairs_spec(e, fills.drop_last()) + pairs_of_fill(e, fills.last())
    }
}

fn find_copy(e: &Vec<(usize, bool)>, src: usize, mirrored: bool) -> (r: Option<usize>)
    ensures
        find_from(e@, (src, mirrored), 0) == match r {
            Some(k) => Some(k as int),
            None => None::<int>,
        },
{
    let mut k: usize = 0;
    while k < e.len()
        invariant
            k <= e@.len(),
            find_from(e@, (src, mirrored), 0) == find_from(e@, (src, mirrored), k as int),
        decreases e@.len() - k,
    {
        if e[k].0 == src && e[k].1 == mirrored {
            assert(e@[k as int] == (src, mirrored));
            return Some(k);
        }
        k += 1;
    }
    None
}

/// The found positions of a fill's two guides as a pair, when both were found.
pub open spec fn found_pair(a: Option<int>, b: Option<int>) -> Seq<(usize, usize)> {
    match (a, b) {
        (Some(i), Some(j)) => seq![ordered(i, j)],
        _ => Seq::empty(),
    }
}

fn push_pair(pairs: &mut Vec<(usize, usize)>, a: Option<usize>, b: Option<usize>)
    ensures
        final(pairs)@ == old(pairs)@ + found_pair(
            match a {
                Some(x) => Some(x as int),
                None => None,
            },
            match b {
                Some(y) => Some(y as int),
                None => None,
            },
        ),
{
    match a {
        Some(x) => match b {
            Some(y) => {
                pairs.push(
                    if x <= y {
                        (x, y)
                    } else {
                        (y, x)
                    },
                );
                assert(final(pairs)@ =~= old(pairs)@ + seq![ordered(x as int, y as int)]);
            },
            None => {
                assert(final(pairs)@ =~= old(pairs)@ + Seq::<(usize, usize)>::empty());
            },
        },
        None => {
            assert(final(pairs)@ =~= old(pairs)@ + Seq::<(usize, usize)>::empty());
        },
    }
}

/// Expanded guides are `(source guide, mirrored copy)` in card order; each fill names two
/// source guides. Returns the card index pairs (smaller first) to fill between.
pub fn fill_pairs(expanded: &Vec<(usize, bool)>, fills: &Vec<(usize, usize)>) -> (r: Vec<(usize, usize)>)
    ensures
        r@ == fill_pairs_spec(expanded@, fills@),
{
    let mut pairs: Vec<(usize, usize)> = Vec::new();
    let mut i: usize = 0;
    while i < fills.len()
        invariant
            i <= fills@.len(),
            pairs@ == fill_pairs_spec(expanded@, fills@.take(i as int)),
        decreases fills@.len() - i,
    {
        let (a, b) = fills[i];
        let ghost before = pairs@;
        let fa = find_copy(expanded, a, false);
        let fb = find_copy(expanded, b, false);
        push_pair(&mut pairs, fa, fb);
        let ma = find_copy(expanded, a, true);
        let mb = find_copy(expanded, b, true);
        push_pair(&mut pairs, ma, mb);
        assert(fills@.take(i + 1).drop_last() =~= fills@.take(i as int));
        assert(pairs@ =~= before + pairs_of_fill(expanded@, fills@[i as int]));
        i += 1;
    }
    assert(fills@.take(i as int) =~= fills@);
    pairs
}

/// The distinct fill pairs named by guides `0..i`: guide `g` asks to be filled with
/// `fill_with[g]`; a pair is kept, smaller index first, the first time it is named.
pub open spec fn guide_pairs(fill_with: Seq<Option<usize>>, i: int) -> Seq<(usize, usize)>
    decreases i,
{
    if i <= 0 {
        Seq::empty()
    } else {
        let acc = guide_pairs(fill_with, i - 1);
        match fill_with[i - 1] {
            Some(j) => if j < fill_with.len() && j != i - 1 && !acc.contains(ordered(i - 1, j as int)) {
                acc.push(ordered(i - 1, j as int))
            } else {
                acc
            },
            None => acc,
        }
    }
}

/// The distinct pairs of guides to fill between, from each guide's `fill_with` partner;
/// partners out of range and self-pairs are ignored.
pub fn fill_pairs_of(fill_with: &Vec<Option<usize>>) -> (r: Vec<(usize, usize)>)
    ensures
        r@ == guide_pairs(fill_with@, fill_with@.len() as int),
        r@.no_duplicates(),
        forall|k: int| 0 <= k < r@.len() ==> (#[trigger] r@[k]).0 < r@[k].1 < fill_with@.len(),
{
    let mut pairs: Vec<(usize, usize)> = Vec::new();
    let mut i: usize = 0;
    while i < fill_with.len()
        invariant
            i <= fill_with@.len(),
            pairs@ == guide_pairs(fill_with@, i as int),
            pairs@.no_duplicates(),
            forall|k: int| 0 <= k < pairs@.len() ==> (#[trigger] pairs@[k]).0 < pairs@[k].1 < fill_with@.len(),
        decreases fill_with@.len() - i,
    {
        if let Some(j) = fill_with[i] {
            if j < fill_with.len() && j != i {
                let p = if i <= j { (i, j) } else { (j, i) };
                let mut seen = false;
                let mut k: usize = 0;
                while k < pairs.len()
                    invariant
                        k <= pairs@.len(),
                        seen <==> exists|t: int| 0 <= t < k && pairs@[t] == p,
                    decreases pairs@.len() - k,
                {
                    if pairs[k].0 == p.0 && pairs[k].1 == p.1 {
                        seen = true;
                    }
                    k += 1;
                }
                assert(seen <==> pairs@.contains(p));
                if !seen {
                    pairs.push(p);
                }
            }
        }
        i += 1;
    }
    pairs
}

pub open spec fn clamp_u32(x: u32, lo: u32, hi: u32) -> u32 {
    if x < lo {
        lo
    } else if x > hi {
        hi
    } else {
        x
    }
}

/// Size of the baked hair maps for the requested width and height, each clamped to
/// `8..=4096`.
pub fn tex_size(tex_width: u32, tex_height: u32) -> (r: (u32, u32))
    ensures
        r == (clamp_u32(tex_width, 8, 4096), clamp_u32(tex_height, 8, 4096)),
{
    let w = if tex_width < 8 {
        8
    } else if tex_width > 4096 {
        4096
    } else {
        tex_width
    };
    let h = if tex_height < 8 {
        8
    } else if tex_height > 4096 {
        4096
    } else {
        tex_height
    };
    (w, h)
}

/// Cards stacked per guide for `layers` extra layers: at most 16 extra, plus the base.
pub fn auto_stack_count(layers: u32) -> (r: usize)
    ensures
        r == (if layers < 16 {
            layers
        } else {
            16
        }) + 1,
{
    (if layers < 16 {
        layers
    } else {
        16
    }) as usize + 1
}

/// Joints handed out by a sequence of ranges.
pub open spec fn joints_given(r: Seq<Option<(u16, u16)>>) -> int
    decreases r.len(),
{
    if r.len() == 0 {
        0
    } else {
        joints_given(r.drop_last()) + match r.last() {
            Some(p) => p.1 as int,
            None => 0,
        }
    }
}

proof fn lemma_layout_base(gs: Seq<(bool, usize)>)
    ensures
        layout_of(gs).0.len() == gs.len(),
        layout_of(gs).1 == joints_given(layout_of(gs).0),
        layout_of(gs).1 <= MAX_HAIR_BONES,
    decreases gs.len(),
{
    if gs.len() > 0 {
        lemma_layout_base(gs.drop_last());
        let (prev, base) = layout_of(gs.drop_last());
        let e = layout_step(base, gs.last().0, gs.last().1).0;
        assert(prev.push(e).drop_last() =~= prev);
    }
}

/// Joint ranges are packed: guide `i`'s range starts where the ranges handed out before
/// it end; a moving guide of `p >= 2` points gets `p - 1` joints whenever they fit under
/// [`MAX_HAIR_BONES`] after those, and none otherwise (a guide that does not fit leaves the
/// next free joint where it was, so a later, smaller guide can still fit); static and
/// single-point guides get none.
pub proof fn law_skin_layout_packs_ranges(gs: Seq<(bool, usize)>, i: int)
    requires
        0 <= i < gs.len(),
    ensures
        ({
            let r = layout_of(gs).0;
            let used = joints_given(r.take(i));
            let (is_static, p) = gs[i];
            &&& r.len() == gs.len()
            &&& (is_static || p < 2) ==> r[i] is None
            &&& (!is_static && p >= 2 && used + p - 1 <= MAX_HAIR_BONES) ==> r[i] == Some(
                (used as u16, (p - 1) as u16),
            )
            &&& (!is_static && p >= 2 && p - 1 <= u16::MAX && used + p - 1 > MAX_HAIR_BONES) ==> r[i] is None
            &&& r[i] matches Some(q) ==> q.0 == used && q.1 == ((p - 1) as u16) && used + q.1
                <= MAX_HAIR_BONES
        }),
    decreases gs.len(),
{
    lemma_layout_base(gs);
    let d = gs.drop_last();
    lemma_layout_base(d);
    let (prev, base) = layout_of(d);
    let e = layout_step(base, gs.last().0, gs.last().1).0;
    let r = layout_of(gs).0;
    assert(r == prev.push(e));
    if i < gs.len() - 1 {
        law_skin_layout_packs_ranges(d, i);
        assert(r.take(i) =~= prev.take(i));
        assert(r[i] == prev[i]);
        assert(gs[i] == d[i]);
    } else {
        assert(r.take(i) =~= prev);
    }
}

/// Card `(g, m)` comes before card `(h, n)`: by source guide, the plain copy first.
pub open spec fn card_before(a: (usize, bool), b: (usize, bool)) -> bool {
    a.0 < b.0 || (a.0 == b.0 && !a.1 && b.1)
}

/// The card order lists every guide's plain copy, its mirrored copy exactly when the
/// guide is mirrored, nothing else, each card once, by guide and plain copy first.
pub proof fn law_expansion_lists_each_card_once(mirrored: Seq<bool>, i: int)
    requires
        0 <= i <= mirrored.len(),
        mirrored.len() <= usize::MAX,
    ensures
        ({
            let e = expansion(mirrored, i);
            &&& forall|k: int, l: int| 0 <= k < l < e.len() ==> card_before(#[trigger] e[k], #[trigger] e[l])
            &&& forall|k: int| 0 <= k < e.len() ==> (#[trigger] e[k]).0 < i && (e[k].1 ==> mirrored[e[k].0 as int])
            &&& forall|g: int| 0 <= g < i ==> #[trigger] e.contains((g as usize, false))
            &&& forall|g: int| 0 <= g < i && mirrored[g] ==> #[trigger] e.contains((g as usize, true))
        }),
    decreases i,
{
    if i > 0 {
        law_expansion_lists_each_card_once(mirrored, i - 1);
        let p0 = expansion(mirrored, i - 1);
        let p1 = p0.push(((i - 1) as usize, false));
        let e = expansion(mirrored, i);
        assert(e == if mirrored[i - 1] {
            p1.push(((i - 1) as usize, true))
        } else {
            p1
        });
        assert forall|k: int| 0 <= k < p0.len() implies e[k] == p0[k] by {
            assert(p1[k] == p0[k]);
        }
        assert forall|g: int| 0 <= g < i implies #[trigger] e.contains((g as usize, false)) by {
            if g < i - 1 {
                assert(p0.contains((g as usize, false)));
                let k = choose|k: int| 0 <= k < p0.len() && p0[k] == (g as usize, false);
                assert(e[k] == p0[k]);
            } else {
                assert(e[p0.len() as int] == (g as usize, false));
            }
        }
        assert forall|g: int| 0 <= g < i && mirrored[g] implies #[trigger] e.contains((g as usize, true)) by {
            if g < i - 1 {
                assert(p0.contains((g as usize, true)));
                let k = choose|k: int| 0 <= k < p0.len() && p0[k] == (g as usize, true);
                assert(e[k] == p0[k]);
            } else {
                assert(e[p0.len() as int + 1] == (g as usize, true));
            }
        }
        assert forall|k: int, l: int| 0 <= k < l < e.len() implies card_before(#[trigger] e[k], #[trigger] e[l]) by {
            if l < p0.len() {
                assert(e[k] == p0[k] && e[l] == p0[l]);
            } else if k < p0.len() {
                assert(e[k] == p0[k]);
            }
        }
        assert forall|k: int| 0 <= k < e.len() implies (#[trigger] e[k]).0 < i && (e[k].1 ==> mirrored[e[k].0 as int]) by {
            if k < p0.len() {
                assert(e[k] == p0[k]);
            }
        }
    }
}

/// Guide pairs to fill are those some guide asks for: each kept pair `(i, j)`, smaller
/// index first, has guide `i` asking for `j` or `j` asking for `i`, and every request for
/// another guide in range is kept.
pub proof fn law_fill_pairs_are_requests(fill_with: Seq<Option<usize>>, i: int)
    requires
        0 <= i <= fill_with.len(),
        fill_with.len() <= usize::MAX,
    ensures
        ({
            let r = guide_pairs(fill_with, i);
            &&& forall|k: int|
                0 <= k < r.len() ==> {
                    let (a, b) = #[trigger] r[k];
                    &&& a < b < fill_with.len()
                    &&& (b < i && fill_with[b as int] == Some(a)) || (a < i && fill_with[a as int]
                        == Some(b))
                }
            &&& forall|g: int|
                0 <= g < i && (#[trigger] fill_with[g]) is Some ==> {
                    let j = fill_with[g]->0;
                    j < fill_with.len() && j != g ==> r.contains(
                        if g < j {
                            (g as usize, j)
                        } else {
                            (j, g as usize)
                        },
                    )
                }
        }),
    decreases i,
{
    if i > 0 {
        law_fill_pairs_are_requests(fill_with, i - 1);
        let acc = guide_pairs(fill_with, i - 1);
        let r = guide_pairs(fill_with, i);
        assert forall|k: int| 0 <= k < r.len() implies {
            let (a, b) = #[trigger] r[k];
            &&& a < b < fill_with.len()
            &&& (b < i && fill_with[b as int] == Some(a)) || (a < i && fill_with[a as int] == Some(b))
        } by {
            if k < acc.len() {
                assert(r[k] == acc[k]);
            }
        }
        assert forall|g: int| 0 <= g < i && (#[trigger] fill_with[g]) is Some implies {
            let j = fill_with[g]->0;
            j < fill_with.len() && j != g ==> r.contains(
                if g < j {
                    (g as usize, j)
                } else {
                    (j, g as usize)
                },
            )
        } by {
            if let Some(j) = fill_with[g] {
                if j < fill_with.len() && j != g {
                    let p = if g < j {
                        (g as usize, j)
                    } else {
                        (j, g as usize)
                    };
                    if g < i - 1 {
                        assert(acc.contains(p));
                        let k = choose|k: int| 0 <= k < acc.len() && acc[k] == p;
                        assert(r[k] == acc[k]);
                    } else {
                        assert(p == ordered(i - 1, j as int));
                        if !acc.contains(p) {
                            assert(r[acc.len() as int] == p);
                        }
                    }
                }
            }
        }
    }
}

/// The card pairs of a fill of guides `f.0` and `f.1` join one card of each guide on the
/// same side (plain with plain, mirrored with mirrored), smaller card index first; the
/// plain pair is there whenever both guides have a plain card, the mirrored pair whenever
/// both have a mirrored card.
pub proof fn law_fill_pairs_join_same_side(e: Seq<(usize, bool)>, f: (usize, usize))
    requires
        e.len() <= usize::MAX,
    ensures
        forall|k: int|
            0 <= k < pairs_of_fill(e, f).len() ==> {
                let (x, y) = #[trigger] pairs_of_fill(e, f)[k];
                &&& x <= y < e.len()
                &&& e[x as int].1 == e[y as int].1
                &&& (e[x as int].0 == f.0 && e[y as int].0 == f.1) || (e[x as int].0 == f.1 && e[y as int].0
                    == f.0)
            },
        e.contains((f.0, false)) && e.contains((f.1, false)) ==> pairs_of_fill(e, f).len() >= 1,
        e.contains((f.0, true)) && e.contains((f.1, true)) ==> pairs_of_fill(e, f).len() >= 1,
{
    lemma_find_from(e, (f.0, false), 0);
    lemma_find_from(e, (f.1, false), 0);
    lemma_find_from(e, (f.0, true), 0);
    lemma_find_from(e, (f.1, true), 0);
}

proof fn lemma_find_from(s: Seq<(usize, bool)>, x: (usize, bool), k: int)
    requires
        0 <= k,
    ensures
        find_from(s, x, k) matches Some(i) ==> k <= i < s.len() && s[i] == x,
        (exists|j: int| k <= j < s.len() && s[j] == x) ==> find_from(s, x, k) is Some,
    decreases s.len() - k,
{
    if k < s.len() {
        lemma_find_from(s, x, k + 1);
        if s[k] != x {
            if exists|j: int| k <= j < s.len() && s[j] == x {
                let j = choose|j: int| k <= j < s.len() && s[j] == x;
                assert(j != k);
            }
        }
    }
}

/// The baked map size keeps a requested side of 8 to 4096 texels as it is, and brings
/// any other into that range at the nearer end.
pub proof fn law_tex_size_clamps_each_side(w: u32, h: u32)
    ensures
        8 <= clamp_u32(w, 8, 4096) <= 4096,
        8 <= w <= 4096 ==> clamp_u32(w, 8, 4096) == w,
        w < 8 ==> clamp_u32(w, 8, 4096) == 8,
        w > 4096 ==> clamp_u32(w, 8, 4096) == 4096,
        8 <= h <= 4096 ==> clamp_u32(h, 8, 4096) == h,
        h < 8 ==> clamp_u32(h, 8, 4096) == 8,
        h > 4096 ==> clamp_u32(h, 8, 4096) == 4096,
{
}

} // verus!
