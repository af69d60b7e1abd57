//! Connected regions of a foreground mask on a square grid that wraps around at its edges
//! (4-neighbourhood), each region labelled by its smallest pixel index. The flood-fill
//! node colours each region by a hash of that label.
use vstd::prelude::*;

verus! {

/// Width of the grid for a requested resolution (at least one pixel).
pub open spec fn grid_w(res: u32) -> int {
    if res == 0 {
        1
    } else {
        res as int
    }
}

/// The pixel to the right of `i`, wrapping to the start of its row.
pub open spec fn right_of(w: int, i: int) -> int {
    (i / w) * w + (i % w + 1) % w
}

/// The pixel below `i`, wrapping to the first row.
pub open spec fn down_of(w: int, i: int) -> int {
    ((i / w + 1) % w) * w + i % w
}

pub open spec fn adjacent(w: int, i: int, j: int) -> bool {
    j == right_of(w, i) || j == down_of(w, i) || i == right_of(w, j) || i == down_of(w, j)
}

pub open spec fn walk_step(w: int, p: Seq<int>, k: int) -> bool {
    adjacent(w, p[k], p[k + 1])
}

/// `p` visits foreground pixels only, each next to the one before.
pub open spec fn is_walk(fg: Seq<bool>, w: int, p: Seq<int>) -> bool {
    &&& p.len() >= 1
    &&& forall|k: int| 0 <= k < p.len() ==> 0 <= #[trigger] p[k] < fg.len() && fg[p[k]]
    &&& forall|k: int| 0 <= k < p.len() - 1 ==> #[trigger] walk_step(w, p, k)
}

/// Foreground pixels `i` and `j` lie in one region.
pub open spec fn connected(fg: Seq<bool>, w: int, i: int, j: int) -> bool {
    exists|p: Seq<int>| #[trigger] is_walk(fg, w, p) && p[0] == i && p.last() == j
}

proof fn lemma_connected_ends(fg: Seq<bool>, w: int, i: int, j: int)
    requires
        connected(fg, w, i, j),
    ensures
        0 <= i < fg.len() && fg[i],
        0 <= j < fg.len() && fg[j],
{
    let p = choose|p: Seq<int>| #[trigger] is_walk(fg, w, p) && p[0] == i && p.last() == j;
    assert(p[0] == i);
    assert(p[p.len() - 1] == j);
}

proof fn lemma_connected_refl(fg: Seq<bool>, w: int, i: int)
    requires
        0 <= i < fg.len(),
        fg[i],
    ensures
        connected(fg, w, i, i),
{
    let p = seq![i];
    assert(is_walk(fg, w, p));
}

proof fn lemma_connected_adj(fg: Seq<bool>, w: int, i: int, j: int)
    requires
        0 <= i < fg.len(),
        0 <= j < fg.len(),
        fg[i],
        fg[j],
        adjacent(w, i, j),
    ensures
        connected(fg, w, i, j),
{
    let p = seq![i, j];
    assert(walk_step(w, p, 0));
    assert(is_walk(fg, w, p));
}

proof fn lemma_connected_sym(fg: Seq<bool>, w: int, i: int, j: int)
    requires
        connected(fg, w, i, j),
    ensures
        connected(fg, w, j, i),
{
    let p = choose|p: Seq<int>| #[trigger] is_walk(fg, w, p) && p[0] == i && p.last() == j;
    let n = p.len() as int;
    let q = Seq::new(n as nat, |t: int| p[n - 1 - t]);
    assert forall|k: int| 0 <= k < q.len() implies 0 <= #[trigger] q[k] < fg.len() && fg[q[k]] by {
        assert(q[k] == p[n - 1 - k]);
    }
    assert forall|k: int| 0 <= k < q.len() - 1 implies #[trigger] walk_step(w, q, k) by {
        assert(walk_step(w, p, n - 2 - k));
    }
    assert(is_walk(fg, w, q));
    assert(q[0] == j && q.last() == i);
}

proof fn lemma_connected_trans(fg: Seq<bool>, w: int, i: int, j: int, k: int)
    requires
        connected(fg, w, i, j),
        connected(fg, w, j, k),
    ensures
        connected(fg, w, i, k),
{
    let p1 = choose|p: Seq<int>| #[trigger] is_walk(fg, w, p) && p[0] == i && p.last() == j;
    let p2 = choose|p: Seq<int>| #[trigger] is_walk(fg, w, p) && p[0] == j && p.last() == k;
    let n1 = p1.len() as int;
    let q = p1 + p2.drop_first();
    assert forall|t: int| 0 <= t < q.len() implies 0 <= #[trigger] q[t] < fg.len() && fg[q[t]] by {
        if t >= n1 {
            assert(q[t] == p2[t - n1 + 1]);
        } else {
            assert(q[t] == p1[t]);
        }
    }
    assert forall|t: int| 0 <= t < q.len() - 1 implies #[trigger] walk_step(w, q, t) by {
        if t < n1 - 1 {
            assert(walk_step(w, p1, t));
        } else if t == n1 - 1 {
            assert(walk_step(w, p2, 0));
            assert(q[t] == p1[n1 - 1]);
        } else {
            assert(walk_step(w, p2, t - n1 + 1));
        }
    }
    assert(is_walk(fg, w, q));
    if p2.len() == 1 {
        assert(q.last() == p1.last());
    } else {
        assert(q.last() == p2.last());
    }
}

// ---------------------------------------------------------------------------------------
// Union-find forest
// ---------------------------------------------------------------------------------------
/// The root reached from `x` by following parents (which never point upward).
pub open spec fn root(p: Seq<u32>, x: int) -> int
    decreases x,
{
    if x < 0 || x >= p.len() || p[x] as int >= x {
        x
    } else {
        root(p, p[x] as int)
    }
}

/// Parents point to smaller indices inside the same region; background pixels are their
/// own parents.
pub open spec fn forest_ok(p: Seq<u32>, fg: Seq<bool>, w: int) -> bool {
    &&& p.len() == fg.len()
    &&& forall|x: int| 0 <= x < p.len() ==> #[trigger] p[x] <= x
    &&& forall|x: int| 0 <= x < p.len() && !fg[x] ==> #[trigger] p[x] == x
    &&& forall|x: int| 0 <= x < p.len() && fg[x] ==> connected(fg, w, x, #[trigger] p[x] as int)
}

proof fn lemma_root(p: Seq<u32>, fg: Seq<bool>, w: int, x: int)
    requires
        forest_ok(p, fg, w),
        0 <= x < p.len(),
    ensures
        0 <= root(p, x) <= x,
        p[root(p, x)] == root(p, x),
        fg[x] ==> connected(fg, w, x, root(p, x)),
        !fg[x] ==> root(p, x) == x,
    decreases x,
{
    if p[x] as int == x {
        if fg[x] {
            lemma_connected_refl(fg, w, x);
        }
    } else {
        let px = p[x] as int;
        assert(fg[x]);
        assert(connected(fg, w, x, px));
        lemma_connected_ends(fg, w, x, px);
        lemma_root(p, fg, w, px);
        lemma_connected_trans(fg, w, x, px, root(p, px));
    }
}

/// Path halving (`p[x] = p[p[x]]`) keeps every root.
proof fn lemma_halve_roots(p: Seq<u32>, fg: Seq<bool>, w: int, x: int, y: int)
    requires
        forest_ok(p, fg, w),
        0 <= x < p.len(),
        p[x] != x,
    ensures
        root(p.update(x, p[p[x] as int]), y) == root(p, y),
    decreases y,
{
    let q = p.update(x, p[p[x] as int]);
    let px = p[x] as int;
    if 0 <= y < p.len() {
        if y == x {
            let ppx = p[px] as int;
            assert(p[x] <= x);
            assert(ppx <= px);
            lemma_halve_roots(p, fg, w, x, ppx);
            assert(q[x] as int == ppx);
            assert(root(q, x) == root(q, ppx));
            assert(root(p, x) == root(p, px));
            if ppx == px {
                assert(root(p, px) == px);
            } else {
                assert(root(p, px) == root(p, ppx));
            }
        } else if p[y] as int >= y {
            assert(q[y] == p[y]);
        } else {
            assert(q[y] == p[y]);
            lemma_halve_roots(p, fg, w, x, p[y] as int);
        }
    }
}

proof fn lemma_halve(p: Seq<u32>, fg: Seq<bool>, w: int, x: int)
    requires
        forest_ok(p, fg, w),
        0 <= x < p.len(),
        p[x] != x,
    ensures
        forest_ok(p.update(x, p[p[x] as int]), fg, w),
        forall|y: int| root(p.update(x, p[p[x] as int]), y) == root(p, y),
{
    let q = p.update(x, p[p[x] as int]);
    let px = p[x] as int;
    assert(fg[x]);
    assert(connected(fg, w, x, px));
    lemma_connected_ends(fg, w, x, px);
    assert(connected(fg, w, px, p[px] as int));
    lemma_connected_trans(fg, w, x, px, p[px] as int);
    assert forall|y: int| 0 <= y < q.len() && fg[y] implies connected(fg, w, y, #[trigger] q[y] as int) by {
        if y != x {
            assert(q[y] == p[y]);
        }
    }
    assert forall|y: int| root(q, y) == root(p, y) by {
        lemma_halve_roots(p, fg, w, x, y);
    }
}

/// Hanging root `hi` under root `lo` relabels exactly the pixels rooted at `hi`.
proof fn lemma_link_roots(p: Seq<u32>, fg: Seq<bool>, w: int, lo: int, hi: int, y: int)
    requires
        forest_ok(p, fg, w),
        0 <= lo < hi < p.len(),
        p[lo] == lo,
        p[hi] == hi,
    ensures
        root(p.update(hi, lo as u32), y) == if root(p, y) == hi {
            lo
        } else {
            root(p, y)
        },
    decreases y,
{
    if 0 <= y < p.len() {
        if y == hi {
            lemma_link_roots(p, fg, w, lo, hi, lo);
        } else if p[y] as int >= y {
        } else {
            lemma_link_roots(p, fg, w, lo, hi, p[y] as int);
        }
    }
}

pub open spec fn relabel(p: Seq<u32>, a: int, b: int, y: int) -> int {
    let ra = root(p, a);
    let rb = root(p, b);
    if ra == rb {
        root(p, y)
    } else {
        let lo = if ra < rb {
            ra
        } else {
            rb
        };
        let hi = if ra < rb {
            rb
        } else {
            ra
        };
        if root(p, y) == hi {
            lo
        } else {
            root(p, y)
        }
    }
}

proof fn lemma_link(p: Seq<u32>, fg: Seq<bool>, w: int, a: int, b: int, lo: int, hi: int)
    requires
        forest_ok(p, fg, w),
        0 <= a < p.len(),
        0 <= b < p.len(),
        fg[a],
        fg[b],
        adjacent(w, a, b),
        (lo == root(p, a) && hi == root(p, b)) || (lo == root(p, b) && hi == root(p, a)),
        lo < hi,
    ensures
        forest_ok(p.update(hi, lo as u32), fg, w),
        forall|y: int| root(p.update(hi, lo as u32), y) == relabel(p, a, b, y),
{
    let ra = root(p, a);
    let rb = root(p, b);
    lemma_root(p, fg, w, a);
    lemma_root(p, fg, w, b);
    lemma_connected_adj(fg, w, a, b);
    lemma_connected_sym(fg, w, a, ra);
    lemma_connected_sym(fg, w, b, rb);
    lemma_connected_trans(fg, w, ra, a, b);
    lemma_connected_trans(fg, w, ra, b, rb);
    lemma_connected_sym(fg, w, ra, rb);
    let q = p.update(hi, lo as u32);
    lemma_connected_ends(fg, w, ra, rb);
    assert(connected(fg, w, hi, lo));
    assert forall|y: int| 0 <= y < q.len() && fg[y] implies connected(fg, w, y, #[trigger] q[y] as int) by {
        if y != hi {
            assert(q[y] == p[y]);
        }
    }
    assert forall|y: int| root(q, y) == relabel(p, a, b, y) by {
        lemma_link_roots(p, fg, w, lo, hi, y);
    }
}

/// Both grid neighbours of `t` that are foreground share its root.
pub open spec fn joined(p: Seq<u32>, fg: Seq<bool>, w: int, t: int) -> bool {
    &&& fg[t] && fg[right_of(w, t)] ==> root(p, t) == root(p, right_of(w, t))
    &&& fg[t] && fg[down_of(w, t)] ==> root(p, t) == root(p, down_of(w, t))
}

proof fn lemma_neighbors(w: int, i: int)
    requires
        w >= 1,
        0 <= i < w * w,
    ensures
        0 <= right_of(w, i) < w * w,
        0 <= down_of(w, i) < w * w,
        0 <= i / w < w,
        0 <= i % w < w,
{
    let x = i % w;
    let y = i / w;
    assert(0 <= y < w && 0 <= x < w) by (nonlinear_arith)
        requires
            w >= 1,
            0 <= i < w * w,
            x == i % w,
            y == i / w,
    ;
    let xr = (x + 1) % w;
    let yd = (y + 1) % w;
    assert(0 <= xr < w && 0 <= yd < w);
    assert(0 <= y * w + xr < w * w) by (nonlinear_arith)
        requires
            0 <= y < w,
            0 <= xr < w,
    ;
    assert(0 <= yd * w + x < w * w) by (nonlinear_arith)
        requires
            0 <= yd < w,
            0 <= x < w,
    ;
}

/// Roots agree along a walk once every pixel is joined to its neighbours.
proof fn lemma_walk_roots(p: Seq<u32>, fg: Seq<bool>, w: int, path: Seq<int>)
    requires
        forest_ok(p, fg, w),
        forall|t: int| 0 <= t < fg.len() ==> #[trigger] joined(p, fg, w, t),
        is_walk(fg, w, path),
    ensures
        root(p, path[0]) == root(p, path.last()),
    decreases path.len(),
{
    if path.len() > 1 {
        let init = path.drop_last();
        assert forall|k: int| 0 <= k < init.len() - 1 implies #[trigger] walk_step(w, init, k) by {
            assert(walk_step(w, path, k));
        }
        assert forall|k: int| 0 <= k < init.len() implies 0 <= #[trigger] init[k] < fg.len()
            && fg[init[k]] by {
            assert(init[k] == path[k]);
        }
        lemma_walk_roots(p, fg, w, init);
        let n = path.len() as int;
        let u = path[n - 2];
        let v = path[n - 1];
        assert(walk_step(w, path, n - 2));
        assert(joined(p, fg, w, u));
        assert(joined(p, fg, w, v));
    }
}

fn find_root(parent: &mut Vec<u32>, x: u32, Ghost(fg): Ghost<Seq<bool>>, Ghost(w): Ghost<int>) -> (r: u32)
    requires
        forest_ok(old(parent)@, fg, w),
        x < old(parent)@.len(),
    ensures
        forest_ok(final(parent)@, fg, w),
        r as int == root(old(parent)@, x as int),
        forall|y: int| root(final(parent)@, y) == root(old(parent)@, y),
{
    let ghost p0 = parent@;
    let mut c = x;
    while parent[c as usize] != c
        invariant
            forest_ok(parent@, fg, w),
            c < parent@.len(),
            root(parent@, c as int) == root(p0, x as int),
            forall|y: int| root(parent@, y) == root(p0, y),
        decreases c,
    {
        let pc = parent[c as usize];
        assert(parent@[c as int] <= c);
        let ppc = parent[pc as usize];
        assert(parent@[pc as int] <= pc);
        proof {
            lemma_halve(parent@, fg, w, c as int);
            assert(root(parent@, c as int) == root(parent@, pc as int));
            if ppc != pc {
                assert(root(parent@, pc as int) == root(parent@, ppc as int));
            }
        }
        parent.set(c as usize, ppc);
        c = ppc;
    }
    c
}

fn union_sets(
    parent: &mut Vec<u32>,
    a: u32,
    b: u32,
    Ghost(fg): Ghost<Seq<bool>>,
    Ghost(w): Ghost<int>,
)
    requires
        forest_ok(old(parent)@, fg, w),
        a < old(parent)@.len(),
        b < old(parent)@.len(),
        fg[a as int],
        fg[b as int],
        adjacent(w, a as int, b as int),
    ensures
        forest_ok(final(parent)@, fg, w),
        forall|y: int| root(final(parent)@, y) == relabel(old(parent)@, a as int, b as int, y),
{
    let ghost p0 = parent@;
    let ra = find_root(parent, a, Ghost(fg), Ghost(w));
    let rb = find_root(parent, b, Ghost(fg), Ghost(w));
    let ghost p1 = parent@;
    proof {
        lemma_root(p1, fg, w, a as int);
        lemma_root(p1, fg, w, b as int);
        assert(root(p1, a as int) == ra);
        assert(root(p1, b as int) == rb);
    }
    if ra == rb {
        assert forall|y: int| root(p1, y) == relabel(p0, a as int, b as int, y) by {}
        return;
    }
    let lo = if ra < rb {
        ra
    } else {
        rb
    };
    let hi = if ra < rb {
        rb
    } else {
        ra
    };
    proof {
        lemma_link(p1, fg, w, a as int, b as int, lo as int, hi as int);
    }
    parent.set(hi as usize, lo);
    proof {
        assert(parent@ == p1.update(hi as int, (lo as int) as u32));
        assert forall|y: int| root(parent@, y) == relabel(p0, a as int, b as int, y) by {
            assert(root(parent@, y) == relabel(p1, a as int, b as int, y));
            assert(root(p1, y) == root(p0, y));
            assert(root(p1, a as int) == root(p0, a as int));
            assert(root(p1, b as int) == root(p0, b as int));
        }
    }
}

/// Labels each pixel of a `res` x `res` mask (a resolution of 0 is one pixel): a
/// foreground pixel gets the smallest index of its region, where regions are joined
/// through right and down neighbours, wrapping at the edges; a background pixel gets
/// its own index.
pub fn component_labels(fg: &Vec<bool>, res: u32) -> (r: Vec<u32>)
    requires
        fg@.len() == grid_w(res) * grid_w(res),
        grid_w(res) * grid_w(res) <= u32::MAX,
    ensures
        r@.len() == fg@.len(),
        forall|i: int| 0 <= i < fg@.len() && !fg@[i] ==> r@[i] == i,
        forall|i: int|
            0 <= i < fg@.len() && fg@[i] ==> connected(fg@, grid_w(res), i, #[trigger] r@[i] as int),
        forall|i: int, j: int|
            #![trigger r@[i], connected(fg@, grid_w(res), i, j)]
            0 <= i < fg@.len() && fg@[i] && connected(fg@, grid_w(res), i, j) ==> r@[i] <= j,
        forall|i: int, j: int|
            0 <= i < fg@.len() && fg@[i] && 0 <= j < fg@.len() && fg@[j] ==> (#[trigger] r@[i]
                == #[trigger] r@[j] <==> connected(fg@, grid_w(res), i, j)),
{
    let w: u32 = if res == 0 {
        1
    } else {
        res
    };
    let ghost gw = grid_w(res);
    let ghost f = fg@;
    let n: u32 = w * w;
    let mut parent: Vec<u32> = Vec::new();
    let mut k: u32 = 0;
    while k < n
        invariant
            k <= n,
            n == f.len(),
            parent@.len() == k,
            forall|t: int| 0 <= t < k ==> parent@[t] == t,
        decreases n - k,
    {
        parent.push(k);
        k += 1;
    }
    proof {
        assert forall|x: int| 0 <= x < parent@.len() && f[x] implies connected(
            f,
            gw,
            x,
            #[trigger] parent@[x] as int,
        ) by {
            lemma_connected_refl(f, gw, x);
        }
    }
    let mut i: u32 = 0;
    while i < n
        invariant
            i <= n,
            n == f.len(),
            gw == w,
            f == fg@,
            w >= 1,
            n == w * w,
            forest_ok(parent@, f, gw),
            forall|t: int| 0 <= t < i ==> #[trigger] joined(parent@, f, gw, t),
        decreases n - i,
    {
        if fg[i as usize] {
            proof {
                lemma_neighbors(gw, i as int);
            }
            let x = i % w;
            let y = i / w;
            let ir = y * w + (x + 1) % w;
            let idn = ((y + 1) % w) * w + x;
            assert(ir as int == right_of(gw, i as int));
            assert(idn as int == down_of(gw, i as int));
            if fg[ir as usize] {
                let ghost before = parent@;
                union_sets(&mut parent, i, ir, Ghost(f), Ghost(gw));
                proof {
                    assert forall|t: int| 0 <= t < i implies #[trigger] joined(parent@, f, gw, t) by {
                        assert(joined(before, f, gw, t));
                        assert(root(parent@, t) == relabel(before, i as int, ir as int, t));
                        assert(root(parent@, right_of(gw, t)) == relabel(before, i as int, ir as int, right_of(gw, t)));
                        assert(root(parent@, down_of(gw, t)) == relabel(before, i as int, ir as int, down_of(gw, t)));
                    }
                    assert(root(parent@, i as int) == relabel(before, i as int, ir as int, i as int));
                    assert(root(parent@, ir as int) == relabel(before, i as int, ir as int, ir as int));
                }
            }
            let ghost mid = parent@;
            if fg[idn as usize] {
                union_sets(&mut parent, i, idn, Ghost(f), Ghost(gw));
                proof {
                    assert forall|t: int| 0 <= t < i implies #[trigger] joined(parent@, f, gw, t) by {
                        assert(joined(mid, f, gw, t));
                        assert(root(parent@, t) == relabel(mid, i as int, idn as int, t));
                        assert(root(parent@, right_of(gw, t)) == relabel(mid, i as int, idn as int, right_of(gw, t)));
                        assert(root(parent@, down_of(gw, t)) == relabel(mid, i as int, idn as int, down_of(gw, t)));
                    }
                    assert(root(parent@, i as int) == relabel(mid, i as int, idn as int, i as int));
                    assert(root(parent@, ir as int) == relabel(mid, i as int, idn as int, ir as int));
                    assert(root(parent@, idn as int) == relabel(mid, i as int, idn as int, idn as int));
                }
            }
            assert(joined(parent@, f, gw, i as int));
        }
        i += 1;
    }
    let mut labels: Vec<u32> = Vec::new();
    let mut j: u32 = 0;
    while j < n
        invariant
            j <= n,
            n == f.len(),
            gw == w,
            f == fg@,
            forest_ok(parent@, f, gw),
            forall|t: int| 0 <= t < n ==> #[trigger] joined(parent@, f, gw, t),
            labels@.len() == j,
            forall|t: int| 0 <= t < j ==> #[trigger] labels@[t] as int == root(parent@, t),
        decreases n - j,
    {
        if fg[j as usize] {
            let ghost before = parent@;
            let r = find_root(&mut parent, j, Ghost(f), Ghost(gw));
            proof {
                assert forall|t: int| 0 <= t < n implies #[trigger] joined(parent@, f, gw, t) by {
                    assert(joined(before, f, gw, t));
                    assert(root(parent@, t) == root(before, t));
                    assert(root(parent@, right_of(gw, t)) == root(before, right_of(gw, t)));
                    assert(root(parent@, down_of(gw, t)) == root(before, down_of(gw, t)));
                }
            }
            labels.push(r);
        } else {
            proof {
                lemma_root(parent@, f, gw, j as int);
            }
            labels.push(j);
        }
        j += 1;
    }
    proof {
        assert forall|i: int| 0 <= i < f.len() && f[i] implies connected(f, gw, i, #[trigger] labels@[i] as int) by {
            lemma_root(parent@, f, gw, i);
        }
        assert forall|i: int, j: int|
            #![trigger labels@[i], connected(f, gw, i, j)]
            0 <= i < f.len() && f[i] && connected(f, gw, i, j) implies labels@[i] <= j by {
            let path = choose|p: Seq<int>| #[trigger] is_walk(f, gw, p) && p[0] == i && p.last() == j;
            lemma_walk_roots(parent@, f, gw, path);
            lemma_connected_ends(f, gw, i, j);
            lemma_root(parent@, f, gw, j);
        }
        assert forall|i: int| 0 <= i < f.len() && !f[i] implies labels@[i] == i by {
            lemma_root(parent@, f, gw, i);
        }
        assert forall|i: int, j: int|
            0 <= i < f.len() && f[i] && 0 <= j < f.len() && f[j] implies (#[trigger] labels@[i]
            == #[trigger] labels@[j] <==> connected(f, gw, i, j)) by {
            let li = labels@[i] as int;
            let lj = labels@[j] as int;
            assert(connected(f, gw, i, li));
            assert(connected(f, gw, j, lj));
            if li == lj {
                lemma_connected_sym(f, gw, j, lj);
                lemma_connected_trans(f, gw, i, li, j);
            }
            if connected(f, gw, i, j) {
                lemma_connected_sym(f, gw, i, j);
                lemma_connected_trans(f, gw, i, j, lj);
                lemma_connected_trans(f, gw, j, i, li);
                assert(labels@[i] <= lj);
                assert(labels@[j] <= li);
            }
        }
    }
    labels
}

/// The integer hash that picks a region's gray level from its label and the node seed
/// (the seed's `f32` bit pattern): multiply-xor mixing, all mod 2^32. The gray level is
/// this value divided by `u32::MAX`, scaled into the node's luma range.
pub open spec fn island_hash_of(label: u32, seed_bits: u32) -> u32 {
    let n0 = (((label as int * 374761393int) % 0x1_0000_0000) as u32) ^ (((seed_bits as int
        * 2246822519int) % 0x1_0000_0000) as u32);
    let n1 = (((n0 ^ (n0 >> 13u32)) as int * 1274126177int) % 0x1_0000_0000) as u32;
    n1 ^ (n1 >> 16u32)
}

pub fn island_hash(label: u32, seed_bits: u32) -> (r: u32)
    ensures
        r == island_hash_of(label, seed_bits),
{
    let n0 = label.wrapping_mul(374761393) ^ seed_bits.wrapping_mul(2246822519);
    let n1 = (n0 ^ (n0 >> 13)).wrapping_mul(1274126177);
    n1 ^ (n1 >> 16)
}

} // verus!
