//! Joint parent tables: every entry is `-1` (a root) or the index of another joint, and
//! following parents from any joint ends at a root.
use vstd::prelude::*;
use crate::store::Handle;

verus! {

/// The joint reached from `i` after `k` parent steps; `-1` once the chain has left the
/// table (reached a root).
pub open spec fn climb(parents: Seq<i32>, i: int, k: nat) -> int
    decreases k,
{
    if k == 0 {
        i
    } else {
        let j = climb(parents, i, (k - 1) as nat);
        if 0 <= j < parents.len() {
            parents[j] as int
        } else {
            -1
        }
    }
}

/// Every entry is `-1` or another joint's index (`n` is the table length as an `i32`).
pub open spec fn parents_in_range(parents: Seq<i32>) -> bool {
    forall|i: int|
        0 <= i < parents.len() ==> {
            let p = #[trigger] parents[i];
            p == -1 || (0 <= p && p < (parents.len() as i32) && p as int != i)
        }
}

/// Following parents from joint `i` reaches a root.
pub open spec fn reaches_root(parents: Seq<i32>, i: int) -> bool {
    exists|k: nat| #[trigger] climb(parents, i, k) == -1
}

/// Following parents from any joint reaches a root.
pub open spec fn rooted(parents: Seq<i32>) -> bool {
    forall|i: int| 0 <= i < parents.len() ==> #[trigger] reaches_root(parents, i)
}

/// Number of unvisited (`0`) marks.
pub open spec fn count_white(c: Seq<u8>) -> nat
    decreases c.len(),
{
    if c.len() == 0 {
        0
    } else {
        count_white(c.drop_last()) + if c.last() == 0 {
            1nat
        } else {
            0nat
        }
    }
}

proof fn lemma_count_white_update(c: Seq<u8>, i: int, v: u8)
    requires
        0 <= i < c.len(),
        c[i] == 0,
        v != 0,
    ensures
        count_white(c.update(i, v)) + 1 == count_white(c),
    decreases c.len(),
{
    let u = c.update(i, v);
    if i == c.len() - 1 {
        assert(u.drop_last() =~= c.drop_last());
    } else {
        lemma_count_white_update(c.drop_last(), i, v);
        assert(u.drop_last() =~= c.drop_last().update(i, v));
    }
}

proof fn lemma_count_white_update_nonwhite(c: Seq<u8>, i: int, v: u8)
    requires
        0 <= i < c.len(),
        c[i] != 0,
        v != 0,
    ensures
        count_white(c.update(i, v)) == count_white(c),
    decreases c.len(),
{
    let u = c.update(i, v);
    if i == c.len() - 1 {
        assert(u.drop_last() =~= c.drop_last());
    } else {
        lemma_count_white_update_nonwhite(c.drop_last(), i, v);
        assert(u.drop_last() =~= c.drop_last().update(i, v));
    }
}

/// One more step from `i` is `k` steps from its parent.
proof fn lemma_climb_shift(parents: Seq<i32>, i: int, k: nat)
    requires
        0 <= i < parents.len(),
    ensures
        climb(parents, i, k + 1) == climb(parents, parents[i] as int, k),
    decreases k,
{
    assert(climb(parents, i, 0) == i);
    if k > 0 {
        lemma_climb_shift(parents, i, (k - 1) as nat);
        assert(climb(parents, i, k) == climb(parents, parents[i] as int, (k - 1) as nat));
    }
}

/// Steps compose.
proof fn lemma_climb_add(parents: Seq<i32>, i: int, a: nat, b: nat)
    ensures
        climb(parents, i, a + b) == climb(parents, climb(parents, i, a), b),
    decreases b,
{
    if b > 0 {
        lemma_climb_add(parents, i, a, (b - 1) as nat);
    }
}

/// Once the chain has left the table it stays out.
proof fn lemma_climb_stays_out(parents: Seq<i32>, i: int, a: nat, b: nat)
    requires
        !(0 <= climb(parents, i, a) < parents.len()),
        a <= b,
    ensures
        !(0 <= climb(parents, i, b) < parents.len()),
    decreases b - a,
{
    if b > a {
        lemma_climb_stays_out(parents, i, a, (b - 1) as nat);
    }
}

/// A chain that comes back to a joint loops forever and never reaches a root.
proof fn lemma_loop_not_rooted(parents: Seq<i32>, i: int, a: nat, b: nat)
    requires
        a < b,
        climb(parents, i, a) == climb(parents, i, b),
        0 <= climb(parents, i, a) < parents.len(),
    ensures
        forall|k: nat| #[trigger] climb(parents, i, k) != -1,
{
    assert forall|k: nat| #[trigger] climb(parents, i, k) != -1 by {
        lemma_loop_inside(parents, i, a, b, k);
    }
}

proof fn lemma_loop_inside(parents: Seq<i32>, i: int, a: nat, b: nat, k: nat)
    requires
        a < b,
        climb(parents, i, a) == climb(parents, i, b),
        0 <= climb(parents, i, a) < parents.len(),
    ensures
        0 <= climb(parents, i, k) < parents.len(),
    decreases k,
{
    if k <= a {
        if !(0 <= climb(parents, i, k) < parents.len()) {
            lemma_climb_stays_out(parents, i, k, a);
        }
    } else if k <= b {
        if !(0 <= climb(parents, i, k) < parents.len()) {
            lemma_climb_stays_out(parents, i, k, b);
        }
    } else {
        let d = (b - a) as nat;
        let k2 = (k - d) as nat;
        lemma_loop_inside(parents, i, a, b, k2);
        // climb(k) = climb(climb(b), k - b) = climb(climb(a), k - b) = climb(k - d)
        lemma_climb_add(parents, i, b, (k - b) as nat);
        lemma_climb_add(parents, i, a, (k - b) as nat);
        assert(k2 == a + (k - b));
    }
}

/// Depth-first walk up the parent chain of `i` (the `d`-th joint on the chain from
/// `start`). Marks: 0 unvisited, 1 on the current chain, 2 finished (known to reach a
/// root). Returns `true` when the walk comes back onto the current chain.
fn dfs_parent(parents: &Vec<i32>, color: &mut Vec<u8>, i: usize, Ghost(start): Ghost<int>, Ghost(d): Ghost<nat>) -> (r: bool)
    requires
        parents_in_range(parents@),
        old(color)@.len() == parents@.len(),
        i < parents@.len(),
        i as int == climb(parents@, start, d),
        forall|j: int|
            0 <= j < parents@.len() ==> (old(color)@[j] == 1 <==> exists|k: nat|
                k < d && #[trigger] climb(parents@, start, k) == j),
        forall|j: int|
            0 <= j < parents@.len() && old(color)@[j] == 2 ==> reaches_root(parents@, j),
        forall|j: int| 0 <= j < parents@.len() ==> old(color)@[j] <= 2,
    ensures
        final(color)@.len() == old(color)@.len(),
        r ==> forall|k: nat| #[trigger] climb(parents@, start, k) != -1,
        !r ==> {
            &&& final(color)@[i as int] == 2
            &&& forall|j: int|
                0 <= j < parents@.len() ==> (#[trigger] final(color)@[j] == 1 <==> old(color)@[j]
                    == 1)
            &&& forall|j: int|
                0 <= j < parents@.len() && old(color)@[j] == 2 ==> final(color)@[j] == 2
            &&& forall|j: int|
                0 <= j < parents@.len() && final(color)@[j] == 2 ==> reaches_root(parents@, j)
            &&& forall|j: int| 0 <= j < parents@.len() ==> final(color)@[j] <= 2
        },
    decreases count_white(old(color)@),
{
    let c = color[i];
    if c == 1 {
        proof {
            let k = choose|k: nat| k < d && #[trigger] climb(parents@, start, k) == i as int;
            lemma_loop_not_rooted(parents@, start, k, d);
        }
        return true;
    }
    if c == 2 {
        return false;
    }
    let ghost before = color@;
    color.set(i, 1);
    proof {
        lemma_count_white_update(before, i as int, 1);
        assert forall|j: int|
            0 <= j < parents@.len() implies (color@[j] == 1 <==> exists|k: nat|
                k < d + 1 && #[trigger] climb(parents@, start, k) == j) by {
            if j == i {
                assert(climb(parents@, start, d) == j);
            } else if color@[j] == 1 {
                let k = choose|k: nat| k < d && #[trigger] climb(parents@, start, k) == j;
                assert(k < d + 1);
            } else if exists|k: nat| k < d + 1 && #[trigger] climb(parents@, start, k) == j {
                let k = choose|k: nat| k < d + 1 && #[trigger] climb(parents@, start, k) == j;
                if k == d {
                    assert(false);
                } else {
                    assert(k < d);
                }
            }
        }
    }
    let p = parents[i];
    if p >= 0 {
        proof {
            assert(parents@[i as int] == p);
            assert(climb(parents@, start, d + 1) == p as int);
        }
        let ghost mid = color@;
        if dfs_parent(parents, color, p as usize, Ghost(start), Ghost(d + 1)) {
            return true;
        }
        proof {
            // the parent is finished, hence reaches a root; so does i
            assert(color@[p as int] == 2);
            assert(reaches_root(parents@, p as int));
            let k = choose|k: nat| #[trigger] climb(parents@, p as int, k) == -1;
            lemma_climb_shift(parents@, i as int, k);
            assert(climb(parents@, i as int, k + 1) == -1);
            assert(color@[i as int] == 1);
        }
    } else {
        proof {
            assert(p == -1);
            assert(climb(parents@, i as int, 0) == i);
            assert(climb(parents@, i as int, 1) == -1);
        }
    }
    let ghost before2 = color@;
    color.set(i, 2);
    proof {
        assert forall|j: int|
            0 <= j < parents@.len() && color@[j] == 2 implies reaches_root(parents@, j) by {
            if j == i {
                if p >= 0 {
                    assert(before2[p as int] == 2);
                    assert(reaches_root(parents@, p as int));
                    let k = choose|k: nat| #[trigger] climb(parents@, p as int, k) == -1;
                    lemma_climb_shift(parents@, i as int, k);
                    assert(climb(parents@, j, k + 1) == -1);
                } else {
                    assert(climb(parents@, j, 0) == j);
                    assert(climb(parents@, j, 1) == -1);
                }
            } else {
                assert(before2[j] == 2);
            }
        }
        assert forall|j: int|
            0 <= j < parents@.len() implies (#[trigger] color@[j] == 1 <==> old(color)@[j]
            == 1) by {
            if j == i {
            } else {
                assert(color@[j] == before2[j]);
            }
        }
    }
    false
}

/// Checks a joint parent table: every entry must be `-1` or another joint's index, and
/// following parents from any joint must reach a root (no cycles).
pub fn check_parents(parents: &Vec<i32>) -> (r: bool)
    requires
        parents@.len() <= i32::MAX,
    ensures
        r <==> parents_in_range(parents@) && rooted(parents@),
{
    let n = parents.len() as i32;
    let mut i: usize = 0;
    while i < parents.len()
        invariant
            i <= parents@.len(),
            n == parents@.len(),
            forall|j: int|
                0 <= j < i ==> {
                    let p = #[trigger] parents@[j];
                    p == -1 || (0 <= p && p < n && p as int != j)
                },
        decreases parents@.len() - i,
    {
        let p = parents[i];
        if p != -1 {
            if p < 0 || p >= n || p == i as i32 {
                proof {
                    assert(!parents_in_range(parents@)) by {
                        assert(parents@[i as int] == p);
                    }
                }
                return false;
            }
        }
        i += 1;
    }
    assert(parents_in_range(parents@));
    let mut color: Vec<u8> = Vec::new();
    let mut k: usize = 0;
    while k < parents.len()
        invariant
            k <= parents@.len(),
            color@.len() == k,
            forall|j: int| 0 <= j < k ==> color@[j] == 0,
        decreases parents@.len() - k,
    {
        color.push(0);
        k += 1;
    }
    let mut i: usize = 0;
    while i < parents.len()
        invariant
            parents_in_range(parents@),
            i <= parents@.len(),
            color@.len() == parents@.len(),
            forall|j: int| 0 <= j < parents@.len() ==> color@[j] != 1 && color@[j] <= 2,
            forall|j: int| 0 <= j < i ==> color@[j] == 2,
            forall|j: int|
                0 <= j < parents@.len() && color@[j] == 2 ==> reaches_root(parents@, j),
        decreases parents@.len() - i,
    {
        proof {
            assert forall|j: int|
                0 <= j < parents@.len() implies (color@[j] == 1 <==> exists|k: nat|
                k < 0 && #[trigger] climb(parents@, i as int, k) == j) by {}
        }
        if dfs_parent(parents, &mut color, i, Ghost(i as int), Ghost(0)) {
            proof {
                assert(!reaches_root(parents@, i as int));
                assert(!rooted(parents@));
            }
            return false;
        }
        i += 1;
    }
    assert(rooted(parents@));
    true
}

/// The last joint among the first `k` whose handle is `p` (same slot and generation), or
/// `-1` when none is.
pub open spec fn last_joint_of<T>(joints: Seq<Handle<T>>, p: Handle<T>, k: int) -> int
    decreases k,
{
    if k <= 0 {
        -1
    } else if joints[k - 1].index == p.index && joints[k - 1].generation == p.generation {
        k - 1
    } else {
        last_joint_of(joints, p, k - 1)
    }
}

/// The parent-table entry of a joint whose node has parent `parent`: the index of the
/// joint that is that parent (the last one, when a handle is listed twice), else `-1`.
pub open spec fn parent_entry<T>(joints: Seq<Handle<T>>, parent: Option<Handle<T>>) -> int {
    match parent {
        Some(p) => last_joint_of(joints, p, joints.len() as int),
        None => -1,
    }
}

proof fn lemma_last_joint_range<T>(joints: Seq<Handle<T>>, p: Handle<T>, k: int)
    requires
        0 <= k <= joints.len(),
    ensures
        -1 <= last_joint_of(joints, p, k) < k,
        k <= 0 ==> last_joint_of(joints, p, k) == -1,
    decreases k,
{
    if k > 0 {
        lemma_last_joint_range(joints, p, k - 1);
    }
}

/// The parent table of a skin's `n` joints, as it is saved: entry `i` is
/// `parent_entry(joints, parents_of[i])`, where `parents_of[i]` is the parent of the node
/// joint `i` names (`None` when it has none or the node is gone), and `-1` past the listed
/// joints.
pub fn parent_indices<T>(joints: &Vec<Handle<T>>, parents_of: &Vec<Option<Handle<T>>>, n: usize) -> (r: Vec<i32>)
    requires
        parents_of@.len() == joints@.len(),
        joints@.len() <= i32::MAX,
    ensures
        r@.len() == n,
        forall|i: int|
            0 <= i < n ==> #[trigger] r@[i] as int == if i < joints@.len() {
                parent_entry(joints@, parents_of@[i])
            } else {
                -1
            },
{
    let mut r: Vec<i32> = Vec::new();
    let mut i: usize = 0;
    while i < n
        invariant
            i <= n,
            r@.len() == i,
            parents_of@.len() == joints@.len(),
            joints@.len() <= i32::MAX,
            forall|k: int|
                0 <= k < i ==> #[trigger] r@[k] as int == if k < joints@.len() {
                    parent_entry(joints@, parents_of@[k])
                } else {
                    -1
                },
        decreases n - i,
    {
        let mut e: i32 = -1;
        if i < joints.len() {
            match parents_of[i] {
                Some(p) => {
                    let mut k: usize = joints.len();
                    let mut found = false;
                    while k > 0 && !found
                        invariant
                            k <= joints@.len(),
                            joints@.len() <= i32::MAX,
                            e == -1 || found,
                            found ==> k > 0 && e as int == k - 1 && last_joint_of(
                                joints@,
                                p,
                                joints@.len() as int,
                            ) == k - 1,
                            !found ==> last_joint_of(joints@, p, k as int) == last_joint_of(
                                joints@,
                                p,
                                joints@.len() as int,
                            ),
                        decreases k + (if found { 0int } else { 1int }),
                    {
                        let h = joints[k - 1];
                        if h.index == p.index && h.generation == p.generation {
                            found = true;
                            e = (k - 1) as i32;
                        } else {
                            k -= 1;
                        }
                    }
                    if !found {
                        proof {
                            lemma_last_joint_range(joints@, p, 0);
                        }
                    }
                },
                None => {},
            }
        }
        r.push(e);
        i += 1;
    }
    r
}

/// The parent links a loaded skin gives its joints' nodes: for each joint `i` with an
/// entry `p >= 0` in the parent table, `(joints[i], joints[p])`, in joint order.
pub fn joint_parent_links<T>(joints: &Vec<Handle<T>>, parents: &Vec<i32>) -> (r: Vec<(Handle<T>, Handle<T>)>)
    requires
        forall|i: int|
            0 <= i < parents@.len() && i < joints@.len() ==> #[trigger] parents@[i] < joints@.len(),
    ensures
        r@.len() == links_of(joints@, parents@, parents@.len() as int).len(),
        forall|k: int|
            0 <= k < r@.len() ==> {
                let (c, q) = #[trigger] links_of(joints@, parents@, parents@.len() as int)[k];
                &&& r@[k].0.index == c.index
                &&& r@[k].0.generation == c.generation
                &&& r@[k].1.index == q.index
                &&& r@[k].1.generation == q.generation
            },
{
    let mut r: Vec<(Handle<T>, Handle<T>)> = Vec::new();
    let mut i: usize = 0;
    while i < parents.len()
        invariant
            i <= parents@.len(),
            forall|i: int|
                0 <= i < parents@.len() && i < joints@.len() ==> #[trigger] parents@[i]
                    < joints@.len(),
            r@.len() == links_of(joints@, parents@, i as int).len(),
            forall|k: int|
                0 <= k < r@.len() ==> {
                    let (c, q) = #[trigger] links_of(joints@, parents@, i as int)[k];
                    &&& r@[k].0.index == c.index
                    &&& r@[k].0.generation == c.generation
                    &&& r@[k].1.index == q.index
                    &&& r@[k].1.generation == q.generation
                },
        decreases parents@.len() - i,
    {
        let p = parents[i];
        if p >= 0 && i < joints.len() {
            let c = joints[i];
            let q = joints[p as usize];
            r.push((c, q));
        }
        i += 1;
    }
    r
}

/// The links for the first `k` parent entries: `(joints[i], joints[parents[i]])` for each
/// `i < k` that names a listed joint and has a parent.
pub open spec fn links_of<T>(joints: Seq<Handle<T>>, parents: Seq<i32>, k: int) -> Seq<(Handle<T>, Handle<T>)>
    decreases k,
{
    if k <= 0 {
        Seq::empty()
    } else {
        let rest = links_of(joints, parents, k - 1);
        let i = k - 1;
        if parents[i] >= 0 && i < joints.len() {
            rest.push((joints[i], joints[parents[i] as int]))
        } else {
            rest
        }
    }
}

proof fn lemma_last_joint_found<T>(joints: Seq<Handle<T>>, p: Handle<T>, k: int)
    requires
        0 <= k <= joints.len(),
    ensures
        last_joint_of(joints, p, k) >= 0 ==> ({
            let j = last_joint_of(joints, p, k);
            joints[j].index == p.index && joints[j].generation == p.generation
        }),
        last_joint_of(joints, p, k) == -1 ==> forall|j: int|
            0 <= j < k ==> !(#[trigger] joints[j].index == p.index && joints[j].generation
                == p.generation),
    decreases k,
{
    if k > 0 {
        lemma_last_joint_found(joints, p, k - 1);
    }
}

/// Saving and loading a skin keeps its hierarchy: the entry saved for a joint whose node
/// has parent `p` is `-1` exactly when `p` is none of the joints, and otherwise the joint
/// that loading links it to is `p` itself (same slot and generation).
pub proof fn law_saved_parent_is_restored<T>(joints: Seq<Handle<T>>, parent: Option<Handle<T>>)
    ensures
        parent is None ==> parent_entry(joints, parent) == -1,
        parent matches Some(p) ==> {
            let e = parent_entry(joints, parent);
            &&& -1 <= e < joints.len()
            &&& e == -1 <==> forall|j: int|
                0 <= j < joints.len() ==> !(#[trigger] joints[j].index == p.index
                    && joints[j].generation == p.generation)
            &&& e >= 0 ==> joints[e].index == p.index && joints[e].generation == p.generation
        },
{
    if let Some(p) = parent {
        lemma_last_joint_range(joints, p, joints.len() as int);
        lemma_last_joint_found(joints, p, joints.len() as int);
    }
}

} // verus!
