//! Vertices that share a quantized position (UV seams split one point into several
//! vertices): each vertex is mapped to the first vertex at its position, so normals can
//! be averaged across the seam.
use std::collections::HashMap;
use vstd::prelude::*;

verus! {

broadcast use vstd::std_specs::hash::group_hash_axioms;

/// A quantized position as one 96-bit key (each coordinate's 32 bits in turn).
pub open spec fn pack_key(k: (i32, i32, i32)) -> u128 {
    (k.0 as u32 as u128) | ((k.1 as u32 as u128) << 32u128) | ((k.2 as u32 as u128) << 64u128)
}

proof fn lemma_pack_injective(a: (i32, i32, i32), b: (i32, i32, i32))
    requires
        pack_key(a) == pack_key(b),
    ensures
        a == b,
{
    let (a0, a1, a2) = (a.0 as u32, a.1 as u32, a.2 as u32);
    let (b0, b1, b2) = (b.0 as u32, b.1 as u32, b.2 as u32);
    assert(a0 == b0 && a1 == b1 && a2 == b2) by (bit_vector)
        requires
            (a0 as u128 | ((a1 as u128) << 32u128) | ((a2 as u128) << 64u128)) == (b0 as u128 | ((
            b1 as u128) << 32u128) | ((b2 as u128) << 64u128)),
    ;
    let (x0, x1, x2, y0, y1, y2) = (a.0, a.1, a.2, b.0, b.1, b.2);
    assert(x0 == y0 && x1 == y1 && x2 == y2) by (bit_vector)
        requires
            x0 as u32 == y0 as u32,
            x1 as u32 == y1 as u32,
            x2 as u32 == y2 as u32,
    ;
}

fn pack(k: (i32, i32, i32)) -> (r: u128)
    ensures
        r == pack_key(k),
{
    (k.0 as u32 as u128) | ((k.1 as u32 as u128) << 32) | ((k.2 as u32 as u128) << 64)
}

/// `r` is the first index whose key equals that of `i`.
pub open spec fn first_same(keys: Seq<(i32, i32, i32)>, i: int, r: int) -> bool {
    &&& 0 <= r <= i
    &&& keys[r] == keys[i]
    &&& forall|j: int| 0 <= j < r ==> keys[j] != keys[i]
}

/// For each vertex, the first vertex with the same quantized position.
pub fn weld_representatives(keys: &Vec<(i32, i32, i32)>) -> (r: Vec<usize>)
    ensures
        r@.len() == keys@.len(),
        forall|i: int| 0 <= i < keys@.len() ==> first_same(keys@, i, #[trigger] r@[i] as int),
        forall|i: int, j: int|
            0 <= i < keys@.len() && 0 <= j < keys@.len() ==> (#[trigger] r@[i] == #[trigger] r@[j]
                <==> keys@[i] == keys@[j]),
{
    let mut seen: HashMap<u128, usize> = HashMap::new();
    let mut out: Vec<usize> = Vec::new();
    let mut i: usize = 0;
    while i < keys.len()
        invariant
            i <= keys@.len(),
            out@.len() == i,
            forall|t: int| 0 <= t < i ==> first_same(keys@, t, #[trigger] out@[t] as int),
            forall|t: int|
                0 <= t < i ==> #[trigger] seen@.contains_key(pack_key(keys@[t])) && seen@[pack_key(
                    keys@[t],
                )] == out@[t],
            forall|key: u128|
                #[trigger] seen@.contains_key(key) ==> exists|t: int|
                    0 <= t < i && pack_key(keys@[t]) == key,
        decreases keys@.len() - i,
    {
        let k = keys[i];
        let p = pack(k);
        match seen.get(&p) {
            Some(rep_ref) => {
                let rep = *rep_ref;
                proof {
                    let t = choose|t: int| 0 <= t < i && pack_key(keys@[t]) == p;
                    lemma_pack_injective(keys@[t], k);
                    assert(first_same(keys@, t, out@[t] as int));
                    assert forall|j: int| 0 <= j < rep implies keys@[j] != keys@[i as int] by {}
                }
                out.push(rep);
            },
            None => {
                proof {
                    assert forall|j: int| 0 <= j < i implies keys@[j] != keys@[i as int] by {
                        assert(seen@.contains_key(pack_key(keys@[j])));
                    }
                }
                seen.insert(p, i);
                out.push(i);
            },
        }
        proof {
            assert forall|key: u128| #[trigger] seen@.contains_key(key) implies exists|t: int|
                0 <= t < i + 1 && pack_key(keys@[t]) == key by {
                if key != p {
                    let t = choose|t: int| 0 <= t < i && pack_key(keys@[t]) == key;
                    assert(0 <= t < i + 1);
                } else {
                    assert(pack_key(keys@[i as int]) == key);
                }
            }
        }
        i += 1;
    }
    proof {
        assert forall|a: int, b: int|
            0 <= a < keys@.len() && 0 <= b < keys@.len() implies (#[trigger] out@[a]
            == #[trigger] out@[b] <==> keys@[a] == keys@[b]) by {
            assert(first_same(keys@, a, out@[a] as int));
            assert(first_same(keys@, b, out@[b] as int));
            if keys@[a] == keys@[b] {
                if out@[a] < out@[b] {
                    assert(keys@[out@[a] as int] == keys@[b]);
                } else if out@[b] < out@[a] {
                    assert(keys@[out@[b] as int] == keys@[a]);
                }
            }
        }
    }
    out
}

} // verus!
