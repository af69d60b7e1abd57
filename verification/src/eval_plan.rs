//! Which graph nodes the GPU evaluator runs in one pass, and how: nodes whose texture is
//! already pooled with the current fingerprint are skipped, the output node has no
//! texture, and flood fill, blur and color ramp nodes take their own paths.
use vstd::prelude::*;
use crate::graph::{NodeRecord, NodeRecordView, nodes_view, find_node, first_node, lemma_first_node};
use crate::fingerprint::{fps_view, latest_fp, latest};
use crate::texgen::NodeKind;

verus! {

/// How a node is evaluated.
#[derive(Clone, Copy, Debug, PartialEq, Eq, Structural)]
pub enum EvalStep {
    /// Read the input back, label regions on the CPU, upload the result.
    FloodFill,
    /// Separable blur passes.
    Blur,
    /// Upload the ramp, then dispatch.
    Ramp,
    /// One compute dispatch.
    Dispatch,
}

pub open spec fn step_of(k: NodeKind) -> EvalStep {
    match k {
        NodeKind::FloodFill => EvalStep::FloodFill,
        NodeKind::Blur => EvalStep::Blur,
        NodeKind::ColorRamp => EvalStep::Ramp,
        _ => EvalStep::Dispatch,
    }
}

/// The fingerprint pooled for `id` (the last entry for it), if any.
pub open spec fn pooled_fp(pool: Seq<(Seq<char>, u64)>, id: Seq<char>) -> Option<u64>
    decreases pool.len(),
{
    if pool.len() == 0 {
        None
    } else if pool.last().0 == id {
        Some(pool.last().1)
    } else {
        pooled_fp(pool.drop_last(), id)
    }
}

/// What node `id` needs in this pass: nothing when no node has that id, for the output
/// node, or when its pooled texture has its current fingerprint (0 when none is known).
pub open spec fn step_for(
    nodes: Seq<NodeRecordView>,
    fps: Seq<(Seq<char>, u64)>,
    pool: Seq<(Seq<char>, u64)>,
    id: Seq<char>,
) -> Option<EvalStep> {
    match first_node(nodes, id, 0) {
        None => None,
        Some(k) => if nodes[k].kind == NodeKind::Output {
            None
        } else if pooled_fp(pool, id) == Some(latest_fp(fps, id)) {
            None
        } else {
            Some(step_of(nodes[k].kind))
        },
    }
}

/// The steps of a pass over `order`, in order.
pub open spec fn plan_of(
    nodes: Seq<NodeRecordView>,
    fps: Seq<(Seq<char>, u64)>,
    pool: Seq<(Seq<char>, u64)>,
    order: Seq<Seq<char>>,
) -> Seq<(Seq<char>, EvalStep)>
    decreases order.len(),
{
    if order.len() == 0 {
        Seq::empty()
    } else {
        let rest = plan_of(nodes, fps, pool, order.drop_last());
        match step_for(nodes, fps, pool, order.last()) {
            Some(s) => rest.push((order.last(), s)),
            None => rest,
        }
    }
}

pub open spec fn plan_view(p: Seq<(String, EvalStep)>) -> Seq<(Seq<char>, EvalStep)> {
    p.map_values(|e: (String, EvalStep)| (e.0@, e.1))
}

pub open spec fn ids_of(v: Seq<String>) -> Seq<Seq<char>> {
    v.map_values(|s: String| s@)
}

fn pooled(pool: &Vec<(String, u64)>, id: &String) -> (r: Option<u64>)
    ensures
        r == pooled_fp(fps_view(pool@), id@),
{
    let ghost pv = fps_view(pool@);
    let mut i = pool.len();
    assert(pv.take(i as int) =~= pv);
    while i > 0
        invariant
            i <= pool@.len(),
            pv == fps_view(pool@),
            pooled_fp(pv, id@) == pooled_fp(pv.take(i as int), id@),
        decreases i,
    {
        let ghost t = pv.take(i as int);
        assert(t.drop_last() =~= pv.take(i - 1));
        assert(t.last() == pv[i - 1]);
        if pool[i - 1].0 == *id {
            return Some(pool[i - 1].1);
        }
        i -= 1;
    }
    None
}

/// The nodes a pass evaluates, in `order`, each with how it is evaluated. `fps` are the
/// current output fingerprints (the last entry for an id counts) and `pool` the
/// fingerprints of the textures kept from earlier passes at this resolution.
pub fn eval_plan(
    nodes: &Vec<NodeRecord>,
    fps: &Vec<(String, u64)>,
    pool: &Vec<(String, u64)>,
    order: &Vec<String>,
) -> (r: Vec<(String, EvalStep)>)
    ensures
        plan_view(r@) == plan_of(nodes_view(nodes@), fps_view(fps@), fps_view(pool@), ids_of(order@)),
{
    let ghost nv = nodes_view(nodes@);
    let ghost ov = ids_of(order@);
    let ghost fv = fps_view(fps@);
    let ghost pv = fps_view(pool@);
    let mut out: Vec<(String, EvalStep)> = Vec::new();
    let mut i: usize = 0;
    assert(ov.take(0) =~= Seq::<Seq<char>>::empty());
    assert(plan_view(out@) =~= Seq::<(Seq<char>, EvalStep)>::empty());
    while i < order.len()
        invariant
            i <= order@.len(),
            nv == nodes_view(nodes@),
            ov == ids_of(order@),
            fv == fps_view(fps@),
            pv == fps_view(pool@),
            plan_view(out@) == plan_of(nv, fv, pv, ov.take(i as int)),
        decreases order@.len() - i,
    {
        let id = &order[i];
        let ghost before = plan_view(out@);
        assert(ov.take(i + 1).drop_last() =~= ov.take(i as int));
        assert(ov.take(i + 1).last() == id@);
        match find_node(nodes, id) {
            None => {
                proof {
                    crate::graph::lemma_no_node(nv, id@, 0);
                }
            },
            Some(k) => {
                proof {
                    lemma_first_node(nv, id@, 0, k as int);
                }
                let kind = nodes[k].kind;
                let is_output = match kind {
                    NodeKind::Output => true,
                    _ => false,
                };
                if !is_output {
                    let fp = latest(fps, id);
                    let cached = match pooled(pool, id) {
                        Some(p) => p == fp,
                        None => false,
                    };
                    if !cached {
                        let step = match kind {
                            NodeKind::FloodFill => EvalStep::FloodFill,
                            NodeKind::Blur => EvalStep::Blur,
                            NodeKind::ColorRamp => EvalStep::Ramp,
                            _ => EvalStep::Dispatch,
                        };
                        out.push((id.clone(), step));
                        assert(plan_view(out@) =~= before.push((id@, step)));
                    }
                }
            },
        }
        i += 1;
    }
    assert(ov.take(i as int) =~= ov);
    out
}

/// The pool after a pass: every planned node's texture stored with its fingerprint.
pub open spec fn pooled_after(
    pool: Seq<(Seq<char>, u64)>,
    plan: Seq<(Seq<char>, EvalStep)>,
    fps: Seq<(Seq<char>, u64)>,
) -> Seq<(Seq<char>, u64)> {
    pool + plan.map_values(|e: (Seq<char>, EvalStep)| (e.0, latest_fp(fps, e.0)))
}

proof fn lemma_pooled_concat(p: Seq<(Seq<char>, u64)>, q: Seq<(Seq<char>, u64)>, id: Seq<char>)
    ensures
        pooled_fp(p + q, id) == match pooled_fp(q, id) {
            Some(v) => Some(v),
            None => pooled_fp(p, id),
        },
    decreases q.len(),
{
    if q.len() == 0 {
        assert(p + q =~= p);
    } else {
        assert((p + q).drop_last() =~= p + q.drop_last());
        assert((p + q).last() == q.last());
        lemma_pooled_concat(p, q.drop_last(), id);
    }
}

/// Entries that all carry the current fingerprint of their id.
proof fn lemma_pooled_current(plan: Seq<(Seq<char>, EvalStep)>, fps: Seq<(Seq<char>, u64)>, id: Seq<char>)
    ensures
        ({
            let q = plan.map_values(|e: (Seq<char>, EvalStep)| (e.0, latest_fp(fps, e.0)));
            &&& (exists|k: int| 0 <= k < plan.len() && (#[trigger] plan[k]).0 == id) ==> pooled_fp(q, id)
                == Some(latest_fp(fps, id))
            &&& (forall|k: int| 0 <= k < plan.len() ==> (#[trigger] plan[k]).0 != id) ==> pooled_fp(q, id)
                is None
        }),
    decreases plan.len(),
{
    let f = |e: (Seq<char>, EvalStep)| (e.0, latest_fp(fps, e.0));
    let q = plan.map_values(f);
    if plan.len() > 0 {
        let init = plan.drop_last();
        assert(q.drop_last() =~= init.map_values(f));
        lemma_pooled_current(init, fps, id);
        if plan.last().0 != id {
            if exists|k: int| 0 <= k < plan.len() && (#[trigger] plan[k]).0 == id {
                let k = choose|k: int| 0 <= k < plan.len() && (#[trigger] plan[k]).0 == id;
                assert(init[k] == plan[k]);
            }
            assert forall|k: int| 0 <= k < init.len() && (forall|j: int| 0 <= j < plan.len() ==> (#[trigger] plan[j]).0 != id) implies (#[trigger] init[k]).0 != id by {
                assert(init[k] == plan[k]);
            }
        }
    }
}

/// Every node a pass needs to run shows up in its plan.
proof fn lemma_planned(
    nodes: Seq<NodeRecordView>,
    fps: Seq<(Seq<char>, u64)>,
    pool: Seq<(Seq<char>, u64)>,
    order: Seq<Seq<char>>,
    i: int,
)
    requires
        0 <= i < order.len(),
        step_for(nodes, fps, pool, order[i]) is Some,
    ensures
        exists|k: int|
            0 <= k < plan_of(nodes, fps, pool, order).len() && (#[trigger] plan_of(
                nodes,
                fps,
                pool,
                order,
            )[k]).0 == order[i],
    decreases order.len(),
{
    let rest = plan_of(nodes, fps, pool, order.drop_last());
    let all = plan_of(nodes, fps, pool, order);
    if i == order.len() - 1 {
        assert(all[rest.len() as int].0 == order[i]);
    } else {
        assert(order.drop_last()[i] == order[i]);
        lemma_planned(nodes, fps, pool, order.drop_last(), i);
        let k = choose|k: int| 0 <= k < rest.len() && (#[trigger] rest[k]).0 == order[i];
        assert(all[k] == rest[k]);
    }
}

proof fn lemma_replan_prefix(
    nodes: Seq<NodeRecordView>,
    fps: Seq<(Seq<char>, u64)>,
    pool: Seq<(Seq<char>, u64)>,
    order: Seq<Seq<char>>,
    n: int,
)
    requires
        0 <= n <= order.len(),
    ensures
        plan_of(
            nodes,
            fps,
            pooled_after(pool, plan_of(nodes, fps, pool, order), fps),
            order.take(n),
        ).len() == 0,
    decreases n,
{
    let plan = plan_of(nodes, fps, pool, order);
    let pool2 = pooled_after(pool, plan, fps);
    let f = |e: (Seq<char>, EvalStep)| (e.0, latest_fp(fps, e.0));
    if n > 0 {
        assert(order.take(n).drop_last() =~= order.take(n - 1));
        lemma_replan_prefix(nodes, fps, pool, order, n - 1);
        let x = order[n - 1];
        assert(order.take(n).last() == x);
        lemma_pooled_concat(pool, plan.map_values(f), x);
        lemma_pooled_current(plan, fps, x);
        if step_for(nodes, fps, pool, x) is Some {
            lemma_planned(nodes, fps, pool, order, n - 1);
        }
        assert(step_for(nodes, fps, pool2, x) is None);
    }
}

/// Pooling what a pass ran makes the next pass over the same order run nothing, as long
/// as the graph and its fingerprints are unchanged.
pub proof fn law_second_pass_runs_nothing(
    nodes: Seq<NodeRecordView>,
    fps: Seq<(Seq<char>, u64)>,
    pool: Seq<(Seq<char>, u64)>,
    order: Seq<Seq<char>>,
)
    ensures
        plan_of(nodes, fps, pooled_after(pool, plan_of(nodes, fps, pool, order), fps), order)
            == Seq::<(Seq<char>, EvalStep)>::empty(),
{
    lemma_replan_prefix(nodes, fps, pool, order, order.len() as int);
    assert(order.take(order.len() as int) =~= order);
    let p = plan_of(nodes, fps, pooled_after(pool, plan_of(nodes, fps, pool, order), fps), order);
    assert(p =~= Seq::<(Seq<char>, EvalStep)>::empty());
}

/// A pass runs exactly the stale nodes of its order: every planned entry is an id of the
/// order naming a node (the first with that id) that is not the output node and whose
/// pooled texture does not carry its current fingerprint, evaluated by the path of its
/// kind (flood fill read back and labelled, blur in separable passes, color ramp uploaded
/// first, anything else one dispatch); and every such id of the order is planned.
pub proof fn law_plan_runs_stale_nodes(
    nodes: Seq<NodeRecordView>,
    fps: Seq<(Seq<char>, u64)>,
    pool: Seq<(Seq<char>, u64)>,
    order: Seq<Seq<char>>,
)
    ensures
        forall|k: int|
            0 <= k < plan_of(nodes, fps, pool, order).len() ==> {
                let e = #[trigger] plan_of(nodes, fps, pool, order)[k];
                &&& order.contains(e.0)
                &&& first_node(nodes, e.0, 0) matches Some(j) && {
                    let kd = nodes[j].kind;
                    &&& kd != NodeKind::Output
                    &&& pooled_fp(pool, e.0) != Some(latest_fp(fps, e.0))
                    &&& e.1 == (if kd == NodeKind::FloodFill {
                        EvalStep::FloodFill
                    } else if kd == NodeKind::Blur {
                        EvalStep::Blur
                    } else if kd == NodeKind::ColorRamp {
                        EvalStep::Ramp
                    } else {
                        EvalStep::Dispatch
                    })
                }
            },
        forall|i: int|
            0 <= i < order.len() && (first_node(nodes, #[trigger] order[i], 0) matches Some(j) && nodes[j].kind
                != NodeKind::Output && pooled_fp(pool, order[i]) != Some(latest_fp(fps, order[i])))
                ==> exists|k: int|
                0 <= k < plan_of(nodes, fps, pool, order).len() && (#[trigger] plan_of(
                    nodes,
                    fps,
                    pool,
                    order,
                )[k]).0 == order[i],
    decreases order.len(),
{
    if order.len() > 0 {
        let d = order.drop_last();
        law_plan_runs_stale_nodes(nodes, fps, pool, d);
        let rest = plan_of(nodes, fps, pool, d);
        let all = plan_of(nodes, fps, pool, order);
        assert forall|k: int| 0 <= k < all.len() implies {
            let e = #[trigger] all[k];
            &&& order.contains(e.0)
            &&& first_node(nodes, e.0, 0) matches Some(j) && {
                let kd = nodes[j].kind;
                &&& kd != NodeKind::Output
                &&& pooled_fp(pool, e.0) != Some(latest_fp(fps, e.0))
                &&& e.1 == (if kd == NodeKind::FloodFill {
                    EvalStep::FloodFill
                } else if kd == NodeKind::Blur {
                    EvalStep::Blur
                } else if kd == NodeKind::ColorRamp {
                    EvalStep::Ramp
                } else {
                    EvalStep::Dispatch
                })
            }
        } by {
            if k < rest.len() {
                assert(all[k] == rest[k]);
                let x = rest[k].0;
                assert(d.contains(x));
                let m = choose|m: int| 0 <= m < d.len() && d[m] == x;
                assert(order[m] == x);
            } else {
                assert(all[k].0 == order.last());
                assert(order[order.len() - 1] == order.last());
            }
        }
        assert forall|i: int|
            0 <= i < order.len() && (first_node(nodes, #[trigger] order[i], 0) matches Some(j)
                && nodes[j].kind != NodeKind::Output && pooled_fp(pool, order[i]) != Some(
                latest_fp(fps, order[i]),
            )) implies exists|k: int| 0 <= k < all.len() && (#[trigger] all[k]).0 == order[i] by {
            if i < d.len() {
                assert(d[i] == order[i]);
                let k = choose|k: int| 0 <= k < rest.len() && (#[trigger] rest[k]).0 == d[i];
                assert(all[k] == rest[k]);
            } else {
                assert(order[i] == order.last());
                assert(all[rest.len() as int].0 == order[i]);
            }
        }
    }
}

} // verus!
