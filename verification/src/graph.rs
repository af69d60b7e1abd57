//! The procedural texture graph: nodes (kind, id, raw parameter fields), links between
//! node ports, the output node; lookup of the link feeding a port, the set of nodes
//! upstream of a node, and an evaluation order.
use vstd::prelude::*;
use vstd::string::StringExecFns;
use crate::texgen::NodeKind;
use crate::texg_file::TexGraphBytesError;

verus! {

/// Directed edge from an output port of one node to an input port of another.
pub struct TexLink {
    pub from_node: String,
    pub from_port: String,
    pub to_node: String,
    pub to_port: String,
}

pub struct TexLinkView {
    pub from_node: Seq<char>,
    pub from_port: Seq<char>,
    pub to_node: Seq<char>,
    pub to_port: Seq<char>,
}

impl TexLink {
    pub open spec fn view(&self) -> TexLinkView {
        TexLinkView {
            from_node: self.from_node@,
            from_port: self.from_port@,
            to_node: self.to_node@,
            to_port: self.to_port@,
        }
    }

    pub fn new(from_node: &str, from_port: &str, to_node: &str, to_port: &str) -> (r: TexLink)
        ensures
            r.view() == (TexLinkView {
                from_node: from_node@,
                from_port: from_port@,
                to_node: to_node@,
                to_port: to_port@,
            }),
    {
        TexLink {
            from_node: from_node.to_owned(),
            from_port: from_port.to_owned(),
            to_node: to_node.to_owned(),
            to_port: to_port.to_owned(),
        }
    }

    pub fn clone_link(&self) -> (r: TexLink)
        ensures
            r.view() == self.view(),
    {
        TexLink {
            from_node: self.from_node.clone(),
            from_port: self.from_port.clone(),
            to_node: self.to_node.clone(),
            to_port: self.to_port.clone(),
        }
    }
}

/// The links as plain values.
pub open spec fn links_view(links: Seq<TexLink>) -> Seq<TexLinkView> {
    links.map_values(|l: TexLink| l.view())
}

/// Text equality of two string slices.
pub fn str_eq(a: &str, b: &str) -> (r: bool)
    ensures
        r == (a@ == b@),
{
    let x = a.to_owned();
    let y = b.to_owned();
    x == y
}

/// Link `l` feeds port `port` of node `node`.
pub open spec fn feeds(l: TexLinkView, node: Seq<char>, port: Seq<char>) -> bool {
    l.to_node == node && l.to_port == port
}

/// The first link feeding the given port, if any.
pub fn find_link<'a>(links: &'a [TexLink], to_node: &str, to_port: &str) -> (r: Option<
    &'a TexLink,
>)
    ensures
        match r {
            Some(l) => exists|i: int|
                0 <= i < links@.len() && links@[i] == *l && feeds(
                    links@[i].view(),
                    to_node@,
                    to_port@,
                ) && forall|j: int|
                    0 <= j < i ==> !feeds(#[trigger] links@[j].view(), to_node@, to_port@),
            None => forall|j: int|
                0 <= j < links@.len() ==> !feeds(#[trigger] links@[j].view(), to_node@, to_port@),
        },
{
    let mut i: usize = 0;
    while i < links.len()
        invariant
            i <= links@.len(),
            forall|j: int| 0 <= j < i ==> !feeds(#[trigger] links@[j].view(), to_node@, to_port@),
        decreases links@.len() - i,
    {
        let l = &links[i];
        if str_eq(l.to_node.as_str(), to_node) && str_eq(l.to_port.as_str(), to_port) {
            return Some(l);
        }
        i += 1;
    }
    None
}

/// `x` is `root`, or feeds, through at most `n` links, a node upstream of `root`.
pub open spec fn upstream_within(links: Seq<TexLinkView>, root: Seq<char>, x: Seq<char>, n: nat) -> bool
    decreases n,
{
    x == root || (n > 0 && exists|j: int|
        0 <= j < links.len() && (#[trigger] links[j]).from_node == x && upstream_within(
            links,
            root,
            links[j].to_node,
            (n - 1) as nat,
        ))
}

/// `x` is `root` or feeds, through a chain of links, into `root`.
pub open spec fn upstream(links: Seq<TexLinkView>, root: Seq<char>, x: Seq<char>) -> bool {
    exists|n: nat| upstream_within(links, root, x, n)
}

/// Every link into a member of `s` comes from a member of `s`.
pub open spec fn closed_upstream(links: Seq<TexLinkView>, s: Seq<Seq<char>>) -> bool {
    forall|j: int|
        0 <= j < links.len() && s.contains(#[trigger] links[j].to_node) ==> s.contains(
            links[j].from_node,
        )
}

proof fn lemma_closed_contains_upstream(
    links: Seq<TexLinkView>,
    root: Seq<char>,
    s: Seq<Seq<char>>,
    x: Seq<char>,
    n: nat,
)
    requires
        closed_upstream(links, s),
        s.contains(root),
        upstream_within(links, root, x, n),
    ensures
        s.contains(x),
    decreases n,
{
    if x != root {
        let j = choose|j: int|
            0 <= j < links.len() && (#[trigger] links[j]).from_node == x && upstream_within(
                links,
                root,
                links[j].to_node,
                (n - 1) as nat,
            );
        lemma_closed_contains_upstream(links, root, s, links[j].to_node, (n - 1) as nat);
    }
}

proof fn lemma_upstream_step(links: Seq<TexLinkView>, root: Seq<char>, j: int)
    requires
        0 <= j < links.len(),
        upstream(links, root, links[j].to_node),
    ensures
        upstream(links, root, links[j].from_node),
{
    let n = choose|n: nat| upstream_within(links, root, links[j].to_node, n);
    assert(upstream_within(links, root, links[j].from_node, n + 1));
}

/// The ids of a string vector as text.
pub open spec fn ids_view(v: Seq<String>) -> Seq<Seq<char>> {
    v.map_values(|s: String| s@)
}

fn contains_id(v: &Vec<String>, x: &String) -> (r: bool)
    ensures
        r == ids_view(v@).contains(x@),
{
    let mut i: usize = 0;
    while i < v.len()
        invariant
            i <= v@.len(),
            forall|j: int| 0 <= j < i ==> v@[j]@ != x@,
        decreases v@.len() - i,
    {
        if v[i] == *x {
            assert(ids_view(v@)[i as int] == x@);
            return true;
        }
        i += 1;
    }
    proof {
        if ids_view(v@).contains(x@) {
            let k = choose|k: int| 0 <= k < ids_view(v@).len() && ids_view(v@)[k] == x@;
            assert(v@[k]@ == x@);
        }
    }
    false
}

/// Candidate ids of an upstream walk: the root and every link source.
pub open spec fn walk_candidates(links: Seq<TexLinkView>, root: Seq<char>) -> Seq<Seq<char>> {
    seq![root] + links.map_values(|l: TexLinkView| l.from_node)
}

pub proof fn lemma_bound_by_candidates(s: Seq<Seq<char>>, c: Seq<Seq<char>>)
    requires
        s.no_duplicates(),
        forall|i: int| 0 <= i < s.len() ==> c.contains(#[trigger] s[i]),
    ensures
        s.len() <= c.len(),
{
    s.unique_seq_to_set();
    c.lemma_cardinality_of_set();
    assert(s.to_set().subset_of(c.to_set())) by {
        assert forall|x: Seq<char>| s.to_set().contains(x) implies c.to_set().contains(x) by {
            let i = choose|i: int| 0 <= i < s.len() && s[i] == x;
            assert(c.contains(s[i]));
        }
    }
    vstd::set_lib::lemma_len_subset(s.to_set(), c.to_set());
}

/// The ids of `root` and of every node upstream of it, each once.
pub fn ancestors_of(links: &[TexLink], root: &str) -> (r: Vec<String>)
    ensures
        ids_view(r@).no_duplicates(),
        forall|x: Seq<char>|
            ids_view(r@).contains(x) <==> upstream(links_view(links@), root@, x),
{
    let ghost lv = links_view(links@);
    let ghost cands = walk_candidates(lv, root@);
    let mut needed: Vec<String> = Vec::new();
    let mut stack: Vec<String> = Vec::new();
    stack.push(root.to_owned());
    proof {
        assert(upstream_within(lv, root@, root@, 0));
        assert(cands[0] == root@);
        assert(ids_view(stack@) =~= seq![root@]);
    }
    while stack.len() > 0
        invariant
            lv == links_view(links@),
            cands == walk_candidates(lv, root@),
            ids_view(needed@).no_duplicates(),
            forall|i: int| 0 <= i < needed@.len() ==> cands.contains(#[trigger] needed@[i]@),
            forall|i: int| 0 <= i < stack@.len() ==> cands.contains(#[trigger] stack@[i]@),
            forall|i: int|
                0 <= i < needed@.len() ==> upstream(lv, root@, #[trigger] needed@[i]@),
            forall|i: int| 0 <= i < stack@.len() ==> upstream(lv, root@, #[trigger] stack@[i]@),
            ids_view(needed@).contains(root@) || ids_view(stack@).contains(root@),
            forall|j: int|
                0 <= j < lv.len() && ids_view(needed@).contains(#[trigger] lv[j].to_node) ==> (
                ids_view(needed@).contains(lv[j].from_node) || ids_view(stack@).contains(
                    lv[j].from_node,
                )),
        decreases cands.len() - needed@.len(), stack@.len(),
    {
        let ghost old_stack = stack@;
        let ghost old_needed = needed@;
        let id = stack.pop().unwrap();
        proof {
            assert(old_stack == stack@.push(id));
            assert(ids_view(old_stack) =~= ids_view(stack@).push(id@));
        }
        if contains_id(&needed, &id) {
            assert forall|j: int|
                0 <= j < lv.len() && ids_view(needed@).contains(#[trigger] lv[j].to_node) implies (
            ids_view(needed@).contains(lv[j].from_node) || ids_view(stack@).contains(
                lv[j].from_node,
            )) by {
                if ids_view(old_stack).contains(lv[j].from_node) && !ids_view(
                    stack@,
                ).contains(lv[j].from_node) {
                    let k = choose|k: int|
                        0 <= k < ids_view(old_stack).len() && ids_view(old_stack)[k]
                            == lv[j].from_node;
                    if k < stack@.len() {
                        assert(ids_view(stack@)[k] == lv[j].from_node);
                    }
                }
            }
            assert(ids_view(needed@).contains(root@) || ids_view(stack@).contains(root@)) by {
                if ids_view(old_stack).contains(root@) && !ids_view(stack@).contains(root@) {
                    let k = choose|k: int|
                        0 <= k < ids_view(old_stack).len() && ids_view(old_stack)[k] == root@;
                    if k < stack@.len() {
                        assert(ids_view(stack@)[k] == root@);
                    }
                }
            }
            continue ;
        }
        assert(stack@.len() + 1 == old_stack.len());
        assert(cands.contains(old_stack[old_stack.len() - 1]@));
        assert(upstream(lv, root@, old_stack[old_stack.len() - 1]@));
        needed.push(id.clone());
        proof {
            assert(ids_view(needed@) =~= ids_view(old_needed).push(id@));
            assert(ids_view(needed@)[needed@.len() - 1] == id@);
            assert(forall|i: int|
                0 <= i < needed@.len() ==> cands.contains(#[trigger] needed@[i]@));
            lemma_bound_by_candidates(ids_view(needed@), cands);
        }
        let ghost mid_stack = stack@;
        let mut j: usize = 0;
        while j < links.len()
            invariant
                lv == links_view(links@),
                j <= links@.len(),
                ids_view(needed@).contains(id@),
                upstream(lv, root@, id@),
                cands == walk_candidates(lv, root@),
                stack@.len() >= mid_stack.len(),
                forall|i: int| 0 <= i < mid_stack.len() ==> stack@[i] == mid_stack[i],
                forall|i: int| 0 <= i < stack@.len() ==> cands.contains(#[trigger] stack@[i]@),
                forall|i: int|
                    0 <= i < stack@.len() ==> upstream(lv, root@, #[trigger] stack@[i]@),
                forall|k: int|
                    0 <= k < j && #[trigger] lv[k].to_node == id@ ==> ids_view(stack@).contains(
                        lv[k].from_node,
                    ),
            decreases links@.len() - j,
        {
            if links[j].to_node == id {
                let ghost before = stack@;
                stack.push(links[j].from_node.clone());
                proof {
                    assert(lv[j as int].to_node == id@);
                    lemma_upstream_step(lv, root@, j as int);
                    let cm = lv.map_values(|l: TexLinkView| l.from_node);
                    assert(cands[j + 1] == cm[j as int]);
                    assert(cands.contains(lv[j as int].from_node));
                    assert(ids_view(stack@) =~= ids_view(before).push(lv[j as int].from_node));
                    assert forall|k: int|
                        0 <= k < j && #[trigger] lv[k].to_node == id@ implies ids_view(
                        stack@,
                    ).contains(lv[k].from_node) by {
                        let w = choose|w: int|
                            0 <= w < ids_view(before).len() && ids_view(before)[w]
                                == lv[k].from_node;
                        assert(ids_view(stack@)[w] == lv[k].from_node);
                    }
                    assert(ids_view(stack@)[stack@.len() - 1] == lv[j as int].from_node);
                }
            }
            j += 1;
        }
        proof {
            assert forall|k: int|
                0 <= k < lv.len() && ids_view(needed@).contains(#[trigger] lv[k].to_node) implies (
            ids_view(needed@).contains(lv[k].from_node) || ids_view(stack@).contains(
                lv[k].from_node,
            )) by {
                if lv[k].to_node != id@ {
                    let w = choose|w: int|
                        0 <= w < ids_view(needed@).len() && ids_view(needed@)[w] == lv[k].to_node;
                    if w < old_needed.len() {
                        assert(ids_view(old_needed)[w] == lv[k].to_node);
                        assert(ids_view(old_needed).contains(lv[k].to_node));
                    }
                    if ids_view(old_needed).contains(lv[k].from_node) {
                        let u = choose|u: int|
                            0 <= u < ids_view(old_needed).len() && ids_view(old_needed)[u]
                                == lv[k].from_node;
                        assert(ids_view(needed@)[u] == lv[k].from_node);
                    } else if lv[k].from_node == id@ {
                    } else {
                        assert(ids_view(old_stack).contains(lv[k].from_node));
                        let u = choose|u: int|
                            0 <= u < ids_view(old_stack).len() && ids_view(old_stack)[u]
                                == lv[k].from_node;
                        assert(u < mid_stack.len());
                        assert(stack@[u] == mid_stack[u]);
                        assert(ids_view(stack@)[u] == lv[k].from_node);
                    }
                }
            }
            assert(ids_view(needed@).contains(root@) || ids_view(stack@).contains(root@)) by {
                if ids_view(old_needed).contains(root@) {
                    let u = choose|u: int|
                        0 <= u < ids_view(old_needed).len() && ids_view(old_needed)[u] == root@;
                    assert(ids_view(needed@)[u] == root@);
                } else if id@ == root@ {
                } else {
                    let u = choose|u: int|
                        0 <= u < ids_view(old_stack).len() && ids_view(old_stack)[u] == root@;
                    assert(u < mid_stack.len());
                    assert(ids_view(stack@)[u] == root@);
                }
            }
            assert(ids_view(needed@).len() == needed@.len());
        }
    }
    proof {
        assert(ids_view(stack@) =~= Seq::<Seq<char>>::empty());
        assert forall|x: Seq<char>| ids_view(needed@).contains(x) <==> upstream(lv, root@, x) by {
            if ids_view(needed@).contains(x) {
                let k = choose|k: int| 0 <= k < ids_view(needed@).len() && ids_view(needed@)[k] == x;
                assert(upstream(lv, root@, needed@[k]@));
            }
            if upstream(lv, root@, x) {
                let n = choose|n: nat| upstream_within(lv, root@, x, n);
                lemma_closed_contains_upstream(lv, root@, ids_view(needed@), x, n);
            }
        }
    }
    needed
}

/// One node of the graph: kind, id, and its parameters as raw fields (`f32` bit
/// patterns, `i32`s, one-byte enum codes and flags). `colors` holds the color-ramp stops
/// (5 words each: position, RGBA); `opacities` the opacity stops (2 words each: position,
/// alpha).
pub struct NodeRecord {
    pub kind: NodeKind,
    pub id: String,
    pub head: Vec<u32>,
    pub colors: Vec<u32>,
    pub opacities: Vec<u32>,
    pub tail: Vec<u32>,
}

pub struct NodeRecordView {
    pub kind: NodeKind,
    pub id: Seq<char>,
    pub head: Seq<u32>,
    pub colors: Seq<u32>,
    pub opacities: Seq<u32>,
    pub tail: Seq<u32>,
}

impl NodeRecord {
    pub open spec fn view(&self) -> NodeRecordView {
        NodeRecordView {
            kind: self.kind,
            id: self.id@,
            head: self.head@,
            colors: self.colors@,
            opacities: self.opacities@,
            tail: self.tail@,
        }
    }
}

pub open spec fn nodes_view(nodes: Seq<NodeRecord>) -> Seq<NodeRecordView> {
    nodes.map_values(|n: NodeRecord| n.view())
}

/// Nodes, links and the id of the output node; `next` is the serial of the next node id.
pub struct TexGraph {
    pub nodes: Vec<NodeRecord>,
    pub links: Vec<TexLink>,
    pub output_id: String,
    pub next: u64,
}

pub struct TexGraphView {
    pub nodes: Seq<NodeRecordView>,
    pub links: Seq<TexLinkView>,
    pub output_id: Seq<char>,
    pub next: u64,
}

/// Some node carries the id `id`.
pub open spec fn has_node(nodes: Seq<NodeRecordView>, id: Seq<char>) -> bool {
    exists|k: int| 0 <= k < nodes.len() && (#[trigger] nodes[k]).id == id
}

/// The links left when port `to_port` of `to_node` is cleared.
pub open spec fn unfed(links: Seq<TexLinkView>, to_node: Seq<char>, to_port: Seq<char>) -> Seq<
    TexLinkView,
> {
    links.filter(|l: TexLinkView| !feeds(l, to_node, to_port))
}

impl TexGraph {
    pub open spec fn view(&self) -> TexGraphView {
        TexGraphView {
            nodes: nodes_view(self.nodes@),
            links: links_view(self.links@),
            output_id: self.output_id@,
            next: self.next,
        }
    }

    /// Rebuilds a graph read back from bytes; it must hold its output node.
    pub fn from_decoded(nodes: Vec<NodeRecord>, links: Vec<TexLink>, output_id: String, next: u64) -> (r:
        Result<TexGraph, TexGraphBytesError>)
        ensures
            has_node(nodes_view(nodes@), output_id@) ==> (r matches Ok(g) && g.view() == (
            TexGraphView {
                nodes: nodes_view(nodes@),
                links: links_view(links@),
                output_id: output_id@,
                next,
            })),
            !has_node(nodes_view(nodes@), output_id@) ==> (r matches Err(e) && e
                == TexGraphBytesError::NoOutput),
    {
        match find_node(&nodes, &output_id) {
            Some(k) => {
                assert(nodes_view(nodes@)[k as int].id == output_id@);
                Ok(TexGraph { nodes, links, output_id, next })
            },
            None => Err(TexGraphBytesError::NoOutput),
        }
    }

    /// The serial the next added node's id gets.
    pub fn next_serial(&self) -> (r: u64)
        ensures
            r == self.next,
    {
        self.next
    }

    /// The output node.
    pub fn output(&self) -> (r: Option<&NodeRecord>)
        ensures
            match r {
                Some(n) => exists|k: int|
                    0 <= k < self.nodes@.len() && self.nodes@[k] == *n && n.id@ == self.output_id@,
                None => !has_node(nodes_view(self.nodes@), self.output_id@),
            },
    {
        match find_node(&self.nodes, &self.output_id) {
            Some(k) => Some(&self.nodes[k]),
            None => None,
        }
    }

    /// Feeds port `to_port` of `to` from port `from_port` of `from`, replacing whatever
    /// fed that port before.
    pub fn connect(&mut self, from: &str, from_port: &str, to: &str, to_port: &str)
        ensures
            links_view(final(self).links@) == unfed(links_view(old(self).links@), to@, to_port@).push(
                TexLinkView { from_node: from@, from_port: from_port@, to_node: to@, to_port: to_port@ },
            ),
            nodes_view(final(self).nodes@) == nodes_view(old(self).nodes@),
            final(self).output_id@ == old(self).output_id@,
            final(self).next == old(self).next,
    {
        let ghost old_links = links_view(self.links@);
        let mut kept: Vec<TexLink> = Vec::new();
        let mut i: usize = 0;
        while i < self.links.len()
            invariant
                i <= self.links@.len(),
                old_links == links_view(self.links@),
                links_view(kept@) == unfed(old_links.take(i as int), to@, to_port@),
            decreases self.links@.len() - i,
        {
            let keep = !(str_eq(self.links[i].to_node.as_str(), to) && str_eq(
                self.links[i].to_port.as_str(),
                to_port,
            ));
            let ghost before = links_view(kept@);
            proof {
                assert(old_links.take(i + 1) =~= old_links.take(i as int).push(old_links[i as int]));
                old_links.take(i as int).lemma_filter_push(
                    old_links[i as int],
                    |l: TexLinkView| !feeds(l, to@, to_port@),
                );
            }
            if keep {
                kept.push(self.links[i].clone_link());
                assert(links_view(kept@) =~= before.push(old_links[i as int]));
            }
            i += 1;
        }
        assert(old_links.take(self.links@.len() as int) =~= old_links);
        let ghost k0 = links_view(kept@);
        kept.push(TexLink::new(from, from_port, to, to_port));
        assert(links_view(kept@) =~= k0.push(
            TexLinkView { from_node: from@, from_port: from_port@, to_node: to@, to_port: to_port@ },
        ));
        self.links = kept;
    }
}

/// The index of the first node with id `id`.
pub fn find_node(nodes: &Vec<NodeRecord>, id: &String) -> (r: Option<usize>)
    ensures
        match r {
            Some(k) => k < nodes@.len() && nodes@[k as int].id@ == id@ && forall|j: int|
                0 <= j < k ==> (#[trigger] nodes@[j]).id@ != id@,
            None => !has_node(nodes_view(nodes@), id@),
        },
{
    let mut k: usize = 0;
    while k < nodes.len()
        invariant
            k <= nodes@.len(),
            forall|j: int| 0 <= j < k ==> (#[trigger] nodes@[j]).id@ != id@,
        decreases nodes@.len() - k,
    {
        if nodes[k].id == *id {
            return Some(k);
        }
        k += 1;
    }
    proof {
        if has_node(nodes_view(nodes@), id@) {
            let k = choose|k: int|
                0 <= k < nodes_view(nodes@).len() && (#[trigger] nodes_view(nodes@)[k]).id == id@;
            assert(nodes@[k].id@ == id@);
        }
    }
    None
}

/// After a port is connected, exactly one link feeds it, the new one, and every link
/// into another port is kept, in order.
pub proof fn law_connect_single_feed(
    links: Seq<TexLinkView>,
    from: Seq<char>,
    from_port: Seq<char>,
    to: Seq<char>,
    to_port: Seq<char>,
)
    ensures
        ({
            let after = unfed(links, to, to_port).push(
                TexLinkView { from_node: from, from_port: from_port, to_node: to, to_port: to_port },
            );
            &&& feeds(after[after.len() - 1], to, to_port)
            &&& after[after.len() - 1].from_node == from
            &&& after[after.len() - 1].from_port == from_port
            &&& forall|j: int| 0 <= j < after.len() - 1 ==> !feeds(#[trigger] after[j], to, to_port)
            &&& unfed(after, to, to_port) == unfed(links, to, to_port)
        }),
{
    let p = |l: TexLinkView| !feeds(l, to, to_port);
    let kept = links.filter(p);
    broadcast use vstd::seq_lib::group_filter_ensures;
    let nl = TexLinkView { from_node: from, from_port: from_port, to_node: to, to_port: to_port };
    kept.lemma_filter_push(nl, p);
    assert forall|j: int| 0 <= j < kept.len() implies #[trigger] kept.filter(p)[j] == kept[j] by {
        lemma_filter_all(kept, p);
    }
    lemma_filter_all(kept, p);
    assert(kept.push(nl)[kept.len() as int] == nl);
    assert forall|j: int| 0 <= j < kept.push(nl).len() - 1 implies !feeds(
        #[trigger] kept.push(nl)[j],
        to,
        to_port,
    ) by {
        assert(kept.push(nl)[j] == kept[j]);
        assert(p(kept[j]));
    }
}

proof fn lemma_filter_all(s: Seq<TexLinkView>, p: spec_fn(TexLinkView) -> bool)
    requires
        forall|j: int| 0 <= j < s.len() ==> p(#[trigger] s[j]),
    ensures
        s.filter(p) == s,
    decreases s.len(),
{
    if s.len() > 0 {
        let d = s.drop_last();
        lemma_filter_all(d, p);
        d.lemma_filter_push(s.last(), p);
        assert(d.push(s.last()) =~= s);
    } else {
        reveal(Seq::filter);
    }
}

/// The node feeding port `port` of node `to`, if any.
pub fn src_id(links: &[TexLink], to: &str, port: &str) -> (r: Option<String>)
    ensures
        match r {
            Some(id) => exists|i: int|
                0 <= i < links@.len() && feeds(links@[i].view(), to@, port@) && id@
                    == links@[i].from_node@ && forall|j: int|
                    0 <= j < i ==> !feeds(#[trigger] links@[j].view(), to@, port@),
            None => forall|j: int|
                0 <= j < links@.len() ==> !feeds(#[trigger] links@[j].view(), to@, port@),
        },
{
    match find_link(links, to, port) {
        Some(l) => Some(l.from_node.clone()),
        None => None,
    }
}

/// Index of the first link from `i` on feeding port `port` of `node`.
pub open spec fn first_feed(links: Seq<TexLinkView>, node: Seq<char>, port: Seq<char>, i: int) -> Option<
    int,
>
    decreases links.len() - i,
{
    if i < 0 || i >= links.len() {
        None
    } else if feeds(links[i], node, port) {
        Some(i)
    } else {
        first_feed(links, node, port, i + 1)
    }
}

/// Index of the first node from `k` on with id `id`.
pub open spec fn first_node(nodes: Seq<NodeRecordView>, id: Seq<char>, k: int) -> Option<int>
    decreases nodes.len() - k,
{
    if k < 0 || k >= nodes.len() {
        None
    } else if nodes[k].id == id {
        Some(k)
    } else {
        first_node(nodes, id, k + 1)
    }
}

pub proof fn lemma_first_feed(links: Seq<TexLinkView>, node: Seq<char>, port: Seq<char>, s: int, i: int)
    requires
        0 <= s <= i < links.len(),
        feeds(links[i], node, port),
        forall|j: int| s <= j < i ==> !feeds(#[trigger] links[j], node, port),
    ensures
        first_feed(links, node, port, s) == Some(i),
    decreases i - s,
{
    if s < i {
        lemma_first_feed(links, node, port, s + 1, i);
    }
}

pub proof fn lemma_no_feed(links: Seq<TexLinkView>, node: Seq<char>, port: Seq<char>, s: int)
    requires
        0 <= s <= links.len(),
        forall|j: int| s <= j < links.len() ==> !feeds(#[trigger] links[j], node, port),
    ensures
        first_feed(links, node, port, s) is None,
    decreases links.len() - s,
{
    if s < links.len() {
        lemma_no_feed(links, node, port, s + 1);
    }
}

pub proof fn lemma_first_node(nodes: Seq<NodeRecordView>, id: Seq<char>, s: int, k: int)
    requires
        0 <= s <= k < nodes.len(),
        nodes[k].id == id,
        forall|j: int| s <= j < k ==> (#[trigger] nodes[j]).id != id,
    ensures
        first_node(nodes, id, s) == Some(k),
    decreases k - s,
{
    if s < k {
        lemma_first_node(nodes, id, s + 1, k);
    }
}

pub proof fn lemma_no_node(nodes: Seq<NodeRecordView>, id: Seq<char>, s: int)
    requires
        0 <= s <= nodes.len(),
        forall|j: int| s <= j < nodes.len() ==> (#[trigger] nodes[j]).id != id,
    ensures
        first_node(nodes, id, s) is None,
    decreases nodes.len() - s,
{
    if s < nodes.len() {
        lemma_no_node(nodes, id, s + 1);
    }
}

/// The first link feeding the port comes from a node (the first with that id) whose
/// output is a color image.
pub open spec fn color_fed(nodes: Seq<NodeRecordView>, links: Seq<TexLinkView>, node: Seq<char>, port: Seq<char>) -> bool {
    match first_feed(links, node, port, 0) {
        Some(i) => match first_node(nodes, links[i].from_node, 0) {
            Some(k) => crate::texgen::outputs_color(nodes[k].kind),
            None => false,
        },
        None => false,
    }
}

/// Whether the port of `node` is fed by a color-producing node.
pub fn src_is_color(nodes: &Vec<NodeRecord>, links: &[TexLink], node: &str, port: &str) -> (r: bool)
    ensures
        r == color_fed(nodes_view(nodes@), links_view(links@), node@, port@),
{
    let ghost nv = nodes_view(nodes@);
    let ghost lv = links_view(links@);
    match find_link(links, node, port) {
        Some(l) => {
            proof {
                let i = choose|i: int|
                    0 <= i < links@.len() && links@[i] == *l && feeds(links@[i].view(), node@, port@)
                        && forall|j: int| 0 <= j < i ==> !feeds(#[trigger] links@[j].view(), node@, port@);
                assert forall|j: int| 0 <= j < i implies !feeds(#[trigger] lv[j], node@, port@) by {
                    assert(lv[j] == links@[j].view());
                }
                lemma_first_feed(lv, node@, port@, 0, i);
                assert(lv[i].from_node == l.from_node@);
            }
            match find_node(nodes, &l.from_node) {
                Some(k) => {
                    proof {
                        assert forall|j: int| 0 <= j < k implies (#[trigger] nv[j]).id != l.from_node@ by {
                            assert(nv[j] == nodes@[j].view());
                        }
                        lemma_first_node(nv, l.from_node@, 0, k as int);
                    }
                    crate::texgen::is_color_source(nodes[k].kind)
                },
                None => {
                    proof {
                        assert forall|j: int| 0 <= j < nv.len() implies (#[trigger] nv[j]).id != l.from_node@ by {
                            if nv[j].id == l.from_node@ {
                                assert(has_node(nv, l.from_node@));
                            }
                        }
                        lemma_no_node(nv, l.from_node@, 0);
                    }
                    false
                },
            }
        },
        None => {
            proof {
                assert forall|j: int| 0 <= j < lv.len() implies !feeds(#[trigger] lv[j], node@, port@) by {
                    assert(lv[j] == links@[j].view());
                }
                lemma_no_feed(lv, node@, port@, 0);
            }
            false
        },
    }
}

/// Mixes a value into a running 64-bit hash:
/// `a ^ (b * 0x9E3779B97F4A7C15 + (a << 6) + (a >> 2))`, wrapping.
pub open spec fn hash_mix(a: u64, b: u64) -> u64 {
    a ^ ((((b as int * 0x9E3779B97F4A7C15int) % 0x1_0000_0000_0000_0000) + (a << 6u64) as int + (a
        >> 2u64) as int) % 0x1_0000_0000_0000_0000) as u64
}

pub fn hash_combine(a: u64, b: u64) -> (r: u64)
    ensures
        r == hash_mix(a, b),
{
    let m = b.wrapping_mul(0x9E3779B97F4A7C15);
    let s1 = m.wrapping_add(a << 6);
    let s2 = s1.wrapping_add(a >> 2);
    proof {
        let big = 0x1_0000_0000_0000_0000int;
        vstd::arithmetic::div_mod::lemma_add_mod_noop(m as int, (a << 6u64) as int, big);
        vstd::arithmetic::div_mod::lemma_add_mod_noop(
            m as int + (a << 6u64) as int,
            (a >> 2u64) as int,
            big,
        );
        vstd::arithmetic::div_mod::lemma_small_mod((a << 6u64) as nat, big as nat);
        vstd::arithmetic::div_mod::lemma_small_mod((a >> 2u64) as nat, big as nat);
        vstd::arithmetic::div_mod::lemma_small_mod(m as nat, big as nat);
    }
    a ^ s2
}

// ---------------------------------------------------------------------------------------
// Building a graph
// ---------------------------------------------------------------------------------------
/// Head fields of a new node: position (0, 0), color (0.75, 0.75, 0.8, 1), value noise
/// (scale 4, 4 octaves, seed 1, tileable, angle 0, stretch 16), mix blend at 0.5 from
/// black to white, linear gradient, identity levels, normal strength 1, curvature 1 at
/// radius 1.
pub open spec fn default_head() -> Seq<u32> {
    seq![
        0u32, 0, 0x3f400000, 0x3f400000, 0x3f4ccccd, 0x3f800000, 0, 0x40800000, 4, 0x3f800000,
        1, 0, 0x41800000, 0, 0x3f000000, 0, 0, 0, 0x3f800000, 0x3f800000, 0x3f800000,
        0x3f800000, 0x3f800000, 0, 0, 0x3f800000, 0x3f800000, 0, 0x3f800000, 0x3f800000,
        0x3f800000, 1,
    ]
}

/// Tail fields of a new node: the default parameters of lines, distort, warps, blur,
/// slope blur, checker, tiles, bricks, flood fill, shape, transform and tile sampler;
/// tessellation 32, displacement 0.12, tessellated height.
pub open spec fn default_tail() -> Seq<u32> {
    seq![
        0x3d4ccccdu32, 1, 0, 0x3f800000, 0, 0x3e19999a, 0x40400000, 0x3f800000, 0x3ca3d70a,
        0x3dcccccd, 0, 0x40a00000, 0x3d4ccccd, 8, 0, 0, 0x3f800000, 0x40800000, 4, 4,
        0x3df5c28f, 0x3f266666, 0x3f266666, 0x3eb33333, 0x3eb33333, 0x3f800000, 4, 8,
        0x3da3d70a, 0x3f000000, 0x3df5c28f, 0x3df5c28f, 0x3f800000, 0x3f000000, 0x3eb33333,
        0x3f800000, 0, 0x3f000000, 0x3f000000, 6, 0, 0, 0x3f800000, 0x3f800000, 0, 0, 4, 4, 0,
        0, 0, 0x3f800000, 32, 0x3df5c28f, 0,
    ]
}

/// A black-to-white color ramp, opaque at both ends.
pub open spec fn default_colors() -> Seq<u32> {
    seq![0u32, 0, 0, 0, 0x3f800000, 0x3f800000, 0x3f800000, 0x3f800000, 0x3f800000, 0x3f800000]
}

pub open spec fn default_opacities() -> Seq<u32> {
    seq![0u32, 0x3f800000, 0x3f800000, 0x3f800000]
}

/// A new node of kind `kind` with id `id` and default parameters.
pub open spec fn default_node(kind: NodeKind, id: Seq<char>) -> NodeRecordView {
    NodeRecordView {
        kind,
        id,
        head: default_head(),
        colors: default_colors(),
        opacities: default_opacities(),
        tail: default_tail(),
    }
}

/// The decimal digits of `n`.
pub open spec fn decimal(n: nat) -> Seq<char>
    decreases n,
{
    if n < 10 {
        seq![((48 + n) as u32) as char]
    } else {
        decimal(n / 10).push(((48 + n % 10) as u32) as char)
    }
}

/// The id of the node with serial `n`: `n` followed by the serial in decimal.
pub open spec fn serial_id(n: u64) -> Seq<char> {
    seq!['n'] + decimal(n as nat)
}

fn digit_str(d: u64) -> (r: &'static str)
    requires
        d < 10,
    ensures
        r@ == seq![((48 + d) as u32) as char],
{
    proof {
        reveal_strlit("0");
        reveal_strlit("1");
        reveal_strlit("2");
        reveal_strlit("3");
        reveal_strlit("4");
        reveal_strlit("5");
        reveal_strlit("6");
        reveal_strlit("7");
        reveal_strlit("8");
        reveal_strlit("9");
    }
    let r = if d == 0 {
        "0"
    } else if d == 1 {
        "1"
    } else if d == 2 {
        "2"
    } else if d == 3 {
        "3"
    } else if d == 4 {
        "4"
    } else if d == 5 {
        "5"
    } else if d == 6 {
        "6"
    } else if d == 7 {
        "7"
    } else if d == 8 {
        "8"
    } else {
        "9"
    };
    assert(r@ =~= seq![((48 + d) as u32) as char]);
    r
}

/// Appends the decimal digits of `n`.
fn push_decimal(s: &mut String, n: u64)
    ensures
        final(s)@ == old(s)@ + decimal(n as nat),
    decreases n,
{
    if n >= 10 {
        push_decimal(s, n / 10);
    }
    s.append(digit_str(n % 10));
    assert(final(s)@ =~= old(s)@ + decimal(n as nat));
}

/// The id of the node with serial `n`.
fn format_serial(n: u64) -> (r: String)
    ensures
        r@ == serial_id(n),
{
    proof {
        reveal_strlit("n");
    }
    let mut s = String::from_str("n");
    push_decimal(&mut s, n);
    assert(s@ =~= serial_id(n));
    s
}

pub fn new_node(kind: NodeKind, id: String) -> (r: NodeRecord)
    ensures
        r.view() == default_node(kind, id@),
{
    let head: Vec<u32> = vec![
        0u32, 0, 0x3f400000, 0x3f400000, 0x3f4ccccd, 0x3f800000, 0, 0x40800000, 4, 0x3f800000,
        1, 0, 0x41800000, 0, 0x3f000000, 0, 0, 0, 0x3f800000, 0x3f800000, 0x3f800000,
        0x3f800000, 0x3f800000, 0, 0, 0x3f800000, 0x3f800000, 0, 0x3f800000, 0x3f800000,
        0x3f800000, 1,
    ];
    let tail: Vec<u32> = vec![
        0x3d4ccccdu32, 1, 0, 0x3f800000, 0, 0x3e19999a, 0x40400000, 0x3f800000, 0x3ca3d70a,
        0x3dcccccd, 0, 0x40a00000, 0x3d4ccccd, 8, 0, 0, 0x3f800000, 0x40800000, 4, 4,
        0x3df5c28f, 0x3f266666, 0x3f266666, 0x3eb33333, 0x3eb33333, 0x3f800000, 4, 8,
        0x3da3d70a, 0x3f000000, 0x3df5c28f, 0x3df5c28f, 0x3f800000, 0x3f000000, 0x3eb33333,
        0x3f800000, 0, 0x3f000000, 0x3f000000, 6, 0, 0, 0x3f800000, 0x3f800000, 0, 0, 4, 4, 0,
        0, 0, 0x3f800000, 32, 0x3df5c28f, 0,
    ];
    let colors: Vec<u32> = vec![0u32, 0, 0, 0, 0x3f800000, 0x3f800000, 0x3f800000, 0x3f800000, 0x3f800000, 0x3f800000];
    let opacities: Vec<u32> = vec![0u32, 0x3f800000, 0x3f800000, 0x3f800000];
    let r = NodeRecord { kind, id, head, colors, opacities, tail };
    assert(r.head@ =~= default_head());
    assert(r.tail@ =~= default_tail());
    assert(r.colors@ =~= default_colors());
    assert(r.opacities@ =~= default_opacities());
    r
}

impl TexGraph {
    /// A graph holding only its output node `n1`.
    pub fn new() -> (g: TexGraph)
        ensures
            g.view() == (TexGraphView {
                nodes: seq![default_node(NodeKind::Output, serial_id(1))],
                links: Seq::empty(),
                output_id: serial_id(1),
                next: 2,
            }),
    {
        let mut g = TexGraph { nodes: Vec::new(), links: Vec::new(), output_id: String::new(), next: 1 };
        assert(nodes_view(g.nodes@) =~= Seq::<NodeRecordView>::empty());
        let id = g.add(NodeKind::Output);
        g.output_id = id;
        assert(links_view(g.links@) =~= Seq::<TexLinkView>::empty());
        assert(nodes_view(g.nodes@) =~= seq![default_node(NodeKind::Output, serial_id(1))]);
        g
    }

    /// Appends a node of kind `kind` with default parameters under the next serial id,
    /// and returns that id.
    pub fn add(&mut self, kind: NodeKind) -> (id: String)
        requires
            old(self).next < u64::MAX,
        ensures
            id@ == serial_id(old(self).next),
            final(self).next == old(self).next + 1,
            nodes_view(final(self).nodes@) == nodes_view(old(self).nodes@).push(
                default_node(kind, serial_id(old(self).next)),
            ),
            links_view(final(self).links@) == links_view(old(self).links@),
            final(self).output_id@ == old(self).output_id@,
    {
        let id = format_serial(self.next);
        self.next = self.next + 1;
        let ghost before = nodes_view(self.nodes@);
        self.nodes.push(new_node(kind, id.clone()));
        assert(nodes_view(self.nodes@) =~= before.push(default_node(kind, id@)));
        id
    }
}

// ---------------------------------------------------------------------------------------
// Evaluation order
// ---------------------------------------------------------------------------------------
/// The ids of the nodes in `needed`, in node order.
pub open spec fn needed_ids(nodes: Seq<NodeRecordView>, needed: Seq<Seq<char>>) -> Seq<Seq<char>>
    decreases nodes.len(),
{
    if nodes.len() == 0 {
        Seq::empty()
    } else {
        let rest = needed_ids(nodes.drop_last(), needed);
        if needed.contains(nodes.last().id) {
            rest.push(nodes.last().id)
        } else {
            rest
        }
    }
}

/// Every link between needed nodes that feeds `x` comes from a node in `done`.
pub open spec fn inputs_done(links: Seq<TexLinkView>, needed: Seq<Seq<char>>, x: Seq<char>, done: Seq<
    Seq<char>,
>) -> bool {
    forall|j: int|
        0 <= j < links.len() && (#[trigger] links[j]).to_node == x && needed.contains(
            links[j].from_node,
        ) && needed.contains(x) ==> done.contains(links[j].from_node)
}

/// The targets of the links whose two ends are needed, in link order: ids an evaluation
/// can reach through links, whether or not a node has them.
pub open spec fn link_targets(links: Seq<TexLinkView>, needed: Seq<Seq<char>>) -> Seq<Seq<char>>
    decreases links.len(),
{
    if links.len() == 0 {
        Seq::empty()
    } else {
        let rest = link_targets(links.drop_last(), needed);
        let l = links.last();
        if needed.contains(l.from_node) && needed.contains(l.to_node) {
            rest.push(l.to_node)
        } else {
            rest
        }
    }
}

/// `order` lists, first, every id it can place after all of its inputs (each once,
/// after its inputs): needed node ids and ids that needed links lead to; then, in node
/// order, the needed nodes left over (those with an input that never gets placed: a
/// cycle, or a needed id that neither names a node nor is reached by a link).
pub open spec fn evaluation_order(
    links: Seq<TexLinkView>,
    needed: Seq<Seq<char>>,
    ids: Seq<Seq<char>>,
    order: Seq<Seq<char>>,
    k: int,
) -> bool {
    let placed = order.take(k);
    &&& 0 <= k <= order.len()
    &&& placed.no_duplicates()
    &&& forall|i: int|
        0 <= i < k ==> (ids + link_targets(links, needed)).contains(#[trigger] placed[i]) && inputs_done(
            links,
            needed,
            placed[i],
            placed.take(i),
        )
    &&& forall|x: Seq<char>|
        (ids + link_targets(links, needed)).contains(x) && !placed.contains(x) ==> !inputs_done(links, needed, x, placed)
    &&& order.skip(k) == ids.filter(|x: Seq<char>| !placed.contains(x))
}

fn contains_str_id(v: &Vec<String>, x: &str) -> (r: bool)
    ensures
        r == ids_view(v@).contains(x@),
{
    let mut i: usize = 0;
    while i < v.len()
        invariant
            i <= v@.len(),
            forall|j: int| 0 <= j < i ==> v@[j]@ != x@,
        decreases v@.len() - i,
    {
        if str_eq(v[i].as_str(), x) {
            assert(ids_view(v@)[i as int] == x@);
            return true;
        }
        i += 1;
    }
    proof {
        if ids_view(v@).contains(x@) {
            let k = choose|k: int| 0 <= k < ids_view(v@).len() && ids_view(v@)[k] == x@;
            assert(v@[k]@ == x@);
        }
    }
    false
}

fn ready(links: &[TexLink], needed: &Vec<String>, x: &String, done: &Vec<String>) -> (r: bool)
    ensures
        r == inputs_done(links_view(links@), ids_view(needed@), x@, ids_view(done@)),
{
    let ghost lv = links_view(links@);
    let mut j: usize = 0;
    while j < links.len()
        invariant
            j <= links@.len(),
            lv == links_view(links@),
            forall|q: int|
                0 <= q < j && (#[trigger] lv[q]).to_node == x@ && ids_view(needed@).contains(
                    lv[q].from_node,
                ) && ids_view(needed@).contains(x@) ==> ids_view(done@).contains(lv[q].from_node),
        decreases links@.len() - j,
    {
        let l = &links[j];
        if l.to_node == *x && contains_str_id(needed, l.from_node.as_str()) && contains_str_id(
            needed,
            x.as_str(),
        ) && !contains_str_id(done, l.from_node.as_str()) {
            assert(lv[j as int].to_node == x@);
            return false;
        }
        j += 1;
    }
    true
}

/// The needed node ids in an order that puts every node after the nodes feeding it, as
/// far as that is possible; nodes that cannot be placed (on a cycle, or fed by a needed
/// id that has no node) follow in node order.
pub fn topo_order(nodes: &Vec<NodeRecord>, links: &[TexLink], needed: &Vec<String>) -> (r: Vec<String>)
    ensures
        exists|k: int|
            evaluation_order(
                links_view(links@),
                ids_view(needed@),
                needed_ids(nodes_view(nodes@), ids_view(needed@)),
                ids_view(r@),
                k,
            ),
{
    let ghost nv = nodes_view(nodes@);
    let ghost nd = ids_view(needed@);
    let ghost lv = links_view(links@);
    let mut ids: Vec<String> = Vec::new();
    let mut i: usize = 0;
    assert(ids_view(ids@) =~= needed_ids(nv.take(0), nd));
    while i < nodes.len()
        invariant
            i <= nodes@.len(),
            nv == nodes_view(nodes@),
            nd == ids_view(needed@),
            ids_view(ids@) == needed_ids(nv.take(i as int), nd),
        decreases nodes@.len() - i,
    {
        let ghost before = ids_view(ids@);
        assert(nv.take(i + 1).drop_last() =~= nv.take(i as int));
        if contains_id(needed, &nodes[i].id) {
            ids.push(nodes[i].id.clone());
            assert(ids_view(ids@) =~= before.push(nv[i as int].id));
        }
        i += 1;
    }
    assert(nv.take(i as int) =~= nv);
    let ghost iv = ids_view(ids@);
    let ghost lt = link_targets(lv, nd);
    let mut cands: Vec<String> = Vec::new();
    let mut c: usize = 0;
    while c < ids.len()
        invariant
            c <= ids@.len(),
            iv == ids_view(ids@),
            ids_view(cands@) == iv.take(c as int),
        decreases ids@.len() - c,
    {
        let ghost before = ids_view(cands@);
        cands.push(ids[c].clone());
        c += 1;
        assert(ids_view(cands@) =~= before.push(iv[c - 1]));
        assert(iv.take(c as int) =~= iv.take(c - 1).push(iv[c - 1]));
    }
    assert(iv.take(c as int) =~= iv);
    let mut li: usize = 0;
    assert(link_targets(lv.take(0), nd) =~= Seq::<Seq<char>>::empty());
    assert(iv + Seq::<Seq<char>>::empty() =~= iv);
    while li < links.len()
        invariant
            li <= links@.len(),
            lv == links_view(links@),
            nd == ids_view(needed@),
            iv == ids_view(ids@),
            ids_view(cands@) == iv + link_targets(lv.take(li as int), nd),
        decreases links@.len() - li,
    {
        let ghost before = ids_view(cands@);
        assert(lv.take(li + 1).drop_last() =~= lv.take(li as int));
        assert(lv.take(li + 1).last() == links@[li as int].view());
        let l = &links[li];
        if contains_id(needed, &l.from_node) && contains_id(needed, &l.to_node) {
            cands.push(l.to_node.clone());
            assert(ids_view(cands@) =~= before.push(l.to_node@));
        }
        li += 1;
    }
    assert(lv.take(li as int) =~= lv);
    let ghost cv = ids_view(cands@);
    assert(cv == iv + lt);
    let mut out: Vec<String> = Vec::new();
    assert(ids_view(out@) =~= Seq::<Seq<char>>::empty());
    loop
        invariant
            cv == ids_view(cands@),
            nd == ids_view(needed@),
            lv == links_view(links@),
            ids_view(out@).no_duplicates(),
            forall|q: int|
                0 <= q < out@.len() ==> cv.contains(#[trigger] ids_view(out@)[q]) && inputs_done(
                    lv,
                    nd,
                    ids_view(out@)[q],
                    ids_view(out@).take(q),
                ),
            ids_view(out@).len() <= cv.len(),
        ensures
            ids_view(out@).no_duplicates(),
            forall|q: int|
                0 <= q < out@.len() ==> cv.contains(#[trigger] ids_view(out@)[q]) && inputs_done(
                    lv,
                    nd,
                    ids_view(out@)[q],
                    ids_view(out@).take(q),
                ),
            forall|w: int|
                0 <= w < cv.len() ==> ids_view(out@).contains(#[trigger] cv[w]) || !inputs_done(
                    lv,
                    nd,
                    cv[w],
                    ids_view(out@),
                ),
        decreases cv.len() - out@.len(),
    {
        let mut found: Option<usize> = None;
        let mut q: usize = 0;
        while q < cands.len()
            invariant
                q <= cands@.len(),
                cv == ids_view(cands@),
                nd == ids_view(needed@),
                lv == links_view(links@),
                match found {
                    Some(i) => i < cands@.len() && !ids_view(out@).contains(cv[i as int])
                        && inputs_done(lv, nd, cv[i as int], ids_view(out@)),
                    None => forall|w: int|
                        0 <= w < q ==> ids_view(out@).contains(#[trigger] cv[w]) || !inputs_done(
                            lv,
                            nd,
                            cv[w],
                            ids_view(out@),
                        ),
                },
            ensures
                match found {
                    Some(i) => i < cands@.len() && !ids_view(out@).contains(cv[i as int])
                        && inputs_done(lv, nd, cv[i as int], ids_view(out@)),
                    None => forall|w: int|
                        0 <= w < cv.len() ==> ids_view(out@).contains(#[trigger] cv[w]) || !inputs_done(
                            lv,
                            nd,
                            cv[w],
                            ids_view(out@),
                        ),
                },
            decreases cands@.len() - q,
        {
            if !contains_id(&out, &cands[q]) && ready(links, needed, &cands[q], &out) {
                found = Some(q);
                break;
            }
            q += 1;
        }
        match found {
            Some(w) => {
                let ghost before = ids_view(out@);
                out.push(cands[w].clone());
                proof {
                    assert(ids_view(out@) =~= before.push(cv[w as int]));
                    assert(ids_view(out@).take(before.len() as int) =~= before);
                    assert forall|a: int, b: int|
                        0 <= a < b < ids_view(out@).len() implies ids_view(out@)[a] != ids_view(
                            out@,
                        )[b] by {
                        if b == before.len() {
                            assert(before[a] == ids_view(out@)[a]);
                        }
                    }
                    assert forall|p: int|
                        0 <= p < out@.len() implies cv.contains(#[trigger] ids_view(out@)[p])
                        && inputs_done(lv, nd, ids_view(out@)[p], ids_view(out@).take(p)) by {
                        if p < before.len() {
                            assert(ids_view(out@)[p] == before[p]);
                            assert(ids_view(out@).take(p) =~= before.take(p));
                        } else {
                            assert(cv[w as int] == cv[w as int]);
                        }
                    }
                    assert forall|p: int| 0 <= p < ids_view(out@).len() implies cv.contains(
                        #[trigger] ids_view(out@)[p],
                    ) by {}
                    lemma_bound_by_candidates(ids_view(out@), cv);
                }
            },
            None => {
                break;
            },
        }
    }
    let ghost placed = ids_view(out@);
    let ghost keep = |x: Seq<char>| !placed.contains(x);
    let mut rest: Vec<String> = Vec::new();
    let mut ri: usize = 0;
    assert(iv.take(0).filter(keep) =~= Seq::<Seq<char>>::empty()) by {
        reveal(Seq::filter);
    }
    assert(ids_view(rest@) =~= Seq::<Seq<char>>::empty());
    while ri < ids.len()
        invariant
            ri <= ids@.len(),
            iv == ids_view(ids@),
            placed == ids_view(out@),
            keep == (|x: Seq<char>| !placed.contains(x)),
            ids_view(rest@) == iv.take(ri as int).filter(keep),
        decreases ids@.len() - ri,
    {
        let ghost before = ids_view(rest@);
        proof {
            assert(iv.take(ri + 1) =~= iv.take(ri as int).push(iv[ri as int]));
            iv.take(ri as int).lemma_filter_push(iv[ri as int], keep);
        }
        if !contains_id(&out, &ids[ri]) {
            rest.push(ids[ri].clone());
            assert(ids_view(rest@) =~= before.push(iv[ri as int]));
        }
        ri += 1;
    }
    assert(iv.take(ri as int) =~= iv);
    let k = out.len();
    let mut j: usize = 0;
    let ghost rv = ids_view(rest@);
    while j < rest.len()
        invariant
            j <= rest@.len(),
            k <= out@.len(),
            rv == ids_view(rest@),
            ids_view(out@) == placed + rv.take(j as int),
            placed.len() == k,
        decreases rest@.len() - j,
    {
        let ghost before = ids_view(out@);
        let x = rest[j].clone();
        assert(x@ == rv[j as int]);
        out.push(x);
        j += 1;
        assert(ids_view(out@) =~= before.push(rv[j - 1]));
        assert(rv.take(j as int) =~= rv.take(j - 1).push(rv[j - 1]));
        assert(ids_view(out@) =~= placed + rv.take(j as int));
    }
    proof {
        assert(rv.take(j as int) =~= rv);
        assert(ids_view(out@).take(k as int) =~= placed);
        assert(ids_view(out@).skip(k as int) =~= rv);
        let ord = ids_view(out@);
        assert(ord.take(k as int) == placed);
        assert forall|x: Seq<char>| cv.contains(x) && !placed.contains(x) implies !inputs_done(
            lv,
            nd,
            x,
            placed,
        ) by {
            let w = choose|w: int| 0 <= w < cv.len() && cv[w] == x;
            assert(placed.contains(cv[w]) || !inputs_done(lv, nd, cv[w], placed));
        }
        assert(evaluation_order(lv, nd, iv, ord, k as int));
    }
    out
}

proof fn lemma_inputs_done_mono(
    links: Seq<TexLinkView>,
    needed: Seq<Seq<char>>,
    x: Seq<char>,
    d1: Seq<Seq<char>>,
    d2: Seq<Seq<char>>,
)
    requires
        inputs_done(links, needed, x, d1),
        forall|y: Seq<char>| d1.contains(y) ==> d2.contains(y),
    ensures
        inputs_done(links, needed, x, d2),
{
}

/// Every id placed by one evaluation order before position `i` is placed by any other.
proof fn lemma_placed_within(
    links: Seq<TexLinkView>,
    needed: Seq<Seq<char>>,
    ids: Seq<Seq<char>>,
    a: Seq<Seq<char>>,
    ka: int,
    b: Seq<Seq<char>>,
    kb: int,
    i: int,
)
    requires
        evaluation_order(links, needed, ids, a, ka),
        evaluation_order(links, needed, ids, b, kb),
        0 <= i <= ka,
    ensures
        forall|j: int| 0 <= j < i ==> b.take(kb).contains(#[trigger] a.take(ka)[j]),
    decreases i,
{
    if i > 0 {
        lemma_placed_within(links, needed, ids, a, ka, b, kb, i - 1);
        let pa = a.take(ka);
        let pb = b.take(kb);
        let x = pa[i - 1];
        assert(inputs_done(links, needed, x, pa.take(i - 1)));
        let pre = pa.take(i - 1);
        assert forall|y: Seq<char>| pre.contains(y) implies pb.contains(y) by {
            let j = choose|j: int| 0 <= j < pre.len() && #[trigger] pre[j] == y;
            assert(pa[j] == y);
        }
        lemma_inputs_done_mono(links, needed, x, pa.take(i - 1), pb);
    }
}

/// Evaluation orders of the same graph place the same ids (only their order may differ)
/// and leave the same ids over, in the same order.
pub proof fn law_evaluation_orders_place_the_same_ids(
    links: Seq<TexLinkView>,
    needed: Seq<Seq<char>>,
    ids: Seq<Seq<char>>,
    a: Seq<Seq<char>>,
    ka: int,
    b: Seq<Seq<char>>,
    kb: int,
)
    requires
        evaluation_order(links, needed, ids, a, ka),
        evaluation_order(links, needed, ids, b, kb),
    ensures
        forall|x: Seq<char>| a.take(ka).contains(x) <==> b.take(kb).contains(x),
        a.skip(ka) == b.skip(kb),
{
    lemma_placed_within(links, needed, ids, a, ka, b, kb, ka);
    lemma_placed_within(links, needed, ids, b, kb, a, ka, kb);
    let pa = a.take(ka);
    let pb = b.take(kb);
    assert forall|x: Seq<char>| pa.contains(x) <==> pb.contains(x) by {
        if pa.contains(x) {
            let j = choose|j: int| 0 <= j < pa.len() && #[trigger] pa[j] == x;
            assert(pb.contains(pa[j]));
        }
        if pb.contains(x) {
            let j = choose|j: int| 0 <= j < pb.len() && #[trigger] pb[j] == x;
            assert(pa.contains(pb[j]));
        }
    }
    let fa = |x: Seq<char>| !pa.contains(x);
    let fb = |x: Seq<char>| !pb.contains(x);
    assert(fa =~= fb);
}

} // verus!
