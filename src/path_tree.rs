use vstd::prelude::*;

use crate::matching::{
    budget_of, child_jobs, end_query_element, initial_job, is_wildcard, job_valid, jobs_reach,
    lemma_job_unfold, lemma_jobs_concat, lemma_jobs_single, lemma_step_precedes, matched_nodes,
    query_budget, query_fits, query_may_end, query_may_take, reach, same_segment, step,
    take_segment, tree_may_end, tree_may_take, MatchJob,
};
use crate::grammar::{decimal, element_text};
use crate::path::{push_decimal, ElementView, Path, PathElement};
use crate::wildcard::consume_wildcard;

verus! {

/// The index of the root node in every [`PathTree`].
pub const ROOT: usize = 0;

/// One node of a [`PathTree`], kept in the tree's arena.
struct Node<T> {
    element: PathElement,
    payloads: Vec<T>,
    childs: Vec<usize>,
}

/// The mathematical value of a [`Node`]: its element, the payloads attached
/// to it in insertion order, and the arena indices of its children.
pub struct NodeView<T> {
    pub element: ElementView,
    pub payloads: Seq<T>,
    pub childs: Seq<usize>,
}

impl<T> View for Node<T> {
    type V = NodeView<T>;

    closed spec fn view(&self) -> NodeView<T> {
        NodeView { element: self.element@, payloads: self.payloads@, childs: self.childs@ }
    }
}

/// A trie keyed by path elements. Each node holds the payloads inserted at
/// its path and any number of children, one per distinct element.
///
/// The nodes live in an arena; a node is named by its index, the root is
/// [`ROOT`], and a child always has a larger index than its parent.
pub struct PathTree<T> {
    nodes: Vec<Node<T>>,
}

impl<T> View for PathTree<T> {
    type V = Seq<NodeView<T>>;

    closed spec fn view(&self) -> Seq<NodeView<T>> {
        self.nodes@.map_values(|n: Node<T>| n@)
    }
}

/// The arena `t` is a well-formed tree: the root holds the root marker and
/// no other node does, every child index points forward into the arena, and
/// siblings carry pairwise distinct elements.
pub open spec fn tree_wf<T>(t: Seq<NodeView<T>>) -> bool {
    &&& t.len() >= 1
    &&& t[ROOT as int].element == ElementView::Root
    &&& forall|i: int| 1 <= i < t.len() ==> #[trigger] t[i].element != ElementView::Root
    &&& forall|i: int, k: int|
        0 <= i < t.len() && 0 <= k < t[i].childs.len() ==> i < #[trigger] t[i].childs[k] < t.len()
    &&& forall|i: int, a: int, b: int|
        0 <= i < t.len() && 0 <= a < t[i].childs.len() && 0 <= b < t[i].childs.len() && a != b
            ==> t[t[i].childs[a] as int].element != t[t[i].childs[b] as int].element
}

/// A path that can be inserted: root markers may only lead it.
pub open spec fn insertable(p: Seq<ElementView>) -> bool {
    forall|i: int, j: int|
        0 <= i < j < p.len() && p[j] == ElementView::Root ==> p[i] == ElementView::Root
}

/// The child of node `at` whose element is `e`, if there is one.
pub open spec fn child_with<T>(t: Seq<NodeView<T>>, at: int, e: ElementView) -> Option<usize> {
    let cs = t[at].childs;
    if exists|k: int| 0 <= k < cs.len() && t[cs[k] as int].element == e {
        Some(cs[choose|k: int| 0 <= k < cs.len() && t[cs[k] as int].element == e])
    } else {
        None
    }
}

/// `t` with node `at` given a new child holding `e` and nothing else.
pub open spec fn with_new_child<T>(t: Seq<NodeView<T>>, at: int, e: ElementView) -> Seq<NodeView<T>> {
    t.update(at, NodeView { childs: t[at].childs.push(t.len() as usize), ..t[at] }).push(
        NodeView { element: e, payloads: Seq::empty(), childs: Seq::empty() },
    )
}

/// The arena after inserting `payload` at path `p`, walking from node `at`:
/// root markers are passed over, each other element leads to the child that
/// holds it (created at the end of the arena when missing), and the payload is
/// appended to the payloads of the node reached.
pub open spec fn inserted<T>(t: Seq<NodeView<T>>, at: int, p: Seq<ElementView>, payload: T) -> Seq<
    NodeView<T>,
>
    decreases p.len(),
{
    if p.len() == 0 {
        t.update(at, NodeView { payloads: t[at].payloads.push(payload), ..t[at] })
    } else if p[0] == ElementView::Root {
        inserted(t, at, p.drop_first(), payload)
    } else {
        match child_with(t, at, p[0]) {
            Some(c) => inserted(t, c as int, p.drop_first(), payload),
            None => inserted(with_new_child(t, at, p[0]), t.len() as int, p.drop_first(), payload),
        }
    }
}

/// `results` lists distinct nodes, and `seen` flags exactly those.
pub open spec fn collector_ok(results: Seq<usize>, seen: Seq<bool>) -> bool {
    &&& results.no_duplicates()
    &&& forall|i: int| 0 <= i < results.len() ==> #[trigger] results[i] < seen.len() && seen[results[i] as int]
    &&& forall|m: int| 0 <= m < seen.len() && #[trigger] seen[m] ==> results.contains(m as usize)
}

/// The identities `(node, index)` of the payloads of the nodes `ns`, node
/// after node, each node's payloads in insertion order.
pub open spec fn payload_keys<T>(t: Seq<NodeView<T>>, ns: Seq<usize>) -> Seq<(usize, int)>
    decreases ns.len(),
{
    if ns.len() == 0 {
        Seq::empty()
    } else {
        let n = ns.last();
        payload_keys(t, ns.drop_last()) + Seq::new(t[n as int].payloads.len(), |i: int| (n, i))
    }
}

/// The payload with identity `key`.
pub open spec fn payload_at<T>(t: Seq<NodeView<T>>, key: (usize, int)) -> T {
    t[key.0 as int].payloads[key.1]
}

/// Every identity listed for the nodes `ns` names a payload of one of them.
proof fn lemma_payload_keys_in<T>(t: Seq<NodeView<T>>, ns: Seq<usize>)
    ensures
        forall|k: int|
            0 <= k < payload_keys(t, ns).len() ==> ns.contains(#[trigger] payload_keys(t, ns)[k].0)
                && 0 <= payload_keys(t, ns)[k].1 < t[payload_keys(t, ns)[k].0 as int].payloads.len(),
    decreases ns.len(),
{
    if ns.len() > 0 {
        let init = ns.drop_last();
        lemma_payload_keys_in(t, init);
        let a = payload_keys(t, init);
        let keys = payload_keys(t, ns);
        assert forall|k: int| 0 <= k < keys.len() implies ns.contains(#[trigger] keys[k].0)
            && 0 <= keys[k].1 < t[keys[k].0 as int].payloads.len() by {
            if k < a.len() {
                assert(keys[k] == a[k]);
                let i = choose|i: int| 0 <= i < init.len() && init[i] == a[k].0;
                assert(ns[i] == init[i]);
            } else {
                assert(ns[ns.len() - 1] == ns.last());
            }
        }
    }
}

/// Distinct nodes give distinct payload identities.
pub proof fn lemma_payload_keys_distinct<T>(t: Seq<NodeView<T>>, ns: Seq<usize>)
    requires
        ns.no_duplicates(),
    ensures
        payload_keys(t, ns).no_duplicates(),
    decreases ns.len(),
{
    if ns.len() > 0 {
        let init = ns.drop_last();
        let n = ns.last();
        assert(init.no_duplicates()) by {
            assert forall|i: int, j: int| 0 <= i < init.len() && 0 <= j < init.len() && i != j implies init[i] != init[j] by {
                assert(init[i] == ns[i] && init[j] == ns[j]);
            }
        }
        lemma_payload_keys_distinct(t, init);
        lemma_payload_keys_in(t, init);
        let a = payload_keys(t, init);
        let b = Seq::new(t[n as int].payloads.len(), |i: int| (n, i));
        let keys = payload_keys(t, ns);
        assert(keys == a + b);
        assert(!init.contains(n)) by {
            if init.contains(n) {
                let i = choose|i: int| 0 <= i < init.len() && init[i] == n;
                assert(ns[i] == ns[ns.len() - 1]);
            }
        }
        assert forall|i: int, j: int| 0 <= i < keys.len() && 0 <= j < keys.len() && i != j implies keys[i] != keys[j] by {
            if i < a.len() && j >= a.len() {
                assert(init.contains(a[i].0));
            } else if j < a.len() && i >= a.len() {
                assert(init.contains(a[j].0));
            }
        }
    }
}

/// Adds `node` to the collected nodes unless it is there already.
fn collect_node(results: &mut Vec<usize>, seen: &mut Vec<bool>, node: usize)
    requires
        collector_ok(old(results)@, old(seen)@),
        node < old(seen)@.len(),
    ensures
        collector_ok(final(results)@, final(seen)@),
        final(seen)@.len() == old(seen)@.len(),
        final(results)@.to_set() == old(results)@.to_set() + set![node],
        final(results)@ == if old(seen)@[node as int] {
            old(results)@
        } else {
            old(results)@.push(node)
        },
{
    if !seen[node] {
        proof {
            assert(!old(results)@.contains(node));
        }
        seen[node] = true;
        results.push(node);
        proof {
            assert forall|m: int| 0 <= m < seen@.len() && #[trigger] seen@[m] implies results@.contains(m as usize) by {
                if m != node as int {
                    assert(old(seen)@[m]);
                    let i = choose|i: int| 0 <= i < old(results)@.len() && old(results)@[i] == m as usize;
                    assert(results@[i] == m as usize);
                } else {
                    assert(results@[results@.len() - 1] == node);
                }
            }
            assert forall|x: usize| #[trigger] results@.contains(x) == (old(results)@.contains(x) || x == node) by {
                if old(results)@.contains(x) {
                    let i = choose|i: int| 0 <= i < old(results)@.len() && old(results)@[i] == x;
                    assert(results@[i] == x);
                }
                if x == node {
                    assert(results@[results@.len() - 1] == node);
                }
            }
        }
        assert(results@.to_set() =~= old(results)@.to_set() + set![node]);
    } else {
        assert(old(results)@.contains(node));
        assert(results@.to_set() =~= old(results)@.to_set() + set![node]);
    }
}

/// Inserting keeps every node that was there, with its element, and keeps
/// its payloads as a prefix of the new ones: the tree only grows.
pub proof fn lemma_inserted_keeps<T>(t: Seq<NodeView<T>>, at: int, p: Seq<ElementView>, payload: T)
    requires
        0 <= at < t.len(),
        forall|i: int, k: int| 0 <= i < t.len() && 0 <= k < t[i].childs.len() ==> #[trigger] t[i].childs[k] < t.len(),
    ensures
        inserted(t, at, p, payload).len() >= t.len(),
        forall|i: int|
            0 <= i < t.len() ==> (#[trigger] inserted(t, at, p, payload)[i]).element == t[i].element
                && t[i].payloads.is_prefix_of(inserted(t, at, p, payload)[i].payloads),
    decreases p.len(),
{
    let r = inserted(t, at, p, payload);
    if p.len() == 0 {
        assert forall|i: int| 0 <= i < t.len() implies (#[trigger] r[i]).element == t[i].element
            && t[i].payloads.is_prefix_of(r[i].payloads) by {
            if i == at {
                assert(t[i].payloads.is_prefix_of(t[i].payloads.push(payload))) by {
                    assert(t[i].payloads.push(payload).subrange(0, t[i].payloads.len() as int) =~= t[i].payloads);
                }
            } else {
                assert(t[i].payloads.is_prefix_of(t[i].payloads)) by {
                    assert(t[i].payloads.subrange(0, t[i].payloads.len() as int) =~= t[i].payloads);
                }
            }
        }
    } else if p[0] == ElementView::Root {
        lemma_inserted_keeps(t, at, p.drop_first(), payload);
    } else {
        match child_with(t, at, p[0]) {
            Some(c) => {
                let cs = t[at].childs;
                let k = choose|k: int| 0 <= k < cs.len() && t[cs[k] as int].element == p[0];
                assert(t[at].childs[k] < t.len());
                lemma_inserted_keeps(t, c as int, p.drop_first(), payload);
            },
            None => {
                let t2 = with_new_child(t, at, p[0]);
                assert forall|i: int, k: int| 0 <= i < t2.len() && 0 <= k < t2[i].childs.len() implies #[trigger] t2[i].childs[k] < t2.len() by {
                    if i < t.len() && i != at {
                        assert(t2[i] == t[i]);
                    } else if i == at && k < t[at].childs.len() {
                        assert(t2[i].childs[k] == t[at].childs[k]);
                    }
                }
                lemma_inserted_keeps(t2, t.len() as int, p.drop_first(), payload);
                assert forall|i: int| 0 <= i < t.len() implies (#[trigger] r[i]).element == t[i].element
                    && t[i].payloads.is_prefix_of(r[i].payloads) by {
                    assert(t2[i].element == t[i].element);
                    assert(t2[i].payloads == t[i].payloads);
                }
            },
        }
    }
}

impl<T> PathTree<T> {
    /// The tree is well formed.
    pub open spec fn wf(&self) -> bool {
        tree_wf(self@)
    }

    /// A tree holding only the root node, with no payloads.
    pub fn new() -> (r: PathTree<T>)
        ensures
            r.wf(),
            r@ == seq![NodeView::<T> { element: ElementView::Root, payloads: Seq::empty(), childs: Seq::empty() }],
    {
        let mut nodes: Vec<Node<T>> = Vec::new();
        nodes.push(Node { element: PathElement::Root, payloads: Vec::new(), childs: Vec::new() });
        let r = PathTree { nodes };
        assert(r@ =~= seq![NodeView::<T> { element: ElementView::Root, payloads: Seq::empty(), childs: Seq::empty() }]);
        r
    }

    /// The number of nodes in the tree.
    pub fn node_count(&self) -> (r: usize)
        ensures
            r == self@.len(),
    {
        self.nodes.len()
    }

    /// The element of node `node`.
    pub fn element(&self, node: usize) -> (r: &PathElement)
        requires
            node < self@.len(),
        ensures
            r@ == self@[node as int].element,
    {
        &self.nodes[node].element
    }

    /// The payloads attached to node `node`, in insertion order.
    pub fn payloads(&self, node: usize) -> (r: &Vec<T>)
        requires
            node < self@.len(),
        ensures
            r@ == self@[node as int].payloads,
    {
        &self.nodes[node].payloads
    }

    /// The indices of the children of node `node`, in creation order.
    pub fn childs(&self, node: usize) -> (r: &Vec<usize>)
        requires
            node < self@.len(),
        ensures
            r@ == self@[node as int].childs,
    {
        &self.nodes[node].childs
    }

    /// Finds the child of node `at` that holds an element equal to `e`.
    fn find_child(&self, at: usize, e: &PathElement) -> (r: Option<usize>)
        requires
            self.wf(),
            at < self@.len(),
        ensures
            r == child_with(self@, at as int, e@),
    {
        let ghost t = self@;
        let childs = &self.nodes[at].childs;
        assert(childs@ == t[at as int].childs);
        let mut k: usize = 0;
        while k < childs.len()
            invariant
                t == self@,
                tree_wf(t),
                at < t.len(),
                childs@ == t[at as int].childs,
                k <= childs@.len(),
                forall|i: int| 0 <= i < k ==> t[childs@[i] as int].element != e@,
            decreases childs@.len() - k,
        {
            let c = childs[k];
            assert(t[at as int].childs[k as int] == c);
            if self.nodes[c].element == *e {
                assert(t[c as int].element == e@);
                let ghost cs = t[at as int].childs;
                let ghost kk = choose|kk: int| 0 <= kk < cs.len() && t[cs[kk] as int].element == e@;
                assert(kk == k as int) by {
                    if kk != k as int {
                        assert(t[cs[kk] as int].element != t[cs[k as int] as int].element);
                    }
                }
                return Some(c);
            }
            k = k + 1;
        }
        None
    }

    /// Attaches `payload` at `path`, creating the nodes that are missing.
    /// Payloads inserted at the same path accumulate in insertion order.
    pub fn add_payload(&mut self, path: &Path, payload: T)
        requires
            old(self).wf(),
            insertable(path@),
        ensures
            final(self).wf(),
            final(self)@ == inserted(old(self)@, ROOT as int, path@, payload),
            final(self)@.len() >= old(self)@.len(),
            forall|i: int|
                0 <= i < old(self)@.len() ==> (#[trigger] final(self)@[i]).element == old(self)@[i].element
                    && old(self)@[i].payloads.is_prefix_of(final(self)@[i].payloads),
    {
        proof {
            lemma_inserted_keeps(old(self)@, ROOT as int, path@, payload);
        }
        let ghost p = path@;
        let mut at: usize = ROOT;
        let mut i: usize = 0;
        assert(p.subrange(0, p.len() as int) =~= p);
        while i < path.len()
            invariant
                self.wf(),
                p == path@,
                insertable(p),
                i <= p.len(),
                at < self@.len(),
                at != ROOT ==> forall|j: int| i <= j < p.len() ==> p[j] != ElementView::Root,
                inserted(self@, at as int, p.subrange(i as int, p.len() as int), payload)
                    == inserted(old(self)@, ROOT as int, p, payload),
            decreases p.len() - i,
        {
            let ghost before = self@;
            let ghost rest = p.subrange(i as int, p.len() as int);
            assert(rest.drop_first() =~= p.subrange(i + 1, p.len() as int));
            let e = path.get(i);
            if e.is_root() {
                assert(at == ROOT);
            } else {
                assert(forall|j: int| i < j < p.len() ==> p[j] != ElementView::Root);
                match self.find_child(at, e) {
                    Some(c) => {
                        at = c;
                    },
                    None => {
                        let new_index = self.nodes.len();
                        self.nodes.push(Node { element: e.duplicate(), payloads: Vec::new(), childs: Vec::new() });
                        self.nodes[at].childs.push(new_index);
                        assert(self@ =~= with_new_child(before, at as int, e@));
                        at = new_index;
                    },
                }
            }
            i = i + 1;
        }
        let ghost before = self@;
        assert(p.subrange(i as int, p.len() as int) =~= Seq::<ElementView>::empty());
        self.nodes[at].payloads.push(payload);
        assert(self@ =~= before.update(at as int, NodeView { payloads: before[at as int].payloads.push(payload), ..before[at as int] }));
    }
}


impl PathElement {
    /// Whether this element is a wildcard.
    pub fn is_wildcard(&self) -> (r: bool)
        ensures
            r == is_wildcard(self@),
    {
        match self {
            PathElement::Wildcard(_) => true,
            _ => false,
        }
    }

    /// The budget of a wildcard; `(0, 0)` for other elements.
    fn budget(&self) -> (r: (usize, usize))
        ensures
            r == budget_of(self@),
    {
        match self {
            PathElement::Wildcard(w) => *w,
            _ => (0, 0),
        }
    }
}

/// The budget of the query element at `pos`, when there is one.
fn query_budget_at(path: &Path, pos: usize) -> (r: (usize, usize))
    ensures
        r == query_budget(path@, pos as int),
{
    if pos < path.len() {
        path.get(pos).budget()
    } else {
        (0, 0)
    }
}

impl<T> PathTree<T> {
    /// Pushes one job per child of the node of `job`.
    fn push_child_jobs(&self, stack: &mut Vec<MatchJob>, job: MatchJob)
        requires
            self.wf(),
            job.node < self@.len(),
        ensures
            final(stack)@ == old(stack)@ + child_jobs(self@, self@[job.node as int].childs, job),
    {
        let childs = &self.nodes[job.node].childs;
        assert(childs@ == self@[job.node as int].childs);
        let mut i: usize = 0;
        while i < childs.len()
            invariant
                self.wf(),
                childs@ == self@[job.node as int].childs,
                job.node < self@.len(),
                i <= childs@.len(),
                stack@ == old(stack)@ + child_jobs(self@, childs@.subrange(0, i as int), job),
            decreases childs@.len() - i,
        {
            let c = childs[i];
            assert(job.node < c < self@.len());
            let next = MatchJob {
                node: c,
                done: false,
                tree_budget: self.nodes[c].element.budget(),
                pos: job.pos,
                path_budget: job.path_budget,
            };
            assert(self.nodes@[c as int]@ == self@[c as int]);
            stack.push(next);
            i = i + 1;
            assert(child_jobs(self@, childs@.subrange(0, i as int), job) =~= child_jobs(
                self@,
                childs@.subrange(0, i - 1),
                job,
            ).push(next));
        }
        assert(childs@.subrange(0, i as int) =~= childs@);
    }

    /// Both sides take one common segment, when they can.
    fn push_common_segment(&self, path: &Path, job: MatchJob, stack: &mut Vec<MatchJob>)
        requires
            self.wf(),
            job_valid(self@, path@, job),
        ensures
            final(stack)@ == old(stack)@ + (if tree_may_take(self@, job) && query_may_take(path@, job)
                && same_segment(self@, path@, job) {
                seq![take_segment(self@, path@, job)]
            } else {
                Seq::empty()
            }),
    {
        let ghost t = self@;
        let ghost q = path@;
        if job.done || job.pos >= path.len() {
            assert(stack@ =~= old(stack)@ + Seq::<MatchJob>::empty());
            return;
        }
        let te = &self.nodes[job.node].element;
        assert(self.nodes@[job.node as int]@ == t[job.node as int]);
        let qe = path.get(job.pos);
        let tree_ok = match te {
            PathElement::Name(_) => true,
            PathElement::Wildcard(_) => job.tree_budget.0 > 0 || job.tree_budget.1 > 0,
            PathElement::Root => false,
        };
        let query_ok = match qe {
            PathElement::Name(_) => true,
            PathElement::Wildcard(_) => job.path_budget.0 > 0 || job.path_budget.1 > 0,
            PathElement::Root => false,
        };
        let same = match (te, qe) {
            (PathElement::Name(a), PathElement::Name(b)) => *a == *b,
            _ => true,
        };
        if tree_ok && query_ok && same {
            let tree_wild = te.is_wildcard();
            let mut tb = job.tree_budget;
            if tree_wild {
                consume_wildcard(&mut tb);
            }
            let mut pb = job.path_budget;
            let mut pos = job.pos;
            if qe.is_wildcard() {
                consume_wildcard(&mut pb);
            } else {
                pos = job.pos + 1;
                pb = query_budget_at(path, pos);
            }
            let next = MatchJob { node: job.node, done: !tree_wild, tree_budget: tb, pos, path_budget: pb };
            assert(next == take_segment(t, q, job));
            stack.push(next);
            assert(stack@ =~= old(stack)@ + seq![next]);
        } else {
            assert(stack@ =~= old(stack)@ + Seq::<MatchJob>::empty());
        }
    }

    /// Processes one job: credits its node when its element is matched
    /// and the query used up, and pushes the jobs its step gives.
    fn run_step(
        &self,
        path: &Path,
        job: MatchJob,
        stack: &mut Vec<MatchJob>,
        results: &mut Vec<usize>,
        seen: &mut Vec<bool>,
    )
        requires
            self.wf(),
            job_valid(self@, path@, job),
            collector_ok(old(results)@, old(seen)@),
            old(seen)@.len() == self@.len(),
        ensures
            final(stack)@ == old(stack)@ + step(self@, path@, job).push,
            final(results)@.to_set() == old(results)@.to_set() + step(self@, path@, job).collect,
            final(results)@ == if job.done && job.pos == path@.len() && !old(seen)@[job.node as int] {
                old(results)@.push(job.node)
            } else {
                old(results)@
            },
            collector_ok(final(results)@, final(seen)@),
            final(seen)@.len() == old(seen)@.len(),
    {
        let ghost t = self@;
        let ghost q = path@;
        let ghost s = step(t, q, job);
        if job.done && job.pos == path.len() {
            collect_node(results, seen, job.node);
        }
        assert(results@.to_set() =~= old(results)@.to_set() + s.collect);
        let ghost s0 = stack@;
        if job.done {
            self.push_child_jobs(stack, job);
        }
        let ghost s1 = stack@;
        let ghost a: Seq<MatchJob> = if job.done {
            child_jobs(t, t[job.node as int].childs, job)
        } else {
            Seq::empty()
        };
        assert(s1 =~= s0 + a);
        let te = &self.nodes[job.node].element;
        assert(self.nodes@[job.node as int]@ == t[job.node as int]);
        if !job.done && te.is_wildcard() && job.tree_budget.0 == 0 {
            stack.push(MatchJob { node: job.node, done: true, tree_budget: job.tree_budget, pos: job.pos, path_budget: job.path_budget });
        }
        let ghost s2 = stack@;
        if job.pos < path.len() && path.get(job.pos).is_wildcard() && job.path_budget.0 == 0 {
            let pos = job.pos + 1;
            let pb = query_budget_at(path, pos);
            stack.push(MatchJob { node: job.node, done: job.done, tree_budget: job.tree_budget, pos, path_budget: pb });
        }
        let ghost s3 = stack@;
        self.push_common_segment(path, job, stack);
        proof {
            let b: Seq<MatchJob> = if tree_may_end(t, job) {
                seq![MatchJob { done: true, ..job }]
            } else {
                Seq::empty()
            };
            let c: Seq<MatchJob> = if query_may_end(q, job) {
                seq![end_query_element(q, job)]
            } else {
                Seq::empty()
            };
            assert(s2 =~= s1 + b);
            assert(s3 =~= s2 + c);
            assert(stack@ =~= old(stack)@ + s.push);
        }
    }

    /// Whether `path` fits a walk from node `start`.
    fn query_fits(&self, start: usize, path: &Path) -> (r: bool)
        requires
            self.wf(),
            start < self@.len(),
        ensures
            r == query_fits(self@, start, path@),
    {
        let from_root = self.nodes[start].element.is_root();
        assert(self.nodes@[start as int]@ == self@[start as int]);
        let mut i: usize = 0;
        if from_root {
            if path.len() == 0 || !path.get(0).is_root() {
                return false;
            }
            i = 1;
        }
        while i < path.len()
            invariant
                i <= path@.len(),
                from_root ==> 1 <= i,
                forall|k: int| (if from_root { 1int } else { 0int }) <= k < i ==> #[trigger] path@[k] != ElementView::Root,
                from_root == (self@[start as int].element == ElementView::Root),
                from_root ==> path@.len() >= 1 && path@[0] == ElementView::Root,
            decreases path@.len() - i,
        {
            if path.get(i).is_root() {
                return false;
            }
            i = i + 1;
        }
        true
    }

    /// The distinct nodes whose payloads `path` matches, walking the tree
    /// from node `start` with an explicit stack of jobs.
    pub fn matching_nodes(&self, start: usize, path: &Path) -> (r: Vec<usize>)
        requires
            self.wf(),
            start < self@.len(),
        ensures
            r@.no_duplicates(),
            r@.to_set() == matched_nodes(self@, start, path@),
            forall|i: int| 0 <= i < r@.len() ==> #[trigger] r@[i] < self@.len(),
    {
        let ghost t = self@;
        let ghost q = path@;
        let query_len = path.len();
        assert(q.len() == query_len);
        if !self.query_fits(start, path) {
            let none: Vec<usize> = Vec::new();
            assert(none@.to_set() =~= Set::<usize>::empty());
            return none;
        }
        let ghost init = initial_job(t, start, q);
        let first = if self.nodes[start].element.is_root() {
            MatchJob { node: start, done: true, tree_budget: (0, 0), pos: 1, path_budget: query_budget_at(path, 1) }
        } else {
            MatchJob {
                node: start,
                done: false,
                tree_budget: self.nodes[start].element.budget(),
                pos: 0,
                path_budget: query_budget_at(path, 0),
            }
        };
        assert(self.nodes@[start as int]@ == t[start as int]);
        assert(first == init);
        let mut seen: Vec<bool> = Vec::new();
        let mut i: usize = 0;
        while i < self.nodes.len()
            invariant
                i <= self@.len(),
                seen@.len() == i,
                forall|m: int| 0 <= m < i ==> !#[trigger] seen@[m],
            decreases self@.len() - i,
        {
            seen.push(false);
            i = i + 1;
        }
        let mut results: Vec<usize> = Vec::new();
        let mut stack: Vec<MatchJob> = Vec::new();
        stack.push(first);
        proof {
            assert(stack@ == seq![init]);
            lemma_jobs_single(t, q, init);
            assert(results@.to_set() =~= Set::<usize>::empty());
            assert(results@.to_set() + jobs_reach(t, q, stack@).collect =~= reach(t, q, init).collect);
        }
        while stack.len() > 0
            invariant
                self@ == t,
                path@ == q,
                init == initial_job(t, start, q),
                query_fits(t, start, q),
                self.wf(),
                q.len() <= usize::MAX,
                forall|k: int| 0 <= k < stack@.len() ==> job_valid(t, q, #[trigger] stack@[k]),
                collector_ok(results@, seen@),
                seen@.len() == t.len(),
                results@.to_set() + jobs_reach(t, q, stack@).collect == reach(t, q, init).collect,
            decreases jobs_reach(t, q, stack@).work,
        {
            let ghost before = stack@;
            let job = stack.pop().unwrap();
            let ghost rest = stack@;
            proof {
                assert(before == rest.push(job));
                assert(rest.push(job) == rest + seq![job]);
                lemma_jobs_concat(t, q, rest, seq![job]);
                lemma_jobs_single(t, q, job);
                lemma_job_unfold(t, q, job);
                lemma_step_precedes(t, q, job);
            }
            let ghost old_results = results@.to_set();
            self.run_step(path, job, &mut stack, &mut results, &mut seen);
            proof {
                let s = step(t, q, job);
                lemma_jobs_concat(t, q, rest, s.push);
                assert forall|k: int| 0 <= k < stack@.len() implies job_valid(t, q, #[trigger] stack@[k]) by {
                    if k >= rest.len() {
                        assert(stack@[k] == s.push[k - rest.len()]);
                    } else {
                        assert(stack@[k] == before[k]);
                    }
                }
                let rr = jobs_reach(t, q, rest);
                let pr = jobs_reach(t, q, s.push);
                assert(stack@ == rest + s.push);
                assert(results@.to_set() == old_results + s.collect);
                assert(reach(t, q, job).collect == s.collect + pr.collect);
                assert(jobs_reach(t, q, before).collect == rr.collect + reach(t, q, job).collect);
                assert(jobs_reach(t, q, stack@).collect == rr.collect + pr.collect);
                assert(results@.to_set() + jobs_reach(t, q, stack@).collect =~= old_results + (rr.collect + (s.collect + pr.collect)));
                assert(old_results + jobs_reach(t, q, before).collect =~= old_results + (rr.collect + (s.collect + pr.collect)));
            }
        }
        proof {
            assert(results@.to_set() =~= reach(t, q, init).collect);
        }
        results
    }
}

impl<T> PathTree<T> {
    /// The payloads that `path` matches when the walk starts at node
    /// `start`: every payload of every matched node, each exactly once.
    pub fn get_payloads_from<'a>(&'a self, start: usize, path: &Path) -> (r: Vec<&'a T>)
        requires
            self.wf(),
            start < self@.len(),
        ensures
            exists|ns: Seq<usize>|
                {
                    &&& ns.no_duplicates()
                    &&& ns.to_set() == matched_nodes(self@, start, path@)
                    &&& payload_keys(self@, ns).no_duplicates()
                    &&& r@.len() == payload_keys(self@, ns).len()
                    &&& forall|k: int|
                        0 <= k < r@.len() ==> *r@[k] == payload_at(self@, #[trigger] payload_keys(self@, ns)[k])
                },
    {
        let ghost t = self@;
        let nodes = self.matching_nodes(start, path);
        let mut r: Vec<&'a T> = Vec::new();
        let mut i: usize = 0;
        while i < nodes.len()
            invariant
                self@ == t,
                i <= nodes@.len(),
                forall|m: int| 0 <= m < nodes@.len() ==> #[trigger] nodes@[m] < t.len(),
                r@.len() == payload_keys(t, nodes@.subrange(0, i as int)).len(),
                forall|k: int|
                    0 <= k < r@.len() ==> *r@[k] == payload_at(t, #[trigger] payload_keys(t, nodes@.subrange(0, i as int))[k]),
            decreases nodes@.len() - i,
        {
            let n = nodes[i];
            let ps = &self.nodes[n].payloads;
            assert(ps@ == t[n as int].payloads);
            let ghost done = payload_keys(t, nodes@.subrange(0, i as int));
            let ghost block = Seq::new(t[n as int].payloads.len(), |x: int| (n, x));
            let mut j: usize = 0;
            while j < ps.len()
                invariant
                    self@ == t,
                    ps@ == t[n as int].payloads,
                    j <= ps@.len(),
                    block == Seq::new(t[n as int].payloads.len(), |x: int| (n, x)),
                    r@.len() == done.len() + j,
                    forall|k: int| 0 <= k < done.len() ==> *r@[k] == payload_at(t, #[trigger] done[k]),
                    forall|k: int| done.len() <= k < r@.len() ==> *r@[k] == payload_at(t, #[trigger] block[k - done.len()]),
                decreases ps@.len() - j,
            {
                r.push(&ps[j]);
                j = j + 1;
            }
            proof {
                let next = nodes@.subrange(0, i + 1);
                assert(next.drop_last() =~= nodes@.subrange(0, i as int));
                assert(payload_keys(t, next) == done + block);
                assert forall|k: int| 0 <= k < r@.len() implies *r@[k] == payload_at(t, #[trigger] payload_keys(t, next)[k]) by {
                    if k < done.len() {
                        assert(payload_keys(t, next)[k] == done[k]);
                    } else {
                        assert(payload_keys(t, next)[k] == block[k - done.len()]);
                    }
                }
            }
            i = i + 1;
        }
        proof {
            assert(nodes@.subrange(0, nodes@.len() as int) =~= nodes@);
            lemma_payload_keys_distinct(t, nodes@);
        }
        r
    }

    /// The payloads that `path` matches from the root: every payload of
    /// every matched node, each exactly once.
    pub fn get_payloads<'a>(&'a self, path: &Path) -> (r: Vec<&'a T>)
        requires
            self.wf(),
        ensures
            exists|ns: Seq<usize>|
                {
                    &&& ns.no_duplicates()
                    &&& ns.to_set() == matched_nodes(self@, ROOT, path@)
                    &&& payload_keys(self@, ns).no_duplicates()
                    &&& r@.len() == payload_keys(self@, ns).len()
                    &&& forall|k: int|
                        0 <= k < r@.len() ==> *r@[k] == payload_at(self@, #[trigger] payload_keys(self@, ns)[k])
                },
    {
        self.get_payloads_from(ROOT, path)
    }
}

/// Two spaces per level.
pub open spec fn indent(level: nat) -> Seq<char>
    decreases level,
{
    if level == 0 {
        Seq::empty()
    } else {
        indent((level - 1) as nat) + seq![' ', ' ']
    }
}

/// The line that describes node `node` at depth `level`: the indentation,
/// the element's text and a slash, the number of payloads in parentheses
/// when there are any, and a line break.
pub open spec fn node_line<T>(t: Seq<NodeView<T>>, node: int, level: nat) -> Seq<char> {
    let n = t[node].payloads.len();
    indent(level) + element_text(t[node].element) + seq!['/'] + (if n > 0 {
        seq![' ', '('] + decimal(n) + seq![')']
    } else {
        Seq::empty()
    }) + seq!['\n']
}

/// The lines of the subtrees of the children of `node` from index `k` on,
/// each child one level deeper than `level`, depth first.
pub open spec fn children_text<T>(t: Seq<NodeView<T>>, node: int, level: nat, k: int) -> Seq<char>
    decreases (t.len() - node) as nat, (t[node].childs.len() - k) as nat,
{
    if !(0 <= node < t.len()) || k < 0 || k >= t[node].childs.len() {
        Seq::empty()
    } else {
        let c = t[node].childs[k] as int;
        (if node < c < t.len() {
            node_line(t, c, level + 1) + children_text(t, c, level + 1, 0)
        } else {
            Seq::empty()
        }) + children_text(t, node, level, k + 1)
    }
}

/// The text of a whole tree: one line per node, depth first.
pub open spec fn tree_text<T>(t: Seq<NodeView<T>>) -> Seq<char> {
    node_line(t, ROOT as int, 0) + children_text(t, ROOT as int, 0, 0)
}

impl<T> PathTree<T> {
    /// Appends the line of node `node` and the lines of its subtree.
    fn format_internal(&self, out: &mut String, node: usize, level: usize)
        requires
            self.wf(),
            node < self@.len(),
            level + (self@.len() - node) <= usize::MAX,
        ensures
            final(out)@ == old(out)@ + node_line(self@, node as int, level as nat) + children_text(
                self@,
                node as int,
                level as nat,
                0,
            ),
        decreases self@.len() - node,
    {
        let ghost t = self@;
        proof {
            reveal_strlit("  ");
            reveal_strlit("/");
            reveal_strlit(" (");
            reveal_strlit(")");
            reveal_strlit("\n");
        }
        let mut i: usize = 0;
        assert(out@ =~= old(out)@ + indent(0));
        while i < level
            invariant
                i <= level,
                out@ == old(out)@ + indent(i as nat),
            decreases level - i,
        {
            proof {
                reveal_strlit("  ");
            }
            out.append("  ");
            i = i + 1;
            assert(out@ =~= old(out)@ + indent(i as nat));
        }
        let n = &self.nodes[node];
        assert(n@ == t[node as int]);
        n.element.write_to(out);
        out.append("/");
        if n.payloads.len() > 0 {
            out.append(" (");
            push_decimal(out, n.payloads.len());
            out.append(")");
        }
        out.append("\n");
        let ghost line_end = out@;
        assert(line_end =~= old(out)@ + node_line(t, node as int, level as nat));
        let mut k: usize = 0;
        while k < n.childs.len()
            invariant
                self@ == t,
                self.wf(),
                node < t.len(),
                level + (t.len() - node) <= usize::MAX,
                n@ == t[node as int],
                k <= n.childs@.len(),
                out@ + children_text(t, node as int, level as nat, k as int) == line_end
                    + children_text(t, node as int, level as nat, 0),
            decreases n.childs@.len() - k,
        {
            let c = n.childs[k];
            assert(node < c < t.len());
            let ghost before = out@;
            self.format_internal(out, c, level + 1);
            assert(out@ + children_text(t, node as int, level as nat, k + 1) =~= before + children_text(
                t,
                node as int,
                level as nat,
                k as int,
            ));
            k = k + 1;
        }
        assert(out@ =~= line_end + children_text(t, node as int, level as nat, 0));
    }

    /// The tree drawn as text, one line per node, depth first: the
    /// element's text and a slash, indented two spaces per level, with the
    /// number of payloads in parentheses when there are any.
    pub fn to_string(&self) -> (r: String)
        requires
            self.wf(),
        ensures
            r@ == tree_text(self@),
    {
        let mut out = String::new();
        let count = self.node_count();
        assert(count == self@.len());
        self.format_internal(&mut out, ROOT, 0);
        assert(out@ =~= tree_text(self@));
        out
    }
}

} // verus!
