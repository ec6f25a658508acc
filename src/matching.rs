use vstd::prelude::*;

use crate::path::ElementView;
use crate::path_tree::{tree_wf, NodeView};
use crate::wildcard::consumed;

verus! {

/// A point reached while walking a tree path and a query together.
///
/// On the tree side, `node` is the node whose element is being matched:
/// when `done` holds its element is fully matched, otherwise `tree_budget`
/// is what is left of it when it is a wildcard. On the query side, the
/// elements before `pos` are matched and `path_budget` is what is left of
/// the element at `pos` when it is a wildcard.
#[derive(Clone, Copy)]
pub struct MatchJob {
    pub node: usize,
    pub done: bool,
    pub tree_budget: (usize, usize),
    pub pos: usize,
    pub path_budget: (usize, usize),
}

/// What processing one job does: credit the payloads of the nodes in
/// `collect` and add the jobs in `push`.
pub struct Step {
    pub collect: Set<usize>,
    pub push: Seq<MatchJob>,
}

/// `{n}` when `c` holds, else nothing.
pub open spec fn only_if(c: bool, n: usize) -> Set<usize> {
    if c {
        set![n]
    } else {
        Set::empty()
    }
}

/// The budget `(min, opt)` of a wildcard; nothing for other elements.
pub open spec fn budget_of(e: ElementView) -> (usize, usize) {
    match e {
        ElementView::Wildcard(w) => w,
        _ => (0, 0),
    }
}

/// The budget of the query element at `pos`, when there is one.
pub open spec fn query_budget(q: Seq<ElementView>, pos: int) -> (usize, usize) {
    if 0 <= pos < q.len() {
        budget_of(q[pos])
    } else {
        (0, 0)
    }
}

pub open spec fn is_wildcard(e: ElementView) -> bool {
    e is Wildcard
}

/// One job per child in `cs`: the tree side enters the child's element,
/// the query side stays where it is.
pub open spec fn child_jobs<T>(t: Seq<NodeView<T>>, cs: Seq<usize>, j: MatchJob) -> Seq<MatchJob> {
    cs.map_values(
        |c: usize|
            MatchJob {
                node: c,
                done: false,
                tree_budget: budget_of(t[c as int].element),
                pos: j.pos,
                path_budget: j.path_budget,
            },
    )
}

/// The tree wildcard being matched has no mandatory segment left and may end.
pub open spec fn tree_may_end<T>(t: Seq<NodeView<T>>, j: MatchJob) -> bool {
    !j.done && is_wildcard(t[j.node as int].element) && j.tree_budget.0 == 0
}

/// The query wildcard at `pos` has no mandatory segment left and may end.
pub open spec fn query_may_end(q: Seq<ElementView>, j: MatchJob) -> bool {
    j.pos < q.len() && is_wildcard(q[j.pos as int]) && j.path_budget.0 == 0
}

/// The tree side can take one more segment.
pub open spec fn tree_may_take<T>(t: Seq<NodeView<T>>, j: MatchJob) -> bool {
    &&& !j.done
    &&& match t[j.node as int].element {
        ElementView::Name(_) => true,
        ElementView::Wildcard(_) => j.tree_budget.0 + j.tree_budget.1 > 0,
        ElementView::Root => false,
    }
}

/// The query side can take one more segment.
pub open spec fn query_may_take(q: Seq<ElementView>, j: MatchJob) -> bool {
    &&& j.pos < q.len()
    &&& match q[j.pos as int] {
        ElementView::Name(_) => true,
        ElementView::Wildcard(_) => j.path_budget.0 + j.path_budget.1 > 0,
        ElementView::Root => false,
    }
}

/// Two names can only take the same segment when they are equal; a
/// wildcard takes any segment.
pub open spec fn same_segment<T>(t: Seq<NodeView<T>>, q: Seq<ElementView>, j: MatchJob) -> bool {
    match (t[j.node as int].element, q[j.pos as int]) {
        (ElementView::Name(a), ElementView::Name(b)) => a == b,
        _ => true,
    }
}

/// Both sides take one common segment: a name is then fully matched, a
/// wildcard has one unit less.
pub open spec fn take_segment<T>(t: Seq<NodeView<T>>, q: Seq<ElementView>, j: MatchJob) -> MatchJob {
    let tree_wild = is_wildcard(t[j.node as int].element);
    let query_wild = is_wildcard(q[j.pos as int]);
    MatchJob {
        node: j.node,
        done: !tree_wild,
        tree_budget: if tree_wild {
            consumed(j.tree_budget)
        } else {
            j.tree_budget
        },
        pos: if query_wild {
            j.pos
        } else {
            (j.pos + 1) as usize
        },
        path_budget: if query_wild {
            consumed(j.path_budget)
        } else {
            query_budget(q, j.pos + 1)
        },
    }
}

/// The query moves past the element at `pos`.
pub open spec fn end_query_element(q: Seq<ElementView>, j: MatchJob) -> MatchJob {
    MatchJob { pos: (j.pos + 1) as usize, path_budget: query_budget(q, j.pos + 1), ..j }
}

/// Processing job `j`: its node is credited when its element is matched
/// and the query is used up; the jobs it leads to are the children when the
/// element is matched, the end of a tree or query wildcard whose mandatory
/// units are used, and one common segment taken by both sides.
pub open spec fn step<T>(t: Seq<NodeView<T>>, q: Seq<ElementView>, j: MatchJob) -> Step {
    Step {
        collect: only_if(j.done && j.pos == q.len(), j.node),
        push: (if j.done {
            child_jobs(t, t[j.node as int].childs, j)
        } else {
            Seq::empty()
        }) + (if tree_may_end(t, j) {
            seq![MatchJob { done: true, ..j }]
        } else {
            Seq::empty()
        }) + (if query_may_end(q, j) {
            seq![end_query_element(q, j)]
        } else {
            Seq::empty()
        }) + (if tree_may_take(t, j) && query_may_take(q, j) && same_segment(t, q, j) {
            seq![take_segment(t, q, j)]
        } else {
            Seq::empty()
        }),
    }
}

pub open spec fn budget_sum(w: (usize, usize)) -> nat {
    w.0 as nat + w.1 as nat
}

/// The job's indices lie within the arena and the query.
pub open spec fn job_valid<T>(t: Seq<NodeView<T>>, q: Seq<ElementView>, j: MatchJob) -> bool {
    j.node < t.len() && j.pos <= q.len()
}

/// Job `a` is valid and strictly closer to the end than job `b`: less of
/// the query left; or as much, and a deeper node; or the same node with its
/// element matched further.
pub open spec fn precedes<T>(t: Seq<NodeView<T>>, q: Seq<ElementView>, a: MatchJob, b: MatchJob) -> bool {
    &&& job_valid(t, q, a)
    &&& {
        ||| (q.len() - a.pos) < (q.len() - b.pos)
        ||| (q.len() - a.pos) == (q.len() - b.pos) && budget_sum(a.path_budget) < budget_sum(b.path_budget)
        ||| (q.len() - a.pos) == (q.len() - b.pos) && budget_sum(a.path_budget) == budget_sum(b.path_budget)
            && (t.len() - a.node) < (t.len() - b.node)
        ||| (q.len() - a.pos) == (q.len() - b.pos) && budget_sum(a.path_budget) == budget_sum(b.path_budget)
            && a.node == b.node && a.done && !b.done
    }
}

/// What the jobs reached from some jobs amount to: the nodes they credit
/// and how many jobs there are.
pub struct Reach {
    pub collect: Set<usize>,
    pub work: nat,
}

pub open spec fn no_reach() -> Reach {
    Reach { collect: Set::empty(), work: 0 }
}

pub open spec fn combine(a: Reach, b: Reach) -> Reach {
    Reach { collect: a.collect + b.collect, work: a.work + b.work }
}

/// What the jobs that job `j` pushes at index `k` and later reach.
pub open spec fn reach_from<T>(t: Seq<NodeView<T>>, q: Seq<ElementView>, j: MatchJob, k: int) -> Reach
    decreases
        (q.len() - j.pos) as nat,
        budget_sum(j.path_budget),
        (t.len() - j.node) as nat,
        if j.done { 0nat } else { 1nat },
        (step(t, q, j).push.len() - k) as nat,
{
    let s = step(t, q, j);
    if !job_valid(t, q, j) || k < 0 || k >= s.push.len() {
        no_reach()
    } else {
        let c = s.push[k];
        let here = if precedes(t, q, c, j) {
            let r = reach_from(t, q, c, 0);
            Reach { collect: step(t, q, c).collect + r.collect, work: 1 + r.work }
        } else {
            no_reach()
        };
        combine(here, reach_from(t, q, j, k + 1))
    }
}

/// What job `j` and the jobs reached from it amount to.
pub open spec fn reach<T>(t: Seq<NodeView<T>>, q: Seq<ElementView>, j: MatchJob) -> Reach {
    if !job_valid(t, q, j) {
        no_reach()
    } else {
        let r = reach_from(t, q, j, 0);
        Reach { collect: step(t, q, j).collect + r.collect, work: 1 + r.work }
    }
}

/// What the jobs in `js` and the jobs reached from them amount to.
pub open spec fn jobs_reach<T>(t: Seq<NodeView<T>>, q: Seq<ElementView>, js: Seq<MatchJob>) -> Reach
    decreases js.len(),
{
    if js.len() == 0 {
        no_reach()
    } else {
        combine(reach(t, q, js[0]), jobs_reach(t, q, js.drop_first()))
    }
}

/// The query fits a walk from node `start`: from the root it starts with
/// the root marker and has none after it; from any other node it has none.
pub open spec fn query_fits<T>(t: Seq<NodeView<T>>, start: usize, q: Seq<ElementView>) -> bool {
    if t[start as int].element == ElementView::Root {
        &&& q.len() >= 1
        &&& q[0] == ElementView::Root
        &&& forall|i: int| 1 <= i < q.len() ==> #[trigger] q[i] != ElementView::Root
    } else {
        forall|i: int| 0 <= i < q.len() ==> #[trigger] q[i] != ElementView::Root
    }
}

/// The job a query starts with at node `start`: the root marker matches
/// the root, any other node's element is still to be matched.
pub open spec fn initial_job<T>(t: Seq<NodeView<T>>, start: usize, q: Seq<ElementView>) -> MatchJob {
    if t[start as int].element == ElementView::Root {
        MatchJob { node: start, done: true, tree_budget: (0, 0), pos: 1, path_budget: query_budget(q, 1) }
    } else {
        MatchJob {
            node: start,
            done: false,
            tree_budget: budget_of(t[start as int].element),
            pos: 0,
            path_budget: query_budget(q, 0),
        }
    }
}

/// The nodes whose payloads query `q` returns from node `start`: those at
/// which a walk of the tree path and the query, one common segment at a
/// time, ends with both used up. A name takes one equal segment and
/// `Wildcard((m, o))` takes `m` to `m + o` segments, on either side. A query
/// that does not fit gives none.
pub open spec fn matched_nodes<T>(t: Seq<NodeView<T>>, start: usize, q: Seq<ElementView>) -> Set<usize> {
    if query_fits(t, start, q) {
        reach(t, q, initial_job(t, start, q)).collect
    } else {
        Set::empty()
    }
}

/// Every job that a step pushes precedes the job it came from.
pub proof fn lemma_step_precedes<T>(t: Seq<NodeView<T>>, q: Seq<ElementView>, j: MatchJob)
    requires
        tree_wf(t),
        job_valid(t, q, j),
        q.len() <= usize::MAX,
    ensures
        forall|k: int|
            0 <= k < step(t, q, j).push.len() ==> #[trigger] precedes(t, q, step(t, q, j).push[k], j),
{
    let s = step(t, q, j);
    let a: Seq<MatchJob> = if j.done {
        child_jobs(t, t[j.node as int].childs, j)
    } else {
        Seq::empty()
    };
    let b: Seq<MatchJob> = if tree_may_end(t, j) {
        seq![MatchJob { done: true, ..j }]
    } else {
        Seq::empty()
    };
    let c: Seq<MatchJob> = if query_may_end(q, j) {
        seq![end_query_element(q, j)]
    } else {
        Seq::empty()
    };
    let d: Seq<MatchJob> = if tree_may_take(t, j) && query_may_take(q, j) && same_segment(t, q, j) {
        seq![take_segment(t, q, j)]
    } else {
        Seq::empty()
    };
    assert(s.push == a + b + c + d);
    assert forall|k: int| 0 <= k < s.push.len() implies #[trigger] precedes(t, q, s.push[k], j) by {
        if k < a.len() {
            assert(s.push[k] == a[k]);
            assert(j.node < t[j.node as int].childs[k] < t.len());
        } else if k < a.len() + b.len() {
            assert(s.push[k] == b[k - a.len()]);
        } else if k < a.len() + b.len() + c.len() {
            assert(s.push[k] == c[k - a.len() - b.len()]);
        } else {
            assert(s.push[k] == d[k - a.len() - b.len() - c.len()]);
        }
    }
}

/// A job reaches what its step gives and what the jobs it pushes reach.
pub proof fn lemma_job_unfold<T>(t: Seq<NodeView<T>>, q: Seq<ElementView>, j: MatchJob)
    requires
        tree_wf(t),
        job_valid(t, q, j),
        q.len() <= usize::MAX,
    ensures
        reach(t, q, j) == (Reach {
            collect: step(t, q, j).collect + jobs_reach(t, q, step(t, q, j).push).collect,
            work: 1 + jobs_reach(t, q, step(t, q, j).push).work,
        }),
{
    let s = step(t, q, j);
    lemma_reach_from(t, q, j, 0);
    assert(s.push.subrange(0, s.push.len() as int) =~= s.push);
}

proof fn lemma_reach_from<T>(t: Seq<NodeView<T>>, q: Seq<ElementView>, j: MatchJob, k: int)
    requires
        tree_wf(t),
        job_valid(t, q, j),
        q.len() <= usize::MAX,
        0 <= k <= step(t, q, j).push.len(),
    ensures
        reach_from(t, q, j, k) == jobs_reach(
            t,
            q,
            step(t, q, j).push.subrange(k, step(t, q, j).push.len() as int),
        ),
    decreases step(t, q, j).push.len() - k,
{
    let s = step(t, q, j);
    lemma_step_precedes(t, q, j);
    if k < s.push.len() {
        lemma_reach_from(t, q, j, k + 1);
        assert(s.push.subrange(k, s.push.len() as int).drop_first() =~= s.push.subrange(
            k + 1,
            s.push.len() as int,
        ));
        assert(precedes(t, q, s.push[k], j));
    } else {
        assert(s.push.subrange(k, s.push.len() as int) =~= Seq::<MatchJob>::empty());
    }
}

/// What a concatenation of job lists reaches is what each part reaches.
pub proof fn lemma_jobs_concat<T>(t: Seq<NodeView<T>>, q: Seq<ElementView>, a: Seq<MatchJob>, b: Seq<MatchJob>)
    ensures
        jobs_reach(t, q, a + b) == combine(jobs_reach(t, q, a), jobs_reach(t, q, b)),
    decreases a.len(),
{
    if a.len() > 0 {
        lemma_jobs_concat(t, q, a.drop_first(), b);
        assert((a + b).drop_first() =~= a.drop_first() + b);
        let x = reach(t, q, a[0]);
        let y = jobs_reach(t, q, a.drop_first());
        let z = jobs_reach(t, q, b);
        assert(x.collect + (y.collect + z.collect) =~= (x.collect + y.collect) + z.collect);
    } else {
        assert(a + b =~= b);
        assert(Set::<usize>::empty() + jobs_reach(t, q, b).collect =~= jobs_reach(t, q, b).collect);
    }
}

/// A list of one job reaches what that job reaches.
pub proof fn lemma_jobs_single<T>(t: Seq<NodeView<T>>, q: Seq<ElementView>, j: MatchJob)
    ensures
        jobs_reach(t, q, seq![j]).collect == reach(t, q, j).collect,
        jobs_reach(t, q, seq![j]).work == reach(t, q, j).work,
{
    assert(seq![j].drop_first() =~= Seq::<MatchJob>::empty());
    assert(jobs_reach(t, q, Seq::<MatchJob>::empty()) == no_reach());
    assert(reach(t, q, j).collect + Set::<usize>::empty() =~= reach(t, q, j).collect);
}

/// A query that does not start with the root marker matches nothing from
/// the root: it is malformed, not an error.
pub proof fn lemma_root_mismatch<T>(t: Seq<NodeView<T>>, q: Seq<ElementView>)
    requires
        tree_wf(t),
        q.len() == 0 || q[0] != ElementView::Root,
    ensures
        matched_nodes(t, 0, q) == Set::<usize>::empty(),
{
}

} // verus!
