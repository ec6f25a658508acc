use vstd::prelude::*;

use crate::matching::matched_nodes;
use crate::path::{ElementView, Path};
use crate::path_tree::{inserted, insertable, payload_at, payload_keys, NodeView, PathTree, ROOT};

verus! {

/// The arena of a tree that holds only its root.
pub open spec fn empty_tree<S>() -> Seq<NodeView<S>> {
    seq![NodeView::<S> { element: ElementView::Root, payloads: Seq::empty(), childs: Seq::empty() }]
}

/// The tree kept for `tag`, or an empty one when there is none yet.
pub open spec fn tree_or_empty<S>(m: Map<u64, Seq<NodeView<S>>>, tag: u64) -> Seq<NodeView<S>> {
    if m.contains_key(tag) {
        m[tag]
    } else {
        empty_tree()
    }
}

/// The trees after `subscriber` is attached at path `p` for payloads of
/// type `tag`.
pub open spec fn subscribed<S>(
    m: Map<u64, Seq<NodeView<S>>>,
    tag: u64,
    p: Seq<ElementView>,
    subscriber: S,
) -> Map<u64, Seq<NodeView<S>>> {
    m.insert(tag, inserted(tree_or_empty(m, tag), ROOT as int, p, subscriber))
}

/// The nodes whose subscribers a value of type `tag` published at `q`
/// reaches: none when nobody ever subscribed to that type.
pub open spec fn published_nodes<S>(m: Map<u64, Seq<NodeView<S>>>, tag: u64, q: Seq<ElementView>) -> Set<usize> {
    if m.contains_key(tag) {
        matched_nodes(m[tag], ROOT, q)
    } else {
        Set::empty()
    }
}

/// A registry of subscribers: one [`PathTree`] per payload type, each
/// type named by a tag that the caller assigns. A tree is created on the
/// first subscription for its type and kept for the life of the registry.
pub struct DataLake<S> {
    subscriptions: Vec<(u64, PathTree<S>)>,
}

impl<S> View for DataLake<S> {
    type V = Map<u64, Seq<NodeView<S>>>;

    closed spec fn view(&self) -> Map<u64, Seq<NodeView<S>>> {
        Map::new(
            |k: u64| exists|i: int| 0 <= i < self.subscriptions@.len() && self.subscriptions@[i].0 == k,
            |k: u64|
                self.subscriptions@[choose|i: int|
                    0 <= i < self.subscriptions@.len() && self.subscriptions@[i].0 == k].1@,
        )
    }
}

impl<S> DataLake<S> {
    /// Tags are pairwise distinct and every tree is well formed.
    pub closed spec fn wf(&self) -> bool {
        &&& forall|i: int, j: int|
            0 <= i < self.subscriptions@.len() && 0 <= j < self.subscriptions@.len() && i != j
                ==> self.subscriptions@[i].0 != self.subscriptions@[j].0
        &&& forall|i: int| 0 <= i < self.subscriptions@.len() ==> (#[trigger] self.subscriptions@[i]).1.wf()
    }

    /// A registry without subscribers.
    pub fn new() -> (r: DataLake<S>)
        ensures
            r.wf(),
            r@ == Map::<u64, Seq<NodeView<S>>>::empty(),
    {
        let r = DataLake { subscriptions: Vec::new() };
        assert(r@ =~= Map::<u64, Seq<NodeView<S>>>::empty());
        r
    }

    /// The index of the entry for `tag`, if there is one.
    fn find(&self, tag: u64) -> (r: Option<usize>)
        requires
            self.wf(),
        ensures
            match r {
                Some(i) => i < self.subscriptions@.len() && self.subscriptions@[i as int].0 == tag,
                None => !self@.contains_key(tag),
            },
    {
        let mut i: usize = 0;
        while i < self.subscriptions.len()
            invariant
                i <= self.subscriptions@.len(),
                forall|j: int| 0 <= j < i ==> self.subscriptions@[j].0 != tag,
            decreases self.subscriptions@.len() - i,
        {
            if self.subscriptions[i].0 == tag {
                return Some(i);
            }
            i = i + 1;
        }
        None
    }

    proof fn lemma_entry(&self, i: int)
        requires
            self.wf(),
            0 <= i < self.subscriptions@.len(),
        ensures
            self@.contains_key(self.subscriptions@[i].0),
            self@[self.subscriptions@[i].0] == self.subscriptions@[i].1@,
    {
        let k = self.subscriptions@[i].0;
        assert(self@.contains_key(k));
        let c = choose|c: int| 0 <= c < self.subscriptions@.len() && self.subscriptions@[c].0 == k;
        assert(c == i);
    }

    /// Attaches `subscriber` at `path` in the tree for payloads of type
    /// `tag`, creating that tree on the first subscription for the type.
    pub fn subscribe(&mut self, tag: u64, path: &Path, subscriber: S)
        requires
            old(self).wf(),
            insertable(path@),
        ensures
            final(self).wf(),
            final(self)@ == subscribed(old(self)@, tag, path@, subscriber),
    {
        let ghost before = self@;
        match self.find(tag) {
            Some(i) => {
                proof {
                    self.lemma_entry(i as int);
                }
                let ghost old_entries = self.subscriptions@;
                self.subscriptions[i].1.add_payload(path, subscriber);
                proof {
                    assert forall|j: int| 0 <= j < self.subscriptions@.len() implies (#[trigger] self.subscriptions@[j]).1.wf() by {
                        if j != i {
                            assert(self.subscriptions@[j] == old_entries[j]);
                        }
                    }
                    assert forall|k: u64| #[trigger] self@.contains_key(k) == subscribed(before, tag, path@, subscriber).contains_key(k) by {
                        if before.contains_key(k) {
                            let c = choose|c: int| 0 <= c < old_entries.len() && old_entries[c].0 == k;
                            assert(self.subscriptions@[c].0 == k);
                        }
                        if self@.contains_key(k) {
                            let c = choose|c: int| 0 <= c < self.subscriptions@.len() && self.subscriptions@[c].0 == k;
                            assert(old_entries[c].0 == k);
                        }
                    }
                    assert forall|k: u64| #[trigger] self@.contains_key(k) implies self@[k] == subscribed(before, tag, path@, subscriber)[k] by {
                        let c = choose|c: int| 0 <= c < self.subscriptions@.len() && self.subscriptions@[c].0 == k;
                        self.lemma_entry(c);
                        if c != i {
                            assert(old_entries[c] == self.subscriptions@[c]);
                            assert(old_entries[c].0 != tag);
                            assert(before[k] == old_entries[c].1@) by {
                                let d = choose|d: int| 0 <= d < old_entries.len() && old_entries[d].0 == k;
                                assert(d == c);
                            }
                        }
                    }
                    assert(self@ =~= subscribed(before, tag, path@, subscriber));
                }
            },
            None => {
                let mut tree = PathTree::new();
                tree.add_payload(path, subscriber);
                let ghost old_entries = self.subscriptions@;
                self.subscriptions.push((tag, tree));
                proof {
                    let n = old_entries.len();
                    assert forall|j: int| 0 <= j < self.subscriptions@.len() implies (#[trigger] self.subscriptions@[j]).1.wf() by {
                        if j < n {
                            assert(self.subscriptions@[j] == old_entries[j]);
                        }
                    }
                    assert forall|a: int, b: int|
                        0 <= a < self.subscriptions@.len() && 0 <= b < self.subscriptions@.len() && a != b
                        implies self.subscriptions@[a].0 != self.subscriptions@[b].0 by {
                        if a < n && b < n {
                            assert(self.subscriptions@[a] == old_entries[a]);
                            assert(self.subscriptions@[b] == old_entries[b]);
                        } else if a < n {
                            assert(self.subscriptions@[a] == old_entries[a]);
                            assert(before.contains_key(old_entries[a].0));
                        } else {
                            assert(self.subscriptions@[b] == old_entries[b]);
                            assert(before.contains_key(old_entries[b].0));
                        }
                    }
                    assert forall|k: u64| #[trigger] self@.contains_key(k) == subscribed(before, tag, path@, subscriber).contains_key(k) by {
                        if before.contains_key(k) {
                            let c = choose|c: int| 0 <= c < old_entries.len() && old_entries[c].0 == k;
                            assert(self.subscriptions@[c].0 == k);
                        }
                        if k == tag {
                            assert(self.subscriptions@[n as int].0 == k);
                        }
                        if self@.contains_key(k) {
                            let c = choose|c: int| 0 <= c < self.subscriptions@.len() && self.subscriptions@[c].0 == k;
                            if c < n {
                                assert(old_entries[c].0 == k);
                            }
                        }
                    }
                    assert forall|k: u64| #[trigger] self@.contains_key(k) implies self@[k] == subscribed(before, tag, path@, subscriber)[k] by {
                        let c = choose|c: int| 0 <= c < self.subscriptions@.len() && self.subscriptions@[c].0 == k;
                        self.lemma_entry(c);
                        if c < n {
                            assert(old_entries[c] == self.subscriptions@[c]);
                            assert(before[k] == old_entries[c].1@) by {
                                let d = choose|d: int| 0 <= d < old_entries.len() && old_entries[d].0 == k;
                                assert(old_entries[d] == self.subscriptions@[d]);
                            }
                        }
                    }
                    assert(self@ =~= subscribed(before, tag, path@, subscriber));
                }
            },
        }
    }

    /// The subscribers that a value of type `tag` published at `path`
    /// reaches, each exactly once; none when nobody subscribed to the type.
    pub fn publish_targets<'a>(&'a self, tag: u64, path: &Path) -> (r: Vec<&'a S>)
        requires
            self.wf(),
        ensures
            exists|ns: Seq<usize>|
                {
                    &&& ns.no_duplicates()
                    &&& ns.to_set() == published_nodes(self@, tag, path@)
                    &&& payload_keys(tree_or_empty(self@, tag), ns).no_duplicates()
                    &&& r@.len() == payload_keys(tree_or_empty(self@, tag), ns).len()
                    &&& forall|k: int|
                        0 <= k < r@.len() ==> *r@[k] == payload_at(
                            tree_or_empty(self@, tag),
                            #[trigger] payload_keys(tree_or_empty(self@, tag), ns)[k],
                        )
                },
    {
        match self.find(tag) {
            Some(i) => {
                proof {
                    self.lemma_entry(i as int);
                }
                self.subscriptions[i].1.get_payloads(path)
            },
            None => {
                let r: Vec<&'a S> = Vec::new();
                proof {
                    let ns = Seq::<usize>::empty();
                    assert(ns.to_set() =~= Set::<usize>::empty());
                    assert(payload_keys(tree_or_empty(self@, tag), ns) =~= Seq::<(usize, int)>::empty());
                }
                r
            },
        }
    }
}

/// Subscribing for one payload type never changes whom a value of another
/// type reaches: subscribers of type `a` never receive what is published as
/// type `b`.
pub proof fn lemma_type_isolation<S>(
    m: Map<u64, Seq<NodeView<S>>>,
    a: u64,
    p: Seq<ElementView>,
    subscriber: S,
    b: u64,
    q: Seq<ElementView>,
)
    requires
        a != b,
    ensures
        published_nodes(subscribed(m, a, p, subscriber), b, q) == published_nodes(m, b, q),
        tree_or_empty(subscribed(m, a, p, subscriber), b) == tree_or_empty(m, b),
{
}

} // verus!
