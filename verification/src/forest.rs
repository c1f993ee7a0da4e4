//! The abstract model of a process tree and the laws that hold of it.
use vstd::prelude::*;

use crate::event::EventView;

verus! {

/// What a [`ProcessNode`] holds, with its name as characters and its
/// children as a sequence of arena indices.
pub struct NodeView {
    pub pid: u32,
    pub ppid: u32,
    pub name: Seq<char>,
    pub start_ts: u64,
    pub exit_ts: Option<u64>,
    pub children: Seq<usize>,
}

/// `s` with `a` at position `i`, where `i` is a position of `s` or the one
/// just past its end.
pub open spec fn put<A>(s: Seq<A>, i: int, a: A) -> Seq<A> {
    if i == s.len() {
        s.push(a)
    } else {
        s.update(i, a)
    }
}

/// The abstract state of a [`ProcessTree`].
///
/// `nodes` is the arena (`None` marks a freed slot), `free` the stack of
/// freed slots, `live` maps each pid to the slot of the currently live
/// process with that pid, and `roots` lists the nodes without a recorded
/// parent. `parent` gives, for each slot, the slot of the node it was
/// attached under (`None` for a root or a freed slot), and `birth` the
/// position of its `start` among all the starts seen so far (`clock`).
/// `peak` is the largest number of nodes held at any time so far, and
/// `dropped` the number of nodes that pruning has freed so far.
pub struct Forest {
    pub nodes: Seq<Option<NodeView>>,
    pub free: Seq<usize>,
    pub live: Map<u32, usize>,
    pub roots: Seq<usize>,
    pub parent: Seq<Option<usize>>,
    pub birth: Seq<nat>,
    pub clock: nat,
    pub peak: nat,
    pub dropped: nat,
}

impl Forest {
    /// The empty forest.
    pub open spec fn empty() -> Forest {
        Forest {
            nodes: seq![],
            free: seq![],
            live: Map::empty(),
            roots: seq![],
            parent: seq![],
            birth: seq![],
            clock: 0,
            peak: 0,
            dropped: 0,
        }
    }

    /// Slot `i` holds a node.
    pub open spec fn valid(self, i: int) -> bool {
        0 <= i < self.nodes.len() && self.nodes[i] is Some
    }

    /// The node in slot `i`.
    pub open spec fn node(self, i: int) -> NodeView {
        self.nodes[i]->Some_0
    }

    /// The slots that hold a node.
    pub open spec fn held(self) -> Set<int> {
        Set::new(|i: int| self.valid(i))
    }

    /// Number of nodes held.
    pub open spec fn count(self) -> nat {
        self.held().len()
    }

    pub open spec fn free_wf(self) -> bool {
        &&& self.free.no_duplicates()
        &&& forall|k: int|
            0 <= k < self.free.len() ==> {
                let i = #[trigger] self.free[k];
                &&& i < self.nodes.len()
                &&& self.nodes[i as int] is None
            }
        &&& forall|i: int|
            0 <= i < self.nodes.len() && self.nodes[i] is None ==> #[trigger] self.free.contains(
                i as usize,
            )
    }

    pub open spec fn live_wf(self) -> bool {
        forall|p: u32|
            #[trigger] self.live.contains_key(p) ==> {
                let i = self.live[p] as int;
                &&& self.valid(i)
                &&& self.node(i).exit_ts is None
                &&& self.node(i).pid == p
            }
    }

    pub open spec fn links_wf(self) -> bool {
        &&& self.nodes.len() <= usize::MAX
        &&& self.parent.len() == self.nodes.len()
        &&& self.birth.len() == self.nodes.len()
        &&& self.roots.no_duplicates()
        &&& forall|k: int|
            0 <= k < self.roots.len() ==> {
                let r = #[trigger] self.roots[k] as int;
                &&& self.valid(r)
                &&& self.parent[r] is None
            }
        &&& forall|i: int|
            #[trigger] self.valid(i) ==> {
                &&& self.node(i).children.no_duplicates()
                &&& self.birth[i] < self.clock
                &&& match self.parent[i] {
                    None => self.roots.contains(i as usize),
                    Some(p) => {
                        &&& self.valid(p as int)
                        &&& self.node(p as int).children.contains(i as usize)
                        &&& self.birth[p as int] < self.birth[i]
                        &&& self.node(i).ppid == self.node(p as int).pid
                    },
                }
            }
        &&& forall|i: int, k: int|
            #![trigger self.node(i).children[k]]
            self.valid(i) && 0 <= k < self.node(i).children.len() ==> {
                let c = self.node(i).children[k] as int;
                &&& self.valid(c)
                &&& self.parent[c] == Some(i as usize)
            }
        &&& forall|i: int|
            0 <= i < self.nodes.len() && self.nodes[i] is None ==> #[trigger] self.parent[i]
                is None
    }

    pub open spec fn counts_wf(self) -> bool {
        &&& self.count() + self.dropped == self.clock
        &&& self.nodes.len() <= self.peak
    }

    /// The invariant that every operation keeps.
    pub open spec fn wf(self) -> bool {
        &&& self.free_wf()
        &&& self.live_wf()
        &&& self.links_wf()
        &&& self.counts_wf()
    }

    /// The slot that the next `start` fills: the most recently freed one,
    /// or a new one at the end of the arena.
    pub open spec fn next_slot(self) -> int {
        if self.free.len() > 0 {
            self.free.last() as int
        } else {
            self.nodes.len() as int
        }
    }

    /// The state after `start <pid> <ppid> <ts> <name>`.
    pub open spec fn started(self, pid: u32, ppid: u32, ts: u64, name: Seq<char>) -> Forest {
        let index = self.next_slot();
        let fresh = NodeView {
            pid,
            ppid,
            name,
            start_ts: ts,
            exit_ts: None,
            children: seq![],
        };
        let nodes = put(self.nodes, index, Some(fresh));
        let free = if self.free.len() > 0 {
            self.free.drop_last()
        } else {
            self.free
        };
        let has_parent = self.live.contains_key(ppid);
        let p = self.live[ppid] as int;
        let pn = self.node(p);
        Forest {
            nodes: if has_parent {
                nodes.update(
                    p,
                    Some(
                        NodeView {
                            pid: pn.pid,
                            ppid: pn.ppid,
                            name: pn.name,
                            start_ts: pn.start_ts,
                            exit_ts: pn.exit_ts,
                            children: pn.children.push(index as usize),
                        },
                    ),
                )
            } else {
                nodes
            },
            free,
            live: self.live.insert(pid, index as usize),
            roots: if has_parent {
                self.roots
            } else {
                self.roots.push(index as usize)
            },
            parent: put(
                self.parent,
                index,
                if has_parent {
                    Some(p as usize)
                } else {
                    None
                },
            ),
            birth: put(self.birth, index, self.clock),
            clock: self.clock + 1,
            peak: if self.count() + 1 > self.peak {
                self.count() + 1
            } else {
                self.peak
            },
            dropped: self.dropped,
        }
    }

    /// The state after `exit <pid> <ts>`: the live process with that pid is
    /// marked exited and no longer live; an unknown pid changes nothing.
    pub open spec fn exited(self, pid: u32, ts: u64) -> Forest {
        if self.live.contains_key(pid) {
            let i = self.live[pid] as int;
            let n = self.node(i);
            Forest {
                nodes: self.nodes.update(
                    i,
                    Some(
                        NodeView {
                            pid: n.pid,
                            ppid: n.ppid,
                            name: n.name,
                            start_ts: n.start_ts,
                            exit_ts: Some(ts),
                            children: n.children,
                        },
                    ),
                ),
                live: self.live.remove(pid),
                ..self
            }
        } else {
            self
        }
    }

    /// The state after an event.
    pub open spec fn applied(self, e: EventView) -> Forest {
        match e {
            EventView::Start { pid, ppid, ts, name } => self.started(pid, ppid, ts, name),
            EventView::Exit { pid, ts } => self.exited(pid, ts),
        }
    }

    /// `d` is `a` or lies below it: following parents up from `d` reaches `a`.
    pub open spec fn descends(self, d: int, a: int) -> bool
        decreases self.birth[d],
    {
        if d == a {
            true
        } else {
            match self.parent[d] {
                Some(p) => self.birth[p as int] < self.birth[d] && self.descends(p as int, a),
                None => false,
            }
        }
    }

    /// Slot `i` holds a node whose whole subtree has finished: the node
    /// and every node below it have exited.
    pub open spec fn finished(self, i: int) -> bool {
        &&& self.valid(i)
        &&& forall|d: int| #[trigger]
            self.descends(d, i) && self.valid(d) ==> self.node(d).exit_ts is Some
    }

    /// The slots that pruning frees in the subtree of `i`, in the order in
    /// which they are freed: each child's subtree in turn, then `i` itself.
    pub open spec fn prune_order(self, i: int) -> Seq<usize>
        decreases self.clock - self.birth[i], 1int, 0int,
    {
        self.prune_order_below(i, self.node(i).children.len() as int) + if self.finished(i) {
            seq![i as usize]
        } else {
            seq![]
        }
    }

    /// The slots freed in the subtrees of the first `k` children of `i`.
    pub open spec fn prune_order_below(self, i: int, k: int) -> Seq<usize>
        decreases self.clock - self.birth[i], 0int, k,
    {
        if k <= 0 {
            seq![]
        } else {
            let c = self.node(i).children[k - 1] as int;
            self.prune_order_below(i, k - 1) + if self.birth[i] < self.birth[c] < self.clock {
                self.prune_order(c)
            } else {
                seq![]
            }
        }
    }

    /// The slots freed in the subtrees of the first `k` roots.
    pub open spec fn prune_order_roots(self, k: int) -> Seq<usize>
        decreases k,
    {
        if k <= 0 {
            seq![]
        } else {
            self.prune_order_roots(k - 1) + self.prune_order(self.roots[k - 1] as int)
        }
    }

    /// All the slots that pruning frees, in order.
    pub open spec fn freed(self) -> Seq<usize> {
        self.prune_order_roots(self.roots.len() as int)
    }

    /// Whether pruning keeps the subtree at slot `c`.
    pub open spec fn keeps(self) -> spec_fn(usize) -> bool {
        |c: usize| !self.finished(c as int)
    }

    /// The children of `i` whose subtrees have not finished.
    pub open spec fn kept_children(self, i: int) -> Seq<usize> {
        self.node(i).children.filter(self.keeps())
    }

    /// Slot `j` after pruning: emptied if its subtree finished, otherwise
    /// the same node with its finished children dropped.
    pub open spec fn pruned_slot(self, j: int) -> Option<NodeView> {
        if self.finished(j) {
            None
        } else if self.valid(j) {
            let n = self.node(j);
            Some(NodeView { children: self.kept_children(j), ..n })
        } else {
            self.nodes[j]
        }
    }

    /// `j` lies below one of the first `k` children of `i`.
    pub open spec fn under_children(self, j: int, i: int, k: int) -> bool {
        exists|m: int| 0 <= m < k && self.descends(j, #[trigger] self.node(i).children[m] as int)
    }

    /// `j` lies below one of the first `k` roots.
    pub open spec fn under_roots(self, j: int, k: int) -> bool {
        exists|m: int| 0 <= m < k && self.descends(j, #[trigger] self.roots[m] as int)
    }

    /// The state after pruning every finished subtree.
    pub open spec fn pruned(self) -> Forest {
        Forest {
            nodes: Seq::new(self.nodes.len(), |j: int| self.pruned_slot(j)),
            free: self.free + self.freed(),
            live: self.live,
            roots: self.roots.filter(self.keeps()),
            parent: Seq::new(
                self.nodes.len(),
                |j: int|
                    if self.finished(j) {
                        None
                    } else {
                        self.parent[j]
                    },
            ),
            birth: self.birth,
            clock: self.clock,
            peak: self.peak,
            dropped: self.dropped + self.freed().len(),
        }
    }
}

/// Going up from `d` only meets earlier starts.
pub proof fn lemma_descends_birth(f: Forest, d: int, a: int)
    requires
        f.descends(d, a),
    ensures
        d == a || f.birth[a] < f.birth[d],
    decreases f.birth[d],
{
    if d != a {
        let p = f.parent[d]->Some_0 as int;
        lemma_descends_birth(f, p, a);
    }
}

pub proof fn lemma_descends_trans(f: Forest, d: int, m: int, a: int)
    requires
        f.descends(d, m),
        f.descends(m, a),
    ensures
        f.descends(d, a),
    decreases f.birth[d],
{
    if d != m {
        let p = f.parent[d]->Some_0 as int;
        lemma_descends_trans(f, p, m, a);
    }
}

/// The ancestors of a node form a chain.
pub proof fn lemma_descends_unique(f: Forest, d: int, a: int, b: int)
    requires
        f.descends(d, a),
        f.descends(d, b),
    ensures
        f.descends(a, b) || f.descends(b, a),
    decreases f.birth[d],
{
    if d != a && d != b {
        let p = f.parent[d]->Some_0 as int;
        lemma_descends_unique(f, p, a, b);
    }
}

pub proof fn lemma_child_descends(f: Forest, i: int, k: int)
    requires
        f.wf(),
        f.valid(i),
        0 <= k < f.node(i).children.len(),
    ensures
        f.descends(f.node(i).children[k] as int, i),
        f.valid(f.node(i).children[k] as int),
        f.birth[i] < f.birth[f.node(i).children[k] as int],
{
    let c = f.node(i).children[k] as int;
    assert(f.valid(c));
    assert(f.parent[c] == Some(i as usize));
    assert(f.descends(i, i));
}

/// A node strictly below `a` lies below one of `a`'s children.
pub proof fn lemma_descends_step(f: Forest, d: int, a: int)
    requires
        f.wf(),
        f.valid(d),
        f.descends(d, a),
        d != a,
    ensures
        f.valid(a),
        exists|k: int|
            0 <= k < f.node(a).children.len() && f.descends(
                d,
                #[trigger] f.node(a).children[k] as int,
            ),
    decreases f.birth[d],
{
    let p = f.parent[d]->Some_0 as int;
    assert(f.valid(p));
    if p == a {
        let k = choose|k: int| 0 <= k < f.node(a).children.len() && f.node(a).children[k] == d as usize;
        assert(f.descends(d, f.node(a).children[k] as int));
    } else {
        lemma_descends_step(f, p, a);
        let k = choose|k: int|
            0 <= k < f.node(a).children.len() && f.descends(p, #[trigger] f.node(a).children[k] as int);
        assert(f.descends(d, p)) by {
            assert(f.descends(p, p));
        }
        lemma_descends_trans(f, d, p, f.node(a).children[k] as int);
    }
}

/// Every node lies below one of the roots.
pub proof fn lemma_descends_root(f: Forest, d: int)
    requires
        f.wf(),
        f.valid(d),
    ensures
        exists|k: int| 0 <= k < f.roots.len() && f.descends(d, #[trigger] f.roots[k] as int),
    decreases f.birth[d],
{
    match f.parent[d] {
        None => {
            let k = choose|k: int| 0 <= k < f.roots.len() && f.roots[k] == d as usize;
            assert(f.descends(d, f.roots[k] as int));
        },
        Some(p) => {
            lemma_descends_root(f, p as int);
            let k = choose|k: int|
                0 <= k < f.roots.len() && f.descends(p as int, #[trigger] f.roots[k] as int);
            assert(f.descends(d, p as int)) by {
                assert(f.descends(p as int, p as int));
            }
            lemma_descends_trans(f, d, p as int, f.roots[k] as int);
        },
    }
}

/// Different children of one node have disjoint subtrees.
pub proof fn lemma_siblings_disjoint(f: Forest, i: int, a: int, b: int, d: int)
    requires
        f.wf(),
        f.valid(i),
        0 <= a < f.node(i).children.len(),
        0 <= b < f.node(i).children.len(),
        a != b,
    ensures
        !(f.descends(d, f.node(i).children[a] as int) && f.descends(
            d,
            f.node(i).children[b] as int,
        )),
{
    let ca = f.node(i).children[a] as int;
    let cb = f.node(i).children[b] as int;
    lemma_child_descends(f, i, a);
    lemma_child_descends(f, i, b);
    if f.descends(d, ca) && f.descends(d, cb) {
        lemma_descends_unique(f, d, ca, cb);
        assert(ca != cb);
        if f.descends(ca, cb) {
            assert(f.descends(i, cb));
            lemma_descends_birth(f, i, cb);
        } else {
            assert(f.descends(i, ca));
            lemma_descends_birth(f, i, ca);
        }
    }
}

/// Different roots have disjoint subtrees.
pub proof fn lemma_roots_disjoint(f: Forest, a: int, b: int, d: int)
    requires
        f.wf(),
        0 <= a < f.roots.len(),
        0 <= b < f.roots.len(),
        a != b,
    ensures
        !(f.descends(d, f.roots[a] as int) && f.descends(d, f.roots[b] as int)),
{
    let ra = f.roots[a] as int;
    let rb = f.roots[b] as int;
    if f.descends(d, ra) && f.descends(d, rb) {
        lemma_descends_unique(f, d, ra, rb);
        assert(ra != rb);
    }
}

/// A subtree has finished exactly when its root has exited and every
/// child's subtree has finished.
pub proof fn lemma_finished_step(f: Forest, i: int)
    requires
        f.wf(),
        f.valid(i),
    ensures
        f.finished(i) <==> (f.node(i).exit_ts is Some && forall|k: int|
            0 <= k < f.node(i).children.len() ==> f.finished(
                #[trigger] f.node(i).children[k] as int,
            )),
{
    if f.finished(i) {
        assert(f.descends(i, i));
        assert forall|k: int| 0 <= k < f.node(i).children.len() implies f.finished(
            #[trigger] f.node(i).children[k] as int,
        ) by {
            let c = f.node(i).children[k] as int;
            lemma_child_descends(f, i, k);
            assert forall|d: int| #[trigger] f.descends(d, c) && f.valid(d) implies f.node(
                d,
            ).exit_ts is Some by {
                lemma_descends_trans(f, d, c, i);
            }
        }
    }
    if f.node(i).exit_ts is Some && forall|k: int|
        0 <= k < f.node(i).children.len() ==> f.finished(
            #[trigger] f.node(i).children[k] as int,
        ) {
        assert forall|d: int| #[trigger] f.descends(d, i) && f.valid(d) implies f.node(
            d,
        ).exit_ts is Some by {
            if d != i {
                lemma_descends_step(f, d, i);
                let k = choose|k: int|
                    0 <= k < f.node(i).children.len() && f.descends(
                        d,
                        #[trigger] f.node(i).children[k] as int,
                    );
                assert(f.finished(f.node(i).children[k] as int));
            }
        }
    }
}

/// Below a finished subtree, every subtree has finished.
pub proof fn lemma_finished_below(f: Forest, p: int, j: int)
    requires
        f.finished(p),
        f.valid(j),
        f.descends(j, p),
    ensures
        f.finished(j),
{
    assert forall|d: int| #[trigger] f.descends(d, j) && f.valid(d) implies f.node(
        d,
    ).exit_ts is Some by {
        lemma_descends_trans(f, d, j, p);
    }
}

/// The slots freed in a subtree are, without repetition, exactly its
/// finished nodes.
pub proof fn lemma_prune_order(f: Forest, i: int)
    requires
        f.wf(),
        f.valid(i),
    ensures
        f.prune_order(i).no_duplicates(),
        forall|x: usize|
            #[trigger] f.prune_order(i).contains(x) <==> (f.valid(x as int) && f.descends(
                x as int,
                i,
            ) && f.finished(x as int)),
    decreases f.clock - f.birth[i], 1int, 0int,
{
    let n = f.node(i).children.len() as int;
    lemma_prune_order_below(f, i, n);
    let below = f.prune_order_below(i, n);
    let own: Seq<usize> = if f.finished(i) {
        seq![i as usize]
    } else {
        seq![]
    };
    assert(f.prune_order(i) == below + own);
    assert forall|a: int, b: int| 0 <= a < below.len() && 0 <= b < own.len() implies below[a]
        != own[b] by {
        assert(below.contains(below[a]));
        let k = choose|k: int|
            0 <= k < n && f.descends(below[a] as int, #[trigger] f.node(i).children[k] as int);
        lemma_child_descends(f, i, k);
        lemma_descends_birth(f, below[a] as int, f.node(i).children[k] as int);
    }
    vstd::seq_lib::lemma_no_dup_in_concat(below, own);
    assert forall|x: usize| #[trigger] f.prune_order(i).contains(x) <==> (f.valid(x as int)
        && f.descends(x as int, i) && f.finished(x as int)) by {
        if f.prune_order(i).contains(x) {
            let j = choose|j: int| 0 <= j < f.prune_order(i).len() && f.prune_order(i)[j] == x;
            if j < below.len() {
                assert(below.contains(x));
                let k = choose|k: int|
                    0 <= k < n && f.descends(x as int, #[trigger] f.node(i).children[k] as int);
                lemma_child_descends(f, i, k);
                lemma_descends_trans(f, x as int, f.node(i).children[k] as int, i);
            } else {
                assert(own.contains(x));
            }
        }
        if f.valid(x as int) && f.descends(x as int, i) && f.finished(x as int) {
            if x as int == i {
                assert(own[0] == x);
                assert(f.prune_order(i)[below.len() as int] == x);
            } else {
                lemma_descends_step(f, x as int, i);
                assert(below.contains(x));
                let j = choose|j: int| 0 <= j < below.len() && below[j] == x;
                assert(f.prune_order(i)[j] == x);
            }
        }
    }
}

/// The slots freed under the first `k` children of `i` are, without
/// repetition, exactly the finished nodes below those children.
pub proof fn lemma_prune_order_below(f: Forest, i: int, k: int)
    requires
        f.wf(),
        f.valid(i),
        0 <= k <= f.node(i).children.len(),
    ensures
        f.prune_order_below(i, k).no_duplicates(),
        forall|x: usize|
            #[trigger] f.prune_order_below(i, k).contains(x) <==> (f.valid(x as int) && f.finished(
                x as int,
            ) && exists|m: int|
                0 <= m < k && f.descends(x as int, #[trigger] f.node(i).children[m] as int)),
    decreases f.clock - f.birth[i], 0int, k,
{
    if k > 0 {
        let c = f.node(i).children[k - 1] as int;
        lemma_child_descends(f, i, k - 1);
        assert(f.birth[c] < f.clock);
        lemma_prune_order_below(f, i, k - 1);
        lemma_prune_order(f, c);
        let left = f.prune_order_below(i, k - 1);
        let right = f.prune_order(c);
        assert(f.prune_order_below(i, k) == left + right);
        assert forall|a: int, b: int| 0 <= a < left.len() && 0 <= b < right.len() implies left[a]
            != right[b] by {
            if left[a] == right[b] {
                assert(left.contains(left[a]));
                assert(right.contains(right[b]));
                let m = choose|m: int|
                    0 <= m < k - 1 && f.descends(
                        left[a] as int,
                        #[trigger] f.node(i).children[m] as int,
                    );
                lemma_siblings_disjoint(f, i, m, k - 1, left[a] as int);
            }
        }
        vstd::seq_lib::lemma_no_dup_in_concat(left, right);
        assert forall|x: usize| #[trigger] f.prune_order_below(i, k).contains(x) <==> (f.valid(
            x as int,
        ) && f.finished(x as int) && exists|m: int|
            0 <= m < k && f.descends(x as int, #[trigger] f.node(i).children[m] as int)) by {
            if f.prune_order_below(i, k).contains(x) {
                let j = choose|j: int|
                    0 <= j < f.prune_order_below(i, k).len() && f.prune_order_below(i, k)[j] == x;
                if j < left.len() {
                    assert(left.contains(x));
                } else {
                    assert(right[j - left.len()] == x);
                    assert(right.contains(x));
                    assert(f.descends(x as int, f.node(i).children[k - 1] as int));
                }
            }
            if f.valid(x as int) && f.finished(x as int) && exists|m: int|
                0 <= m < k && f.descends(x as int, #[trigger] f.node(i).children[m] as int) {
                let m = choose|m: int|
                    0 <= m < k && f.descends(x as int, #[trigger] f.node(i).children[m] as int);
                if m < k - 1 {
                    assert(left.contains(x));
                    let j = choose|j: int| 0 <= j < left.len() && left[j] == x;
                    assert(f.prune_order_below(i, k)[j] == x);
                } else {
                    assert(right.contains(x));
                    let j = choose|j: int| 0 <= j < right.len() && right[j] == x;
                    assert(f.prune_order_below(i, k)[left.len() + j] == x);
                }
            }
        }
    }
}

/// The slots freed under the first `k` roots are, without repetition,
/// exactly the finished nodes below those roots.
pub proof fn lemma_prune_order_roots(f: Forest, k: int)
    requires
        f.wf(),
        0 <= k <= f.roots.len(),
    ensures
        f.prune_order_roots(k).no_duplicates(),
        forall|x: usize|
            #[trigger] f.prune_order_roots(k).contains(x) <==> (f.valid(x as int) && f.finished(
                x as int,
            ) && exists|m: int| 0 <= m < k && f.descends(x as int, #[trigger] f.roots[m] as int)),
    decreases k,
{
    if k > 0 {
        let r = f.roots[k - 1] as int;
        lemma_prune_order_roots(f, k - 1);
        lemma_prune_order(f, r);
        let left = f.prune_order_roots(k - 1);
        let right = f.prune_order(r);
        assert(f.prune_order_roots(k) == left + right);
        assert forall|a: int, b: int| 0 <= a < left.len() && 0 <= b < right.len() implies left[a]
            != right[b] by {
            if left[a] == right[b] {
                assert(left.contains(left[a]));
                assert(right.contains(right[b]));
                let m = choose|m: int|
                    0 <= m < k - 1 && f.descends(left[a] as int, #[trigger] f.roots[m] as int);
                lemma_roots_disjoint(f, m, k - 1, left[a] as int);
            }
        }
        vstd::seq_lib::lemma_no_dup_in_concat(left, right);
        assert forall|x: usize| #[trigger] f.prune_order_roots(k).contains(x) <==> (f.valid(
            x as int,
        ) && f.finished(x as int) && exists|m: int|
            0 <= m < k && f.descends(x as int, #[trigger] f.roots[m] as int)) by {
            if f.prune_order_roots(k).contains(x) {
                let j = choose|j: int|
                    0 <= j < f.prune_order_roots(k).len() && f.prune_order_roots(k)[j] == x;
                if j < left.len() {
                    assert(left.contains(x));
                } else {
                    assert(right[j - left.len()] == x);
                    assert(right.contains(x));
                    assert(f.descends(x as int, f.roots[k - 1] as int));
                }
            }
            if f.valid(x as int) && f.finished(x as int) && exists|m: int|
                0 <= m < k && f.descends(x as int, #[trigger] f.roots[m] as int) {
                let m = choose|m: int|
                    0 <= m < k && f.descends(x as int, #[trigger] f.roots[m] as int);
                if m < k - 1 {
                    assert(left.contains(x));
                    let j = choose|j: int| 0 <= j < left.len() && left[j] == x;
                    assert(f.prune_order_roots(k)[j] == x);
                } else {
                    assert(right.contains(x));
                    let j = choose|j: int| 0 <= j < right.len() && right[j] == x;
                    assert(f.prune_order_roots(k)[left.len() + j] == x);
                }
            }
        }
    }
}

/// Pruning frees, without repetition, exactly the nodes whose subtrees
/// have finished.
pub proof fn lemma_freed(f: Forest)
    requires
        f.wf(),
    ensures
        f.freed().no_duplicates(),
        forall|x: usize| #[trigger]
            f.freed().contains(x) <==> (f.valid(x as int) && f.finished(x as int)),
{
    lemma_prune_order_roots(f, f.roots.len() as int);
    assert forall|x: usize| f.valid(x as int) && f.finished(x as int) implies #[trigger] f.freed().contains(
        x,
    ) by {
        lemma_descends_root(f, x as int);
    }
}

/// Dropping elements keeps a sequence free of repetitions.
pub proof fn lemma_filter_no_duplicates(s: Seq<usize>, keep: spec_fn(usize) -> bool)
    requires
        s.no_duplicates(),
    ensures
        s.filter(keep).no_duplicates(),
    decreases s.len(),
{
    if s.len() > 0 {
        let rest = s.drop_last();
        assert(rest.no_duplicates());
        lemma_filter_no_duplicates(rest, keep);
        assert(s == rest.push(s.last()));
        rest.lemma_filter_push(s.last(), keep);
        if keep(s.last()) {
            if rest.filter(keep).contains(s.last()) {
                rest.lemma_filter_contains_rev(keep, s.last());
                let j = choose|j: int| 0 <= j < rest.len() && rest[j] == s.last();
                assert(s[j] == s[s.len() - 1]);
            }
        }
    }
}

/// Pruning keeps the invariant.
pub proof fn lemma_pruned_wf(f: Forest)
    requires
        f.wf(),
    ensures
        f.pruned().wf(),
{
    let g = f.pruned();
    lemma_freed(f);
    let keep = f.keeps();
    assert forall|i: int| 0 <= i < f.nodes.len() implies #[trigger] g.valid(i) == (f.valid(i)
        && !f.finished(i)) by {}
    assert forall|i: int| #[trigger] g.valid(i) implies g.node(i).pid == f.node(i).pid
        && g.node(i).exit_ts == f.node(i).exit_ts && g.node(i).children == f.kept_children(i)
        && g.parent[i] == f.parent[i] by {}
    // free
    assert forall|a: int, b: int| 0 <= a < f.free.len() && 0 <= b < f.freed().len() implies f.free[a]
        != f.freed()[b] by {
        assert(f.freed().contains(f.freed()[b]));
    }
    vstd::seq_lib::lemma_no_dup_in_concat(f.free, f.freed());
    assert forall|k: int| 0 <= k < g.free.len() implies {
        let i = #[trigger] g.free[k];
        &&& i < g.nodes.len()
        &&& g.nodes[i as int] is None
    } by {
        if k >= f.free.len() {
            assert(f.freed().contains(g.free[k]));
        }
    }
    assert forall|i: int|
        0 <= i < g.nodes.len() && g.nodes[i] is None implies #[trigger] g.free.contains(
        i as usize,
    ) by {
        if f.nodes[i] is None {
            assert(f.free.contains(i as usize));
            let k = choose|k: int| 0 <= k < f.free.len() && f.free[k] == i as usize;
            assert(g.free[k] == i as usize);
        } else {
            assert(f.finished(i));
            assert(f.freed().contains(i as usize));
            let k = choose|k: int| 0 <= k < f.freed().len() && f.freed()[k] == i as usize;
            assert(g.free[f.free.len() + k] == i as usize);
        }
    }
    assert(g.free_wf());
    // live
    assert forall|p: u32| #[trigger] g.live.contains_key(p) implies {
        let i = g.live[p] as int;
        &&& g.valid(i)
        &&& g.node(i).exit_ts is None
        &&& g.node(i).pid == p
    } by {
        let i = f.live[p] as int;
        assert(f.descends(i, i));
    }
    assert(g.live_wf());
    // links
    lemma_filter_no_duplicates(f.roots, keep);
    assert forall|k: int| 0 <= k < g.roots.len() implies {
        let r = #[trigger] g.roots[k] as int;
        &&& g.valid(r)
        &&& g.parent[r] is None
    } by {
        f.roots.lemma_filter_pred(keep, k);
        assert(g.roots.contains(g.roots[k]));
        f.roots.lemma_filter_contains_rev(keep, g.roots[k]);
    }
    assert forall|i: int| #[trigger] g.valid(i) implies {
        &&& g.node(i).children.no_duplicates()
        &&& g.birth[i] < g.clock
        &&& match g.parent[i] {
            None => g.roots.contains(i as usize),
            Some(p) => {
                &&& g.valid(p as int)
                &&& g.node(p as int).children.contains(i as usize)
                &&& g.birth[p as int] < g.birth[i]
            },
        }
    } by {
        assert(f.valid(i));
        lemma_filter_no_duplicates(f.node(i).children, keep);
        match f.parent[i] {
            None => {
                let k = choose|k: int| 0 <= k < f.roots.len() && f.roots[k] == i as usize;
                f.roots.lemma_filter_contains(keep, k);
            },
            Some(p) => {
                let p = p as int;
                let k = choose|k: int|
                    0 <= k < f.node(p).children.len() && f.node(p).children[k] == i as usize;
                if f.finished(p) {
                    lemma_child_descends(f, p, k);
                    lemma_finished_below(f, p, i);
                }
                f.node(p).children.lemma_filter_contains(keep, k);
            },
        }
    }
    assert forall|i: int, k: int|
        #![trigger g.node(i).children[k]]
        g.valid(i) && 0 <= k < g.node(i).children.len() implies {
        let c = g.node(i).children[k] as int;
        &&& g.valid(c)
        &&& g.parent[c] == Some(i as usize)
    } by {
        let ch = f.node(i).children;
        ch.lemma_filter_pred(keep, k);
        assert(ch.filter(keep).contains(ch.filter(keep)[k]));
        ch.lemma_filter_contains_rev(keep, ch.filter(keep)[k]);
        let m = choose|m: int| 0 <= m < ch.len() && ch[m] == ch.filter(keep)[k];
        assert(f.node(i).children[m] == g.node(i).children[k]);
    }
    assert(g.links_wf());
    lemma_count(f);
    lemma_count(g);
    assert(g.counts_wf());
}

/// The arena holds as many nodes as it has slots that are not free.
pub proof fn lemma_count(f: Forest)
    requires
        f.free_wf(),
        f.nodes.len() <= usize::MAX,
    ensures
        f.free.len() + f.count() == f.nodes.len(),
{
    let n = f.nodes.len() as int;
    let all = vstd::set_lib::set_int_range(0, n);
    let empty_slots = Set::new(|i: int| 0 <= i < n && f.nodes[i] is None);
    vstd::set_lib::lemma_int_range(0, n);
    assert(f.held().subset_of(all));
    assert(empty_slots.subset_of(all));
    vstd::set_lib::lemma_len_subset(f.held(), all);
    vstd::set_lib::lemma_len_subset(empty_slots, all);
    assert(f.held() + empty_slots =~= all);
    assert(f.held().disjoint(empty_slots));
    vstd::set_lib::lemma_set_disjoint_lens(f.held(), empty_slots);
    let as_int = |x: usize| x as int;
    let free_ints = f.free.map_values(as_int);
    assert(vstd::relations::injective(as_int));
    f.free.lemma_no_duplicates_injective(as_int);
    assert forall|i: int| #[trigger] empty_slots.contains(i) == free_ints.to_set().contains(i) by {
        if empty_slots.contains(i) {
            assert(f.free.contains(i as usize));
            let k = choose|k: int| 0 <= k < f.free.len() && f.free[k] == i as usize;
            assert(free_ints[k] == i);
        }
        if free_ints.to_set().contains(i) {
            let k = choose|k: int| 0 <= k < free_ints.len() && free_ints[k] == i;
            assert(f.free[k] as int == i);
        }
    }
    assert(empty_slots =~= free_ints.to_set());
    free_ints.unique_seq_to_set();
}

pub proof fn lemma_started_wf(f: Forest, pid: u32, ppid: u32, ts: u64, name: Seq<char>)
    requires
        f.wf(),
        f.free.len() > 0 || f.nodes.len() < usize::MAX,
    ensures
        f.started(pid, ppid, ts, name).wf(),
{
    let g = f.started(pid, ppid, ts, name);
    let index = f.next_slot();
    let has_parent = f.live.contains_key(ppid);
    let p = f.live[ppid] as int;
    assert(!f.valid(index));
    if f.free.len() > 0 {
        assert(f.free[f.free.len() - 1] == f.free.last());
    }
    assert(g.nodes.len() == f.nodes.len() || (g.nodes.len() == f.nodes.len() + 1 && index
        == f.nodes.len()));
    assert(g.valid(index));
    assert(g.node(index).children == Seq::<usize>::empty());
    assert(g.node(index).exit_ts is None);
    assert(g.node(index).pid == pid);
    if has_parent {
        assert(f.valid(p));
        assert(p != index);
        assert(g.node(p).children == f.node(p).children.push(index as usize));
    }
    assert forall|i: int| i != index && !(has_parent && i == p) && 0 <= i < f.nodes.len() implies g.nodes[i]
        == f.nodes[i] by {}
    assert forall|i: int| i != index && 0 <= i < f.nodes.len() implies #[trigger] g.valid(i)
        == f.valid(i) && g.node(i).pid == f.node(i).pid && g.node(i).exit_ts == f.node(i).exit_ts
        && g.parent[i] == f.parent[i] && g.birth[i] == f.birth[i] by {}
    assert(g.free_wf()) by {
        if f.free.len() > 0 {
            assert forall|i: int|
                0 <= i < g.nodes.len() && g.nodes[i] is None implies #[trigger] g.free.contains(
                i as usize,
            ) by {
                assert(i != index);
                assert(f.nodes[i] is None);
                assert(f.free.contains(i as usize));
                let k = choose|k: int| 0 <= k < f.free.len() && f.free[k] == i as usize;
                assert(f.free[f.free.len() - 1] as int == index);
                assert(k != f.free.len() - 1);
                assert(g.free[k] == i as usize);
            }
        }
    }
    assert forall|q: u32| #[trigger] g.live.contains_key(q) implies {
        let i = g.live[q] as int;
        &&& g.valid(i)
        &&& g.node(i).exit_ts is None
        &&& g.node(i).pid == q
    } by {
        if q != pid {
            let i = f.live[q] as int;
            assert(f.valid(i));
            assert(i != index);
            assert(g.live[q] == f.live[q]);
        }
    }
    assert(g.live_wf());
    assert forall|k: int| 0 <= k < g.roots.len() implies {
        let r = #[trigger] g.roots[k] as int;
        &&& g.valid(r)
        &&& g.parent[r] is None
    } by {
        if k < f.roots.len() {
            assert(g.roots[k] == f.roots[k]);
        }
    }
    assert(g.roots.no_duplicates());
    assert forall|i: int| #[trigger] g.valid(i) implies {
        &&& g.node(i).children.no_duplicates()
        &&& g.birth[i] < g.clock
        &&& match g.parent[i] {
            None => g.roots.contains(i as usize),
            Some(q) => {
                &&& g.valid(q as int)
                &&& g.node(q as int).children.contains(i as usize)
                &&& g.birth[q as int] < g.birth[i]
            },
        }
    } by {
        if i == index {
            if has_parent {
                assert(g.node(p).children.last() == index as usize);
                assert(g.node(p).children[g.node(p).children.len() - 1] == index as usize);
            } else {
                assert(g.roots[g.roots.len() - 1] == index as usize);
            }
        } else {
            assert(f.valid(i));
            if f.parent[i] is None {
                let k = choose|k: int| 0 <= k < f.roots.len() && f.roots[k] == i as usize;
                assert(g.roots[k] == i as usize);
            } else {
                let q = f.parent[i]->Some_0 as int;
                let k = choose|k: int|
                    0 <= k < f.node(q).children.len() && f.node(q).children[k] == i as usize;
                assert(g.node(q).children[k] == i as usize);
            }
            if has_parent && i == p {
                assert forall|a: int, b: int|
                    0 <= a < b < g.node(p).children.len() implies g.node(p).children[a]
                    != g.node(p).children[b] by {
                    if b == g.node(p).children.len() - 1 {
                        assert(f.node(p).children[a] != index as usize);
                    }
                }
            }
        }
    }
    assert forall|i: int, k: int|
        #![trigger g.node(i).children[k]]
        g.valid(i) && 0 <= k < g.node(i).children.len() implies {
        let c = g.node(i).children[k] as int;
        &&& g.valid(c)
        &&& g.parent[c] == Some(i as usize)
    } by {
        if i == index {
        } else if has_parent && i == p && k == f.node(p).children.len() {
        } else {
            assert(g.node(i).children[k] == f.node(i).children[k]);
        }
    }
    assert(g.links_wf());
    lemma_count(f);
    lemma_count(g);
    assert(g.counts_wf());
}

pub proof fn lemma_exited_wf(f: Forest, pid: u32, ts: u64)
    requires
        f.wf(),
    ensures
        f.exited(pid, ts).wf(),
{
    let g = f.exited(pid, ts);
    if f.live.contains_key(pid) {
        let index = f.live[pid] as int;
        assert forall|i: int| 0 <= i < f.nodes.len() implies #[trigger] g.valid(i) == f.valid(i)
            && g.node(i).pid == f.node(i).pid && g.node(i).children == f.node(i).children && (i
            != index ==> g.nodes[i] == f.nodes[i]) by {}
        assert(g.live_wf());
        assert(g.links_wf());
        assert(g.free_wf());
        lemma_count(f);
        lemma_count(g);
    }
}

} // verus!
