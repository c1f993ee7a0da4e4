//! The process tree: an arena of nodes linked by index.
use std::collections::HashMap;
use vstd::prelude::*;

use crate::event::ProcessEvent;
use crate::forest::{
    lemma_child_descends, lemma_descends_birth, lemma_descends_root, lemma_descends_step,
    lemma_count, lemma_descends_trans, lemma_exited_wf, lemma_finished_step, lemma_pruned_wf,
    lemma_roots_disjoint, lemma_siblings_disjoint, lemma_started_wf, put, Forest, NodeView,
};

verus! {

broadcast use vstd::std_specs::hash::group_hash_axioms;

/// One process as recorded by the tree. Nodes reference each other by
/// index into `ProcessTree`'s arena rather than by pointer, so the
/// whole structure lives in a single Vec.
#[derive(Debug, Clone)]
pub struct ProcessNode {
    pub pid: u32,
    pub ppid: u32,
    pub name: String,
    pub start_ts: u64,
    pub exit_ts: Option<u64>,
    pub children: Vec<usize>,
}

impl View for ProcessNode {
    type V = NodeView;

    open spec fn view(&self) -> NodeView {
        NodeView {
            pid: self.pid,
            ppid: self.ppid,
            name: self.name@,
            start_ts: self.start_ts,
            exit_ts: self.exit_ts,
            children: self.children@,
        }
    }
}

impl ProcessNode {
    /// A node is running until its exit has been recorded.
    pub fn is_running(&self) -> (r: bool)
        ensures
            r == (self.exit_ts is None),
    {
        self.exit_ts.is_none()
    }
}

pub open spec fn slot_view(o: Option<ProcessNode>) -> Option<NodeView> {
    match o {
        Some(n) => Some(n@),
        None => None,
    }
}

/// The storage of a [`ProcessTree`]: a flat arena of slots, a stack of
/// freed slots for reuse, the live pid map and the root list, together
/// with the ghost links and counters of the model.
struct Arena {
    nodes: Vec<Option<ProcessNode>>,
    free: Vec<usize>,
    live: HashMap<u32, usize>,
    roots: Vec<usize>,
    parent: Ghost<Seq<Option<usize>>>,
    birth: Ghost<Seq<nat>>,
    clock: Ghost<nat>,
    peak: Ghost<nat>,
    dropped: Ghost<nat>,
}

impl View for Arena {
    type V = Forest;

    closed spec fn view(&self) -> Forest {
        Forest {
            nodes: self.nodes@.map_values(|o: Option<ProcessNode>| slot_view(o)),
            free: self.free@,
            live: self.live@,
            roots: self.roots@,
            parent: self.parent@,
            birth: self.birth@,
            clock: self.clock@,
            peak: self.peak@,
            dropped: self.dropped@,
        }
    }
}

impl Arena {
    /// An empty tree.
    fn new() -> (t: Self)
        ensures
            t@ == Forest::empty(),
            t@.wf(),
    {
        let t = Arena {
            nodes: Vec::new(),
            free: Vec::new(),
            live: HashMap::new(),
            roots: Vec::new(),
            parent: Ghost(Seq::empty()),
            birth: Ghost(Seq::empty()),
            clock: Ghost(0),
            peak: Ghost(0),
            dropped: Ghost(0),
        };
        assert(t@.nodes == Seq::<Option<NodeView>>::empty());
        assert(t@.held() == Set::<int>::empty());
        t
    }

    /// Records one event.
    fn apply(&mut self, event: ProcessEvent)
        requires
            old(self)@.wf(),
        ensures
            final(self)@.wf(),
            final(self)@ == old(self)@.applied(event@),
    {
        match event {
            ProcessEvent::Start { pid, ppid, ts, name } => self.start(pid, ppid, ts, name),
            ProcessEvent::Exit { pid, ts } => self.exit(pid, ts),
        }
    }

    fn start(&mut self, pid: u32, ppid: u32, ts: u64, name: String)
        requires
            old(self)@.wf(),
        ensures
            final(self)@.wf(),
            final(self)@ == old(self)@.started(pid, ppid, ts, name@),
    {
        let ghost f = self@;
        let ghost fname = name@;
        let node = ProcessNode {
            pid,
            ppid,
            name,
            start_ts: ts,
            exit_ts: None,
            children: Vec::new(),
        };
        let index = match self.free.pop() {
            Some(index) => {
                self.nodes[index] = Some(node);
                index
            },
            None => {
                self.nodes.push(Some(node));
                let len = self.nodes.len();
                assert(f.nodes.len() < usize::MAX);
                len - 1
            },
        };
        assert(index == f.next_slot());
        let parent_index: Option<usize> = match self.live.get(&ppid) {
            Some(p) => Some(*p),
            None => None,
        };
        match parent_index {
            Some(p) => {
                self.nodes[p].as_mut().expect(
                    "live index always points at an unpruned node",
                ).children.push(index);
            },
            None => self.roots.push(index),
        }
        self.live.insert(pid, index);
        self.parent = Ghost(put(self.parent@, index as int, parent_index));
        self.birth = Ghost(put(self.birth@, index as int, self.clock@));
        self.clock = Ghost(self.clock@ + 1);
        self.peak = Ghost(f.started(pid, ppid, ts, fname).peak);
        assert(self@.nodes == f.started(pid, ppid, ts, fname).nodes);
        assert(self@ == f.started(pid, ppid, ts, fname));
        proof {
            lemma_started_wf(f, pid, ppid, ts, fname);
        }
    }

    /// Drop every subtree that has fully finished: the process itself
    /// has exited and every descendant has too. Once a node has exited it
    /// can never gain new children, so a finished subtree will never
    /// change again and is safe to discard.
    ///
    /// Returns the number of nodes freed. Pruning invalidates any index
    /// into a removed subtree; only indices still reachable from
    /// [`roots`](ProcessTree::roots) or a node's `children` after the call
    /// are safe to use.
    fn prune_finished(&mut self) -> (r: usize)
        requires
            old(self)@.wf(),
        ensures
            final(self)@.wf(),
            final(self)@ == old(self)@.pruned(),
            r == old(self)@.freed().len(),
    {
        let ghost f = self@;
        let mut roots: Vec<usize> = Vec::new();
        std::mem::swap(&mut roots, &mut self.roots);
        let mut remaining_roots: Vec<usize> = Vec::with_capacity(roots.len());
        let mut pruned: usize = 0;
        let mut k: usize = 0;
        assert(roots@.take(0) == Seq::<usize>::empty());
        while k < roots.len()
            invariant
                f.wf(),
                roots@ == f.roots,
                k <= roots@.len(),
                remaining_roots@ == roots@.take(k as int).filter(f.keeps()),
                self@.nodes.len() == f.nodes.len(),
                self@.parent == f.parent,
                self@.birth == f.birth,
                self@.clock == f.clock,
                self@.live == f.live,
                forall|j: int|
                    0 <= j < f.nodes.len() ==> #[trigger] self@.nodes[j] == if f.valid(j)
                        && f.under_roots(j, k as int) {
                        f.pruned_slot(j)
                    } else {
                        f.nodes[j]
                    },
                self@.free == f.free + f.prune_order_roots(k as int),
                self@.free.len() == f.free.len() + pruned,
            decreases roots@.len() - k,
        {
            let root = roots[k];
            proof {
                assert forall|j: int| #[trigger]
                    f.descends(j, root as int) && f.valid(j) implies self@.nodes[j] == f.nodes[j] by {
                    if f.under_roots(j, k as int) {
                        let m = choose|m: int|
                            0 <= m < k && f.descends(j, #[trigger] f.roots[m] as int);
                        lemma_roots_disjoint(f, m, k as int, j);
                    }
                }
            }
            let done = self.prune_node(root, &mut pruned, Ghost(f), Ghost(f.free.len()));
            if !done {
                remaining_roots.push(root);
            }
            proof {
                assert(f.keeps()(root) == !f.finished(root as int));
                assert(roots@.take(k + 1) == roots@.take(k as int).push(root));
                roots@.take(k as int).lemma_filter_push(root, f.keeps());
                assert forall|j: int| 0 <= j < f.nodes.len() implies #[trigger] self@.nodes[j]
                    == if f.valid(j) && f.under_roots(j, k + 1) {
                    f.pruned_slot(j)
                } else {
                    f.nodes[j]
                } by {
                    if f.valid(j) && f.descends(j, root as int) {
                        assert(f.under_roots(j, k + 1));
                    } else if f.valid(j) && f.under_roots(j, k + 1) {
                        let m = choose|m: int|
                            0 <= m < k + 1 && f.descends(j, #[trigger] f.roots[m] as int);
                        assert(f.under_roots(j, k as int));
                    } else if f.valid(j) && f.under_roots(j, k as int) {
                        let m = choose|m: int|
                            0 <= m < k && f.descends(j, #[trigger] f.roots[m] as int);
                        assert(f.under_roots(j, k + 1));
                    }
                }
                assert(self@.free == f.free + f.prune_order_roots(k + 1));
            }
            k = k + 1;
        }
        self.roots = remaining_roots;
        self.parent = Ghost(f.pruned().parent);
        self.peak = Ghost(f.peak);
        self.dropped = Ghost(f.pruned().dropped);
        proof {
            assert(roots@.take(roots@.len() as int) == roots@);
            assert forall|j: int| 0 <= j < f.nodes.len() implies #[trigger] self@.nodes[j]
                == f.pruned().nodes[j] by {
                if f.valid(j) {
                    lemma_descends_root(f, j);
                }
            }
            assert(self@.nodes == f.pruned().nodes);
            assert(self@ == f.pruned());
            lemma_pruned_wf(f);
        }
        pruned
    }

    /// Post-order: prune finished children first, then decide whether
    /// this node itself is now finished (exited, and left with no
    /// children because it had none or they were all just pruned).
    /// Returns whether `index` was pruned.
    fn prune_node(
        &mut self,
        index: usize,
        pruned: &mut usize,
        Ghost(f): Ghost<Forest>,
        Ghost(base): Ghost<nat>,
    ) -> (r: bool)
        requires
            f.wf(),
            f.valid(index as int),
            old(self)@.nodes.len() == f.nodes.len(),
            old(self)@.parent == f.parent,
            old(self)@.birth == f.birth,
            old(self)@.clock == f.clock,
            forall|j: int| #[trigger]
                f.descends(j, index as int) && f.valid(j) ==> old(self)@.nodes[j] == f.nodes[j],
            old(self)@.free.len() == base + *old(pruned),
        ensures
            final(self)@.nodes.len() == f.nodes.len(),
            final(self)@.parent == f.parent,
            final(self)@.birth == f.birth,
            final(self)@.clock == f.clock,
            final(self)@.live == old(self)@.live,
            final(self)@.roots == old(self)@.roots,
            forall|j: int|
                0 <= j < f.nodes.len() ==> #[trigger] final(self)@.nodes[j] == if f.descends(
                    j,
                    index as int,
                ) && f.valid(j) {
                    f.pruned_slot(j)
                } else {
                    old(self)@.nodes[j]
                },
            final(self)@.free == old(self)@.free + f.prune_order(index as int),
            final(self)@.free.len() == base + *final(pruned),
            r == f.finished(index as int),
        decreases f.clock - f.birth[index as int],
    {
        let ghost entry = self@;
        let ghost i = index as int;
        assert(f.descends(i, i));
        let children = self.nodes[index].as_ref().expect(
            "index reachable from roots/children is never pruned",
        ).children.clone();
        assert(children@ == f.node(i).children);
        let mut remaining: Vec<usize> = Vec::with_capacity(children.len());
        let mut k: usize = 0;
        assert(children@.take(0) == Seq::<usize>::empty());
        while k < children.len()
            invariant
                f.wf(),
                f.valid(i),
                i == index,
                children@ == f.node(i).children,
                k <= children@.len(),
                remaining@ == children@.take(k as int).filter(f.keeps()),
                self@.nodes.len() == f.nodes.len(),
                self@.parent == f.parent,
                self@.birth == f.birth,
                self@.clock == f.clock,
                self@.live == entry.live,
                self@.roots == entry.roots,
                forall|j: int| #[trigger]
                    f.descends(j, i) && f.valid(j) ==> entry.nodes[j] == f.nodes[j],
                forall|j: int|
                    0 <= j < f.nodes.len() ==> #[trigger] self@.nodes[j] == if f.valid(j)
                        && f.under_children(j, i, k as int) {
                        f.pruned_slot(j)
                    } else {
                        entry.nodes[j]
                    },
                self@.free == entry.free + f.prune_order_below(i, k as int),
                self@.free.len() == base + *pruned,
            decreases children@.len() - k,
        {
            let child = children[k];
            proof {
                lemma_child_descends(f, i, k as int);
                assert forall|j: int| #[trigger]
                    f.descends(j, child as int) && f.valid(j) implies self@.nodes[j]
                    == f.nodes[j] by {
                    if f.under_children(j, i, k as int) {
                        let m = choose|m: int|
                            0 <= m < k && f.descends(j, #[trigger] f.node(i).children[m] as int);
                        lemma_siblings_disjoint(f, i, m, k as int, j);
                    }
                    lemma_descends_trans(f, j, child as int, i);
                }
            }
            let done = self.prune_node(child, pruned, Ghost(f), Ghost(base));
            if !done {
                remaining.push(child);
            }
            proof {
                assert(f.keeps()(child) == !f.finished(child as int));
                assert(children@.take(k + 1) == children@.take(k as int).push(child));
                children@.take(k as int).lemma_filter_push(child, f.keeps());
                assert forall|j: int| 0 <= j < f.nodes.len() implies #[trigger] self@.nodes[j]
                    == if f.valid(j) && f.under_children(j, i, k + 1) {
                    f.pruned_slot(j)
                } else {
                    entry.nodes[j]
                } by {
                    if f.valid(j) && f.descends(j, child as int) {
                        assert(f.under_children(j, i, k + 1));
                    } else if f.valid(j) && f.under_children(j, i, k + 1) {
                        let m = choose|m: int|
                            0 <= m < k + 1 && f.descends(
                                j,
                                #[trigger] f.node(i).children[m] as int,
                            );
                        assert(f.under_children(j, i, k as int));
                    } else if f.valid(j) && f.under_children(j, i, k as int) {
                        let m = choose|m: int|
                            0 <= m < k && f.descends(j, #[trigger] f.node(i).children[m] as int);
                        assert(f.under_children(j, i, k + 1));
                    }
                }
                assert(f.birth[i] < f.birth[child as int] < f.clock);
                assert(self@.free == entry.free + f.prune_order_below(i, k + 1));
            }
            k = k + 1;
        }
        proof {
            assert(children@.take(children@.len() as int) == children@);
            assert(!f.under_children(i, i, k as int)) by {
                if f.under_children(i, i, k as int) {
                    let m = choose|m: int|
                        0 <= m < k && f.descends(i, #[trigger] f.node(i).children[m] as int);
                    lemma_child_descends(f, i, m);
                    lemma_descends_birth(f, i, f.node(i).children[m] as int);
                }
            }
            assert(self@.nodes[i] == entry.nodes[i]);
            assert(self.nodes@[i] is Some);
            lemma_finished_step(f, i);
            if remaining@.len() == 0 {
                assert forall|m: int| 0 <= m < children@.len() implies f.finished(
                    #[trigger] f.node(i).children[m] as int,
                ) by {
                    if !f.finished(f.node(i).children[m] as int) {
                        children@.lemma_filter_contains(f.keeps(), m);
                    }
                }
            } else {
                assert(remaining@.contains(remaining@[0]));
                children@.lemma_filter_pred(f.keeps(), 0);
                children@.lemma_filter_contains_rev(f.keeps(), remaining@[0]);
            }
        }
        let ghost after_loop = self@;
        let node = self.nodes[index].as_mut().expect("checked above");
        node.children = remaining;
        let finished = node.exit_ts.is_some() && node.children.is_empty();
        let ghost before = self@;
        assert(finished == f.finished(i));
        assert(forall|j: int|
            0 <= j < f.nodes.len() && j != i ==> before.nodes[j] == after_loop.nodes[j]);
        assert(before.nodes[i] == Some(NodeView { children: f.kept_children(i), ..f.node(i) }));
        if finished {
            self.nodes[index] = None;
            self.free.push(index);
            assert(self.free.len() == base + *pruned + 1);
            *pruned = *pruned + 1;
        }
        proof {
            assert forall|j: int| 0 <= j < f.nodes.len() implies #[trigger] self@.nodes[j]
                == if f.descends(j, i) && f.valid(j) {
                f.pruned_slot(j)
            } else {
                entry.nodes[j]
            } by {
                if j != i {
                    assert(self@.nodes[j] == before.nodes[j]);
                    assert(before.nodes[j] == after_loop.nodes[j]);
                }
                if j == i {
                    assert(self@.nodes[i] == f.pruned_slot(i));
                } else if f.valid(j) && f.descends(j, i) {
                    lemma_descends_step(f, j, i);
                } else if f.valid(j) && f.under_children(j, i, k as int) {
                    let m = choose|m: int|
                        0 <= m < k && f.descends(j, #[trigger] f.node(i).children[m] as int);
                    lemma_child_descends(f, i, m);
                    lemma_descends_trans(f, j, f.node(i).children[m] as int, i);
                }
            }
            assert(self@.free == entry.free + f.prune_order(i));
        }
        finished
    }

    /// The node in slot `index`, which must hold one: an index from
    /// [`roots`](ProcessTree::roots) or a node's `children` after the most
    /// recent prune.
    fn node(&self, index: usize) -> (n: &ProcessNode)
        requires
            self@.valid(index as int),
        ensures
            n@ == self@.node(index as int),
    {
        self.nodes[index].as_ref().expect("node index is stale: it was pruned by prune_finished")
    }

    /// The nodes that were started with no live parent, in start order
    /// (minus those pruned).
    fn roots(&self) -> (r: &[usize])
        ensures
            r@ == self@.roots,
    {
        self.roots.as_slice()
    }

    /// Number of process nodes currently held in memory: started, and
    /// not yet dropped by [`prune_finished`](ProcessTree::prune_finished).
    fn len(&self) -> (n: usize)
        requires
            self@.wf(),
        ensures
            n == self@.count(),
    {
        proof {
            lemma_count(self@);
        }
        self.nodes.len() - self.free.len()
    }

    fn exit(&mut self, pid: u32, ts: u64)
        requires
            old(self)@.wf(),
        ensures
            final(self)@.wf(),
            final(self)@ == old(self)@.exited(pid, ts),
    {
        let ghost f = self@;
        if let Some(index) = self.live.remove(&pid) {
            self.nodes[index].as_mut().expect(
                "live index always points at an unpruned node",
            ).exit_ts = Some(ts);
            assert(self@.nodes == f.exited(pid, ts).nodes);
            assert(self@.live == f.exited(pid, ts).live);
            proof {
                lemma_exited_wf(f, pid, ts);
            }
        } else {
            assert(self@.live == f.live);
        }
        // An exit for a pid we never saw start is dropped rather than
        // treated as an error: the log may not begin at boot.
    }
}

/// Builds a process tree incrementally from a stream of events.
///
/// Feed events one at a time with [`apply`](ProcessTree::apply); the
/// caller never needs to hold the source log in memory. Memory used by
/// the tree grows with the number of processes recorded, not with the
/// size of the input stream, and, once
/// [`prune_finished`](ProcessTree::prune_finished) is used, only with
/// the number currently recorded.
pub struct ProcessTree {
    arena: Arena,
}

impl View for ProcessTree {
    type V = Forest;

    closed spec fn view(&self) -> Forest {
        self.arena@
    }
}

impl ProcessTree {
    /// Every tree keeps the invariant of its model.
    #[verifier::type_invariant]
    spec fn well_formed(self) -> bool {
        self.arena@.wf()
    }

    /// An empty tree.
    pub fn new() -> (t: Self)
        ensures
            t@ == Forest::empty(),
            t@.wf(),
    {
        ProcessTree { arena: Arena::new() }
    }

    /// Records one event.
    pub fn apply(&mut self, event: ProcessEvent)
        ensures
            final(self)@.wf(),
            final(self)@ == old(self)@.applied(event@),
    {
        proof {
            use_type_invariant(&*self);
        }
        let mut arena = Arena::new();
        std::mem::swap(&mut arena, &mut self.arena);
        arena.apply(event);
        self.arena = arena;
    }

    /// Drop every subtree that has fully finished: the process itself
    /// has exited and every descendant has too (a subtree with even one
    /// still-running node is left alone, and so is every node above it).
    /// Once a node has exited it can never gain new children, so a
    /// finished subtree will never change again and is safe to discard.
    ///
    /// Returns the number of nodes freed. Pruning invalidates any index
    /// into a removed subtree; only indices still reachable from
    /// [`roots`](ProcessTree::roots) or a node's `children` after the call
    /// are safe to use.
    pub fn prune_finished(&mut self) -> (r: usize)
        ensures
            final(self)@.wf(),
            final(self)@ == old(self)@.pruned(),
            r == old(self)@.freed().len(),
    {
        proof {
            use_type_invariant(&*self);
        }
        let mut arena = Arena::new();
        std::mem::swap(&mut arena, &mut self.arena);
        let pruned = arena.prune_finished();
        self.arena = arena;
        pruned
    }

    /// The node in slot `index`, which must hold one: an index from
    /// [`roots`](ProcessTree::roots) or a node's `children` after the most
    /// recent prune.
    pub fn node(&self, index: usize) -> (n: &ProcessNode)
        requires
            self@.valid(index as int),
        ensures
            n@ == self@.node(index as int),
    {
        self.arena.node(index)
    }

    /// The nodes that were started with no live parent, in start order
    /// (minus those pruned).
    pub fn roots(&self) -> (r: &[usize])
        ensures
            r@ == self@.roots,
    {
        self.arena.roots()
    }

    /// Number of process nodes currently held in memory: started, and
    /// not yet dropped by [`prune_finished`](ProcessTree::prune_finished).
    pub fn len(&self) -> (n: usize)
        ensures
            n == self@.count(),
    {
        proof {
            use_type_invariant(self);
        }
        self.arena.len()
    }

    /// Whether no node is held.
    pub fn is_empty(&self) -> (b: bool)
        ensures
            b == (self@.count() == 0),
    {
        self.len() == 0
    }
}

impl Default for ProcessTree {
    fn default() -> (t: Self)
        ensures
            t@ == Forest::empty(),
            t@.wf(),
    {
        ProcessTree::new()
    }
}

} // verus!
