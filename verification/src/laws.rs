//! Properties of the process tree that span several operations.
use vstd::prelude::*;

use crate::event::EventView;
use crate::forest::{
    lemma_child_descends, lemma_count, lemma_descends_birth, lemma_descends_root,
    lemma_descends_step, lemma_descends_trans, lemma_descends_unique, lemma_exited_wf, lemma_finished_below,
    lemma_freed, lemma_prune_order, lemma_prune_order_below, lemma_prune_order_roots,
    lemma_pruned_wf, lemma_roots_disjoint, lemma_siblings_disjoint, lemma_started_wf, Forest,
    NodeView,
};

verus! {

/// Whether two forests link their slots the same way.
pub open spec fn same_links(f: Forest, g: Forest) -> bool {
    f.parent == g.parent && f.birth == g.birth
}

/// `descends` reads only the links.
pub proof fn lemma_descends_links(f: Forest, g: Forest, d: int, a: int)
    requires
        same_links(f, g),
    ensures
        f.descends(d, a) == g.descends(d, a),
    decreases f.birth[d],
{
    if d != a {
        if let Some(p) = f.parent[d] {
            if f.birth[p as int] < f.birth[d] {
                lemma_descends_links(f, g, p as int, a);
            }
        }
    }
}

/// Starting a process leaves the ancestry of every existing node as it was.
pub proof fn lemma_descends_started(
    f: Forest,
    pid: u32,
    ppid: u32,
    ts: u64,
    name: Seq<char>,
    d: int,
    a: int,
)
    requires
        f.wf(),
        f.valid(d),
    ensures
        f.started(pid, ppid, ts, name).descends(d, a) == f.descends(d, a),
    decreases f.birth[d],
{
    let g = f.started(pid, ppid, ts, name);
    let index = f.next_slot();
    assert(d != index);
    assert(g.parent[d] == f.parent[d]);
    assert(g.birth[d] == f.birth[d]);
    if d != a {
        if let Some(p) = f.parent[d] {
            assert(f.valid(p as int));
            assert(g.birth[p as int] == f.birth[p as int]);
            lemma_descends_started(f, pid, ppid, ts, name, p as int, a);
        }
    }
}

/// A finished subtree never changes again: whatever event comes next,
/// the subtree is still finished and each of its nodes is unchanged.
/// This is why pruning it loses nothing.
pub proof fn law_finished_subtree_is_frozen(f: Forest, e: EventView, j: int)
    requires
        f.wf(),
        f.finished(j),
        e is Start ==> f.free.len() > 0 || f.nodes.len() < usize::MAX,
    ensures
        f.applied(e).finished(j),
        forall|d: int|
            #[trigger] f.descends(d, j) && f.valid(d) ==> f.applied(e).nodes[d] == f.nodes[d],
{
    let g = f.applied(e);
    match e {
        EventView::Exit { pid, ts } => {
            if f.live.contains_key(pid) {
                let i = f.live[pid] as int;
                assert(!f.descends(i, j));
                assert forall|d: int| #[trigger] g.descends(d, j) && g.valid(d) implies g.node(
                    d,
                ).exit_ts is Some by {
                    lemma_descends_links(f, g, d, j);
                }
            }
        },
        EventView::Start { pid, ppid, ts, name } => {
            lemma_started_wf(f, pid, ppid, ts, name);
            let index = f.next_slot();
            let has_parent = f.live.contains_key(ppid);
            let p = f.live[ppid] as int;
            assert forall|d: int| #[trigger] f.descends(d, j) && f.valid(d) implies g.nodes[d]
                == f.nodes[d] by {
                assert(d != index);
                if has_parent && d == p {
                    assert(f.node(p).exit_ts is None);
                }
            }
            assert forall|d: int| #[trigger] g.descends(d, j) && g.valid(d) implies g.node(
                d,
            ).exit_ts is Some by {
                if d == index {
                    if has_parent {
                        assert(g.parent[index] == Some(p as usize));
                        assert(g.birth[p] < g.birth[index]);
                        assert(f.valid(p));
                        lemma_descends_started(f, pid, ppid, ts, name, p, j);
                        assert(f.node(p).exit_ts is None);
                    } else {
                        assert(g.parent[index] is None);
                        assert(index != j);
                    }
                } else {
                    assert(f.valid(d));
                    lemma_descends_started(f, pid, ppid, ts, name, d, j);
                    if has_parent && d == p {
                        assert(f.node(p).exit_ts is None);
                    }
                }
            }
            assert(g.valid(j));
        },
    }
}

/// Once a node has exited it never gains new children.
pub proof fn law_exited_node_gains_no_children(f: Forest, e: EventView, j: int)
    requires
        f.wf(),
        f.valid(j),
        f.node(j).exit_ts is Some,
    ensures
        f.applied(e).valid(j),
        f.applied(e).node(j).children == f.node(j).children,
        f.applied(e).node(j).exit_ts == f.node(j).exit_ts,
{
    match e {
        EventView::Exit { pid, ts } => {},
        EventView::Start { pid, ppid, ts, name } => {
            let p = f.live[ppid] as int;
            if f.live.contains_key(ppid) {
                assert(p != j);
            }
        },
    }
}

/// A reused pid starts a fresh node: the new process gets a slot of its
/// own, and a later exit of that pid marks the new node, leaving its
/// predecessor (node `j`) as it was.
pub proof fn law_reused_pid_starts_fresh_node(
    f: Forest,
    pid: u32,
    ppid: u32,
    ts: u64,
    name: Seq<char>,
    exit_ts: u64,
    j: int,
)
    requires
        f.wf(),
        f.free.len() > 0 || f.nodes.len() < usize::MAX,
        f.valid(j),
        f.node(j).pid == pid,
    ensures
        f.started(pid, ppid, ts, name).live[pid] as int == f.next_slot(),
        f.next_slot() != j,
        f.started(pid, ppid, ts, name).exited(pid, exit_ts).node(f.next_slot()).exit_ts == Some(
            exit_ts,
        ),
        f.started(pid, ppid, ts, name).exited(pid, exit_ts).node(j).exit_ts == f.node(j).exit_ts,
        f.started(pid, ppid, ts, name).exited(pid, exit_ts).node(j).name == f.node(j).name,
        f.started(pid, ppid, ts, name).exited(pid, exit_ts).node(j).start_ts == f.node(
            j,
        ).start_ts,
{
    lemma_started_wf(f, pid, ppid, ts, name);
}

/// After pruning, the next start fills the last slot that pruning freed.
pub proof fn law_freed_slots_are_recycled(f: Forest)
    requires
        f.wf(),
        f.freed().len() > 0,
    ensures
        f.pruned().next_slot() == f.freed().last() as int,
{
    assert(f.pruned().free.last() == f.freed().last());
}

/// Pruning frees exactly as many nodes as it reports: the count of held
/// nodes drops by the number of freed slots.
pub proof fn law_prune_count(f: Forest)
    requires
        f.wf(),
    ensures
        f.pruned().count() + f.freed().len() == f.count(),
{
    lemma_pruned_wf(f);
    lemma_count(f);
    lemma_count(f.pruned());
}

/// Below a node that pruning keeps, ancestry is as it was.
pub proof fn lemma_descends_pruned(f: Forest, d: int, a: int)
    requires
        f.wf(),
        f.valid(d),
        !f.finished(d),
        f.descends(d, a),
    ensures
        f.pruned().descends(d, a),
    decreases f.birth[d],
{
    let g = f.pruned();
    if d != a {
        let p = f.parent[d]->Some_0 as int;
        assert(f.valid(p));
        if f.finished(p) {
            assert(f.descends(d, p)) by {
                assert(f.descends(p, p));
            }
            lemma_finished_below(f, p, d);
        }
        lemma_descends_pruned(f, p, a);
        assert(g.parent[d] == f.parent[d]);
    }
}

/// A process that is still running is never pruned, and neither is any
/// node above it: it stays below each of its ancestors.
pub proof fn law_running_never_pruned(f: Forest, d: int, a: int)
    requires
        f.wf(),
        f.valid(d),
        f.node(d).exit_ts is None,
        f.descends(d, a),
    ensures
        f.pruned().valid(d),
        f.pruned().node(d).exit_ts is None,
        f.pruned().valid(a),
        f.pruned().descends(d, a),
{
    assert(f.descends(d, d));
    assert(!f.finished(d));
    lemma_descends_pruned(f, d, a);
    if d != a {
        lemma_descends_step(f, d, a);
    }
    assert(!f.finished(a));
}

/// Keeping every element leaves a sequence as it was.
pub proof fn lemma_filter_keeps_all(s: Seq<usize>, keep: spec_fn(usize) -> bool)
    requires
        forall|i: int| 0 <= i < s.len() ==> keep(#[trigger] s[i]),
    ensures
        s.filter(keep) == s,
    decreases s.len(),
{
    if s.len() > 0 {
        let rest = s.drop_last();
        lemma_filter_keeps_all(rest, keep);
        assert(s == rest.push(s.last()));
        rest.lemma_filter_push(s.last(), keep);
    }
}

/// Pruning leaves nothing more to prune: a second prune frees nothing and
/// changes nothing.
pub proof fn law_prune_is_idempotent(f: Forest)
    requires
        f.wf(),
    ensures
        f.pruned().freed().len() == 0,
        f.pruned().pruned() == f.pruned(),
{
    let g = f.pruned();
    lemma_pruned_wf(f);
    assert forall|j: int| !g.finished(j) by {
        if g.finished(j) {
            assert(f.valid(j) && !f.finished(j));
            let d = choose|d: int|
                #[trigger] f.descends(d, j) && f.valid(d) && f.node(d).exit_ts is None;
            law_running_never_pruned(f, d, j);
        }
    }
    lemma_freed(g);
    if g.freed().len() > 0 {
        assert(g.freed().contains(g.freed()[0]));
    }
    assert forall|j: int| 0 <= j < g.nodes.len() implies #[trigger] g.pruned().nodes[j]
        == g.nodes[j] by {
        if g.valid(j) {
            lemma_filter_keeps_all(g.node(j).children, g.keeps());
        }
    }
    assert(g.pruned().nodes == g.nodes);
    lemma_filter_keeps_all(g.roots, g.keeps());
    assert(g.pruned().free == g.free);
    assert(g.pruned().parent == g.parent);
}

/// Every index that the tree hands out names a node: the roots, each
/// node's children, and the slot of every live pid.
pub proof fn law_reachable_indices_are_valid(f: Forest)
    requires
        f.wf(),
    ensures
        forall|k: int| 0 <= k < f.roots.len() ==> f.valid(#[trigger] f.roots[k] as int),
        forall|i: int, k: int|
            f.valid(i) && 0 <= k < f.node(i).children.len() ==> f.valid(
                #[trigger] f.node(i).children[k] as int,
            ),
        forall|p: u32| #[trigger] f.live.contains_key(p) ==> f.valid(f.live[p] as int),
{
}


/// `d` is reached from `a` by following `n` child links.
pub open spec fn reaches(f: Forest, a: int, d: int, n: nat) -> bool
    decreases n,
{
    if n == 0 {
        d == a
    } else {
        f.valid(a) && exists|k: int|
            0 <= k < f.node(a).children.len() && reaches(
                f,
                #[trigger] f.node(a).children[k] as int,
                d,
                (n - 1) as nat,
            )
    }
}

/// Following child links only meets held nodes, each below the start and
/// started later than it.
pub proof fn lemma_reaches_descends(f: Forest, a: int, d: int, n: nat)
    requires
        f.wf(),
        f.valid(a),
        reaches(f, a, d, n),
    ensures
        f.valid(d),
        f.descends(d, a),
        n > 0 ==> f.birth[a] < f.birth[d],
    decreases n,
{
    if n == 0 {
        assert(f.descends(a, a));
    } else {
        let k = choose|k: int|
            0 <= k < f.node(a).children.len() && reaches(
                f,
                #[trigger] f.node(a).children[k] as int,
                d,
                (n - 1) as nat,
            );
        let c = f.node(a).children[k] as int;
        lemma_child_descends(f, a, k);
        lemma_reaches_descends(f, c, d, (n - 1) as nat);
        lemma_descends_trans(f, d, c, a);
    }
}

/// One more child link at the end of a path.
pub proof fn lemma_reaches_extend(f: Forest, a: int, p: int, n: nat, k: int)
    requires
        f.wf(),
        reaches(f, a, p, n),
        f.valid(p),
        0 <= k < f.node(p).children.len(),
    ensures
        reaches(f, a, f.node(p).children[k] as int, n + 1),
    decreases n,
{
    let d = f.node(p).children[k] as int;
    if n == 0 {
        assert(reaches(f, d, d, 0));
        assert(reaches(f, a, d, 1));
    } else {
        let m = choose|m: int|
            0 <= m < f.node(a).children.len() && reaches(
                f,
                #[trigger] f.node(a).children[m] as int,
                p,
                (n - 1) as nat,
            );
        let c = f.node(a).children[m] as int;
        lemma_reaches_extend(f, c, p, (n - 1) as nat, k);
        assert(reaches(f, c, d, n));
        assert(reaches(f, a, d, n + 1));
    }
}

/// Every node below `a` is reached from `a` by child links.
pub proof fn lemma_descends_reaches(f: Forest, d: int, a: int)
    requires
        f.wf(),
        f.valid(d),
        f.descends(d, a),
    ensures
        exists|n: nat| reaches(f, a, d, n),
    decreases f.birth[d],
{
    if d == a {
        assert(reaches(f, a, d, 0));
    } else {
        let p = f.parent[d]->Some_0 as int;
        assert(f.valid(p));
        lemma_descends_reaches(f, p, a);
        let n = choose|n: nat| reaches(f, a, p, n);
        let k = choose|k: int| 0 <= k < f.node(p).children.len() && f.node(p).children[k] == d as usize;
        lemma_reaches_extend(f, a, p, n, k);
    }
}

/// The nodes form a forest: no node is reached from itself by one or more
/// child links.
pub proof fn law_no_cycles(f: Forest, a: int, n: nat)
    requires
        f.wf(),
        n > 0,
    ensures
        !reaches(f, a, a, n),
{
    if reaches(f, a, a, n) {
        lemma_reaches_descends(f, a, a, n);
    }
}

/// The nodes reached from the roots are exactly the nodes held.
pub proof fn law_roots_reach_every_node(f: Forest, d: int)
    requires
        f.wf(),
    ensures
        f.valid(d) <==> exists|k: int, n: nat|
            0 <= k < f.roots.len() && #[trigger] reaches(f, f.roots[k] as int, d, n),
{
    if f.valid(d) {
        lemma_descends_root(f, d);
        let k = choose|k: int| 0 <= k < f.roots.len() && f.descends(d, #[trigger] f.roots[k] as int);
        lemma_descends_reaches(f, d, f.roots[k] as int);
        let n = choose|n: nat| reaches(f, f.roots[k] as int, d, n);
        assert(reaches(f, f.roots[k] as int, d, n));
    }
    if exists|k: int, n: nat| 0 <= k < f.roots.len() && #[trigger] reaches(f, f.roots[k] as int, d, n) {
        let (k, n) = choose|k: int, n: nat|
            0 <= k < f.roots.len() && #[trigger] reaches(f, f.roots[k] as int, d, n);
        lemma_reaches_descends(f, f.roots[k] as int, d, n);
    }
}

/// The root list followed by the children lists of slots `0..m`.
pub open spec fn listing(f: Forest, m: int) -> Seq<usize>
    decreases m,
{
    if m <= 0 {
        f.roots
    } else {
        listing(f, m - 1) + if f.valid(m - 1) {
            f.node(m - 1).children
        } else {
            seq![]
        }
    }
}

pub proof fn lemma_listing(f: Forest, m: int)
    requires
        f.wf(),
        0 <= m <= f.nodes.len(),
    ensures
        listing(f, m).no_duplicates(),
        forall|x: usize|
            #[trigger] listing(f, m).contains(x) ==> f.valid(x as int) && match f.parent[x as int] {
                None => true,
                Some(p) => p < m,
            },
        forall|x: usize|
            f.valid(x as int) && match f.parent[x as int] {
                None => true,
                Some(p) => p < m,
            } ==> #[trigger] listing(f, m).contains(x),
    decreases m,
{
    if m > 0 {
        lemma_listing(f, m - 1);
        let left = listing(f, m - 1);
        let right: Seq<usize> = if f.valid(m - 1) {
            f.node(m - 1).children
        } else {
            seq![]
        };
        assert(listing(f, m) == left + right);
        assert forall|k: int| 0 <= k < right.len() implies f.valid(#[trigger] right[k] as int)
            && f.parent[right[k] as int] == Some((m - 1) as usize) by {
            assert(right[k] == f.node(m - 1).children[k]);
        }
        assert forall|a: int, b: int| 0 <= a < left.len() && 0 <= b < right.len() implies left[a]
            != right[b] by {
            assert(left.contains(left[a]));
        }
        vstd::seq_lib::lemma_no_dup_in_concat(left, right);
        assert forall|x: usize| #[trigger] listing(f, m).contains(x) implies f.valid(x as int)
            && match f.parent[x as int] {
            None => true,
            Some(p) => p < m,
        } by {
            let j = choose|j: int| 0 <= j < listing(f, m).len() && listing(f, m)[j] == x;
            if j < left.len() {
                assert(left.contains(x));
            } else {
                assert(right[j - left.len()] == x);
            }
        }
        assert forall|x: usize|
            f.valid(x as int) && match f.parent[x as int] {
                None => true,
                Some(p) => p < m,
            } implies #[trigger] listing(f, m).contains(x) by {
            if f.parent[x as int] == Some((m - 1) as usize) {
                let k = choose|k: int|
                    0 <= k < f.node(m - 1).children.len() && #[trigger] f.node(m - 1).children[k]
                        == x;
                assert(listing(f, m)[left.len() + k] == x);
            } else {
                assert(left.contains(x));
                let j = choose|j: int| 0 <= j < left.len() && left[j] == x;
                assert(listing(f, m)[j] == x);
            }
        }
    } else {
        assert forall|x: usize| #[trigger] listing(f, m).contains(x) implies f.valid(x as int)
            && f.parent[x as int] is None by {
            let k = choose|k: int| 0 <= k < f.roots.len() && f.roots[k] == x;
        }
    }
}

/// Each held node is listed exactly once, either among the roots or among
/// its parent's children, and nothing else is listed: the lists together
/// hold `count()` indices, all distinct.
pub proof fn law_every_node_listed_once(f: Forest)
    requires
        f.wf(),
    ensures
        listing(f, f.nodes.len() as int).no_duplicates(),
        forall|x: usize|
            #[trigger] listing(f, f.nodes.len() as int).contains(x) <==> f.valid(x as int),
        listing(f, f.nodes.len() as int).len() == f.count(),
{
    let n = f.nodes.len() as int;
    lemma_listing(f, n);
    let l = listing(f, n);
    assert forall|x: usize| f.valid(x as int) implies #[trigger] l.contains(x) by {
        if let Some(p) = f.parent[x as int] {
            assert(f.valid(p as int));
        }
    }
    let as_int = |x: usize| x as int;
    let li = l.map_values(as_int);
    assert(vstd::relations::injective(as_int));
    l.lemma_no_duplicates_injective(as_int);
    assert forall|i: int| #[trigger] li.to_set().contains(i) == f.held().contains(i) by {
        if li.to_set().contains(i) {
            let k = choose|k: int| 0 <= k < li.len() && li[k] == i;
            assert(l.contains(l[k]));
        }
        if f.held().contains(i) {
            assert(l.contains(i as usize));
            let k = choose|k: int| 0 <= k < l.len() && l[k] == i as usize;
            assert(li[k] == i);
        }
    }
    assert(li.to_set() == f.held());
    li.unique_seq_to_set();
}

/// A child hangs under the node that held its ppid when it started: its
/// `ppid` is its parent's `pid`.
pub proof fn law_child_ppid_is_parent_pid(f: Forest, p: int, k: int)
    requires
        f.wf(),
        f.valid(p),
        0 <= k < f.node(p).children.len(),
    ensures
        f.node(f.node(p).children[k] as int).ppid == f.node(p).pid,
{
    let c = f.node(p).children[k] as int;
    assert(f.valid(c));
}

/// A start never gives an exited node a child.
pub proof fn law_start_gives_exited_node_no_child(
    f: Forest,
    pid: u32,
    ppid: u32,
    ts: u64,
    name: Seq<char>,
    j: int,
)
    requires
        f.wf(),
        f.valid(j),
        f.node(j).exit_ts is Some,
    ensures
        f.started(pid, ppid, ts, name).valid(j),
        f.started(pid, ppid, ts, name).node(j).children == f.node(j).children,
{
    law_exited_node_gains_no_children(f, EventView::Start { pid, ppid, ts, name }, j);
}

/// The arena never holds more slots than the largest number of nodes held
/// at once, so every index stays below that number; and that number is
/// kept up to date by every operation: a start raises it to the new count
/// when the count exceeds it, and exits and pruning leave it.
pub proof fn law_arena_bounded_by_peak(f: Forest, pid: u32, ppid: u32, ts: u64, name: Seq<char>, xpid: u32, xts: u64)
    requires
        f.wf(),
        f.free.len() > 0 || f.nodes.len() < usize::MAX,
    ensures
        f.nodes.len() <= f.peak,
        f.count() <= f.peak,
        forall|i: int| #[trigger] f.valid(i) ==> i < f.peak,
        Forest::empty().peak == 0,
        f.started(pid, ppid, ts, name).count() == f.count() + 1,
        f.started(pid, ppid, ts, name).peak == if f.count() + 1 > f.peak {
            f.count() + 1
        } else {
            f.peak
        },
        f.exited(xpid, xts).count() == f.count(),
        f.exited(xpid, xts).peak == f.peak,
        f.pruned().count() <= f.count(),
        f.pruned().peak == f.peak,
{
    lemma_count(f);
    lemma_started_wf(f, pid, ppid, ts, name);
    lemma_count(f.started(pid, ppid, ts, name));
    lemma_exited_wf(f, xpid, xts);
    lemma_count(f.exited(xpid, xts));
    law_prune_count(f);
}

/// The number of nodes held is the number of starts (`clock`) minus the
/// number of nodes that pruning has freed (`dropped`); a start adds one,
/// an exit changes neither, and pruning adds to `dropped` exactly what it
/// reports freeing.
pub proof fn law_count_is_starts_minus_freed(f: Forest, pid: u32, ppid: u32, ts: u64, name: Seq<char>, xpid: u32, xts: u64)
    requires
        f.wf(),
    ensures
        f.count() + f.dropped == f.clock,
        Forest::empty().clock == 0,
        Forest::empty().dropped == 0,
        f.started(pid, ppid, ts, name).clock == f.clock + 1,
        f.started(pid, ppid, ts, name).dropped == f.dropped,
        f.exited(xpid, xts).clock == f.clock,
        f.exited(xpid, xts).dropped == f.dropped,
        f.pruned().clock == f.clock,
        f.pruned().dropped == f.dropped + f.freed().len(),
{
}


/// A start records the process in the slot that `next_slot` names (a freed
/// slot or a new one at the end of the arena): a running node with exactly
/// the given pid, ppid, name and start time, and no children, which the pid
/// now maps to. When `ppid` is the pid of a live process, the new node is
/// appended last to that process's children and hangs under it, whatever
/// the two start times are, and the roots stay as they were; only when no
/// live process has that pid does the new node become a new, last root.
/// Every other node is left as it was.
pub proof fn law_start_records_the_process(
    f: Forest,
    pid: u32,
    ppid: u32,
    ts: u64,
    name: Seq<char>,
)
    requires
        f.wf(),
    ensures
        ({
            let g = f.started(pid, ppid, ts, name);
            let i = f.next_slot();
            &&& 0 <= i <= f.nodes.len()
            &&& !f.valid(i)
            &&& g.valid(i)
            &&& g.node(i) == NodeView {
                pid,
                ppid,
                name,
                start_ts: ts,
                exit_ts: None,
                children: seq![],
            }
            &&& g.live == f.live.insert(pid, i as usize)
            &&& f.live.contains_key(ppid) ==> {
                let p = f.live[ppid] as int;
                &&& f.valid(p)
                &&& g.valid(p)
                &&& g.node(p) == NodeView {
                    children: f.node(p).children.push(i as usize),
                    ..f.node(p)
                }
                &&& g.parent[i] == Some(p as usize)
                &&& g.roots == f.roots
            }
            &&& !f.live.contains_key(ppid) ==> {
                &&& g.parent[i] is None
                &&& g.roots == f.roots.push(i as usize)
            }
            &&& forall|j: int|
                #[trigger] f.valid(j) && !(f.live.contains_key(ppid) && j == f.live[ppid] as int)
                    ==> g.valid(j) && g.node(j) == f.node(j)
        }),
{
    let g = f.started(pid, ppid, ts, name);
    let i = f.next_slot();
    if f.free.len() > 0 {
        assert(f.free[f.free.len() - 1] == f.free.last());
    }
    assert(!f.valid(i));
    assert(g.valid(i));
    if f.live.contains_key(ppid) {
        let p = f.live[ppid] as int;
        assert(f.valid(p));
        assert(p != i);
        assert(g.nodes[p] == Some(NodeView {
            children: f.node(p).children.push(i as usize),
            ..f.node(p)
        }));
    }
    assert forall|j: int|
        #[trigger] f.valid(j) && !(f.live.contains_key(ppid) && j == f.live[ppid] as int)
            implies g.valid(j) && g.node(j) == f.node(j) by {
        assert(j != i);
        assert(g.nodes[j] == f.nodes[j]);
    }
}

/// An exit of a live process marks exactly that process exited at the
/// given time, whatever children it has, and leaves every other field of
/// its node as it was; the pid stops being live, and nothing else changes.
/// An exit of a pid that is not live changes nothing.
pub proof fn law_exit_records_exit_time(f: Forest, pid: u32, ts: u64)
    requires
        f.wf(),
    ensures
        ({
            let g = f.exited(pid, ts);
            if f.live.contains_key(pid) {
                let i = f.live[pid] as int;
                &&& f.valid(i)
                &&& f.node(i).exit_ts is None
                &&& g.valid(i)
                &&& g.node(i) == NodeView { exit_ts: Some(ts), ..f.node(i) }
                &&& g.live == f.live.remove(pid)
                &&& forall|j: int| #[trigger] f.valid(j) && j != i ==> g.valid(j) && g.node(j)
                    == f.node(j)
                &&& g.nodes.len() == f.nodes.len()
                &&& g.roots == f.roots
                &&& g.free == f.free
                &&& g.parent == f.parent
            } else {
                g == f
            }
        }),
{
    let g = f.exited(pid, ts);
    if f.live.contains_key(pid) {
        let i = f.live[pid] as int;
        assert(f.valid(i));
        assert forall|j: int| #[trigger] f.valid(j) && j != i implies g.valid(j) && g.node(j)
            == f.node(j) by {
            assert(g.nodes[j] == f.nodes[j]);
        }
    }
}


/// Two tests that agree on every element of a sequence keep the same
/// elements of it.
pub proof fn lemma_filter_agree(
    s: Seq<usize>,
    p: spec_fn(usize) -> bool,
    q: spec_fn(usize) -> bool,
)
    requires
        forall|i: int| 0 <= i < s.len() ==> p(#[trigger] s[i]) == q(s[i]),
    ensures
        s.filter(p) == s.filter(q),
    decreases s.len(),
{
    if s.len() > 0 {
        let rest = s.drop_last();
        lemma_filter_agree(rest, p, q);
        assert(s == rest.push(s.last()));
        rest.lemma_filter_push(s.last(), p);
        rest.lemma_filter_push(s.last(), q);
    }
}

/// Pruning keeps a node exactly when some process reached from it by
/// child links (the node itself included) is still running; every other
/// node is dropped. A kept node keeps its pid, ppid, name and times, and
/// keeps exactly those of its children that are kept, in their order; the
/// roots likewise keep exactly their kept members, in order.
pub proof fn law_prune_keeps_exactly_the_running_subtrees(f: Forest, j: int)
    requires
        f.wf(),
    ensures
        f.pruned().valid(j) <==> (f.valid(j) && (exists|d: int, n: nat|
            #[trigger] reaches(f, j, d, n) && (f.node(d).exit_ts is None))),
        f.pruned().valid(j) ==> (f.pruned().node(j) == (NodeView {
            children: f.node(j).children.filter(|c: usize| f.pruned().valid(c as int)),
            ..f.node(j)
        })),
        f.pruned().roots == f.roots.filter(|c: usize| f.pruned().valid(c as int)),
{
    let g = f.pruned();
    let kept = |c: usize| g.valid(c as int);
    assert forall|x: int| 0 <= x < f.nodes.len() implies #[trigger] g.valid(x) == (f.valid(x)
        && !f.finished(x)) by {}
    assert(g.valid(j) == (f.valid(j) && !f.finished(j)));
    if f.valid(j) && !f.finished(j) {
        let d = choose|d: int| #[trigger] f.descends(d, j) && f.valid(d) && f.node(d).exit_ts is None;
        lemma_descends_reaches(f, d, j);
        let n = choose|n: nat| reaches(f, j, d, n);
        assert(reaches(f, j, d, n) && f.node(d).exit_ts is None);
    }
    if f.valid(j) && exists|d: int, n: nat| #[trigger] reaches(f, j, d, n) && f.node(d).exit_ts is None {
        let (d, n) = choose|d: int, n: nat| #[trigger] reaches(f, j, d, n) && f.node(d).exit_ts is None;
        lemma_reaches_descends(f, j, d, n);
        assert(!f.finished(j));
    }
    if g.valid(j) {
        let ch = f.node(j).children;
        assert forall|i: int| 0 <= i < ch.len() implies f.keeps()(#[trigger] ch[i]) == kept(ch[i]) by {
            assert(f.valid(ch[i] as int));
        }
        lemma_filter_agree(ch, f.keeps(), kept);
    }
    assert forall|i: int| 0 <= i < f.roots.len() implies f.keeps()(#[trigger] f.roots[i]) == kept(
        f.roots[i],
    ) by {
        assert(f.valid(f.roots[i] as int));
    }
    lemma_filter_agree(f.roots, f.keeps(), kept);
}


/// In `s`, every slot comes after all the slots below it.
pub open spec fn below_first(f: Forest, s: Seq<usize>) -> bool {
    forall|a: int, b: int|
        #![trigger s[a], s[b]]
        0 <= a < s.len() && 0 <= b < s.len() && a != b && f.descends(s[a] as int, s[b] as int)
            ==> a < b
}

/// A subtree frees the nodes below each node before the node itself.
pub proof fn lemma_prune_order_below_first(f: Forest, i: int)
    requires
        f.wf(),
        f.valid(i),
    ensures
        below_first(f, f.prune_order(i)),
    decreases f.clock - f.birth[i], 1int, 0int,
{
    let n = f.node(i).children.len() as int;
    lemma_prune_order_below(f, i, n);
    lemma_prune_order_below_below_first(f, i, n);
    lemma_prune_order(f, i);
    let below = f.prune_order_below(i, n);
    let s = f.prune_order(i);
    assert forall|a: int, b: int|
        #![trigger s[a], s[b]]
        0 <= a < s.len() && 0 <= b < s.len() && a != b && f.descends(s[a] as int, s[b] as int)
            implies a < b by {
        if a < below.len() && b < below.len() {
            assert(s[a] == below[a] && s[b] == below[b]);
        } else if a >= below.len() {
            assert(s[a] == i as usize);
            assert(s[b] == below[b]);
            assert(below.contains(below[b]));
            let m = choose|m: int|
                0 <= m < n && f.descends(below[b] as int, #[trigger] f.node(i).children[m] as int);
            lemma_child_descends(f, i, m);
            lemma_descends_birth(f, below[b] as int, f.node(i).children[m] as int);
            lemma_descends_birth(f, i, below[b] as int);
        }
    }
}

/// The first `k` children's subtrees of `i`, freed one after the other,
/// free the nodes below each node before the node itself.
pub proof fn lemma_prune_order_below_below_first(f: Forest, i: int, k: int)
    requires
        f.wf(),
        f.valid(i),
        0 <= k <= f.node(i).children.len(),
    ensures
        below_first(f, f.prune_order_below(i, k)),
    decreases f.clock - f.birth[i], 0int, k,
{
    if k > 0 {
        let c = f.node(i).children[k - 1] as int;
        lemma_child_descends(f, i, k - 1);
        assert(f.birth[c] < f.clock);
        lemma_prune_order_below(f, i, k - 1);
        lemma_prune_order_below_below_first(f, i, k - 1);
        lemma_prune_order(f, c);
        lemma_prune_order_below_first(f, c);
        let left = f.prune_order_below(i, k - 1);
        let right = f.prune_order(c);
        let s = f.prune_order_below(i, k);
        assert(s == left + right);
        assert forall|a: int, b: int|
            #![trigger s[a], s[b]]
            0 <= a < s.len() && 0 <= b < s.len() && a != b && f.descends(s[a] as int, s[b] as int)
                implies a < b by {
            let ll = left.len() as int;
            if a < ll && b < ll {
                assert(s[a] == left[a] && s[b] == left[b]);
            } else if a >= ll && b >= ll {
                assert(s[a] == right[a - ll] && s[b] == right[b - ll]);
            } else if a >= ll {
                assert(s[a] == right[a - ll]);
                assert(s[b] == left[b]);
                assert(right.contains(right[a - ll]));
                assert(left.contains(left[b]));
                let m = choose|m: int|
                    0 <= m < k - 1 && f.descends(left[b] as int, #[trigger] f.node(i).children[m] as int);
                lemma_descends_trans(f, s[a] as int, s[b] as int, f.node(i).children[m] as int);
                lemma_siblings_disjoint(f, i, m, k - 1, s[a] as int);
            }
        }
    }
}

/// The first `k` roots' subtrees, freed one after the other, free the
/// nodes below each node before the node itself.
pub proof fn lemma_prune_order_roots_below_first(f: Forest, k: int)
    requires
        f.wf(),
        0 <= k <= f.roots.len(),
    ensures
        below_first(f, f.prune_order_roots(k)),
    decreases k,
{
    if k > 0 {
        let r = f.roots[k - 1] as int;
        lemma_prune_order_roots(f, k - 1);
        lemma_prune_order_roots_below_first(f, k - 1);
        lemma_prune_order(f, r);
        lemma_prune_order_below_first(f, r);
        let left = f.prune_order_roots(k - 1);
        let right = f.prune_order(r);
        let s = f.prune_order_roots(k);
        assert(s == left + right);
        assert forall|a: int, b: int|
            #![trigger s[a], s[b]]
            0 <= a < s.len() && 0 <= b < s.len() && a != b && f.descends(s[a] as int, s[b] as int)
                implies a < b by {
            let ll = left.len() as int;
            if a < ll && b < ll {
                assert(s[a] == left[a] && s[b] == left[b]);
            } else if a >= ll && b >= ll {
                assert(s[a] == right[a - ll] && s[b] == right[b - ll]);
            } else if a >= ll {
                assert(s[a] == right[a - ll]);
                assert(s[b] == left[b]);
                assert(right.contains(right[a - ll]));
                assert(left.contains(left[b]));
                let m = choose|m: int|
                    0 <= m < k - 1 && f.descends(left[b] as int, #[trigger] f.roots[m] as int);
                lemma_descends_trans(f, s[a] as int, s[b] as int, f.roots[m] as int);
                lemma_roots_disjoint(f, m, k - 1, s[a] as int);
            }
        }
    }
}

/// Pruning frees a node only after every freed node below it, and pushes
/// the freed slots, in that order, on top of the slots already free; so
/// later starts reuse them from the last one freed back.
pub proof fn law_prune_frees_below_before_above(f: Forest)
    requires
        f.wf(),
    ensures
        f.pruned().free == f.free + f.freed(),
        forall|a: int, b: int|
            #![trigger f.freed()[a], f.freed()[b]]
            0 <= a < f.freed().len() && 0 <= b < f.freed().len() && a != b && f.descends(
                f.freed()[a] as int,
                f.freed()[b] as int,
            ) ==> a < b,
{
    lemma_prune_order_roots_below_first(f, f.roots.len() as int);
}


/// In `s`, whatever lies below an earlier child of a node comes before
/// whatever lies below a later child of it.
pub open spec fn children_in_order(f: Forest, s: Seq<usize>) -> bool {
    forall|i: int, m: int, n: int, a: int, b: int|
        #![trigger s[a], s[b], f.node(i).children[m], f.node(i).children[n]]
        f.valid(i) && 0 <= m < n < f.node(i).children.len() && 0 <= a < s.len() && 0 <= b
            < s.len() && f.descends(s[b] as int, f.node(i).children[m] as int) && f.descends(
            s[a] as int,
            f.node(i).children[n] as int,
        ) ==> b < a
}

/// In `s`, whatever lies below an earlier root comes before whatever lies
/// below a later root.
pub open spec fn roots_in_order(f: Forest, s: Seq<usize>) -> bool {
    forall|m: int, n: int, a: int, b: int|
        #![trigger s[a], s[b], f.roots[m], f.roots[n]]
        0 <= m < n < f.roots.len() && 0 <= a < s.len() && 0 <= b < s.len() && f.descends(
            s[b] as int,
            f.roots[m] as int,
        ) && f.descends(s[a] as int, f.roots[n] as int) ==> b < a
}

/// Two nodes cannot lie below two children of one node in one order and
/// below two children of another node in the other order.
pub proof fn lemma_no_crossing(
    f: Forest,
    j: int,
    p: int,
    q: int,
    i: int,
    m: int,
    n: int,
    x: int,
    y: int,
)
    requires
        f.wf(),
        f.valid(j),
        f.valid(i),
        0 <= p < q < f.node(j).children.len(),
        0 <= m < n < f.node(i).children.len(),
    ensures
        !(f.descends(x, f.node(j).children[p] as int) && f.descends(
            y,
            f.node(j).children[q] as int,
        ) && f.descends(x, f.node(i).children[n] as int) && f.descends(
            y,
            f.node(i).children[m] as int,
        )),
{
    if f.descends(x, f.node(j).children[p] as int) && f.descends(y, f.node(j).children[q] as int)
        && f.descends(x, f.node(i).children[n] as int) && f.descends(
        y,
        f.node(i).children[m] as int,
    ) {
        let cjp = f.node(j).children[p] as int;
        let cjq = f.node(j).children[q] as int;
        let cim = f.node(i).children[m] as int;
        let cin = f.node(i).children[n] as int;
        lemma_child_descends(f, j, p);
        lemma_child_descends(f, j, q);
        lemma_child_descends(f, i, m);
        lemma_child_descends(f, i, n);
        lemma_descends_trans(f, x, cjp, j);
        lemma_descends_trans(f, x, cin, i);
        lemma_descends_trans(f, y, cjq, j);
        lemma_descends_trans(f, y, cim, i);
        lemma_descends_unique(f, x, i, j);
        if i == j {
            if p != n {
                lemma_siblings_disjoint(f, j, p, n, x);
            }
            if q != m {
                lemma_siblings_disjoint(f, j, q, m, y);
            }
        } else if f.descends(i, j) {
            lemma_descends_step(f, i, j);
            let t = choose|t: int|
                0 <= t < f.node(j).children.len() && f.descends(i, #[trigger] f.node(j).children[t] as int);
            lemma_descends_trans(f, x, i, f.node(j).children[t] as int);
            lemma_descends_trans(f, y, i, f.node(j).children[t] as int);
            if t != p {
                lemma_siblings_disjoint(f, j, t, p, x);
            }
            if t != q {
                lemma_siblings_disjoint(f, j, t, q, y);
            }
        } else {
            lemma_descends_step(f, j, i);
            let t = choose|t: int|
                0 <= t < f.node(i).children.len() && f.descends(j, #[trigger] f.node(i).children[t] as int);
            lemma_descends_trans(f, x, j, f.node(i).children[t] as int);
            lemma_descends_trans(f, y, j, f.node(i).children[t] as int);
            if t != n {
                lemma_siblings_disjoint(f, i, t, n, x);
            }
            if t != m {
                lemma_siblings_disjoint(f, i, t, m, y);
            }
        }
    }
}


/// Two nodes cannot lie below two roots in one order and below two
/// children of a node in the other order.
pub proof fn lemma_no_crossing_roots(
    f: Forest,
    p: int,
    q: int,
    i: int,
    m: int,
    n: int,
    x: int,
    y: int,
)
    requires
        f.wf(),
        f.valid(i),
        0 <= p < q < f.roots.len(),
        0 <= m < n < f.node(i).children.len(),
    ensures
        !(f.descends(x, f.roots[p] as int) && f.descends(y, f.roots[q] as int) && f.descends(
            x,
            f.node(i).children[n] as int,
        ) && f.descends(y, f.node(i).children[m] as int)),
{
    if f.descends(x, f.roots[p] as int) && f.descends(y, f.roots[q] as int) && f.descends(
        x,
        f.node(i).children[n] as int,
    ) && f.descends(y, f.node(i).children[m] as int) {
        lemma_child_descends(f, i, m);
        lemma_child_descends(f, i, n);
        lemma_descends_trans(f, x, f.node(i).children[n] as int, i);
        lemma_descends_trans(f, y, f.node(i).children[m] as int, i);
        lemma_descends_root(f, i);
        let t = choose|t: int| 0 <= t < f.roots.len() && f.descends(i, #[trigger] f.roots[t] as int);
        lemma_descends_trans(f, x, i, f.roots[t] as int);
        lemma_descends_trans(f, y, i, f.roots[t] as int);
        if t != p {
            lemma_roots_disjoint(f, t, p, x);
        }
        if t != q {
            lemma_roots_disjoint(f, t, q, y);
        }
    }
}


/// A subtree frees the subtrees of earlier children first.
pub proof fn lemma_prune_order_in_order(f: Forest, j: int)
    requires
        f.wf(),
        f.valid(j),
    ensures
        children_in_order(f, f.prune_order(j)),
    decreases f.clock - f.birth[j], 1int, 0int,
{
    let k = f.node(j).children.len() as int;
    lemma_prune_order_below(f, j, k);
    lemma_prune_order_below_in_order(f, j, k);
    let below = f.prune_order_below(j, k);
    let s = f.prune_order(j);
    let bl = below.len() as int;
    assert forall|i: int, m: int, n: int, a: int, b: int|
        #![trigger s[a], s[b], f.node(i).children[m], f.node(i).children[n]]
        f.valid(i) && 0 <= m < n < f.node(i).children.len() && 0 <= a < s.len() && 0 <= b
            < s.len() && f.descends(s[b] as int, f.node(i).children[m] as int) && f.descends(
            s[a] as int,
            f.node(i).children[n] as int,
        ) implies b < a by {
        if a == b {
            lemma_siblings_disjoint(f, i, m, n, s[a] as int);
        } else if a < bl && b < bl {
            assert(s[a] == below[a] && s[b] == below[b]);
        } else if b >= bl {
            assert(s[b] == j as usize);
            assert(s[a] == below[a]);
            assert(below.contains(below[a]));
            let p = choose|p: int|
                0 <= p < k && f.descends(below[a] as int, #[trigger] f.node(j).children[p] as int);
            lemma_child_descends(f, j, p);
            lemma_descends_trans(f, s[a] as int, f.node(j).children[p] as int, j);
            lemma_descends_trans(f, s[a] as int, j, f.node(i).children[m] as int);
            lemma_siblings_disjoint(f, i, m, n, s[a] as int);
        }
    }
}

/// The first `k` children's subtrees of `j`, freed one after the other,
/// free the subtrees of earlier children first.
pub proof fn lemma_prune_order_below_in_order(f: Forest, j: int, k: int)
    requires
        f.wf(),
        f.valid(j),
        0 <= k <= f.node(j).children.len(),
    ensures
        children_in_order(f, f.prune_order_below(j, k)),
    decreases f.clock - f.birth[j], 0int, k,
{
    if k > 0 {
        let c = f.node(j).children[k - 1] as int;
        lemma_child_descends(f, j, k - 1);
        assert(f.birth[c] < f.clock);
        lemma_prune_order_below(f, j, k - 1);
        lemma_prune_order_below_in_order(f, j, k - 1);
        lemma_prune_order(f, c);
        lemma_prune_order_in_order(f, c);
        let left = f.prune_order_below(j, k - 1);
        let right = f.prune_order(c);
        let s = f.prune_order_below(j, k);
        let ll = left.len() as int;
        assert(s == left + right);
        assert forall|i: int, m: int, n: int, a: int, b: int|
            #![trigger s[a], s[b], f.node(i).children[m], f.node(i).children[n]]
            f.valid(i) && 0 <= m < n < f.node(i).children.len() && 0 <= a < s.len() && 0 <= b
                < s.len() && f.descends(s[b] as int, f.node(i).children[m] as int) && f.descends(
                s[a] as int,
                f.node(i).children[n] as int,
            ) implies b < a by {
            if a < ll && b < ll {
                assert(s[a] == left[a] && s[b] == left[b]);
            } else if a >= ll && b >= ll {
                assert(s[a] == right[a - ll] && s[b] == right[b - ll]);
            } else if a < ll {
                assert(s[a] == left[a]);
                assert(s[b] == right[b - ll]);
                assert(left.contains(left[a]));
                assert(right.contains(right[b - ll]));
                let p = choose|p: int|
                    0 <= p < k - 1 && f.descends(left[a] as int, #[trigger] f.node(j).children[p] as int);
                lemma_no_crossing(f, j, p, k - 1, i, m, n, s[a] as int, s[b] as int);
            }
        }
    }
}

/// The first `k` roots' subtrees, freed one after the other, free the
/// subtrees of earlier roots, and of earlier children, first.
pub proof fn lemma_prune_order_roots_in_order(f: Forest, k: int)
    requires
        f.wf(),
        0 <= k <= f.roots.len(),
    ensures
        children_in_order(f, f.prune_order_roots(k)),
        roots_in_order(f, f.prune_order_roots(k)),
    decreases k,
{
    if k > 0 {
        let r = f.roots[k - 1] as int;
        lemma_prune_order_roots(f, k - 1);
        lemma_prune_order_roots_in_order(f, k - 1);
        lemma_prune_order(f, r);
        lemma_prune_order_in_order(f, r);
        let left = f.prune_order_roots(k - 1);
        let right = f.prune_order(r);
        let s = f.prune_order_roots(k);
        let ll = left.len() as int;
        assert(s == left + right);
        assert forall|i: int, m: int, n: int, a: int, b: int|
            #![trigger s[a], s[b], f.node(i).children[m], f.node(i).children[n]]
            f.valid(i) && 0 <= m < n < f.node(i).children.len() && 0 <= a < s.len() && 0 <= b
                < s.len() && f.descends(s[b] as int, f.node(i).children[m] as int) && f.descends(
                s[a] as int,
                f.node(i).children[n] as int,
            ) implies b < a by {
            if a < ll && b < ll {
                assert(s[a] == left[a] && s[b] == left[b]);
            } else if a >= ll && b >= ll {
                assert(s[a] == right[a - ll] && s[b] == right[b - ll]);
            } else if a < ll {
                assert(s[a] == left[a]);
                assert(s[b] == right[b - ll]);
                assert(left.contains(left[a]));
                assert(right.contains(right[b - ll]));
                let p = choose|p: int|
                    0 <= p < k - 1 && f.descends(left[a] as int, #[trigger] f.roots[p] as int);
                lemma_no_crossing_roots(f, p, k - 1, i, m, n, s[a] as int, s[b] as int);
            }
        }
        assert forall|m: int, n: int, a: int, b: int|
            #![trigger s[a], s[b], f.roots[m], f.roots[n]]
            0 <= m < n < f.roots.len() && 0 <= a < s.len() && 0 <= b < s.len() && f.descends(
                s[b] as int,
                f.roots[m] as int,
            ) && f.descends(s[a] as int, f.roots[n] as int) implies b < a by {
            if a < ll && b < ll {
                assert(s[a] == left[a] && s[b] == left[b]);
            } else if a >= ll && b >= ll {
                assert(s[a] == right[a - ll] && s[b] == right[b - ll]);
                assert(right.contains(right[a - ll]));
                assert(right.contains(right[b - ll]));
                if n != k - 1 {
                    lemma_roots_disjoint(f, n, k - 1, s[a] as int);
                }
                lemma_roots_disjoint(f, m, k - 1, s[b] as int);
            } else if a < ll {
                assert(s[a] == left[a]);
                assert(s[b] == right[b - ll]);
                assert(left.contains(left[a]));
                assert(right.contains(right[b - ll]));
                let p = choose|p: int|
                    0 <= p < k - 1 && f.descends(left[a] as int, #[trigger] f.roots[p] as int);
                if p != n {
                    lemma_roots_disjoint(f, p, n, s[a] as int);
                }
                if m != k - 1 {
                    lemma_roots_disjoint(f, m, k - 1, s[b] as int);
                }
            }
        }
    }
}

/// Pruning frees in the order in which the tree is listed, bottom up:
/// whatever lies below an earlier root, or below an earlier child of a
/// node, is freed before whatever lies below a later one.
pub proof fn law_prune_frees_in_tree_order(f: Forest)
    requires
        f.wf(),
    ensures
        children_in_order(f, f.freed()),
        roots_in_order(f, f.freed()),
{
    lemma_prune_order_roots_in_order(f, f.roots.len() as int);
}

} // verus!
