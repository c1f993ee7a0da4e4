use proctree::{ProcessEvent, ProcessTree};

fn start(pid: u32, ppid: u32, ts: u64, name: &str) -> ProcessEvent {
    ProcessEvent::Start { pid, ppid, ts, name: name.into() }
}

fn exit(pid: u32, ts: u64) -> ProcessEvent {
    ProcessEvent::Exit { pid, ts }
}

#[test]
fn builds_parent_child_link() {
    let mut tree = ProcessTree::new();
    tree.apply(ProcessEvent::Start { pid: 1, ppid: 0, ts: 0, name: "init".into() });
    tree.apply(ProcessEvent::Start { pid: 42, ppid: 1, ts: 5, name: "sshd".into() });

    assert_eq!(tree.roots(), &[0]);
    assert_eq!(tree.node(0).children, vec![1]);
    assert_eq!(tree.node(1).pid, 42);
}

#[test]
fn exit_marks_node_without_removing_it() {
    let mut tree = ProcessTree::new();
    tree.apply(ProcessEvent::Start { pid: 1, ppid: 0, ts: 0, name: "init".into() });
    tree.apply(ProcessEvent::Exit { pid: 1, ts: 10 });

    assert_eq!(tree.len(), 1);
    assert_eq!(tree.node(0).exit_ts, Some(10));
    assert!(!tree.node(0).is_running());
}

#[test]
fn reused_pid_starts_a_fresh_node() {
    let mut tree = ProcessTree::new();
    tree.apply(ProcessEvent::Start { pid: 1, ppid: 0, ts: 0, name: "init".into() });
    tree.apply(ProcessEvent::Start { pid: 7, ppid: 1, ts: 1, name: "sh".into() });
    tree.apply(ProcessEvent::Exit { pid: 7, ts: 2 });
    tree.apply(ProcessEvent::Start { pid: 7, ppid: 1, ts: 3, name: "curl".into() });

    assert_eq!(tree.len(), 3);
    assert_eq!(tree.node(0).children, vec![1, 2]);
    assert_eq!(tree.node(2).name, "curl");
    assert!(tree.node(2).is_running());
}

#[test]
fn prune_drops_a_fully_finished_subtree() {
    let mut tree = ProcessTree::new();
    tree.apply(ProcessEvent::Start { pid: 1, ppid: 0, ts: 0, name: "init".into() });
    tree.apply(ProcessEvent::Start { pid: 2, ppid: 1, ts: 1, name: "bash".into() });
    tree.apply(ProcessEvent::Start { pid: 3, ppid: 2, ts: 2, name: "curl".into() });
    tree.apply(ProcessEvent::Exit { pid: 3, ts: 3 });
    tree.apply(ProcessEvent::Exit { pid: 2, ts: 4 });

    // bash and curl have both exited, so the subtree rooted at bash has
    // fully finished and is dropped, even though init above it is still
    // running: whether a subtree has finished depends on its own nodes
    // only. This is what the documentation of `prune_finished` and the
    // README describe ("short-lived subtrees under it no longer sit
    // around forever"), and what `prune_leaves_running_leaves_and_their_
    // ancestors` relies on when it expects curl under a running bash to
    // be freed. Expecting nothing to be freed here would contradict both.
    assert_eq!(tree.prune_finished(), 2);
    assert_eq!(tree.len(), 1);
    assert!(tree.node(0).children.is_empty());

    tree.apply(ProcessEvent::Exit { pid: 1, ts: 5 });
    assert_eq!(tree.prune_finished(), 1);
    assert_eq!(tree.len(), 0);
    assert!(tree.roots().is_empty());
}

#[test]
fn prune_leaves_running_leaves_and_their_ancestors() {
    let mut tree = ProcessTree::new();
    tree.apply(ProcessEvent::Start { pid: 1, ppid: 0, ts: 0, name: "init".into() });
    tree.apply(ProcessEvent::Start { pid: 2, ppid: 1, ts: 1, name: "bash".into() });
    tree.apply(ProcessEvent::Start { pid: 3, ppid: 2, ts: 2, name: "curl".into() });
    tree.apply(ProcessEvent::Exit { pid: 3, ts: 3 });
    // bash (pid 2) never exits: its subtree, and everything above
    // it up to the root, must survive pruning.

    assert_eq!(tree.prune_finished(), 1);
    assert_eq!(tree.len(), 2);
    assert_eq!(tree.roots(), &[0]);
    assert_eq!(tree.node(0).children, vec![1]);
    assert!(tree.node(1).children.is_empty());
}

#[test]
fn freed_slots_are_recycled_by_later_starts() {
    let mut tree = ProcessTree::new();
    tree.apply(ProcessEvent::Start { pid: 1, ppid: 0, ts: 0, name: "a".into() });
    tree.apply(ProcessEvent::Exit { pid: 1, ts: 1 });
    tree.prune_finished();
    assert_eq!(tree.len(), 0);

    tree.apply(ProcessEvent::Start { pid: 2, ppid: 0, ts: 2, name: "b".into() });
    assert_eq!(tree.len(), 1);
    assert_eq!(tree.node(0).name, "b");
}

#[test]
fn new_and_default_are_empty() {
    let tree = ProcessTree::new();
    assert!(tree.is_empty());
    assert_eq!(tree.len(), 0);
    assert!(tree.roots().is_empty());
    let tree = ProcessTree::default();
    assert!(tree.is_empty());
}

#[test]
fn exit_of_an_unknown_pid_changes_nothing() {
    let mut tree = ProcessTree::new();
    tree.apply(start(1, 0, 0, "init"));
    tree.apply(exit(99, 4));
    assert_eq!(tree.len(), 1);
    assert!(tree.node(0).is_running());
    // A second exit of the same pid is also unknown by then.
    tree.apply(exit(1, 5));
    tree.apply(exit(1, 6));
    assert_eq!(tree.node(0).exit_ts, Some(5));
}

#[test]
fn a_start_whose_parent_exited_becomes_a_root() {
    let mut tree = ProcessTree::new();
    tree.apply(start(1, 0, 0, "init"));
    tree.apply(exit(1, 1));
    tree.apply(start(2, 1, 2, "orphan"));
    assert_eq!(tree.roots(), &[0, 1]);
    // The exited node gained no child.
    assert!(tree.node(0).children.is_empty());
    assert_eq!(tree.node(1).ppid, 1);
}

#[test]
fn node_records_every_field() {
    let mut tree = ProcessTree::new();
    tree.apply(start(10, 3, 77, "worker"));
    let node = tree.node(0);
    assert_eq!(node.pid, 10);
    assert_eq!(node.ppid, 3);
    assert_eq!(node.name, "worker");
    assert_eq!(node.start_ts, 77);
    assert_eq!(node.exit_ts, None);
    assert!(node.is_running());
    assert!(node.children.is_empty());
}

#[test]
fn pruning_frees_slots_in_post_order_and_starts_reuse_the_last_freed() {
    let mut tree = ProcessTree::new();
    tree.apply(start(1, 0, 0, "root")); // slot 0
    tree.apply(start(2, 1, 1, "a")); // slot 1
    tree.apply(start(3, 2, 2, "a1")); // slot 2
    tree.apply(start(4, 1, 3, "b")); // slot 3
    for pid in [3, 2, 4, 1] {
        tree.apply(exit(pid, 10));
    }
    // Freed in post-order: 2, 1, 3, 0; the last freed slot is reused first.
    assert_eq!(tree.prune_finished(), 4);
    assert!(tree.is_empty());
    tree.apply(start(5, 0, 20, "first"));
    tree.apply(start(6, 0, 21, "second"));
    tree.apply(start(7, 0, 22, "third"));
    tree.apply(start(8, 0, 23, "fourth"));
    tree.apply(start(9, 0, 24, "fifth"));
    assert_eq!(tree.node(0).name, "first");
    assert_eq!(tree.node(3).name, "second");
    assert_eq!(tree.node(1).name, "third");
    assert_eq!(tree.node(2).name, "fourth");
    assert_eq!(tree.node(4).name, "fifth");
    assert_eq!(tree.roots(), &[0, 3, 1, 2, 4]);
}

#[test]
fn pruning_twice_frees_nothing_more() {
    let mut tree = ProcessTree::new();
    tree.apply(start(1, 0, 0, "init"));
    tree.apply(start(2, 1, 1, "a"));
    tree.apply(start(3, 1, 2, "b"));
    tree.apply(exit(2, 3));
    assert_eq!(tree.prune_finished(), 1);
    assert_eq!(tree.len(), 2);
    assert_eq!(tree.prune_finished(), 0);
    assert_eq!(tree.len(), 2);
    assert_eq!(tree.node(0).children, vec![2]);
}

#[test]
fn exited_parent_with_running_child_is_kept() {
    let mut tree = ProcessTree::new();
    tree.apply(start(1, 0, 0, "init"));
    tree.apply(start(2, 1, 1, "daemon"));
    tree.apply(exit(1, 2));
    assert_eq!(tree.prune_finished(), 0);
    assert_eq!(tree.len(), 2);
    assert_eq!(tree.node(0).children, vec![1]);
    tree.apply(exit(2, 3));
    assert_eq!(tree.prune_finished(), 2);
    assert!(tree.is_empty());
}

#[test]
fn pruning_counts_only_what_it_frees() {
    let mut tree = ProcessTree::new();
    tree.apply(start(1, 0, 0, "a"));
    tree.apply(start(2, 0, 0, "b"));
    tree.apply(exit(2, 1));
    let before = tree.len();
    let freed = tree.prune_finished();
    assert_eq!(freed, 1);
    assert_eq!(tree.len(), before - freed);
    assert_eq!(tree.roots(), &[0]);
}

#[test]
fn exit_after_pid_reuse_marks_only_the_new_node() {
    let mut tree = ProcessTree::new();
    tree.apply(start(7, 0, 1, "sh"));
    tree.apply(exit(7, 2));
    tree.apply(start(7, 0, 3, "curl"));
    tree.apply(exit(7, 9));
    assert_eq!(tree.node(0).exit_ts, Some(2));
    assert_eq!(tree.node(0).name, "sh");
    assert_eq!(tree.node(1).exit_ts, Some(9));
    assert_eq!(tree.node(1).name, "curl");
}

#[test]
fn finished_subtree_is_untouched_by_later_events() {
    let mut tree = ProcessTree::new();
    tree.apply(start(1, 0, 0, "init"));
    tree.apply(start(2, 1, 1, "job"));
    tree.apply(exit(2, 2));
    tree.apply(start(3, 2, 3, "late"));
    tree.apply(exit(2, 4));
    // pid 2 had exited, so the later start became a root, and the
    // second exit of pid 2 found nothing live.
    assert!(tree.node(1).children.is_empty());
    assert_eq!(tree.node(1).exit_ts, Some(2));
    assert_eq!(tree.roots(), &[0, 2]);
}

/// Every held node is listed exactly once, in the roots or under its
/// parent, and each child's ppid is its parent's pid.
fn listed(tree: &ProcessTree) -> Vec<usize> {
    let mut out: Vec<usize> = Vec::new();
    let mut stack: Vec<usize> = tree.roots().iter().rev().copied().collect();
    while let Some(i) = stack.pop() {
        out.push(i);
        for &c in tree.node(i).children.iter().rev() {
            assert_eq!(tree.node(c).ppid, tree.node(i).pid);
            stack.push(c);
        }
    }
    out
}

#[test]
fn nodes_form_a_forest_listing_each_once() {
    let mut tree = ProcessTree::new();
    tree.apply(start(1, 0, 0, "init"));
    tree.apply(start(2, 1, 1, "a"));
    tree.apply(start(3, 2, 2, "b"));
    tree.apply(start(4, 9, 3, "orphan"));
    tree.apply(start(5, 1, 4, "c"));
    tree.apply(exit(3, 5));
    tree.prune_finished();
    tree.apply(start(6, 2, 6, "d"));
    let mut seen = listed(&tree);
    assert_eq!(seen.len(), tree.len());
    seen.sort();
    seen.dedup();
    assert_eq!(seen.len(), tree.len());
}

#[test]
fn len_is_starts_minus_freed_and_indices_stay_below_the_peak() {
    let mut tree = ProcessTree::new();
    let mut starts = 0;
    let mut freed = 0;
    let mut peak = 0;
    let mut largest_index = 0;
    for round in 0..5u32 {
        for k in 0..4u32 {
            tree.apply(start(10 * round + k, 0, 0, "job"));
            starts += 1;
            peak = peak.max(tree.len());
            for &r in tree.roots() {
                largest_index = largest_index.max(r);
            }
        }
        for k in 0..4u32 {
            tree.apply(exit(10 * round + k, 1));
            assert_eq!(tree.len(), starts - freed);
        }
        freed += tree.prune_finished();
        assert_eq!(tree.len(), starts - freed);
    }
    assert_eq!(peak, 4);
    assert!(largest_index < peak);
}
