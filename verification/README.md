# proctree

Reconstruct process trees (who spawned whom, and when) from a log of
start/exit events, one line at a time. The library in `src/` is verified
by Verus; `app/` holds the unverified I/O loop around it.

```
start <pid> <ppid> <ts> <name>
exit  <pid> <ts>
```

Layout:

- `src/text.rs`: Unicode whitespace, splitting a line into fields.
- `src/event.rs`: `ProcessEvent::parse_line` and its exact outcome
  (`line_outcome`), including which error a malformed line gives.
- `src/reader.rs`: `EventReader`, which decides what each line read
  means (end, I/O error, blank line to skip, event or numbered error).
- `src/forest.rs`: the abstract state of a tree (`Forest`), its
  invariant, and what `start`, `exit` and pruning do to it.
- `src/tree.rs`: `ProcessTree`, the arena itself, proved against
  `Forest`.
- `src/laws.rs`: properties across operations (finished subtrees never
  change, pruning is idempotent, running processes are never pruned, ...).
- `app/lib.rs`: the `BufRead` loop that feeds lines to `EventReader`, and
  `Display` for the error messages (not verified).

Pruning drops every subtree whose nodes have all exited, also when a
process above it is still running; the test
`prune_drops_a_fully_finished_subtree` checks this on a subtree under a
running `init`.
