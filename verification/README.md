# nono-cli

The decision logic of nono's command line runtime, verified with Verus, and the thin
program around it.

- `src/leaf.rs`: creating and arming the cgroup v2 leaf of a run, fail-closed
- `src/teardown.rs`: emptying and removing a leaf
- `src/delegation.rs`: where a session may create cgroups, and with which controllers
- `src/attach.rs`: how the child puts itself into its leaf
- `src/open_url.rs`: the helper that asks the supervisor to open a URL
- `src/decimal.rs`, `src/text.rs`, `src/path.rs`: numerals, text and paths
- `src/error.rs`, `src/request.rs`: the error, and what is asked of the file system
- `src/process.rs`: the ids of the running process and its user, from `nix`
- `app/`: performs what the logic asks for

The logic performs no I/O. Creation, teardown and the helper are machines: each
step is either a request to be performed, whose reply is handed back, or the end. Contracts
give every step exactly; the proof functions whose names start with `law_` say what holds of
whole runs, whatever the replies.
